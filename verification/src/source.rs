//! Where the files of a bundle come from, and the record of what was asked
//! of a source.
use crate::error::BundleError;
use crate::text;
use crate::time::Timestamp;
use vstd::prelude::*;

verus! {

/// Metadata available for a file in a support bundle.
#[derive(Clone, Copy, Debug, PartialEq, Eq)]
pub struct BundleFileMetadata {
    /// File length in bytes, when the source provides it.
    pub len: Option<u64>,
    /// UTC modification timestamp, when the source provides it.
    pub modified: Option<Timestamp>,
}

impl Default for BundleFileMetadata {
    fn default() -> (r: Self)
        ensures
            r.len is None,
            r.modified is None,
    {
        BundleFileMetadata { len: None, modified: None }
    }
}

/// A chain of error messages.
pub type Chain = Seq<Seq<char>>;

/// What a source says of a file: its length, and the instant of its last
/// change in nanoseconds.
pub type Facts = (Option<u64>, Option<int>);

/// One request to a source, with what it answered.
pub enum SourceCall {
    /// A file was to be opened.
    Open { path: Seq<char>, opened: Result<(), Chain> },
    /// At most `max` further bytes of the open file were to be read.
    Read { max: nat, chunk: Result<Seq<u8>, Chain> },
    /// The metadata of a file were asked for.
    Metadata { path: Seq<char>, facts: Result<Facts, Chain> },
}

/// The instant of an optional timestamp.
pub open spec fn instant(t: Option<Timestamp>) -> Option<int> {
    match t {
        Some(t) => Some(t@),
        None => None,
    }
}

/// A result without a value, its error as a chain.
pub open spec fn done(r: Result<(), BundleError>) -> Result<(), Chain> {
    match r {
        Ok(_) => Ok(()),
        Err(e) => Err(e@),
    }
}

/// A result of bytes, its error as a chain.
pub open spec fn bytes(r: Result<Vec<u8>, BundleError>) -> Result<Seq<u8>, Chain> {
    match r {
        Ok(b) => Ok(b@),
        Err(e) => Err(e@),
    }
}

/// A result of text, its error as a chain.
pub open spec fn string(r: Result<String, BundleError>) -> Result<Seq<char>, Chain> {
    match r {
        Ok(s) => Ok(s@),
        Err(e) => Err(e@),
    }
}

/// A result of metadata, its error as a chain.
pub open spec fn facts(r: Result<BundleFileMetadata, BundleError>) -> Result<Facts, Chain> {
    match r {
        Ok(m) => Ok((m.len, instant(m.modified))),
        Err(e) => Err(e@),
    }
}

/// The record `later` begins with the record `earlier`.
pub open spec fn continues<T>(earlier: Seq<T>, later: Seq<T>) -> bool {
    &&& earlier.len() <= later.len()
    &&& forall|i: int| 0 <= i < earlier.len() ==> #[trigger] later[i] == earlier[i]
}

/// The answer in record `h` to the opening of `path` as request number `p`.
pub open spec fn opening(h: Seq<SourceCall>, p: int, path: Seq<char>) -> Option<Result<(), Chain>> {
    if 0 <= p < h.len() {
        match h[p] {
            SourceCall::Open { path: asked, opened } if asked == path => Some(opened),
            _ => None,
        }
    } else {
        None
    }
}

/// The answer in record `h` to a read of at most `max` bytes as request
/// number `p`.
pub open spec fn reading(h: Seq<SourceCall>, p: int, max: nat) -> Option<Result<Seq<u8>, Chain>> {
    if 0 <= p < h.len() {
        match h[p] {
            SourceCall::Read { max: asked, chunk } if asked == max => Some(chunk),
            _ => None,
        }
    } else {
        None
    }
}

/// The answer in record `h` to the request for the metadata of `path` as
/// request number `p`.
pub open spec fn metadata_of(h: Seq<SourceCall>, p: int, path: Seq<char>) -> Option<
    Result<Facts, Chain>,
> {
    if 0 <= p < h.len() {
        match h[p] {
            SourceCall::Metadata { path: asked, facts } if asked == path => Some(facts),
            _ => None,
        }
    } else {
        None
    }
}

/// A synchronous, object-safe source of files in a support bundle.
///
/// Names are bundle-relative UTF-8 paths. A file is read sequentially: opening
/// one makes it the file that `read` reads from, from its start on.
/// `Box<dyn BundleSource>` is a source as well.
///
/// A source promises two things: its listing stays the same, whatever is asked of
/// it, and a read returns no more than was asked for. Nothing else is promised of
/// what it answers. What is stated is the record: `calls` grows by each request
/// and its answer, so that a function's contract can say which requests it made
/// and what it did with each answer. A source that is not verified itself leaves
/// the two ghost functions out.
pub trait BundleSource {
    /// The names that the source lists.
    open spec fn names(&self) -> Seq<Seq<char>> {
        arbitrary()
    }

    /// Every request made so far, the oldest first.
    open spec fn calls(&self) -> Seq<SourceCall> {
        arbitrary()
    }

    /// Return the bundle-relative names of files in this source.
    fn file_names(&self) -> (r: Vec<String>)
        ensures
            text::texts(r@) == self.names(),
    ;

    /// Open one file by its bundle-relative name.
    fn open_file(&mut self, path: &str) -> (r: Result<(), BundleError>)
        ensures
            final(self).names() == old(self).names(),
            final(self).calls() == old(self).calls().push(
                SourceCall::Open { path: path@, opened: done(r) },
            ),
    ;

    /// Read the next bytes of the file that was opened last, at most `max` of
    /// them. No bytes means that the file has ended.
    fn read(&mut self, max: usize) -> (r: Result<Vec<u8>, BundleError>)
        requires
            max > 0,
        ensures
            match r {
                Ok(b) => b.len() <= max,
                Err(_) => true,
            },
            final(self).names() == old(self).names(),
            final(self).calls() == old(self).calls().push(
                SourceCall::Read { max: max as nat, chunk: bytes(r) },
            ),
    ;

    /// Return metadata for one file by its bundle-relative name. Afterwards no
    /// file is open.
    fn metadata(&mut self, path: &str) -> (r: Result<BundleFileMetadata, BundleError>)
        ensures
            final(self).names() == old(self).names(),
            final(self).calls() == old(self).calls().push(
                SourceCall::Metadata { path: path@, facts: facts(r) },
            ),
    ;
}

impl<T: BundleSource + ?Sized> BundleSource for Box<T> {
    open spec fn names(&self) -> Seq<Seq<char>> {
        (**self).names()
    }

    open spec fn calls(&self) -> Seq<SourceCall> {
        (**self).calls()
    }

    fn file_names(&self) -> (r: Vec<String>) {
        (**self).file_names()
    }

    fn open_file(&mut self, path: &str) -> (r: Result<(), BundleError>) {
        (**self).open_file(path)
    }

    fn read(&mut self, max: usize) -> (r: Result<Vec<u8>, BundleError>) {
        (**self).read(max)
    }

    fn metadata(&mut self, path: &str) -> (r: Result<BundleFileMetadata, BundleError>) {
        (**self).metadata(path)
    }
}

} // verus!
