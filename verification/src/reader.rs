//! Reading the open file of a source: whole, up to a limit, as text, or by
//! lines.
use crate::error;
use crate::error::BundleError;
use crate::source;
use crate::source::{BundleSource, Chain, SourceCall};
use crate::text;
use bstr::ByteSlice;
use vstd::prelude::*;

verus! {

/// The byte of a newline.
pub const NEWLINE: u8 = 0x0a;

/// The byte of a carriage return.
pub const RETURN: u8 = 0x0d;

/// Bytes asked for in one read of a whole file.
pub const CHUNK: usize = 8192;

/// Where the newlines of `b` stand, in ascending order.
pub open spec fn newlines(b: Seq<u8>) -> Seq<int>
    decreases b.len(),
{
    if b.len() == 0 {
        Seq::empty()
    } else if b.last() == NEWLINE {
        newlines(b.drop_last()).push(b.len() - 1)
    } else {
        newlines(b.drop_last())
    }
}

/// The first `n` lines of `b`, each with its newline; all of `b` where it has
/// fewer newlines.
pub open spec fn first_lines(b: Seq<u8>, n: nat) -> Seq<u8> {
    if n == 0 {
        Seq::empty()
    } else if n <= newlines(b).len() {
        b.take(newlines(b)[n - 1] + 1)
    } else {
        b
    }
}

/// Offsets of the newlines in a byte string, by `bstr`'s `find_iter` for the
/// needle `"\n"`.
///
/// Trusted: the iterator yields the byte offset of every newline, in ascending
/// order.
#[verifier::external_body]
fn newline_offsets(b: &[u8]) -> (r: Vec<usize>)
    ensures
        r@.map_values(|i: usize| i as int) == newlines(b@),
{
    b.find_iter(b"\n").collect()
}

/// The message with which `String::from_utf8` rejects `b`.
pub uninterp spec fn utf8_complaint(b: Seq<u8>) -> Seq<char>;

/// The text that bytes encode, by `String::from_utf8`.
///
/// Trusted: the conversion succeeds exactly on valid UTF-8, with the
/// characters that the bytes encode; the wording of its error depends on the
/// bytes alone.
#[verifier::external_body]
fn utf8_text(b: Vec<u8>) -> (r: Result<String, String>)
    ensures
        match r {
            Ok(s) => vstd::utf8::valid_utf8(b@) && s@ == vstd::utf8::decode_utf8(b@),
            Err(e) => !vstd::utf8::valid_utf8(b@) && e@ == utf8_complaint(b@),
        },
{
    String::from_utf8(b).map_err(|e| e.to_string())
}

/// What a read to the end of the file gives from request `p` on, where `got`
/// was read before: the bytes, the error that ended it, and the number of the
/// next request.
pub open spec fn drained(h: Seq<SourceCall>, p: int, got: Seq<u8>) -> Option<
    ((Seq<u8>, Option<Chain>), int),
>
    decreases h.len() - p,
{
    match source::reading(h, p, CHUNK as nat) {
        None => None,
        Some(Err(e)) => Some(((got, Some(e)), p + 1)),
        Some(Ok(b)) => if b.len() == 0 {
            Some(((got, None), p + 1))
        } else {
            drained(h, p + 1, got + b)
        },
    }
}

/// The error of a result.
pub open spec fn failure(r: Result<(), BundleError>) -> Option<Chain> {
    match r {
        Ok(_) => None,
        Err(e) => Some(e@),
    }
}

/// Appends the rest of the open file to `out`. After an error `out` holds what
/// was read before it.
pub fn drain<S: BundleSource + ?Sized>(source: &mut S, out: &mut Vec<u8>) -> (r: Result<
    (),
    BundleError,
>)
    ensures
        final(source).names() == old(source).names(),
        source::continues(old(source).calls(), final(source).calls()),
        forall|h: Seq<SourceCall>|
            source::continues(final(source).calls(), h) ==> #[trigger] drained(
                h,
                old(source).calls().len() as int,
                old(out)@,
            ) == Some(((final(out)@, failure(r)), final(source).calls().len() as int)),
{
    loop
        invariant
            source.names() == old(source).names(),
            source::continues(old(source).calls(), source.calls()),
            forall|h: Seq<SourceCall>|
                source::continues(source.calls(), h) ==> #[trigger] drained(
                    h,
                    old(source).calls().len() as int,
                    old(out)@,
                ) == drained(h, source.calls().len() as int, out@),
        decreases usize::MAX - out.len(),
    {
        match source.read(CHUNK) {
            Err(e) => return Err(e),
            Ok(b) => {
                if b.len() == 0 {
                    return Ok(());
                }
                let mut b = b;
                out.append(&mut b);
            },
        }
    }
}

/// What a read of at most `limit` bytes gives from request `p` on, where `got`
/// was read before: it ends at the limit or at the end of the file.
pub open spec fn filled(h: Seq<SourceCall>, p: int, got: Seq<u8>, limit: nat) -> Option<
    (Result<Seq<u8>, Chain>, int),
>
    decreases h.len() - p,
{
    if got.len() >= limit {
        Some((Ok(got), p))
    } else {
        match source::reading(h, p, (limit - got.len()) as nat) {
            None => None,
            Some(Err(e)) => Some((Err(e), p + 1)),
            Some(Ok(b)) => if b.len() == 0 {
                Some((Ok(got), p + 1))
            } else {
                filled(h, p + 1, got + b, limit)
            },
        }
    }
}

/// Reads the next `limit` bytes of the open file, or all of it where it is
/// shorter.
pub fn fill<S: BundleSource + ?Sized>(source: &mut S, limit: usize) -> (r: Result<
    Vec<u8>,
    BundleError,
>)
    ensures
        match r {
            Ok(b) => b.len() <= limit,
            Err(_) => true,
        },
        final(source).names() == old(source).names(),
        source::continues(old(source).calls(), final(source).calls()),
        forall|h: Seq<SourceCall>|
            source::continues(final(source).calls(), h) ==> #[trigger] filled(
                h,
                old(source).calls().len() as int,
                Seq::empty(),
                limit as nat,
            ) == Some((source::bytes(r), final(source).calls().len() as int)),
{
    let mut got: Vec<u8> = Vec::new();
    assert(got@ =~= Seq::empty());
    while got.len() < limit
        invariant
            got.len() <= limit,
            source.names() == old(source).names(),
            source::continues(old(source).calls(), source.calls()),
            forall|h: Seq<SourceCall>|
                source::continues(source.calls(), h) ==> #[trigger] filled(
                    h,
                    old(source).calls().len() as int,
                    Seq::empty(),
                    limit as nat,
                ) == filled(h, source.calls().len() as int, got@, limit as nat),
        decreases limit - got.len(),
    {
        match source.read(limit - got.len()) {
            Err(e) => return Err(e),
            Ok(b) => {
                if b.len() == 0 {
                    return Ok(got);
                }
                let mut b = b;
                got.append(&mut b);
            },
        }
    }
    Ok(got)
}

/// What reading exactly `size` bytes gives from request `p` on.
pub open spec fn filled_exactly(h: Seq<SourceCall>, p: int, size: nat) -> Option<
    (Result<Seq<u8>, Chain>, int),
> {
    match filled(h, p, Seq::empty(), size) {
        None => None,
        Some((Err(e), q)) => Some((Err(e), q)),
        Some((Ok(b), q)) => if b.len() < size {
            Some((Err(error::single("failed to fill whole buffer"@)), q))
        } else {
            Some((Ok(b), q))
        },
    }
}

/// Reads the next `size` bytes of the open file; it is an error if the file
/// ends before.
pub fn fill_exactly<S: BundleSource + ?Sized>(source: &mut S, size: usize) -> (r: Result<
    Vec<u8>,
    BundleError,
>)
    ensures
        final(source).names() == old(source).names(),
        source::continues(old(source).calls(), final(source).calls()),
        forall|h: Seq<SourceCall>|
            source::continues(final(source).calls(), h) ==> #[trigger] filled_exactly(
                h,
                old(source).calls().len() as int,
                size as nat,
            ) == Some((source::bytes(r), final(source).calls().len() as int)),
{
    match fill(source, size) {
        Err(e) => Err(e),
        Ok(b) => {
            if b.len() < size {
                Err(BundleError::new("failed to fill whole buffer".to_owned()))
            } else {
                Ok(b)
            }
        },
    }
}

/// What writing the next `n` lines of the open file appends to `out` from
/// request `p` on: the new output, the error that ended it, and the number of
/// the next request.
pub open spec fn headed(h: Seq<SourceCall>, p: int, n: nat, out: Seq<u8>) -> Option<
    ((Seq<u8>, Option<Chain>), int),
>
    decreases h.len() - p,
{
    if n == 0 {
        Some(((out, None), p))
    } else {
        match source::reading(h, p, CHUNK as nat) {
            None => None,
            Some(Err(e)) => Some(((out, Some(e)), p + 1)),
            Some(Ok(b)) => if b.len() == 0 {
                Some(((out, None), p + 1))
            } else if n <= newlines(b).len() {
                Some(((out + first_lines(b, n), None), p + 1))
            } else {
                headed(h, p + 1, (n - newlines(b).len()) as nat, out + b)
            },
        }
    }
}

proof fn lemma_newlines_in_range(b: Seq<u8>)
    ensures
        newlines(b).len() <= b.len(),
        forall|i: int|
            0 <= i < newlines(b).len() ==> 0 <= #[trigger] newlines(b)[i] < b.len()
                && b[newlines(b)[i]] == NEWLINE,
        forall|i: int, j: int|
            0 <= i < j < newlines(b).len() ==> #[trigger] newlines(b)[i] < #[trigger] newlines(
                b,
            )[j],
    decreases b.len(),
{
    if b.len() > 0 {
        lemma_newlines_in_range(b.drop_last());
    }
}

/// Writes the next `line_ct` lines of the open file, or all of it where it has
/// fewer.
pub fn write_n_lines<S: BundleSource + ?Sized>(
    source: &mut S,
    out: &mut Vec<u8>,
    line_ct: usize,
) -> (r: Result<(), BundleError>)
    ensures
        final(source).names() == old(source).names(),
        source::continues(old(source).calls(), final(source).calls()),
        forall|h: Seq<SourceCall>|
            source::continues(final(source).calls(), h) ==> #[trigger] headed(
                h,
                old(source).calls().len() as int,
                line_ct as nat,
                old(out)@,
            ) == Some(((final(out)@, failure(r)), final(source).calls().len() as int)),
{
    let mut left: usize = line_ct;
    while left > 0
        invariant
            source.names() == old(source).names(),
            source::continues(old(source).calls(), source.calls()),
            forall|h: Seq<SourceCall>|
                source::continues(source.calls(), h) ==> #[trigger] headed(
                    h,
                    old(source).calls().len() as int,
                    line_ct as nat,
                    old(out)@,
                ) == headed(h, source.calls().len() as int, left as nat, out@),
        decreases usize::MAX - out.len(),
    {
        match source.read(CHUNK) {
            Err(e) => return Err(e),
            Ok(b) => {
                if b.len() == 0 {
                    return Ok(());
                }
                let offsets = newline_offsets(b.as_slice());
                assert(offsets.len() == newlines(b@).len());
                if left <= offsets.len() {
                    proof {
                        lemma_newlines_in_range(b@);
                        assert(offsets[left - 1] as int == newlines(b@)[left - 1]);
                    }
                    let end: usize = offsets[left - 1] + 1;
                    let mut head = b;
                    head.truncate(end);
                    assert(head@ =~= first_lines(b@, left as nat));
                    out.append(&mut head);
                    return Ok(());
                }
                left = left - offsets.len();
                let mut b = b;
                out.append(&mut b);
            },
        }
    }
    Ok(())
}

/// What showing a file appends to `out` from request `p` on, where `cached`
/// holds the part of it that was read already: `line_ct` lines, or everything.
///
/// A count of zero lines still shows the first byte of a part that was read.
pub open spec fn shown(
    h: Seq<SourceCall>,
    p: int,
    cached: Option<Seq<u8>>,
    line_ct: Option<nat>,
    out: Seq<u8>,
) -> Option<((Seq<u8>, Option<Chain>), int)> {
    match (line_ct, cached) {
        (Some(n), Some(b)) => if n <= newlines(b).len() {
            Some(((out + if n == 0 { b.take(1) } else { first_lines(b, n) }, None), p))
        } else {
            headed(h, p, (n - newlines(b).len()) as nat, out + b)
        },
        (Some(n), None) => headed(h, p, n, out),
        (None, Some(b)) => drained(h, p, out + b),
        (None, None) => drained(h, p, out),
    }
}

/// The bytes of an optional buffer.
pub open spec fn cached_bytes(b: Option<Vec<u8>>) -> Option<Seq<u8>> {
    match b {
        Some(b) => Some(b@),
        None => None,
    }
}

/// An optional count.
pub open spec fn count(n: Option<usize>) -> Option<nat> {
    match n {
        Some(n) => Some(n as nat),
        None => None,
    }
}

/// Writes the open file to `out`, of which `time_check_buf` was read before:
/// its first `line_ct` lines, or all of it.
pub fn write_file_content<S: BundleSource + ?Sized>(
    time_check_buf: &Option<Vec<u8>>,
    source: &mut S,
    out: &mut Vec<u8>,
    line_ct: Option<usize>,
) -> (r: Result<(), BundleError>)
    requires
        !(line_ct == Some(0usize) && cached_bytes(*time_check_buf) == Some(Seq::<u8>::empty())),
    ensures
        final(source).names() == old(source).names(),
        source::continues(old(source).calls(), final(source).calls()),
        forall|h: Seq<SourceCall>|
            source::continues(final(source).calls(), h) ==> #[trigger] shown(
                h,
                old(source).calls().len() as int,
                cached_bytes(*time_check_buf),
                count(line_ct),
                old(out)@,
            ) == Some(((final(out)@, failure(r)), final(source).calls().len() as int)),
{
    match time_check_buf {
        Some(tc) => {
            match line_ct {
                Some(n) => {
                    let offsets = newline_offsets(tc.as_slice());
                    assert(offsets.len() == newlines(tc@).len());
                    if n <= offsets.len() {
                        proof {
                            lemma_newlines_in_range(tc@);
                            assert(tc@.len() == 0 ==> tc@ =~= Seq::empty());
                            if n > 0 {
                                assert(offsets[n - 1] as int == newlines(tc@)[n - 1]);
                                assert(newlines(tc@)[n - 1] < tc.len());
                            }
                        }
                        let end: usize = if n == 0 { 1 } else { offsets[n - 1] + 1 };
                        let mut head = tc.clone();
                        head.truncate(end);
                        out.append(&mut head);
                        Ok(())
                    } else {
                        let mut all = tc.clone();
                        out.append(&mut all);
                        write_n_lines(source, out, n - offsets.len())
                    }
                },
                None => {
                    let mut all = tc.clone();
                    out.append(&mut all);
                    drain(source, out)
                },
            }
        },
        None => {
            match line_ct {
                Some(n) => write_n_lines(source, out, n),
                None => drain(source, out),
            }
        },
    }
}

/// The text of the file `path`, where `decoded` is the text that its bytes
/// encode, or the complaint about them.
pub open spec fn named_text(path: Seq<char>, decoded: Result<Seq<char>, Seq<char>>) -> Result<
    Seq<char>,
    Chain,
> {
    match decoded {
        Ok(text) => Ok(text),
        Err(complaint) => Err(
            error::wrapped(
                "contents of "@ + path + " were not valid UTF-8"@,
                error::single(complaint),
            ),
        ),
    }
}

/// The text that bytes encode, or the complaint about them.
pub open spec fn decoded(b: Seq<u8>) -> Result<Seq<char>, Seq<char>> {
    if vstd::utf8::valid_utf8(b) {
        Ok(vstd::utf8::decode_utf8(b))
    } else {
        Err(utf8_complaint(b))
    }
}

/// A text or a complaint, as plain values.
pub open spec fn decoding(r: Result<String, String>) -> Result<Seq<char>, Seq<char>> {
    match r {
        Ok(s) => Ok(s@),
        Err(e) => Err(e@),
    }
}

/// Names the file whose bytes are no text.
pub fn name_text(path: &str, text: Result<String, String>) -> (r: Result<String, BundleError>)
    ensures
        source::string(r) == named_text(path@, decoding(text)),
{
    match text {
        Ok(s) => Ok(s),
        Err(e) => Err(
            BundleError::new(e).context(
                text::concat3("contents of ", path, " were not valid UTF-8"),
            ),
        ),
    }
}

/// What reading the open file `path` as text gives from request `p` on.
pub open spec fn text_read(h: Seq<SourceCall>, p: int, path: Seq<char>) -> Option<
    (Result<Seq<char>, Chain>, int),
> {
    match drained(h, p, Seq::empty()) {
        None => None,
        Some(((_, Some(e)), q)) => Some(
            (Err(error::wrapped("failed to read contents of "@ + path, e)), q),
        ),
        Some(((b, None), q)) => Some((named_text(path, decoded(b)), q)),
    }
}

/// Reads the open file, whose name is `path`, as text.
pub fn read_file_to_string<S: BundleSource + ?Sized>(source: &mut S, path: &str) -> (r: Result<
    String,
    BundleError,
>)
    ensures
        final(source).names() == old(source).names(),
        source::continues(old(source).calls(), final(source).calls()),
        forall|h: Seq<SourceCall>|
            source::continues(final(source).calls(), h) ==> #[trigger] text_read(
                h,
                old(source).calls().len() as int,
                path@,
            ) == Some((source::string(r), final(source).calls().len() as int)),
{
    let mut buf: Vec<u8> = Vec::new();
    assert(buf@ =~= Seq::empty());
    match drain(source, &mut buf) {
        Err(e) => Err(e.context(text::concat2("failed to read contents of ", path))),
        Ok(_) => {
            let text = utf8_text(buf);
            name_text(path, text)
        },
    }
}

/// What opening `path` and reading it as text gives from request `p` on.
pub open spec fn text_loaded(h: Seq<SourceCall>, p: int, path: Seq<char>) -> Option<
    (Result<Seq<char>, Chain>, int),
> {
    match source::opening(h, p, path) {
        None => None,
        Some(Err(e)) => Some((Err(error::wrapped("failed to open "@ + path, e)), p + 1)),
        Some(Ok(_)) => text_read(h, p + 1, path),
    }
}

/// Opens `path` and reads it as text.
pub fn load_text<S: BundleSource + ?Sized>(source: &mut S, path: &str) -> (r: Result<
    String,
    BundleError,
>)
    ensures
        final(source).names() == old(source).names(),
        source::continues(old(source).calls(), final(source).calls()),
        forall|h: Seq<SourceCall>|
            source::continues(final(source).calls(), h) ==> #[trigger] text_loaded(
                h,
                old(source).calls().len() as int,
                path@,
            ) == Some((source::string(r), final(source).calls().len() as int)),
{
    match source.open_file(path) {
        Err(e) => Err(e.context(text::concat2("failed to open ", path))),
        Ok(_) => read_file_to_string(source, path),
    }
}

/// A positive number of lines.
#[derive(Clone, Copy, Debug, PartialEq, Eq)]
pub struct LineCount {
    lines: usize,
}

impl View for LineCount {
    type V = nat;

    closed spec fn view(&self) -> nat {
        self.lines as nat
    }
}

impl LineCount {
    #[verifier::type_invariant]
    closed spec fn positive(self) -> bool {
        self.lines > 0
    }

    /// A count of `lines`; `None` for zero.
    pub fn new(lines: usize) -> (r: Option<Self>)
        ensures
            match r {
                Some(n) => n@ == lines && lines > 0,
                None => lines == 0,
            },
    {
        if lines > 0 {
            Some(LineCount { lines })
        } else {
            None
        }
    }

    /// The number of lines.
    pub fn get(self) -> (r: usize)
        ensures
            r == self@,
            r > 0,
    {
        proof {
            use_type_invariant(&self);
        }
        self.lines
    }
}

/// An optional number of lines.
pub open spec fn line_limit(n: Option<LineCount>) -> Option<nat> {
    match n {
        Some(n) => Some(n@),
        None => None,
    }
}

} // verus!
