//! The index of an unpacked bundle: which files were discovered below its root,
//! and which requests for them are answered.
use crate::names;
use crate::text;
use vstd::prelude::*;

verus! {

/// One component of a path below the root of a bundle.
#[derive(Debug)]
pub enum PathPart {
    /// A proper name.
    Normal(String),
    /// A name that is not valid UTF-8.
    NotUtf8,
    /// A root, a prefix, `.` or `..`.
    Special,
}

/// Why a discovered path has no name in the bundle.
#[derive(Clone, Copy, Debug, PartialEq, Eq, Structural)]
pub enum NameFault {
    NotUtf8,
    Special,
}

/// The names of a list of components, or the fault of the first that has none.
pub open spec fn part_names(parts: Seq<PathPart>, n: int) -> Result<Seq<Seq<char>>, NameFault>
    decreases n,
{
    if n <= 0 {
        Ok(Seq::empty())
    } else {
        match part_names(parts, n - 1) {
            Err(fault) => Err(fault),
            Ok(earlier) => match parts[n - 1] {
                PathPart::Normal(name) => Ok(earlier.push(name@)),
                PathPart::NotUtf8 => Err(NameFault::NotUtf8),
                PathPart::Special => Err(NameFault::Special),
            },
        }
    }
}

/// The name of a discovered file: its components, joined by slashes.
pub fn relative_bundle_name(parts: &Vec<PathPart>) -> (r: Result<String, NameFault>)
    ensures
        match part_names(parts@, parts@.len() as int) {
            Ok(list) => r matches Ok(name) && name@ == text::join(list, "/"@),
            Err(fault) => r matches Err(f) && f == fault,
        },
{
    let mut name = String::new();
    let ghost mut list: Seq<Seq<char>> = Seq::empty();
    let mut i: usize = 0;
    assert(name@ =~= text::join(list, "/"@));
    while i < parts.len()
        invariant
            i <= parts.len(),
            list.len() == i,
            part_names(parts@, i as int) == Ok::<Seq<Seq<char>>, NameFault>(list),
            name@ == text::join(list, "/"@),
        decreases parts.len() - i,
    {
        match &parts[i] {
            PathPart::Normal(part) => {
                if i > 0 {
                    name.append("/");
                }
                name.append(part.as_str());
                proof {
                    let longer = list.push(part@);
                    assert(longer.drop_last() =~= list);
                    list = longer;
                    assert(name@ =~= text::join(list, "/"@));
                }
            },
            PathPart::NotUtf8 => {
                proof {
                    lemma_fault(parts@, i + 1, parts@.len() as int);
                }
                return Err(NameFault::NotUtf8);
            },
            PathPart::Special => {
                proof {
                    lemma_fault(parts@, i + 1, parts@.len() as int);
                }
                return Err(NameFault::Special);
            },
        }
        i = i + 1;
    }
    Ok(name)
}

proof fn lemma_fault(parts: Seq<PathPart>, n: int, m: int)
    requires
        0 <= n <= m,
        part_names(parts, n) is Err,
    ensures
        part_names(parts, m) == part_names(parts, n),
    decreases m - n,
{
    if n < m {
        lemma_fault(parts, n, m - 1);
    }
}

/// What an entry of a directory is.
#[derive(Clone, Copy, Debug, PartialEq, Eq, Structural)]
pub enum EntryKind {
    Directory,
    File,
    /// A symbolic link, or anything else.
    Other,
}

/// What becomes of a discovered entry.
#[derive(Debug)]
pub enum Discovery {
    /// The entries below it are to be discovered.
    Descend,
    /// It is a file of the bundle under this name.
    Indexed(String),
    /// It is no part of the bundle.
    Ignored,
}

/// What becomes of a discovered entry, as a mathematical value.
pub enum Step {
    Descend,
    Indexed(Seq<char>),
    Ignored,
}

impl View for Discovery {
    type V = Step;

    open spec fn view(&self) -> Step {
        match *self {
            Discovery::Descend => Step::Descend,
            Discovery::Indexed(name) => Step::Indexed(name@),
            Discovery::Ignored => Step::Ignored,
        }
    }
}

/// What becomes of an entry with these components: a file is part of the bundle
/// under its name, a directory is searched, and what is neither is ignored. A
/// file must have a name, and a directory too where `check_directories`.
pub open spec fn step_of(
    kind: EntryKind,
    parts: Seq<PathPart>,
    check_directories: bool,
) -> Result<Step, NameFault> {
    match kind {
        EntryKind::Directory => match part_names(parts, parts.len() as int) {
            Err(fault) if check_directories => Err(fault),
            _ => Ok(Step::Descend),
        },
        EntryKind::File => match part_names(parts, parts.len() as int) {
            Ok(list) => Ok(Step::Indexed(text::join(list, "/"@))),
            Err(fault) => Err(fault),
        },
        EntryKind::Other => Ok(Step::Ignored),
    }
}

/// A result of a discovery, as a mathematical value.
pub open spec fn step_value(r: Result<Discovery, NameFault>) -> Result<Step, NameFault> {
    match r {
        Ok(d) => Ok(d@),
        Err(fault) => Err(fault),
    }
}

/// Decides what becomes of a discovered entry.
pub fn discover_entry(
    kind: EntryKind,
    parts: &Vec<PathPart>,
    check_directories: bool,
) -> (r: Result<Discovery, NameFault>)
    ensures
        step_value(r) == step_of(kind, parts@, check_directories),
{
    match kind {
        EntryKind::Directory => {
            if check_directories {
                match relative_bundle_name(parts) {
                    Ok(_) => Ok(Discovery::Descend),
                    Err(fault) => Err(fault),
                }
            } else {
                Ok(Discovery::Descend)
            }
        },
        EntryKind::File => match relative_bundle_name(parts) {
            Ok(name) => Ok(Discovery::Indexed(name)),
            Err(fault) => Err(fault),
        },
        EntryKind::Other => Ok(Discovery::Ignored),
    }
}

/// Why a request for a path is turned down.
#[derive(Clone, Copy, Debug, PartialEq, Eq, Structural)]
pub enum PathFault {
    /// The path is empty, or leads out of the tree.
    Invalid,
    /// No such file was discovered.
    Unknown,
}

/// A component that a path may have.
pub open spec fn is_proper(part: Seq<char>) -> bool {
    part.len() > 0 && part != "."@ && part != ".."@
}

/// Every component of the path is one that a path may have.
pub open spec fn is_valid_path(path: Seq<char>) -> bool {
    let parts = text::split(path, '/');
    path.len() > 0 && forall|i: int| 0 <= i < parts.len() ==> is_proper(#[trigger] parts[i])
}

/// Whether every component of a path is one that a path may have.
pub fn is_bundle_path(path: &str) -> (r: bool)
    ensures
        r == is_valid_path(path@),
{
    if path.is_empty() {
        return false;
    }
    let parts = text::split_at(path, '/');
    let ghost all = text::split(path@, '/');
    let mut i: usize = 0;
    while i < parts.len()
        invariant
            i <= parts.len(),
            all == text::texts(parts@),
            all == text::split(path@, '/'),
            forall|j: int| 0 <= j < i ==> is_proper(#[trigger] all[j]),
        decreases parts.len() - i,
    {
        let part = parts[i].as_str();
        assert(all[i as int] == part@);
        if part.is_empty() || text::same(part, ".") || text::same(part, "..") {
            return false;
        }
        i = i + 1;
    }
    true
}

/// A support bundle source backed by an unpacked directory tree.
///
/// Files are discovered once when the source is opened, and symbolic links
/// are ignored. The unpacked bundle tree must remain stable while the source
/// is in use; replacing discovered paths after construction is unsupported.
#[derive(Debug)]
pub struct DirectoryBundleSource {
    files: Vec<String>,
}

impl View for DirectoryBundleSource {
    type V = Set<Seq<char>>;

    closed spec fn view(&self) -> Set<Seq<char>> {
        text::texts(self.files@).to_set()
    }
}

impl DirectoryBundleSource {
    #[verifier::type_invariant]
    closed spec fn ordered(self) -> bool {
        &&& names::ascending(text::texts(self.files@))
        &&& forall|name: Seq<char>|
            text::texts(self.files@).to_set().contains(name) ==> #[trigger] is_valid_path(name)
    }

    /// An index without files.
    pub fn new() -> (r: Self)
        ensures
            r@ == Set::<Seq<char>>::empty(),
    {
        let r = DirectoryBundleSource { files: Vec::new() };
        assert(r@ =~= Set::empty());
        r
    }

    /// The index with one more file, whose name is a valid path.
    pub fn with_file(self, name: &str) -> (r: Self)
        requires
            is_valid_path(name@),
        ensures
            r@ == self@.insert(name@),
    {
        proof {
            use_type_invariant(&self);
        }
        let DirectoryBundleSource { files } = self;
        let mut files = files;
        names::insert_name(&mut files, name);
        DirectoryBundleSource { files }
    }

    /// The names of the discovered files, in ascending order. Each is a valid
    /// path.
    pub fn file_names(&self) -> (r: &Vec<String>)
        ensures
            text::texts(r@) == names::sorted(self@),
            names::ascending(text::texts(r@)),
            text::texts(r@).to_set() == self@,
            forall|i: int| 0 <= i < r@.len() ==> is_valid_path((#[trigger] r@[i])@),
    {
        proof {
            use_type_invariant(self);
            let all = text::texts(self.files@);
            names::lemma_sorted(all);
            assert forall|i: int| 0 <= i < self.files@.len() implies is_valid_path(
                (#[trigger] self.files@[i])@,
            ) by {
                assert(all[i] == self.files@[i]@);
                assert(all.to_set().contains(all[i]));
            }
        }
        &self.files
    }

    /// Whether a request for `path` is answered, where `ordinary` says whether
    /// the platform, too, sees nothing but proper names in it: where it does, a
    /// request is answered exactly if the file is listed.
    pub fn discovered_path(&self, path: &str, ordinary: bool) -> (r: Result<(), PathFault>)
        ensures
            r is Ok <==> ordinary && self@.contains(path@),
            r == (if !is_valid_path(path@) || !ordinary {
                Err(PathFault::Invalid)
            } else if !self@.contains(path@) {
                Err(PathFault::Unknown)
            } else {
                Ok(())
            }),
    {
        proof {
            use_type_invariant(self);
            assert(self@.contains(path@) ==> is_valid_path(path@));
        }
        if !ordinary || !is_bundle_path(path) {
            return Err(PathFault::Invalid);
        }
        proof {
            let files = text::texts(self.files@);
            assert(files.to_set().contains(path@) == files.contains(path@));
        }
        if crate::inventory::holds_name(&self.files, path) {
            Ok(())
        } else {
            Err(PathFault::Unknown)
        }
    }
}

} // verus!
