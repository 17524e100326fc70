//! The files of an exported directory that the guest knows, each by a number.
//!
//! A file is known by its path below the exported directory; the directory itself has
//! the empty path.

use std::collections::HashMap;

use vstd::hash_map::StringHashMap;
use vstd::prelude::*;

use crate::error::DeviceError;
use crate::fuse::FUSE_ROOT_ID;

verus! {

broadcast use vstd::std_specs::hash::group_hash_axioms;

/// The path of the entry `name` of a directory.
pub open spec fn spec_child_path(directory: Seq<char>, name: Seq<char>) -> Seq<char> {
    if directory.len() == 0 {
        name
    } else {
        directory + seq!['/'] + name
    }
}

/// The path of the entry `name` of a directory.
pub fn child_path(directory: &str, name: &str) -> (path: String)
    ensures
        path@ == spec_child_path(directory@, name@),
{
    proof {
        lemma_empty_text(directory@);
        reveal_strlit("/");
        assert("/"@ =~= seq!['/']);
    }
    if directory.is_empty() {
        return name.to_owned();
    }
    let mut path: String = directory.to_owned();
    path.append("/");
    path.append(name);
    path
}

/// A text is empty if and only if it takes no bytes.
proof fn lemma_empty_text(text: Seq<char>)
    ensures
        vstd::utf8::encode_utf8(text).len() == 0 <==> text.len() == 0,
{
    vstd::utf8::encode_utf8_decode_utf8(text);
    if vstd::utf8::encode_utf8(text).len() == 0 {
        assert(vstd::utf8::encode_utf8(text) =~= Seq::<u8>::empty());
        assert(vstd::utf8::decode_utf8(Seq::<u8>::empty()) =~= Seq::<char>::empty());
    }
    if text.len() == 0 {
        assert(vstd::utf8::encode_utf8(text) =~= Seq::<u8>::empty());
    }
}

/// Whether a name stands for an entry of the directory it is looked up in.
pub open spec fn is_entry_name(name: Seq<char>) -> bool {
    &&& name.len() > 0
    &&& name != seq!['.']
    &&& name != seq!['.', '.']
    &&& !name.contains('/')
}

/// Whether a name stands for an entry of the directory it is looked up in.
pub fn check_entry_name(name: &str) -> (safe: bool)
    ensures
        safe == is_entry_name(name@),
{
    let mut letters: Vec<char> = Vec::new();
    let mut slash: bool = false;
    for letter in text: name.chars()
        invariant
            text.seq() == name@,
            letters@ =~= name@.take(text.index() as int),
            slash == name@.take(text.index() as int).contains('/'),
    {
        proof {
            let k = text.index() as int;
            let read = name@.take(k);
            let more = name@.take(k + 1);
            assert(more =~= read.push(letter));
            assert(more[k] == letter);
            if read.contains('/') {
                let j = choose|j: int| 0 <= j < read.len() && read[j] == '/';
                assert(more[j] == '/');
            }
            if more.contains('/') && letter != '/' {
                let j = choose|j: int| 0 <= j < more.len() && more[j] == '/';
                assert(read[j] == '/');
            }
        }
        if letter == '/' {
            slash = true;
        }
        letters.push(letter);
    }
    proof {
        assert(name@.take(name@.len() as int) =~= name@);
    }
    let dot: bool = letters.len() == 1 && letters[0] == '.';
    let dots: bool = letters.len() == 2 && letters[0] == '.' && letters[1] == '.';
    proof {
        if dot {
            assert(name@ =~= seq!['.']);
        }
        if dots {
            assert(name@ =~= seq!['.', '.']);
        }
    }
    letters.len() > 0 && !dot && !dots && !slash
}

/// The directories on the way to `path`, from the top: what stands before each slash.
pub open spec fn spec_ancestors(path: Seq<char>) -> Seq<Seq<char>>
    decreases path.len(),
{
    if path.len() == 0 {
        Seq::empty()
    } else if path.last() == '/' {
        spec_ancestors(path.drop_last()).push(path.drop_last())
    } else {
        spec_ancestors(path.drop_last())
    }
}

/// The texts as what they stand for.
pub open spec fn texts(strings: Seq<String>) -> Seq<Seq<char>> {
    Seq::new(strings.len(), |i: int| strings[i]@)
}

/// The directories on the way to `path`, from the top.
pub fn ancestors(path: &str) -> (directories: Vec<String>)
    ensures
        texts(directories@) == spec_ancestors(path@),
{
    let count: usize = path.unicode_len();
    let mut directories: Vec<String> = Vec::new();
    let mut at: usize = 0;
    proof {
        assert(texts(directories@) =~= spec_ancestors(path@.take(0)));
    }
    for letter in text: path.chars()
        invariant
            text.seq() == path@,
            count == path@.len(),
            at == text.index(),
            texts(directories@) == spec_ancestors(path@.take(at as int)),
    {
        let ghost before = directories@;
        proof {
            let more = path@.take(at + 1);
            assert(more.last() == letter);
            assert(more.drop_last() =~= path@.take(at as int));
        }
        if letter == '/' {
            let directory: String = path.substring_char(0, at).to_owned();
            directories.push(directory);
            proof {
                assert(directory@ =~= path@.take(at as int));
                assert(texts(directories@) =~= texts(before).push(directory@));
            }
        }
        at = at + 1;
    }
    proof {
        assert(path@.take(path@.len() as int) =~= path@);
    }
    directories
}

/// A name without a slash adds no directory to the way.
proof fn lemma_ancestors_of_name(directory: Seq<char>, name: Seq<char>)
    requires
        !name.contains('/'),
    ensures
        spec_ancestors(directory + name) == spec_ancestors(directory),
    decreases name.len(),
{
    if name.len() == 0 {
        assert(directory + name =~= directory);
    } else {
        let rest = name.drop_last();
        let path = directory + name;
        assert(path.drop_last() =~= directory + rest);
        assert(path.last() == name.last());
        assert(name.contains(name.last()));
        assert forall|k: int| 0 <= k < rest.len() implies rest[k] != '/' by {
            assert(name.contains(name[k]));
        }
        lemma_ancestors_of_name(directory, rest);
    }
}

/// On the way to an entry of a directory stands the directory, and before it what stands
/// on the way to the directory; the exported directory itself is on no way.
pub proof fn law_ancestors_lead_to_entries(directory: Seq<char>, name: Seq<char>)
    requires
        is_entry_name(name),
    ensures
        spec_ancestors(spec_child_path(directory, name)) == if directory.len() == 0 {
            Seq::empty()
        } else {
            spec_ancestors(directory).push(directory)
        },
{
    if directory.len() == 0 {
        lemma_ancestors_of_name(Seq::empty(), name);
        assert(Seq::<char>::empty() + name =~= name);
    } else {
        let opened = directory + seq!['/'];
        lemma_ancestors_of_name(opened, name);
        assert(opened.drop_last() =~= directory);
        assert(opened.last() == '/');
    }
}

/// Whatever stands before a slash of a path is on the way to it.
pub proof fn law_prefixes_are_ancestors(directory: Seq<char>, rest: Seq<char>)
    ensures
        spec_ancestors(directory + seq!['/'] + rest).contains(directory),
    decreases rest.len(),
{
    let path = directory + seq!['/'] + rest;
    let found = spec_ancestors(path);
    if rest.len() == 0 {
        assert(path.drop_last() =~= directory);
        assert(path.last() == '/');
        assert(found.last() == directory);
    } else {
        let shorter = directory + seq!['/'] + rest.drop_last();
        let before = spec_ancestors(shorter);
        law_prefixes_are_ancestors(directory, rest.drop_last());
        assert(path.drop_last() =~= shorter);
        let k = choose|k: int| 0 <= k < before.len() && before[k] == directory;
        assert(found[k] == directory);
    }
}

/// Every directory on the way to a file below the exported directory lies below it too.
pub proof fn law_ancestors_are_confined(path: Seq<char>)
    requires
        is_confined(path),
    ensures
        forall|k: int|
            0 <= k < spec_ancestors(path).len() ==> is_confined(
                #[trigger] spec_ancestors(path)[k],
            ),
    decreases path.len(),
{
    if path.len() != 0 {
        let (directory, name) = choose|directory: Seq<char>, name: Seq<char>|
            {
                &&& directory.len() < path.len()
                &&& is_entry_name(name)
                &&& path == #[trigger] spec_child_path(directory, name)
                &&& is_confined(directory)
            };
        law_ancestors_lead_to_entries(directory, name);
        law_ancestors_are_confined(directory);
        assert forall|k: int| 0 <= k < spec_ancestors(path).len() implies is_confined(
            #[trigger] spec_ancestors(path)[k],
        ) by {
            if k < spec_ancestors(directory).len() {
                assert(spec_ancestors(path)[k] == spec_ancestors(directory)[k]);
            }
        }
    }
}

/// The known files: the path of each number, and the number of each path.
#[verifier::ext_equal]
pub struct Inodes {
    pub next: u64,
    pub paths: Map<u64, Seq<char>>,
    pub ids: Map<Seq<char>, u64>,
}

/// Whether a path leads down from the exported directory, entry by entry.
pub open spec fn is_confined(path: Seq<char>) -> bool
    decreases path.len(),
{
    path.len() == 0 || exists|directory: Seq<char>, name: Seq<char>|
        {
            &&& directory.len() < path.len()
            &&& is_entry_name(name)
            &&& path == #[trigger] spec_child_path(directory, name)
            &&& is_confined(directory)
        }
}

impl Inodes {
    /// Every number has one path and every path one number, all numbers were handed out
    /// in order, and the exported directory is the root.
    pub open spec fn wf(self) -> bool {
        &&& self.next > FUSE_ROOT_ID
        &&& self.paths.contains_key(FUSE_ROOT_ID)
        &&& self.paths[FUSE_ROOT_ID] == Seq::<char>::empty()
        &&& forall|id: u64| #[trigger]
            self.paths.contains_key(id) <==> FUSE_ROOT_ID <= id < self.next
        &&& forall|id: u64| #[trigger]
            self.paths.contains_key(id) ==> self.ids.contains_key(self.paths[id])
                && self.ids[self.paths[id]] == id
        &&& forall|path: Seq<char>| #[trigger]
            self.ids.contains_key(path) ==> self.paths.contains_key(self.ids[path])
                && self.paths[self.ids[path]] == path
    }

    /// Every known file lies below the exported directory.
    pub open spec fn confined(self) -> bool {
        forall|id: u64| #[trigger] self.paths.contains_key(id) ==> is_confined(self.paths[id])
    }

    /// The number of a path, and the files that are then known.
    pub open spec fn assign(self, path: Seq<char>) -> (Result<u64, DeviceError>, Inodes) {
        if self.ids.contains_key(path) {
            (Ok(self.ids[path]), self)
        } else if self.next == u64::MAX {
            (Err(DeviceError::InvalidLayout("virtio-fs inode id overflow")), self)
        } else {
            (
                Ok(self.next),
                Inodes {
                    next: (self.next + 1) as u64,
                    paths: self.paths.insert(self.next, path),
                    ids: self.ids.insert(path, self.next),
                },
            )
        }
    }
}

/// Naming a file keeps the table well-formed.
pub proof fn lemma_assign_wf(inodes: Inodes, path: Seq<char>)
    requires
        inodes.wf(),
    ensures
        inodes.assign(path).1.wf(),
{
}

/// A number stays with its path for good, and a path that has one keeps it: numbering
/// it again gives the same number.
pub proof fn law_numbers_are_stable(inodes: Inodes, path: Seq<char>, other: Seq<char>)
    requires
        inodes.wf(),
    ensures
        ({
            let (result, after) = inodes.assign(path);
            &&& after.wf()
            &&& forall|id: u64|
                inodes.paths.contains_key(id) ==> #[trigger] after.paths.contains_key(id)
                    && after.paths[id] == inodes.paths[id]
            &&& result matches Ok(id) ==> {
                &&& after.paths.contains_key(id)
                &&& after.paths[id] == path
                &&& after.assign(path) == (Ok::<u64, DeviceError>(id), after)
                &&& other != path ==> after.assign(other).0 != Ok::<u64, DeviceError>(id)
            }
            &&& result is Err ==> after == inodes
        }),
{
    lemma_assign_wf(inodes, path);
}

/// Naming an entry of a directory below the exported one names a file below it.
pub proof fn lemma_entry_is_confined(inodes: Inodes, directory: Seq<char>, name: Seq<char>)
    requires
        inodes.wf(),
        inodes.confined(),
        is_confined(directory),
        is_entry_name(name),
    ensures
        is_confined(spec_child_path(directory, name)),
        inodes.assign(spec_child_path(directory, name)).1.confined(),
{
    let path = spec_child_path(directory, name);
    assert(directory.len() < path.len());
    assert(is_confined(path));
    let after = inodes.assign(path).1;
    assert forall|id: u64| #[trigger] after.paths.contains_key(id) implies is_confined(
        after.paths[id],
    ) by {
        if inodes.paths.contains_key(id) {
            assert(is_confined(inodes.paths[id]));
        }
    }
}

/// An entry of a file below the exported directory lies below it too: looking names up
/// never leaves the directory.
pub proof fn law_entries_are_confined(inodes: Inodes, parent: u64, name: Seq<char>)
    requires
        inodes.wf(),
        inodes.confined(),
        inodes.paths.contains_key(parent),
        is_entry_name(name),
    ensures
        is_confined(spec_child_path(inodes.paths[parent], name)),
        inodes.assign(spec_child_path(inodes.paths[parent], name)).1.confined(),
{
    assert(is_confined(inodes.paths[parent]));
    lemma_entry_is_confined(inodes, inodes.paths[parent], name);
}

/// The files of an exported directory that the guest knows.
pub struct FsInodes {
    next: u64,
    by_id: HashMap<u64, String>,
    by_path: StringHashMap<u64>,
}

impl View for FsInodes {
    type V = Inodes;

    closed spec fn view(&self) -> Inodes {
        Inodes {
            next: self.next,
            paths: self.by_id@.map_values(|path: String| path@),
            ids: self.by_path@,
        }
    }
}

impl FsInodes {
    /// At first only the exported directory is known.
    pub fn new() -> (inodes: Self)
        ensures
            inodes@.wf(),
            inodes@.confined(),
            inodes@.next == FUSE_ROOT_ID + 1,
    {
        let mut by_id: HashMap<u64, String> = HashMap::new();
        let mut by_path: StringHashMap<u64> = StringHashMap::new();
        by_id.insert(FUSE_ROOT_ID, String::new());
        by_path.insert(String::new(), FUSE_ROOT_ID);
        let inodes = FsInodes { next: FUSE_ROOT_ID + 1, by_id, by_path };
        proof {
            assert(inodes@.paths[FUSE_ROOT_ID] =~= Seq::<char>::empty());
            assert(inodes@.ids.contains_key(Seq::<char>::empty()));
        }
        inodes
    }

    /// The path of a number, if it has one.
    pub fn path(&self, id: u64) -> (path: Option<String>)
        ensures
            match path {
                Some(path) => self@.paths.contains_key(id) && path@ == self@.paths[id],
                None => !self@.paths.contains_key(id),
            },
    {
        match self.by_id.get(&id) {
            Some(path) => Some(path.clone()),
            None => None,
        }
    }

    /// The number of a path; a path without one gets the next.
    pub fn id_for_path(&mut self, path: String) -> (result: Result<u64, DeviceError>)
        requires
            old(self)@.wf(),
        ensures
            result == old(self)@.assign(path@).0,
            final(self)@ == old(self)@.assign(path@).1,
            final(self)@.wf(),
    {
        let ghost before = self@;
        proof {
            lemma_assign_wf(before, path@);
        }
        if let Some(id) = self.by_path.get(path.as_str()) {
            return Ok(*id);
        }
        let id: u64 = self.next;
        match self.next.checked_add(1) {
            None => {
                return Err(DeviceError::InvalidLayout("virtio-fs inode id overflow"));
            },
            Some(next) => {
                self.next = next;
            },
        }
        self.by_id.insert(id, path.clone());
        self.by_path.insert(path, id);
        proof {
            assert(self@.paths =~= before.assign(path@).1.paths);
        }
        Ok(id)
    }
}

/// The path of an entry is its name, behind the path of its directory and a slash unless that is
/// the exported directory.
pub proof fn law_paths_of_entries(directory: Seq<char>, name: Seq<char>)
    ensures
        directory.len() == 0 ==> spec_child_path(directory, name) == name,
        directory.len() > 0 ==> {
            let path = spec_child_path(directory, name);
            &&& path.len() == directory.len() + 1 + name.len()
            &&& path.take(directory.len() as int) == directory
            &&& path[directory.len() as int] == '/'
            &&& path.skip(directory.len() as int + 1) == name
        },
{
    let path = spec_child_path(directory, name);
    if directory.len() > 0 {
        assert(path.take(directory.len() as int) =~= directory);
        assert(path.skip(directory.len() as int + 1) =~= name);
    }
}

/// A name stands for an entry exactly if it is not empty, has no slash, and is neither one dot nor
/// two.
pub proof fn law_entry_names(name: Seq<char>)
    ensures
        is_entry_name(name) <==> {
            &&& name.len() >= 1
            &&& forall|k: int| 0 <= k < name.len() ==> #[trigger] name[k] != '/'
            &&& !(name.len() == 1 && name[0] == '.')
            &&& !(name.len() == 2 && name[0] == '.' && name[1] == '.')
        },
{
    if name.len() == 1 && name[0] == '.' {
        assert(name =~= seq!['.']);
    }
    if name.len() == 2 && name[0] == '.' && name[1] == '.' {
        assert(name =~= seq!['.', '.']);
    }
    if name.contains('/') {
        let k = choose|k: int| 0 <= k < name.len() && name[k] == '/';
        assert(name[k] == '/');
    }
}

/// A path that has no number gets one that no path had, and nothing else becomes known; only when
/// the numbers are used up is it refused.
pub proof fn law_new_paths_get_new_numbers(inodes: Inodes, path: Seq<char>)
    requires
        inodes.wf(),
        !inodes.ids.contains_key(path),
    ensures
        inodes.next < u64::MAX ==> {
            let (result, after) = inodes.assign(path);
            &&& result is Ok
            &&& !inodes.paths.contains_key(result->Ok_0)
            &&& result->Ok_0 > 1
            &&& after.paths == inodes.paths.insert(result->Ok_0, path)
            &&& after.ids == inodes.ids.insert(path, result->Ok_0)
        },
        inodes.next == u64::MAX ==> inodes.assign(path) == (
            Err::<u64, DeviceError>(DeviceError::InvalidLayout("virtio-fs inode id overflow")),
            inodes,
        ),
{
}

} // verus!
