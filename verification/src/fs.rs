//! The read-only file system view of a repository tree: inode numbering,
//! file attributes, directory listings, reads and the blob cache. The FUSE
//! session that answers the kernel with these values lives outside the
//! library.

use vstd::prelude::*;
use crate::github::{
    entry_position, parent_dir, tree_has_dir, dir_listing, RepoSpec, RepoTree, TreeEntry,
};
use crate::index::NameMap;
use crate::text::{after_last, chars_of, rfind_before_exec, str_eq, substring};

verus! {

broadcast use vstd::string::group_string_axioms;

/// Block size reported for every node.
pub const BLOCK_SIZE: u32 = 512;

/// The kind of a node.
#[derive(Debug, Clone, Copy, PartialEq, Eq, Structural)]
pub enum NodeKind {
    Directory,
    RegularFile,
    Symlink,
}

/// The attributes of a node that depend on the repository; times and owner
/// are the caller's.
#[derive(Debug, Clone, Copy, PartialEq, Eq, Structural)]
pub struct NodeAttr {
    pub ino: u64,
    pub size: u64,
    pub blocks: u64,
    pub kind: NodeKind,
    pub perm: u16,
    pub nlink: u32,
}

/// One line of a directory listing, with the offset of the next one.
#[derive(Debug, Clone)]
pub struct DirEntryInfo {
    pub ino: u64,
    pub next_offset: u64,
    pub kind: NodeKind,
    pub name: String,
}

/// Number of blocks of `BLOCK_SIZE` bytes that hold `size` bytes.
pub open spec fn block_count(size: int) -> int {
    (size + 511) / 512
}

/// The path of inode `ino`: 1 is the root, `i + 2` is entry `i`.
pub open spec fn inode_path(entries: Seq<TreeEntry>, ino: u64) -> Option<Seq<char>> {
    if ino == 1 {
        Some(Seq::empty())
    } else if 2 <= ino < entries.len() + 2 {
        Some(entries[ino - 2].path@)
    } else {
        None
    }
}

/// Position of the last entry before `j` whose path is `p`.
pub open spec fn last_position(entries: Seq<TreeEntry>, p: Seq<char>, j: int) -> Option<int>
    decreases j,
{
    if j <= 0 || j > entries.len() {
        None
    } else if entries[j - 1].path@ == p {
        Some(j - 1)
    } else {
        last_position(entries, p, j - 1)
    }
}

/// The inode of path `p`: the inode of the last entry with that path (later
/// entries override earlier ones), else 1 for the root, else none.
pub open spec fn path_inode(entries: Seq<TreeEntry>, p: Seq<char>) -> Option<u64> {
    match last_position(entries, p, entries.len() as int) {
        Some(i) => Some((i + 2) as u64),
        None => if p.len() == 0 {
            Some(1)
        } else {
            None
        },
    }
}

/// The entry that `path` names, if any: the first with that path.
pub open spec fn entry_at(entries: Seq<TreeEntry>, path: Seq<char>) -> Option<TreeEntry> {
    match entry_position(entries, path, 0) {
        Some(k) => Some(entries[k]),
        None => None,
    }
}

/// The entry for `path` has the given mode.
pub open spec fn has_mode(entries: Seq<TreeEntry>, path: Seq<char>, mode: Seq<char>) -> bool {
    match entry_at(entries, path) {
        Some(e) => e.mode@ == mode,
        None => false,
    }
}

/// The attributes of inode `ino` at `path`.
pub open spec fn node_attr(entries: Seq<TreeEntry>, ino: u64, path: Seq<char>) -> NodeAttr {
    if path.len() == 0 || tree_has_dir(entries, path) {
        NodeAttr { ino, size: 0, blocks: 0, kind: NodeKind::Directory, perm: 0o755, nlink: 2 }
    } else {
        let size: u64 = match entry_at(entries, path) {
            Some(e) => match e.size {
                Some(s) => s,
                None => 0,
            },
            None => 0,
        };
        NodeAttr {
            ino,
            size,
            blocks: block_count(size as int) as u64,
            kind: if has_mode(entries, path, "120000"@) {
                NodeKind::Symlink
            } else {
                NodeKind::RegularFile
            },
            perm: if has_mode(entries, path, "100755"@) {
                0o755
            } else {
                0o644
            },
            nlink: 1,
        }
    }
}

/// The kind that a listing shows for an entry.
pub open spec fn entry_kind(e: TreeEntry) -> NodeKind {
    if e.entry_type@ == "tree"@ {
        NodeKind::Directory
    } else if e.mode@ == "120000"@ {
        NodeKind::Symlink
    } else {
        NodeKind::RegularFile
    }
}

/// The path of `name` inside directory `parent`.
pub open spec fn child_path(parent: Seq<char>, name: Seq<char>) -> Seq<char> {
    if parent.len() == 0 {
        name
    } else {
        parent + "/"@ + name
    }
}

/// Inode, kind and name of the `j`-th line of the full listing of directory
/// `ino` at `dir`: `.` and `..`, then the directory's entries.
pub open spec fn listing_line(entries: Seq<TreeEntry>, ino: u64, dir: Seq<char>, j: int) -> (
    u64,
    NodeKind,
    Seq<char>,
) {
    if j == 0 {
        (ino, NodeKind::Directory, "."@)
    } else if j == 1 {
        (ino, NodeKind::Directory, ".."@)
    } else {
        let e = dir_listing(entries, dir)[j - 2];
        (
            match path_inode(entries, e.path@) {
                Some(n) => n,
                None => 0,
            },
            entry_kind(e),
            after_last(e.path@, '/'),
        )
    }
}

/// Bytes `[start, end)` that a read of `size` bytes at `offset` returns from
/// data of length `len`.
pub open spec fn read_window(len: int, offset: int, size: int) -> (int, int) {
    if offset >= len {
        (len, len)
    } else if offset + size < len {
        (offset, offset + size)
    } else {
        (offset, len)
    }
}

proof fn lemma_last_position(entries: Seq<TreeEntry>, p: Seq<char>, j: int)
    requires
        0 <= j <= entries.len(),
    ensures
        last_position(entries, p, j) matches Some(i) ==> 0 <= i < j && entries[i].path@ == p,
        last_position(entries, p, j) is None ==> forall|i: int|
            0 <= i < j ==> #[trigger] entries[i].path@ != p,
    decreases j,
{
    if j > 0 && entries[j - 1].path@ != p {
        lemma_last_position(entries, p, j - 1);
    }
}

/// The inode of a path names that path back.
pub proof fn law_inode_names_its_path(entries: Seq<TreeEntry>, p: Seq<char>)
    requires
        entries.len() + 2 <= u64::MAX,
        path_inode(entries, p) is Some,
    ensures
        inode_path(entries, path_inode(entries, p).unwrap()) == Some(p),
{
    lemma_last_position(entries, p, entries.len() as int);
    if last_position(entries, p, entries.len() as int) is None {
        assert(p == Seq::<char>::empty());
    }
}

proof fn lemma_entry_position_first(entries: Seq<TreeEntry>, p: Seq<char>, k: int, i: int)
    requires
        0 <= k <= i < entries.len(),
        entries[i].path@ == p,
        forall|j: int| k <= j < i ==> #[trigger] entries[j].path@ != p,
    ensures
        entry_position(entries, p, k) == Some(i),
    decreases i - k,
{
    if k < i {
        lemma_entry_position_first(entries, p, k + 1, i);
    }
}

proof fn lemma_entry_position_none(entries: Seq<TreeEntry>, p: Seq<char>, k: int)
    requires
        0 <= k,
        forall|j: int| 0 <= j < entries.len() ==> #[trigger] entries[j].path@ != p,
    ensures
        entry_position(entries, p, k) is None,
    decreases entries.len() - k,
{
    if k < entries.len() {
        lemma_entry_position_none(entries, p, k + 1);
    }
}

/// Looking a path up finds the first entry with exactly that path, and
/// finds nothing when no entry has it.
pub proof fn law_lookup_finds_first(entries: Seq<TreeEntry>, p: Seq<char>)
    ensures
        forall|i: int|
            0 <= i < entries.len() && #[trigger] entries[i].path@ == p && (forall|j: int|
                0 <= j < i ==> entries[j].path@ != p) ==> entry_position(entries, p, 0) == Some(i),
        (forall|j: int| 0 <= j < entries.len() ==> #[trigger] entries[j].path@ != p)
            ==> entry_position(entries, p, 0) is None,
{
    assert forall|i: int|
        0 <= i < entries.len() && #[trigger] entries[i].path@ == p && (forall|j: int|
            0 <= j < i ==> entries[j].path@ != p) implies entry_position(entries, p, 0) == Some(i) by {
        lemma_entry_position_first(entries, p, 0, i);
    }
    if forall|j: int| 0 <= j < entries.len() ==> #[trigger] entries[j].path@ != p {
        lemma_entry_position_none(entries, p, 0);
    }
}

/// The attributes of a path that is not a directory come from the first
/// tree entry with exactly that path: its size (0 when the tree gives
/// none), the number of 512-byte blocks that hold that size, a symbolic link
/// for mode `120000`, permissions 0o755 for mode `100755` and 0o644
/// otherwise, one link; a path that no entry has is an empty regular file.
/// The root and the paths of `tree` entries are directories with
/// permissions 0o755, two links and size 0.
pub proof fn law_node_attr_from_first_entry(entries: Seq<TreeEntry>, ino: u64, p: Seq<char>)
    ensures
        ({
            let a = node_attr(entries, ino, p);
            &&& a.ino == ino
            &&& (p.len() == 0 || exists|i: int|
                0 <= i < entries.len() && #[trigger] entries[i].path@ == p
                    && entries[i].entry_type@ == "tree"@) ==> a.kind == NodeKind::Directory
                && a.size == 0 && a.blocks == 0 && a.perm == 0o755 && a.nlink == 2
            &&& forall|i: int|
                0 <= i < entries.len() && #[trigger] entries[i].path@ == p && p.len() > 0
                    && !tree_has_dir(entries, p) && (forall|j: int|
                    0 <= j < i ==> entries[j].path@ != p) ==> {
                    &&& a.size == (match entries[i].size {
                        Some(s) => s,
                        None => 0u64,
                    })
                    &&& a.blocks * 512 >= a.size
                    &&& a.blocks * 512 < a.size + 512
                    &&& (a.kind == NodeKind::Symlink <==> entries[i].mode@ == "120000"@)
                    &&& a.kind != NodeKind::Directory
                    &&& (a.perm == 0o755 <==> entries[i].mode@ == "100755"@)
                    &&& (a.perm == 0o644 <==> entries[i].mode@ != "100755"@)
                    &&& a.nlink == 1
                }
            &&& (p.len() > 0 && forall|j: int| 0 <= j < entries.len() ==> #[trigger] entries[j].path@ != p)
                ==> a.kind == NodeKind::RegularFile && a.size == 0 && a.blocks == 0 && a.perm
                == 0o644 && a.nlink == 1
        }),
{
    let a = node_attr(entries, ino, p);
    assert forall|i: int|
        0 <= i < entries.len() && #[trigger] entries[i].path@ == p && p.len() > 0
            && !tree_has_dir(entries, p) && (forall|j: int|
            0 <= j < i ==> entries[j].path@ != p) implies {
        &&& a.size == (match entries[i].size {
            Some(s) => s,
            None => 0u64,
        })
        &&& a.blocks * 512 >= a.size
        &&& a.blocks * 512 < a.size + 512
        &&& (a.kind == NodeKind::Symlink <==> entries[i].mode@ == "120000"@)
        &&& a.kind != NodeKind::Directory
        &&& (a.perm == 0o755 <==> entries[i].mode@ == "100755"@)
        &&& (a.perm == 0o644 <==> entries[i].mode@ != "100755"@)
        &&& a.nlink == 1
    } by {
        lemma_entry_position_first(entries, p, 0, i);
        assert(entry_at(entries, p) == Some(entries[i]));
        let sz = a.size as int;
        assert(a.blocks as int == (sz + 511) / 512);
        assert((sz + 511) / 512 * 512 >= sz && (sz + 511) / 512 * 512 < sz + 512)
            by (nonlinear_arith)
            requires
                sz >= 0,
        ;
    }
    if p.len() > 0 && forall|j: int| 0 <= j < entries.len() ==> #[trigger] entries[j].path@ != p {
        lemma_entry_position_none(entries, p, 0);
        assert(!tree_has_dir(entries, p));
    }
}

/// A read returns the window of the data that starts at its offset and
/// holds as many bytes as were asked for, or as are left when fewer are:
/// for an offset inside the data, the window starts at the offset, ends
/// within the data, holds at most `size` bytes, and stops short of `size`
/// bytes only at the end of the data; an offset at or past the end gives an
/// empty window.
pub proof fn law_read_window_is_requested_bytes(len: int, offset: int, size: int)
    requires
        0 <= len,
        0 <= offset,
        0 <= size,
    ensures
        ({
            let (s, e) = read_window(len, offset, size);
            &&& 0 <= s <= e <= len
            &&& offset >= len ==> s == e
            &&& offset < len ==> s == offset && e - s <= size && (e == len || e - s == size)
        }),
{
}

/// The entries' paths are pairwise distinct and none is empty.
pub open spec fn distinct_named_paths(entries: Seq<TreeEntry>) -> bool {
    &&& forall|i: int| 0 <= i < entries.len() ==> #[trigger] entries[i].path@.len() > 0
    &&& forall|i: int, j: int|
        0 <= i < j < entries.len() ==> #[trigger] entries[i].path@ != #[trigger] entries[j].path@
}

/// Inode numbering: the inodes are exactly 1 to `len + 1`; inode 1 is the
/// root and inode `i + 2` names entry `i`. When the entries' paths are
/// distinct and not empty, the root's path has inode 1 and entry `i`'s path
/// has inode `i + 2`.
pub proof fn law_inode_numbering(entries: Seq<TreeEntry>)
    requires
        entries.len() + 2 <= u64::MAX,
    ensures
        forall|ino: u64|
            #[trigger] inode_path(entries, ino) is Some <==> 1 <= ino <= entries.len() + 1,
        inode_path(entries, 1) == Some(Seq::<char>::empty()),
        forall|i: int|
            0 <= i < entries.len() ==> inode_path(entries, (i + 2) as u64) == Some(
                #[trigger] entries[i].path@,
            ),
        distinct_named_paths(entries) ==> path_inode(entries, Seq::<char>::empty()) == Some(1u64),
        distinct_named_paths(entries) ==> forall|i: int|
            0 <= i < entries.len() ==> path_inode(entries, #[trigger] entries[i].path@) == Some(
                (i + 2) as u64,
            ),
{
    if distinct_named_paths(entries) {
        lemma_last_position(entries, Seq::<char>::empty(), entries.len() as int);
        if last_position(entries, Seq::<char>::empty(), entries.len() as int) is Some {
            let k = last_position(entries, Seq::<char>::empty(), entries.len() as int).unwrap();
            assert(entries[k].path@.len() > 0);
        }
        assert forall|i: int| 0 <= i < entries.len() implies path_inode(
            entries,
            #[trigger] entries[i].path@,
        ) == Some((i + 2) as u64) by {
            let p = entries[i].path@;
            lemma_last_position(entries, p, entries.len() as int);
            match last_position(entries, p, entries.len() as int) {
                Some(k) => {
                    if k < i {
                        assert(entries[k].path@ != entries[i].path@);
                    } else if k > i {
                        assert(entries[i].path@ != entries[k].path@);
                    }
                },
                None => {
                    assert(entries[i].path@ != p);
                },
            }
        }
    }
}

/// Every path that an inode names has an inode.
pub proof fn law_named_path_has_inode(entries: Seq<TreeEntry>, ino: u64)
    requires
        inode_path(entries, ino) is Some,
    ensures
        path_inode(entries, inode_path(entries, ino).unwrap()) is Some,
{
    let p = inode_path(entries, ino).unwrap();
    lemma_last_position(entries, p, entries.len() as int);
    if ino != 1 {
        assert(entries[ino - 2].path@ == p);
    }
}

proof fn lemma_child_path_of_parent(path: Seq<char>)
    requires
        !(path.len() > 0 && path[0] == '/'),
    ensures
        child_path(parent_dir(path), after_last(path, '/')) == path,
{
    crate::text::lemma_rfind_before_bounds(path, '/', path.len() as int);
    reveal_strlit("/");
    match crate::text::rfind_char(path, '/') {
        Some(k) => {
            assert(k > 0);
            assert(path.take(k) + "/"@ + path.skip(k + 1) =~= path);
        },
        None => {},
    }
}

/// The name that a directory listing shows for an entry resolves, inside
/// that directory, to the inode that the listing shows for it (for entries
/// whose path does not start with `/`).
pub proof fn law_listed_name_resolves(entries: Seq<TreeEntry>, ino: u64, dir: Seq<char>, j: int)
    requires
        entries.len() + 2 <= u64::MAX,
        entries.len() <= usize::MAX,
        2 <= j < dir_listing(entries, dir).len() + 2,
        !(dir_listing(entries, dir)[j - 2].path@.len() > 0 && dir_listing(entries, dir)[j
            - 2].path@[0] == '/'),
    ensures
        path_inode(entries, child_path(dir, listing_line(entries, ino, dir, j).2)) == Some(
            listing_line(entries, ino, dir, j).0,
        ),
{
    let e = dir_listing(entries, dir)[j - 2];
    crate::github::law_listing_holds_only_children(entries, dir, j - 2);
    lemma_child_path_of_parent(e.path@);
    let idx = crate::github::child_positions(entries, dir, entries.len() as int);
    crate::github::lemma_child_positions_bounded(entries, dir, entries.len() as int);
    let i = idx[j - 2] as int;
    assert(entries[i] == e);
    lemma_last_position(entries, e.path@, entries.len() as int);
    if last_position(entries, e.path@, entries.len() as int) is None {
        assert(entries[i].path@ != e.path@);
    }
}

/// Reading back what the cache was given for a path gives that content, and
/// the other paths keep theirs: `after` is the cache as `BlobCache::insert`
/// leaves it.
pub proof fn law_cache_read_after_write(
    before: BlobCache,
    after: BlobCache,
    path: Seq<char>,
    data: Seq<u8>,
    other: Seq<char>,
)
    requires
        after@ == before@.insert(path, data),
        other != path,
    ensures
        after@.contains_key(path),
        after@[path] == data,
        after@.contains_key(other) == before@.contains_key(other),
        before@.contains_key(other) ==> after@[other] == before@[other],
{
}

/// FUSE filesystem model: the tree, the repository it comes from, and the
/// inode numbering.
pub struct RepoFs {
    tree: RepoTree,
    spec: RepoSpec,
    /// path -> position of the last entry with that path
    paths: NameMap,
}

/// `ix` maps each path to the position of the last of the first `n`
/// entries with that path.
spec fn path_index_agrees(ix: Map<Seq<char>, usize>, entries: Seq<TreeEntry>, n: int) -> bool {
    forall|p: Seq<char>|
        #![trigger ix.contains_key(p)]
        #![trigger last_position(entries, p, n)]
        (ix.contains_key(p) <==> last_position(entries, p, n) is Some) && (ix.contains_key(p)
            ==> ix[p] as int == last_position(entries, p, n).unwrap())
}

impl RepoFs {
    /// The file system is well formed: its tree index is, and every entry
    /// has an inode number.
    pub closed spec fn wf(&self) -> bool {
        &&& self.tree.wf()
        &&& self.tree@.len() + 2 <= usize::MAX
        &&& self.paths.wf()
        &&& path_index_agrees(self.paths@, self.tree@, self.tree@.len() as int)
    }

    /// The entries of the tree.
    pub closed spec fn entries(&self) -> Seq<TreeEntry> {
        self.tree@
    }

    /// The repository the tree comes from.
    pub closed spec fn repo(&self) -> RepoSpec {
        self.spec
    }

    pub fn new(tree: RepoTree, spec: RepoSpec) -> (r: Self)
        requires
            tree.wf(),
            tree@.len() + 2 <= usize::MAX,
        ensures
            r.wf(),
            r.entries() == tree@,
            r.repo() == spec,
    {
        let mut paths = NameMap::new();
        let entries = tree.entries();
        let mut i: usize = 0;
        while i < entries.len()
            invariant
                entries@ == tree@,
                i <= entries.len(),
                paths.wf(),
                path_index_agrees(paths@, entries@, i as int),
            decreases entries.len() - i,
        {
            let ghost old_ix = paths@;
            paths.set(entries[i].path.as_str(), i);
            proof {
                let q = entries@[i as int].path@;
                assert forall|p: Seq<char>|
                    #![trigger paths@.contains_key(p)]
                    #![trigger last_position(entries@, p, i + 1)]
                    (paths@.contains_key(p) <==> last_position(entries@, p, i + 1) is Some) && (
                    paths@.contains_key(p) ==> paths@[p] as int == last_position(
                        entries@,
                        p,
                        i + 1,
                    ).unwrap()) by {
                    if p != q {
                        assert(old_ix.contains_key(p) <==> last_position(entries@, p, i as int) is Some);
                    }
                }
            }
            i = i + 1;
        }
        RepoFs { tree, spec, paths }
    }

    /// The repository the tree comes from.
    pub fn spec(&self) -> (r: &RepoSpec)
        ensures
            *r == self.repo(),
    {
        &self.spec
    }

    /// The tree.
    pub fn tree(&self) -> (r: &RepoTree)
        ensures
            r@ == self.entries(),
            self.wf() ==> r.wf(),
    {
        &self.tree
    }

    /// The path of inode `ino`.
    pub fn path_of(&self, ino: u64) -> (r: Option<String>)
        requires
            self.wf(),
        ensures
            opt_str(r) == inode_path(self.entries(), ino),
    {
        let entries = self.tree.entries();
        if ino == 1 {
            Some(String::new())
        } else if 2 <= ino && ino - 2 < entries.len() as u64 {
            Some(entries[(ino - 2) as usize].path.clone())
        } else {
            None
        }
    }

    /// Inode `ino` exists.
    pub fn has_inode(&self, ino: u64) -> (r: bool)
        requires
            self.wf(),
        ensures
            r == inode_path(self.entries(), ino) is Some,
    {
        ino == 1 || (2 <= ino && ino - 2 < self.tree.entries().len() as u64)
    }

    /// The inode of `path`.
    pub fn inode_of(&self, path: &str) -> (r: Option<u64>)
        requires
            self.wf(),
        ensures
            r == path_inode(self.entries(), path@),
    {
        let entries = self.tree.entries();
        proof {
            lemma_last_position(entries@, path@, entries.len() as int);
        }
        match self.paths.get(path) {
            Some(i) => Some(i as u64 + 2),
            None => if path.is_empty() {
                Some(1)
            } else {
                None
            },
        }
    }

    fn entry_mode_is(&self, path: &str, mode: &str) -> (r: bool)
        ensures
            r == has_mode(self.entries(), path@, mode@),
    {
        match self.tree.lookup(path) {
            Some(e) => str_eq(e.mode.as_str(), mode),
            None => false,
        }
    }

    /// The entry for `path` is an executable file.
    pub fn is_executable(&self, path: &str) -> (r: bool)
        ensures
            r == has_mode(self.entries(), path@, "100755"@),
    {
        self.entry_mode_is(path, "100755")
    }

    /// The entry for `path` is a symbolic link.
    pub fn is_symlink(&self, path: &str) -> (r: bool)
        ensures
            r == has_mode(self.entries(), path@, "120000"@),
    {
        self.entry_mode_is(path, "120000")
    }

    /// The attributes of inode `ino` at `path`.
    pub fn make_attr(&self, ino: u64, path: &str) -> (r: NodeAttr)
        ensures
            r == node_attr(self.entries(), ino, path@),
    {
        if path.is_empty() || self.tree.is_dir(path) {
            NodeAttr { ino, size: 0, blocks: 0, kind: NodeKind::Directory, perm: 0o755, nlink: 2 }
        } else {
            let size: u64 = match self.tree.lookup(path) {
                Some(e) => match e.size {
                    Some(s) => s,
                    None => 0,
                },
                None => 0,
            };
            NodeAttr {
                ino,
                size,
                blocks: blocks_for(size),
                kind: if self.is_symlink(path) {
                    NodeKind::Symlink
                } else {
                    NodeKind::RegularFile
                },
                perm: if self.is_executable(path) {
                    0o755
                } else {
                    0o644
                },
                nlink: 1,
            }
        }
    }

    /// Resolve `name` inside directory inode `parent`: the child's
    /// attributes, or none when the parent or the child does not exist.
    pub fn lookup(&self, parent: u64, name: &str) -> (r: Option<NodeAttr>)
        requires
            self.wf(),
        ensures
            r == (match inode_path(self.entries(), parent) {
                Some(pp) => match path_inode(self.entries(), child_path(pp, name@)) {
                    Some(ino) => Some(node_attr(self.entries(), ino, child_path(pp, name@))),
                    None => None,
                },
                None => None,
            }),
    {
        let parent_path = match self.path_of(parent) {
            Some(p) => p,
            None => {
                return None;
            },
        };
        let child = if parent_path.as_str().is_empty() {
            String::from_str(name)
        } else {
            let mut c = parent_path;
            c.append("/");
            c.append(name);
            c
        };
        match self.inode_of(child.as_str()) {
            Some(ino) => Some(self.make_attr(ino, child.as_str())),
            None => None,
        }
    }

    /// The attributes of inode `ino`, with the size of a regular file that
    /// the tree lists as empty taken from the cached content of its path
    /// when there is one.
    pub fn getattr(&self, ino: u64, cache: &BlobCache) -> (r: Option<NodeAttr>)
        requires
            self.wf(),
            cache.wf(),
        ensures
            r == (match inode_path(self.entries(), ino) {
                Some(p) => Some(
                    attr_with_cached_size(
                        node_attr(self.entries(), ino, p),
                        if cache@.contains_key(p) {
                            Some(cache@[p].len())
                        } else {
                            None
                        },
                    ),
                ),
                None => None,
            }),
    {
        let path = match self.path_of(ino) {
            Some(p) => p,
            None => {
                return None;
            },
        };
        let attr = self.make_attr(ino, path.as_str());
        if attr.kind == NodeKind::RegularFile && attr.size == 0 {
            match cache.get(path.as_str()) {
                Some(data) => Some(sized_attr(attr, data.len())),
                None => Some(attr),
            }
        } else {
            Some(attr)
        }
    }

    /// The SHA of the blob that holds the content of `path`.
    pub fn blob_sha(&self, path: &str) -> (r: Option<String>)
        ensures
            opt_str(r) == (match entry_at(self.entries(), path@) {
                Some(e) => Some(e.sha@),
                None => None,
            }),
    {
        match self.tree.lookup(path) {
            Some(e) => Some(e.sha.clone()),
            None => None,
        }
    }

    /// The listing of directory inode `ino` from position `offset` on, each
    /// line with the offset of the next; none when the inode does not exist.
    pub fn readdir(&self, ino: u64, offset: u64) -> (r: Option<Vec<DirEntryInfo>>)
        requires
            self.wf(),
        ensures
            match (r, inode_path(self.entries(), ino)) {
                (None, None) => true,
                (Some(v), Some(dir)) => {
                    let total = dir_listing(self.entries(), dir).len() + 2;
                    &&& v@.len() == if offset < total {
                        total - offset
                    } else {
                        0
                    }
                    &&& forall|j: int|
                        0 <= j < v@.len() ==> shows_line(
                            #[trigger] v@[j],
                            listing_line(self.entries(), ino, dir, offset + j),
                            offset + j + 1,
                        )
                },
                _ => false,
            },
    {
        let dir = match self.path_of(ino) {
            Some(p) => p,
            None => {
                return None;
            },
        };
        let children = self.tree.list_dir(dir.as_str());
        let ghost listing = dir_listing(self.entries(), dir@);
        proof {
            crate::github::lemma_child_positions_len(
                self.entries(),
                dir@,
                self.entries().len() as int,
            );
        }
        let total = children.len() + 2;
        let mut out: Vec<DirEntryInfo> = Vec::new();
        if offset >= total as u64 {
            return Some(out);
        }
        let mut j = offset as usize;
        while j < total
            invariant
                self.wf(),
                inode_path(self.entries(), ino) == Some(dir@),
                listing == dir_listing(self.entries(), dir@),
                children@.len() == listing.len(),
                forall|t: int| 0 <= t < children@.len() ==> *#[trigger] children@[t] == listing[t],
                total == children@.len() + 2,
                offset <= j <= total,
                out@.len() == j - offset,
                forall|t: int|
                    0 <= t < out@.len() ==> shows_line(
                        #[trigger] out@[t],
                        listing_line(self.entries(), ino, dir@, offset + t),
                        offset + t + 1,
                    ),
            decreases total - j,
        {
            let (cino, kind, name) = if j == 0 {
                (ino, NodeKind::Directory, String::from_str("."))
            } else if j == 1 {
                (ino, NodeKind::Directory, String::from_str(".."))
            } else {
                let e = children[j - 2];
                let cino = match self.inode_of(e.path.as_str()) {
                    Some(n) => n,
                    None => 0,
                };
                (cino, kind_of(e), last_component(e.path.as_str()))
            };
            let ghost line = listing_line(self.entries(), ino, dir@, j as int);
            assert(cino == line.0 && kind == line.1 && name@ == line.2);
            let ghost before = out@;
            out.push(DirEntryInfo { ino: cino, next_offset: (j + 1) as u64, kind, name });
            assert forall|t: int|
                0 <= t < out@.len() implies shows_line(
                #[trigger] out@[t],
                listing_line(self.entries(), ino, dir@, offset + t),
                offset + t + 1,
            ) by {
                if t < out@.len() - 1 {
                    assert(out@[t] == before[t]);
                } else {
                    assert(offset + t == j);
                }
            }
            j = j + 1;
        }
        Some(out)
    }
}

/// Listing line `d` shows inode, kind and name `line`, and the offset `next`.
pub open spec fn shows_line(d: DirEntryInfo, line: (u64, NodeKind, Seq<char>), next: int) -> bool {
    &&& d.ino == line.0
    &&& d.kind == line.1
    &&& d.name@ == line.2
    &&& d.next_offset == next
}

/// `r` holds the same characters as `o`.
pub open spec fn opt_str(r: Option<String>) -> Option<Seq<char>> {
    match r {
        Some(s) => Some(s@),
        None => None,
    }
}

/// `attr` with the size of a regular file that the tree lists as empty
/// replaced by the length of its cached content, when known.
pub open spec fn attr_with_cached_size(attr: NodeAttr, cached: Option<nat>) -> NodeAttr {
    match cached {
        Some(n) => if attr.kind == NodeKind::RegularFile && attr.size == 0 {
            NodeAttr { size: n as u64, blocks: block_count(n as int) as u64, ..attr }
        } else {
            attr
        },
        None => attr,
    }
}

/// Number of blocks of `BLOCK_SIZE` bytes that hold `size` bytes.
pub fn blocks_for(size: u64) -> (r: u64)
    ensures
        r == block_count(size as int),
{
    let q = size / 512;
    if size % 512 == 0 {
        q
    } else {
        q + 1
    }
}

fn sized_attr(attr: NodeAttr, len: usize) -> (r: NodeAttr)
    ensures
        r == (NodeAttr { size: len as u64, blocks: block_count(len as int) as u64, ..attr }),
{
    let size = len as u64;
    NodeAttr { size, blocks: blocks_for(size), ..attr }
}

/// The kind that a listing shows for `e`.
pub fn kind_of(e: &TreeEntry) -> (r: NodeKind)
    ensures
        r == entry_kind(*e),
{
    if str_eq(e.entry_type.as_str(), "tree") {
        NodeKind::Directory
    } else if str_eq(e.mode.as_str(), "120000") {
        NodeKind::Symlink
    } else {
        NodeKind::RegularFile
    }
}

/// The last component of a path: what follows its last `/`.
pub fn last_component(path: &str) -> (r: String)
    ensures
        r@ == after_last(path@, '/'),
{
    let v = chars_of(path);
    match rfind_before_exec(&v, '/', v.len()) {
        Some(k) => {
            proof {
                crate::text::lemma_rfind_before_bounds(v@, '/', v.len() as int);
            }
            substring(path, k + 1, v.len())
        },
        None => String::from_str(path),
    }
}

/// The bytes `[start, end)` of data of length `len` that a read of `size`
/// bytes at `offset` returns.
pub fn read_window_of(len: usize, offset: u64, size: u32) -> (r: (usize, usize))
    ensures
        r.0 <= r.1 <= len,
        (r.0 as int, r.1 as int) == read_window(len as int, offset as int, size as int),
{
    if offset >= len as u64 {
        (len, len)
    } else {
        let start = offset as usize;
        if (size as usize) < len - start {
            (start, start + size as usize)
        } else {
            (start, len)
        }
    }
}

// ---------------------------------------------------------------------------
// Blob cache
// ---------------------------------------------------------------------------

/// Content fetched so far, by path: the contents in a list, found through a
/// hashed index from path to position.
pub struct BlobCache {
    items: Vec<(String, Vec<u8>)>,
    index: NameMap,
    contents: Ghost<Map<Seq<char>, Seq<u8>>>,
}

impl View for BlobCache {
    type V = Map<Seq<char>, Seq<u8>>;

    closed spec fn view(&self) -> Map<Seq<char>, Seq<u8>> {
        self.contents@
    }
}

/// `ix` maps each path of `items` to its position.
spec fn cache_index_agrees(ix: Map<Seq<char>, usize>, items: Seq<(String, Vec<u8>)>) -> bool {
    &&& forall|k: Seq<char>| #[trigger]
        ix.contains_key(k) ==> ix[k] < items.len() && items[ix[k] as int].0@ == k
    &&& forall|i: int| 0 <= i < items.len() ==> ix.contains_key(#[trigger] items[i].0@)
}

impl BlobCache {
    /// Every path is stored once, the index finds it, and the map is what is
    /// stored.
    pub closed spec fn wf(&self) -> bool {
        &&& forall|i: int, j: int|
            0 <= i < j < self.items.len() ==> #[trigger] self.items@[i].0@ != #[trigger] self.items@[j].0@
        &&& forall|i: int|
            0 <= i < self.items.len() ==> #[trigger] self.contents@.contains_key(self.items@[i].0@)
                && self.contents@[self.items@[i].0@] == self.items@[i].1@
        &&& forall|k: Seq<char>|
            #[trigger] self.contents@.contains_key(k) ==> exists|i: int|
                0 <= i < self.items.len() && self.items@[i].0@ == k
        &&& self.index.wf()
        &&& cache_index_agrees(self.index@, self.items@)
    }

    pub fn new() -> (r: Self)
        ensures
            r.wf(),
            r@ == Map::<Seq<char>, Seq<u8>>::empty(),
    {
        BlobCache { items: Vec::new(), index: NameMap::new(), contents: Ghost(Map::empty()) }
    }

    fn position(&self, path: &str) -> (r: Option<usize>)
        requires
            self.wf(),
        ensures
            r matches Some(i) ==> i < self.items.len() && self.items@[i as int].0@ == path@,
            r is None ==> !self@.contains_key(path@),
    {
        let r = self.index.get(path);
        proof {
            if r is None && self.contents@.contains_key(path@) {
                let i = choose|i: int| 0 <= i < self.items.len() && self.items@[i].0@ == path@;
                assert(self.index@.contains_key(self.items@[i].0@));
            }
        }
        r
    }

    /// The content cached for `path`.
    pub fn get(&self, path: &str) -> (r: Option<&Vec<u8>>)
        requires
            self.wf(),
        ensures
            match r {
                Some(d) => self@.contains_key(path@) && d@ == self@[path@],
                None => !self@.contains_key(path@),
            },
    {
        match self.position(path) {
            Some(i) => {
                proof {
                    assert(self.contents@.contains_key(self.items@[i as int].0@));
                }
                Some(&self.items[i].1)
            },
            None => None,
        }
    }

    /// Cache `data` as the content of `path`, replacing what was there.
    pub fn insert(&mut self, path: &str, data: Vec<u8>)
        requires
            old(self).wf(),
        ensures
            final(self).wf(),
            final(self)@ == old(self)@.insert(path@, data@),
    {
        let ghost old_items = self.items@;
        let ghost old_map = self.contents@;
        let ghost old_ix = self.index@;
        let ghost new_map = self.contents@.insert(path@, data@);
        match self.position(path) {
            Some(i) => {
                let key = String::from_str(path);
                self.items.set(i, (key, data));
                self.contents = Ghost(new_map);
                assert forall|t: int| 0 <= t < self.items.len() implies #[trigger] self.items@[t].0@
                    == old_items[t].0@ by {}
                assert forall|a: int, b: int|
                    0 <= a < b < self.items.len() implies #[trigger] self.items@[a].0@
                    != #[trigger] self.items@[b].0@ by {
                    assert(self.items@[a].0@ == old_items[a].0@);
                    assert(self.items@[b].0@ == old_items[b].0@);
                }
                assert forall|t: int| 0 <= t < self.items.len() implies #[trigger] self.contents@.contains_key(
                    self.items@[t].0@,
                ) && self.contents@[self.items@[t].0@] == self.items@[t].1@ by {
                    if t != i {
                        assert(self.items@[t] == old_items[t]);
                        assert(old_items[t].0@ != path@);
                        assert(old_map.contains_key(old_items[t].0@));
                    }
                }
                assert forall|k: Seq<char>| #[trigger] self.contents@.contains_key(k) implies exists|
                    t: int,
                | 0 <= t < self.items.len() && self.items@[t].0@ == k by {
                    if k != path@ {
                        let t = choose|t: int| 0 <= t < old_items.len() && old_items[t].0@ == k;
                        assert(self.items@[t] == old_items[t]);
                    } else {
                        assert(self.items@[i as int].0@ == k);
                    }
                }
                assert(cache_index_agrees(self.index@, self.items@)) by {
                    assert forall|k: Seq<char>| #[trigger] self.index@.contains_key(k) implies self.index@[k]
                        < self.items.len() && self.items@[self.index@[k] as int].0@ == k by {
                        assert(self.items@[self.index@[k] as int].0@ == old_items[self.index@[k] as int].0@);
                    }
                    assert forall|t: int| 0 <= t < self.items.len() implies self.index@.contains_key(
                        #[trigger] self.items@[t].0@,
                    ) by {
                        assert(self.items@[t].0@ == old_items[t].0@);
                    }
                }
            },
            None => {
                let key = String::from_str(path);
                let pos = self.items.len();
                self.index.set(path, pos);
                self.items.push((key, data));
                self.contents = Ghost(new_map);
                assert forall|a: int, b: int|
                    0 <= a < b < self.items.len() implies #[trigger] self.items@[a].0@
                    != #[trigger] self.items@[b].0@ by {
                    assert(self.items@[a] == old_items[a]);
                    if b < old_items.len() {
                        assert(self.items@[b] == old_items[b]);
                    } else {
                        assert(old_items[a].0@ != path@);
                    }
                }
                assert forall|t: int| 0 <= t < self.items.len() implies #[trigger] self.contents@.contains_key(
                    self.items@[t].0@,
                ) && self.contents@[self.items@[t].0@] == self.items@[t].1@ by {
                    if t < old_items.len() {
                        assert(self.items@[t] == old_items[t]);
                        assert(old_items[t].0@ != path@);
                        assert(old_map.contains_key(old_items[t].0@));
                    }
                }
                assert forall|k: Seq<char>| #[trigger] self.contents@.contains_key(k) implies exists|
                    t: int,
                | 0 <= t < self.items.len() && self.items@[t].0@ == k by {
                    if k != path@ {
                        let t = choose|t: int| 0 <= t < old_items.len() && old_items[t].0@ == k;
                        assert(self.items@[t] == old_items[t]);
                    } else {
                        assert(self.items@[self.items.len() - 1].0@ == k);
                    }
                }
                assert(cache_index_agrees(self.index@, self.items@)) by {
                    assert forall|k: Seq<char>| #[trigger] self.index@.contains_key(k) implies self.index@[k]
                        < self.items.len() && self.items@[self.index@[k] as int].0@ == k by {
                        if k != path@ {
                            assert(old_ix.contains_key(k));
                            assert(self.items@[old_ix[k] as int] == old_items[old_ix[k] as int]);
                        }
                    }
                    assert forall|t: int| 0 <= t < self.items.len() implies self.index@.contains_key(
                        #[trigger] self.items@[t].0@,
                    ) by {
                        if t < old_items.len() {
                            assert(self.items@[t] == old_items[t]);
                            assert(old_ix.contains_key(old_items[t].0@));
                        }
                    }
                }
            },
        }
    }
}

} // verus!
