//! What each filesystem operation answers, decided from the tree: the
//! attributes of a node, the entries of a directory listing, and which
//! opens and reads are allowed. Talking to the kernel is left to the caller.
use vstd::prelude::*;

use crate::config::{platform_dir_spec, unique_slugs, ProfileConfig};
use crate::fs::tree::{
    add_dir_spec, add_node, bump, children_spec, initial_tree, FileTree, NodeView, TreeNode, TreeView,
    ROOT_INO,
};

verus! {

/// The block size reported for every node.
pub const BLOCK_SIZE: u64 = 512;

/// The kind of a node as the kernel sees it.
pub enum FileKind {
    Directory,
    RegularFile,
}

/// Why an operation is refused.
pub enum FsError {
    /// No such node (ENOENT).
    NotFound,
    /// A directory was expected (ENOTDIR).
    NotDir,
    /// A file was expected (EISDIR).
    IsDir,
}

/// The attributes reported for a node; the other timestamps, owner and the
/// like are the caller's.
pub struct NodeAttr {
    pub ino: u64,
    /// The modification time in seconds since the epoch, when known.
    pub mtime: Option<u64>,
    pub size: u64,
    pub blocks: u64,
    pub kind: FileKind,
    pub perm: u16,
    pub nlink: u32,
}

/// One entry of a directory listing, with the offset that follows it.
pub struct DirEntry {
    pub ino: u64,
    pub kind: FileKind,
    pub name: String,
    pub next_offset: u64,
}

/// What a read of a file node fetches: which file of which ROM, and its size.
pub struct ReadSource {
    pub rom_id: u64,
    pub file_name: String,
    pub size: u64,
}

/// The attributes of node `n` under inode `ino`: directories are empty,
/// read-only for all (0o555) with two links and no known modification time;
/// files have their size, that size in 512-byte blocks rounded up, mode
/// 0o444, one link and their ROM's modification time.
pub open spec fn attr_spec(ino: u64, n: NodeView) -> NodeAttr {
    match n {
        NodeView::Dir { .. } => NodeAttr {
            ino,
            mtime: None,
            size: 0,
            blocks: 0,
            kind: FileKind::Directory,
            perm: 0o555,
            nlink: 2,
        },
        NodeView::File { size, mtime, .. } => NodeAttr {
            ino,
            mtime,
            size,
            blocks: ((size + 511) / 512) as u64,
            kind: FileKind::RegularFile,
            perm: 0o444,
            nlink: 1,
        },
    }
}

/// The kind a listing reports for inode `ino`: a directory if the tree has a
/// directory there, else a regular file.
pub open spec fn kind_of(t: TreeView, ino: u64) -> FileKind {
    if t.nodes.contains_key(ino) && t.nodes[ino] is Dir {
        FileKind::Directory
    } else {
        FileKind::RegularFile
    }
}

/// The full listing of directory `ino`: `.` and `..` (the latter always the
/// root) except in the root itself, then each child.
pub open spec fn listing_spec(t: TreeView, ino: u64) -> Option<Seq<(u64, FileKind, Seq<char>)>> {
    match children_spec(t, ino) {
        None => None,
        Some(cs) => {
            let dots = if ino != ROOT_INO {
                seq![(ino, FileKind::Directory, "."@), (ROOT_INO, FileKind::Directory, ".."@)]
            } else {
                Seq::empty()
            };
            Some(dots + cs.map_values(|c: (Seq<char>, u64)| (c.1, kind_of(t, c.1), c.0)))
        },
    }
}

/// The tree after the directory of a platform has been added under the
/// profile's prefix (created under the root the first time, found again
/// afterwards), and the platform directory's inode.
pub open spec fn platform_dir_added(t: TreeView, prefix: Seq<char>, dir_name: Seq<char>) -> (
    TreeView,
    u64,
) {
    if prefix.len() == 0 {
        (add_dir_spec(bump(t), ROOT_INO, dir_name, t.next_ino), t.next_ino)
    } else if t.names.contains_key((ROOT_INO, prefix)) {
        (add_dir_spec(bump(t), t.names[(ROOT_INO, prefix)], dir_name, t.next_ino), t.next_ino)
    } else {
        let t1 = add_dir_spec(bump(t), ROOT_INO, prefix, t.next_ino);
        (add_dir_spec(bump(t1), t.next_ino, dir_name, t1.next_ino), t1.next_ino)
    }
}

/// The attributes of `node` under inode `ino`.
pub fn node_attr(ino: u64, node: &TreeNode) -> (a: NodeAttr)
    ensures
        a == attr_spec(ino, node@),
{
    match node {
        TreeNode::Dir { .. } => NodeAttr {
            ino,
            mtime: None,
            size: 0,
            blocks: 0,
            kind: FileKind::Directory,
            perm: 0o555,
            nlink: 2,
        },
        TreeNode::File { size, mtime, .. } => {
            let q = *size / BLOCK_SIZE;
            let blocks = if *size % BLOCK_SIZE != 0 {
                q + 1
            } else {
                q
            };
            NodeAttr {
                ino,
                mtime: *mtime,
                size: *size,
                blocks,
                kind: FileKind::RegularFile,
                perm: 0o444,
                nlink: 1,
            }
        },
    }
}

impl FileTree {
    /// The attributes of the node under `ino`, if there is one.
    pub fn attr(&self, ino: u64) -> (r: Option<NodeAttr>)
        requires
            self.wf(),
        ensures
            match r {
                Some(a) => self@.nodes.contains_key(ino) && a == attr_spec(ino, self@.nodes[ino]),
                None => !self@.nodes.contains_key(ino),
            },
    {
        match self.get(ino) {
            Some(node) => Some(node_attr(ino, node)),
            None => None,
        }
    }

    /// The answer to looking up `name` in directory `parent`: the
    /// attributes of the node it names, or `NotFound`.
    pub fn lookup_entry(&self, parent: u64, name: &str) -> (r: Result<NodeAttr, FsError>)
        requires
            self.wf(),
        ensures
            match r {
                Ok(a) => self@.names.contains_key((parent, name@)) && self@.nodes.contains_key(
                    self@.names[(parent, name@)],
                ) && a == attr_spec(
                    self@.names[(parent, name@)],
                    self@.nodes[self@.names[(parent, name@)]],
                ),
                Err(e) => e == FsError::NotFound && !(self@.names.contains_key((parent, name@))
                    && self@.nodes.contains_key(self@.names[(parent, name@)])),
            },
    {
        match self.lookup(parent, name) {
            Some(ino) => match self.attr(ino) {
                Some(a) => Ok(a),
                None => Err(FsError::NotFound),
            },
            None => Err(FsError::NotFound),
        }
    }

    /// The entries of directory `ino` from position `offset` on, each with
    /// the offset that follows it; `NotDir` when `ino` is not a directory.
    pub fn readdir_entries(&self, ino: u64, offset: u64) -> (r: Result<Vec<DirEntry>, FsError>)
        requires
            self.wf(),
        ensures
            match r {
                Ok(v) => listing_spec(self@, ino) is Some && {
                    let l = listing_spec(self@, ino)->0;
                    &&& v@.len() == if offset < l.len() {
                        l.len() - offset
                    } else {
                        0
                    }
                    &&& forall|k: int|
                        0 <= k < v@.len() ==> {
                            let e = #[trigger] v@[k];
                            &&& (e.ino, e.kind, e.name@) == l[offset + k]
                            &&& e.next_offset == offset + k + 1
                        }
                },
                Err(e) => e == FsError::NotDir && listing_spec(self@, ino) is None,
            },
    {
        let children = match self.children(ino) {
            Some(c) => c,
            None => {
                return Err(FsError::NotDir);
            },
        };
        let ghost cs = children@.map_values(|p: (String, u64)| (p.0@, p.1));
        let mut all: Vec<(u64, FileKind, String)> = Vec::new();
        if ino != ROOT_INO {
            all.push((ino, FileKind::Directory, ".".to_owned()));
            all.push((ROOT_INO, FileKind::Directory, "..".to_owned()));
        }
        let ghost ndots = all@.len();
        let mut i: usize = 0;
        while i < children.len()
            invariant
                self.wf(),
                children_spec(self@, ino) == Some(cs),
                cs == children@.map_values(|p: (String, u64)| (p.0@, p.1)),
                ndots == (if ino != ROOT_INO {
                    2int
                } else {
                    0int
                }),
                i <= children@.len(),
                all@.len() == ndots + i,
                ino != ROOT_INO ==> all@[0].2@ == "."@ && all@[0].0 == ino && all@[0].1
                    == FileKind::Directory && all@[1].2@ == ".."@ && all@[1].0 == ROOT_INO
                    && all@[1].1 == FileKind::Directory,
                forall|k: int|
                    0 <= k < i ==> {
                        let e = #[trigger] all@[ndots + k];
                        &&& e.0 == cs[k].1
                        &&& e.1 == kind_of(self@, cs[k].1)
                        &&& e.2@ == cs[k].0
                    },
            decreases children@.len() - i,
        {
            let child = children[i].1;
            let kind = match self.get(child) {
                Some(TreeNode::Dir { .. }) => FileKind::Directory,
                _ => FileKind::RegularFile,
            };
            all.push((child, kind, children[i].0.clone()));
            i = i + 1;
        }
        let ghost l = listing_spec(self@, ino)->0;
        proof {
            assert(l.len() == all@.len());
            assert forall|k: int| 0 <= k < all@.len() implies (all@[k].0, all@[k].1, all@[k].2@)
                == l[k] by {
                if k >= ndots {
                    let e = all@[ndots + (k - ndots)];
                }
            }
        }
        let mut out: Vec<DirEntry> = Vec::new();
        let mut j: usize = 0;
        while j < all.len()
            invariant
                j <= all@.len(),
                l.len() == all@.len(),
                forall|k: int| 0 <= k < all@.len() ==> (all@[k].0, all@[k].1, all@[k].2@) == l[k],
                out@.len() == if offset < j {
                    j - offset
                } else {
                    0
                },
                forall|k: int|
                    0 <= k < out@.len() ==> {
                        let e = #[trigger] out@[k];
                        &&& (e.ino, e.kind, e.name@) == l[offset + k]
                        &&& e.next_offset == offset + k + 1
                    },
            decreases all@.len() - j,
        {
            if (j as u64) >= offset {
                let e = &all[j];
                let kind = match e.1 {
                    FileKind::Directory => FileKind::Directory,
                    FileKind::RegularFile => FileKind::RegularFile,
                };
                out.push(DirEntry { ino: e.0, kind, name: e.2.clone(), next_offset: j as u64 + 1 });
            }
            j = j + 1;
        }
        Ok(out)
    }

    /// The answer to opening directory `ino`: its handle (the inode itself),
    /// or `NotDir` for anything that is not a directory.
    pub fn opendir_check(&self, ino: u64) -> (r: Result<u64, FsError>)
        requires
            self.wf(),
        ensures
            match r {
                Ok(fh) => fh == ino && self@.nodes.contains_key(ino) && self@.nodes[ino] is Dir,
                Err(e) => e == FsError::NotDir && !(self@.nodes.contains_key(ino)
                    && self@.nodes[ino] is Dir),
            },
    {
        match self.get(ino) {
            Some(TreeNode::Dir { .. }) => Ok(ino),
            _ => Err(FsError::NotDir),
        }
    }

    /// The answer to an access check on `ino`: allowed when the node exists.
    pub fn access_check(&self, ino: u64) -> (r: Result<(), FsError>)
        requires
            self.wf(),
        ensures
            match r {
                Ok(_) => self@.nodes.contains_key(ino),
                Err(e) => e == FsError::NotFound && !self@.nodes.contains_key(ino),
            },
    {
        match self.get(ino) {
            Some(_) => Ok(()),
            None => Err(FsError::NotFound),
        }
    }

    /// The answer to opening `ino`: its handle (the inode itself) for a
    /// file, `IsDir` for a directory, `NotFound` otherwise.
    pub fn open_check(&self, ino: u64) -> (r: Result<u64, FsError>)
        requires
            self.wf(),
        ensures
            match r {
                Ok(fh) => fh == ino && self@.nodes.contains_key(ino) && self@.nodes[ino] is File,
                Err(FsError::IsDir) => self@.nodes.contains_key(ino) && self@.nodes[ino] is Dir,
                Err(FsError::NotFound) => !self@.nodes.contains_key(ino),
                Err(FsError::NotDir) => false,
            },
    {
        match self.get(ino) {
            Some(TreeNode::File { .. }) => Ok(ino),
            Some(TreeNode::Dir { .. }) => Err(FsError::IsDir),
            None => Err(FsError::NotFound),
        }
    }

    /// What a read of `ino` fetches: the ROM, file name and size of a file
    /// node; `IsDir` for anything else.
    pub fn read_source(&self, ino: u64) -> (r: Result<ReadSource, FsError>)
        requires
            self.wf(),
        ensures
            match r {
                Ok(s) => {
                    &&& self@.nodes.contains_key(ino)
                    &&& self@.nodes[ino] matches NodeView::File { rom_id, file_name, size, .. }
                    &&& s.rom_id == rom_id
                    &&& s.file_name@ == file_name
                    &&& s.size == size
                },
                Err(e) => e == FsError::IsDir && !(self@.nodes.contains_key(ino)
                    && self@.nodes[ino] is File),
            },
    {
        match self.get(ino) {
            Some(TreeNode::File { rom_id, file_name, size, .. }) => Ok(
                ReadSource { rom_id: *rom_id, file_name: file_name.clone(), size: *size },
            ),
            _ => Err(FsError::IsDir),
        }
    }

    /// Adds the directory `dir_name` of a platform: under the root when the
    /// profile has no prefix, else under the prefix directory, which is
    /// created under the root the first time. Returns the new directory's
    /// inode.
    pub fn add_platform_dir(&mut self, prefix: &str, dir_name: String) -> (ino: u64)
        requires
            old(self).wf(),
            old(self)@.next_ino + platform_dir_inodes(old(self)@, prefix@) <= u64::MAX,
        ensures
            final(self).wf(),
            (final(self)@, ino) == platform_dir_added(old(self)@, prefix@, dir_name@),
    {
        let parent = if prefix.is_empty() {
            ROOT_INO
        } else {
            match self.lookup(ROOT_INO, prefix) {
                Some(existing) => existing,
                None => {
                    let prefix_ino = self.allocate_inode();
                    self.add_dir(ROOT_INO, prefix.to_owned(), prefix_ino);
                    prefix_ino
                },
            }
        };
        let dir_ino = self.allocate_inode();
        self.add_dir(parent, dir_name, dir_ino);
        dir_ino
    }
}

/// How many inodes adding a platform directory under `prefix` hands out:
/// one, and one more when the prefix directory has to be created.
pub open spec fn platform_dir_inodes(t: TreeView, prefix: Seq<char>) -> nat {
    if prefix.len() == 0 || t.names.contains_key((ROOT_INO, prefix)) {
        1
    } else {
        2
    }
}

/// The prefix every platform directory of `profile` goes under; empty when
/// there is none.
pub open spec fn prefix_of(profile: ProfileConfig) -> Seq<char> {
    match profile.profile.prefix {
        Some(x) => x@,
        None => Seq::empty(),
    }
}

/// What one platform of the RomM instance does to the tree: nothing when
/// the profile does not map its slug; else its directory is added (see
/// `platform_dir_added`), and its ROMs are to be fetched when it has any.
pub open spec fn platform_step_spec(
    t: TreeView,
    profile: ProfileConfig,
    slug: Seq<char>,
    rom_count: u64,
) -> Option<(TreeView, u64, bool)> {
    match platform_dir_spec(profile.platforms@, slug) {
        None => None,
        Some(dir_name) => {
            let (t1, ino) = platform_dir_added(t, prefix_of(profile), dir_name);
            Some((t1, ino, rom_count > 0))
        },
    }
}

/// The directory a mapped platform got, and whether to fetch its ROMs.
pub struct PlatformStep {
    pub dir_ino: u64,
    pub fetch_roms: bool,
}

impl FileTree {
    /// Whether adding a platform directory under `prefix` stays within the
    /// inode numbers.
    pub fn platform_dir_fits(&self, prefix: &str) -> (r: bool)
        requires
            self.wf(),
        ensures
            r == (self@.next_ino + platform_dir_inodes(self@, prefix@) <= u64::MAX),
    {
        let need: u64 = if prefix.is_empty() {
            1
        } else {
            match self.lookup(ROOT_INO, prefix) {
                Some(_) => 1,
                None => 2,
            }
        };
        self.next_inode() <= u64::MAX - need
    }

    /// One platform of the RomM instance, as the mount sets it up: when the
    /// profile maps `slug` to a directory name, that directory is added
    /// under the profile's prefix and returned with whether the platform's
    /// ROMs (`rom_count` of them) are to be fetched; otherwise the tree is
    /// left as it is.
    pub fn add_platform(&mut self, profile: &ProfileConfig, slug: &str, rom_count: u64) -> (r: Option<
        PlatformStep,
    >)
        requires
            old(self).wf(),
            unique_slugs(profile.platforms@),
            platform_dir_spec(profile.platforms@, slug@) is Some ==> old(self)@.next_ino
                + platform_dir_inodes(old(self)@, prefix_of(*profile)) <= u64::MAX,
        ensures
            final(self).wf(),
            match platform_step_spec(old(self)@, *profile, slug@, rom_count) {
                None => r is None && final(self)@ == old(self)@,
                Some((t1, ino, fetch)) => r matches Some(step) && final(self)@ == t1
                    && step.dir_ino == ino && step.fetch_roms == fetch,
            },
    {
        match profile.platform_dir(slug) {
            None => None,
            Some(dir_name) => {
                let ino = self.add_platform_dir(profile.prefix(), dir_name.clone());
                Some(PlatformStep { dir_ino: ino, fetch_roms: rom_count > 0 })
            },
        }
    }
}

/// After a node is added as `name` in `parent` under an inode other than
/// `parent`, looking `name` up in `parent` answers with that node's
/// attributes.
pub proof fn law_lookup_entry_after_add(
    t: TreeView,
    parent: u64,
    name: Seq<char>,
    ino: u64,
    node: NodeView,
)
    requires
        ino != parent,
    ensures
        ({
            let t1 = add_node(t, parent, name, ino, node);
            &&& t1.names.contains_key((parent, name))
            &&& t1.nodes.contains_key(t1.names[(parent, name)])
            &&& attr_spec(t1.names[(parent, name)], t1.nodes[t1.names[(parent, name)]]) == attr_spec(
                ino,
                node,
            )
        }),
{
}

/// With a prefix, every platform directory goes under the same prefix
/// directory: the one looked up under the root by the prefix's name.
pub proof fn law_platform_dirs_share_prefix(
    t: TreeView,
    prefix: Seq<char>,
    name1: Seq<char>,
    name2: Seq<char>,
)
    requires
        prefix.len() > 0,
        name1 != prefix,
    ensures
        ({
            let (t1, d1) = platform_dir_added(t, prefix, name1);
            let (t2, d2) = platform_dir_added(t1, prefix, name2);
            &&& t1.names.contains_key((ROOT_INO, prefix))
            &&& t1.parent[d1] == t1.names[(ROOT_INO, prefix)]
            &&& t2.parent[d2] == t1.parent[d1]
        }),
{
}

/// The tree after the platforms of a RomM instance have been taken in
/// order, each a slug with its ROM count, one `platform_step_spec` at a time.
pub open spec fn platforms_added(
    t: TreeView,
    profile: ProfileConfig,
    plats: Seq<(Seq<char>, u64)>,
) -> TreeView
    decreases plats.len(),
{
    if plats.len() == 0 {
        t
    } else {
        let prev = platforms_added(t, profile, plats.drop_last());
        match platform_step_spec(prev, profile, plats.last().0, plats.last().1) {
            None => prev,
            Some((t1, _, _)) => t1,
        }
    }
}

/// What the platform steps rely on of a tree: every inode in use lies below
/// the next one, the root is a directory with no parent, and each indexed
/// name leads to a node whose parent is the directory it is indexed under.
pub open spec fn dirs_linked(t: TreeView) -> bool {
    &&& t.next_ino >= 2
    &&& forall|i: u64| #[trigger] t.nodes.contains_key(i) ==> i < t.next_ino
    &&& t.nodes.contains_key(ROOT_INO)
    &&& t.nodes[ROOT_INO] is Dir
    &&& !t.parent.contains_key(ROOT_INO)
    &&& forall|k: (u64, Seq<char>)|
        #[trigger] t.names.contains_key(k) ==> {
            &&& t.nodes.contains_key(t.names[k])
            &&& t.parent.contains_key(t.names[k])
            &&& t.parent[t.names[k]] == k.0
            &&& t.nodes.contains_key(k.0)
            &&& t.nodes[k.0] is Dir
        }
}

/// The directory platform directories go under: the root without a prefix,
/// else the one indexed under the root by the prefix's name.
pub open spec fn prefix_dir(t: TreeView, prefix: Seq<char>) -> u64 {
    if prefix.len() == 0 {
        ROOT_INO
    } else {
        t.names[(ROOT_INO, prefix)]
    }
}

/// A prefix directory, where there is one, is a directory.
pub open spec fn prefix_is_dir(t: TreeView, prefix: Seq<char>) -> bool {
    prefix.len() > 0 && t.names.contains_key((ROOT_INO, prefix)) ==> t.nodes[t.names[(
        ROOT_INO,
        prefix,
    )]] is Dir
}

/// The platform directory `name` is there: the prefix directory exists
/// when there is a prefix, and `name` leads from it to a directory whose
/// parent it is.
pub open spec fn platform_dir_found(t: TreeView, prefix: Seq<char>, name: Seq<char>) -> bool {
    let pd = prefix_dir(t, prefix);
    &&& prefix.len() > 0 ==> t.names.contains_key((ROOT_INO, prefix))
    &&& t.names.contains_key((pd, name))
    &&& t.nodes[t.names[(pd, name)]] is Dir
    &&& t.parent[t.names[(pd, name)]] == pd
}

/// A new tree meets what the platform steps rely on, whatever the prefix.
pub proof fn law_initial_dirs_linked(prefix: Seq<char>)
    ensures
        dirs_linked(initial_tree()),
        prefix_is_dir(initial_tree(), prefix),
{
}

/// Adding an empty directory under the next inode, in an existing
/// directory, keeps the links and leaves every indexed name and every node
/// in place, each directory still a directory.
proof fn lemma_add_dir_linked(t: TreeView, p: u64, name: Seq<char>)
    requires
        dirs_linked(t),
        t.next_ino < u64::MAX,
        t.nodes.contains_key(p),
        t.nodes[p] is Dir,
    ensures
        ({
            let t1 = add_dir_spec(bump(t), p, name, t.next_ino);
            &&& dirs_linked(t1)
            &&& t1.next_ino == t.next_ino + 1
            &&& t1.names.contains_key((p, name))
            &&& t1.names[(p, name)] == t.next_ino
            &&& t1.nodes[t.next_ino] is Dir
            &&& forall|k: (u64, Seq<char>)|
                #[trigger] t.names.contains_key(k) && k != (p, name) ==> t1.names.contains_key(k)
                    && t1.names[k] == t.names[k]
            &&& forall|i: u64|
                #[trigger] t.nodes.contains_key(i) ==> t1.nodes.contains_key(i) && (t.nodes[i] is Dir
                    ==> t1.nodes[i] is Dir)
        }),
{
    let ino = t.next_ino;
    let t1 = add_dir_spec(bump(t), p, name, ino);
    assert(!t.nodes.contains_key(ino));
    assert forall|i: u64| #[trigger] t.nodes.contains_key(i) implies t1.nodes.contains_key(i) && (
    t.nodes[i] is Dir ==> t1.nodes[i] is Dir) by {
        assert(i != ino);
    }
    assert forall|i: u64| #[trigger] t1.nodes.contains_key(i) implies i < t1.next_ino by {
        if i != ino && i != p {
            assert(t.nodes.contains_key(i));
        }
    }
    assert forall|k: (u64, Seq<char>)| #[trigger] t1.names.contains_key(k) implies {
        &&& t1.nodes.contains_key(t1.names[k])
        &&& t1.parent.contains_key(t1.names[k])
        &&& t1.parent[t1.names[k]] == k.0
        &&& t1.nodes.contains_key(k.0)
        &&& t1.nodes[k.0] is Dir
    } by {
        if k != (p, name) {
            assert(t.names.contains_key(k));
            assert(t.names[k] != ino);
            assert(t.nodes.contains_key(k.0));
        }
    }
}

/// One platform directory added under `prefix` keeps the links, finds the
/// new directory, and keeps finding every platform directory found before.
proof fn lemma_platform_dir_step(t: TreeView, prefix: Seq<char>, name: Seq<char>)
    requires
        dirs_linked(t),
        prefix_is_dir(t, prefix),
        t.next_ino + 2 <= u64::MAX,
    ensures
        ({
            let t1 = platform_dir_added(t, prefix, name).0;
            &&& dirs_linked(t1)
            &&& prefix_is_dir(t1, prefix)
            &&& t.next_ino < t1.next_ino <= t.next_ino + 2
            &&& platform_dir_found(t1, prefix, name)
            &&& forall|n: Seq<char>| #[trigger]
                platform_dir_found(t, prefix, n) ==> platform_dir_found(t1, prefix, n)
        }),
{
    let ino = t.next_ino;
    let t1 = platform_dir_added(t, prefix, name).0;
    if prefix.len() == 0 {
        lemma_add_dir_linked(t, ROOT_INO, name);
        assert forall|n: Seq<char>| #[trigger]
            platform_dir_found(t, prefix, n) implies platform_dir_found(t1, prefix, n) by {
            if n != name {
                assert(t.names.contains_key((ROOT_INO, n)));
            }
        }
    } else if t.names.contains_key((ROOT_INO, prefix)) {
        let pd = t.names[(ROOT_INO, prefix)];
        assert(t.nodes.contains_key(pd));
        assert(t.parent.contains_key(pd));
        assert(pd != ROOT_INO);
        lemma_add_dir_linked(t, pd, name);
        assert(t1.names[(ROOT_INO, prefix)] == pd);
        assert forall|n: Seq<char>| #[trigger]
            platform_dir_found(t, prefix, n) implies platform_dir_found(t1, prefix, n) by {
            if n != name {
                assert(t.names.contains_key((pd, n)));
            }
        }
    } else {
        let t0 = add_dir_spec(bump(t), ROOT_INO, prefix, ino);
        lemma_add_dir_linked(t, ROOT_INO, prefix);
        assert(t0.nodes.contains_key(ino));
        lemma_add_dir_linked(t0, ino, name);
        assert(ino != ROOT_INO);
        assert(t1.names[(ROOT_INO, prefix)] == ino);
        assert forall|n: Seq<char>| #[trigger]
            platform_dir_found(t, prefix, n) implies platform_dir_found(t1, prefix, n) by {
        }
    }
}

/// Setting up the platforms of a RomM instance one after another keeps the
/// tree linked, hands out at most two inodes a platform, and leaves the
/// directory of every platform the profile maps in the tree: a directory
/// indexed by its name under the prefix directory (or the root), whose
/// parent that directory is.
pub proof fn law_platforms_added(t: TreeView, profile: ProfileConfig, plats: Seq<(Seq<char>, u64)>)
    requires
        dirs_linked(t),
        prefix_is_dir(t, prefix_of(profile)),
        t.next_ino + 2 * plats.len() <= u64::MAX,
    ensures
        ({
            let f = platforms_added(t, profile, plats);
            &&& dirs_linked(f)
            &&& prefix_is_dir(f, prefix_of(profile))
            &&& t.next_ino <= f.next_ino <= t.next_ino + 2 * plats.len()
            &&& forall|i: int|
                0 <= i < plats.len() && #[trigger] platform_dir_spec(profile.platforms@, plats[i].0)
                    is Some ==> platform_dir_found(
                    f,
                    prefix_of(profile),
                    platform_dir_spec(profile.platforms@, plats[i].0)->0,
                )
        }),
    decreases plats.len(),
{
    if plats.len() > 0 {
        let rest = plats.drop_last();
        law_platforms_added(t, profile, rest);
        let prev = platforms_added(t, profile, rest);
        let f = platforms_added(t, profile, plats);
        let prefix = prefix_of(profile);
        let last = plats.last();
        match platform_dir_spec(profile.platforms@, last.0) {
            None => {
                assert forall|i: int|
                    0 <= i < plats.len() && #[trigger] platform_dir_spec(profile.platforms@, plats[i].0)
                        is Some implies platform_dir_found(
                    f,
                    prefix,
                    platform_dir_spec(profile.platforms@, plats[i].0)->0,
                ) by {
                    assert(i < rest.len());
                    assert(rest[i] == plats[i]);
                }
            },
            Some(name) => {
                lemma_platform_dir_step(prev, prefix, name);
                assert forall|i: int|
                    0 <= i < plats.len() && #[trigger] platform_dir_spec(profile.platforms@, plats[i].0)
                        is Some implies platform_dir_found(
                    f,
                    prefix,
                    platform_dir_spec(profile.platforms@, plats[i].0)->0,
                ) by {
                    if i < rest.len() {
                        assert(rest[i] == plats[i]);
                        assert(platform_dir_found(
                            prev,
                            prefix,
                            platform_dir_spec(profile.platforms@, rest[i].0)->0,
                        ));
                    }
                }
            },
        }
    }
}

/// A file's attributes report its own size, in full, and the 512-byte
/// blocks that size takes (rounded up), read-only for all with one link
/// and the file's modification time; a directory's report size 0, mode
/// 0o555 and two links. The inode reported is the one asked about.
pub proof fn law_attr_reports_node(ino: u64, n: NodeView)
    ensures
        attr_spec(ino, n).ino == ino,
        n is File ==> {
            let a = attr_spec(ino, n);
            &&& a.size == n->File_size
            &&& a.blocks * 512 >= n->File_size
            &&& a.blocks * 512 < n->File_size + 512
            &&& a.kind == FileKind::RegularFile
            &&& a.mtime == n->File_mtime
            &&& a.perm == 0o444
            &&& a.nlink == 1
        },
        n is Dir ==> {
            let a = attr_spec(ino, n);
            &&& a.size == 0
            &&& a.blocks == 0
            &&& a.kind == FileKind::Directory
            &&& a.mtime is None
            &&& a.perm == 0o555
            &&& a.nlink == 2
        },
{
    if let NodeView::File { size, .. } = n {
        let b = (size + 511) / 512;
        assert(b * 512 >= size && b * 512 < size + 512) by (nonlinear_arith)
            requires
                b == (size + 511) / 512,
                size >= 0,
        ;
        assert(b <= u64::MAX);
    }
}

/// A directory can be listed exactly when it is a directory of the tree.
/// Its listing starts with `.` (itself) and `..` (the root), except in the
/// root, and then has one entry per child, in the order the children were
/// added: the child's name, the inode recorded under that name in the
/// directory, and the kind of that inode's own node.
pub proof fn law_listing_entries(t: TreeView, d: u64)
    ensures
        listing_spec(t, d) is Some <==> (t.nodes.contains_key(d) && t.nodes[d] is Dir),
        listing_spec(t, d) is Some ==> {
            let l = listing_spec(t, d)->0;
            let cs = t.nodes[d]->Dir_children;
            let n: int = if d != ROOT_INO {
                2
            } else {
                0
            };
            &&& l.len() == n + cs.len()
            &&& d != ROOT_INO ==> l[0] == (d, FileKind::Directory, "."@) && l[1] == (
                ROOT_INO,
                FileKind::Directory,
                ".."@,
            )
            &&& forall|k: int|
                n <= k < l.len() ==> {
                    let e = #[trigger] l[k];
                    &&& e.2 == cs[k - n]
                    &&& e.0 == t.names[(d, cs[k - n])]
                    &&& (e.1 == FileKind::Directory <==> (t.nodes.contains_key(e.0)
                        && t.nodes[e.0] is Dir))
                    &&& (e.1 == FileKind::RegularFile <==> !(t.nodes.contains_key(e.0)
                        && t.nodes[e.0] is Dir))
                }
        },
{
    if let Some(l) = listing_spec(t, d) {
        let cs = t.nodes[d]->Dir_children;
        let n: int = if d != ROOT_INO {
            2
        } else {
            0
        };
        assert forall|k: int| n <= k < l.len() implies {
            let e = #[trigger] l[k];
            &&& e.2 == cs[k - n]
            &&& e.0 == t.names[(d, cs[k - n])]
            &&& (e.1 == FileKind::Directory <==> (t.nodes.contains_key(e.0) && t.nodes[e.0] is Dir))
            &&& (e.1 == FileKind::RegularFile <==> !(t.nodes.contains_key(e.0) && t.nodes[e.0] is Dir))
        } by {
            let c = children_spec(t, d)->0;
            assert(l[k] == (c[k - n].1, kind_of(t, c[k - n].1), c[k - n].0));
        }
    }
}

/// A platform is set up exactly when the profile maps its slug. Its ROMs
/// are to be fetched exactly when it has any, and the directory handed back
/// is a new, empty directory named as the profile says, found under that
/// name in the prefix directory (or the root), one or two inodes on.
pub proof fn law_platform_step(t: TreeView, profile: ProfileConfig, slug: Seq<char>, rom_count: u64)
    requires
        dirs_linked(t),
        prefix_is_dir(t, prefix_of(profile)),
        t.next_ino + 2 <= u64::MAX,
    ensures
        platform_step_spec(t, profile, slug, rom_count) is Some <==> platform_dir_spec(
            profile.platforms@,
            slug,
        ) is Some,
        platform_step_spec(t, profile, slug, rom_count) is Some ==> {
            let (t1, ino, fetch) = platform_step_spec(t, profile, slug, rom_count)->0;
            let name = platform_dir_spec(profile.platforms@, slug)->0;
            let pd = prefix_dir(t1, prefix_of(profile));
            &&& fetch <==> rom_count > 0
            &&& !t.nodes.contains_key(ino)
            &&& t.next_ino <= ino <= t.next_ino + 1
            &&& t1.names.get((pd, name)) == Some(ino)
            &&& t1.nodes.get(ino) == Some(NodeView::Dir { name, children: Seq::empty() })
            &&& t1.parent.get(ino) == Some(pd)
            &&& dirs_linked(t1)
        },
{
    if let Some(name) = platform_dir_spec(profile.platforms@, slug) {
        let prefix = prefix_of(profile);
        lemma_platform_dir_step(t, prefix, name);
        let ino0 = t.next_ino;
        if prefix.len() == 0 {
        } else if t.names.contains_key((ROOT_INO, prefix)) {
            let pd = t.names[(ROOT_INO, prefix)];
            assert(t.nodes.contains_key(pd));
            assert(pd < ino0);
        } else {
            let t0 = add_dir_spec(bump(t), ROOT_INO, prefix, ino0);
            lemma_add_dir_linked(t, ROOT_INO, prefix);
            assert(t0.nodes.contains_key(ino0));
        }
    }
}

/// Platform directories go under the prefix the profile names, and
/// straight under the root when it names none.
pub proof fn law_prefix_is_profiles(profile: ProfileConfig)
    ensures
        profile.profile.prefix is Some ==> prefix_of(profile) == profile.profile.prefix->0@,
        profile.profile.prefix is None ==> prefix_of(profile).len() == 0,
        prefix_dir(initial_tree(), Seq::empty()) == ROOT_INO,
{
}

} // verus!
