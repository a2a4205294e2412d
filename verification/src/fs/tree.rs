//! The in-memory directory tree: platforms, ROM folders and ROM files, each
//! under an inode number.
use std::collections::HashMap;
use vstd::prelude::*;

use crate::api::types::{RomFile, SimpleRom};
use crate::config::unique_slugs;
use crate::timestamp::{parse_timestamp, timestamp_secs};

verus! {

broadcast use vstd::std_specs::hash::group_hash_axioms;

/// The inode of the root directory.
pub const ROOT_INO: u64 = 1;

/// A node of the tree: a directory with the names of its children in the
/// order they were added, or a file that stands for (part of) a ROM.
pub enum TreeNode {
    Dir { name: String, children: Vec<String> },
    File {
        name: String,
        rom_id: u64,
        file_id: Option<u64>,
        file_name: String,
        size: u64,
        mtime: Option<u64>,
    },
}

/// What a node holds, with its strings as character sequences.
pub enum NodeView {
    Dir { name: Seq<char>, children: Seq<Seq<char>> },
    File {
        name: Seq<char>,
        rom_id: u64,
        file_id: Option<u64>,
        file_name: Seq<char>,
        size: u64,
        mtime: Option<u64>,
    },
}

pub open spec fn string_seq_view(v: Seq<String>) -> Seq<Seq<char>> {
    v.map_values(|s: String| s@)
}

impl View for TreeNode {
    type V = NodeView;

    open spec fn view(&self) -> NodeView {
        match self {
            TreeNode::Dir { name, children } => NodeView::Dir {
                name: name@,
                children: string_seq_view(children@),
            },
            TreeNode::File { name, rom_id, file_id, file_name, size, mtime } => NodeView::File {
                name: name@,
                rom_id: *rom_id,
                file_id: *file_id,
                file_name: file_name@,
                size: *size,
                mtime: *mtime,
            },
        }
    }
}

/// The state of a tree: its nodes, the (parent, name) index, each node's
/// parent, and the next inode `allocate_inode` hands out.
pub struct TreeView {
    pub nodes: Map<u64, NodeView>,
    pub names: Map<(u64, Seq<char>), u64>,
    pub parent: Map<u64, u64>,
    pub next_ino: u64,
}

/// The tree right after `FileTree::new`: an empty root directory.
pub open spec fn initial_tree() -> TreeView {
    TreeView {
        nodes: Map::empty().insert(
            ROOT_INO,
            NodeView::Dir { name: Seq::empty(), children: Seq::empty() },
        ),
        names: Map::empty(),
        parent: Map::empty(),
        next_ino: 2,
    }
}

/// Places `node` under inode `ino`, records it under `(parent, name)`, and,
/// when `parent` is then a directory, appends `name` to its children.
pub open spec fn add_node(t: TreeView, parent: u64, name: Seq<char>, ino: u64, node: NodeView) -> TreeView {
    let nodes1 = t.nodes.insert(ino, node);
    let nodes2 = match nodes1[parent] {
        NodeView::Dir { name: dname, children } => if nodes1.contains_key(parent) {
            nodes1.insert(parent, NodeView::Dir { name: dname, children: children.push(name) })
        } else {
            nodes1
        },
        _ => nodes1,
    };
    TreeView {
        nodes: nodes2,
        names: t.names.insert((parent, name), ino),
        parent: t.parent.insert(ino, parent),
        next_ino: t.next_ino,
    }
}

/// `add_node` with an empty directory named `name`.
pub open spec fn add_dir_spec(t: TreeView, parent: u64, name: Seq<char>, ino: u64) -> TreeView {
    add_node(t, parent, name, ino, NodeView::Dir { name, children: Seq::empty() })
}

/// `add_node` with a file node.
pub open spec fn add_file_spec(
    t: TreeView,
    parent: u64,
    name: Seq<char>,
    ino: u64,
    rom_id: u64,
    file_id: Option<u64>,
    file_name: Seq<char>,
    size: u64,
    mtime: Option<u64>,
) -> TreeView {
    add_node(t, parent, name, ino, NodeView::File { name, rom_id, file_id, file_name, size, mtime })
}

/// The tree after one inode has been handed out.
pub open spec fn bump(t: TreeView) -> TreeView {
    TreeView { next_ino: (t.next_ino + 1) as u64, ..t }
}

/// Every name listed among a directory's children can be looked up under
/// that directory.
pub open spec fn children_resolve(t: TreeView) -> bool {
    forall|d: u64, i: int|
        #![trigger t.nodes[d]->Dir_children[i]]
        t.nodes.contains_key(d) && t.nodes[d] is Dir && 0 <= i < t.nodes[d]->Dir_children.len()
            ==> t.names.contains_key((d, t.nodes[d]->Dir_children[i]))
}

/// What `children` lists for a directory: each child's name with the inode
/// recorded for it, in the order the children were added.
pub open spec fn children_spec(t: TreeView, ino: u64) -> Option<Seq<(Seq<char>, u64)>> {
    if t.nodes.contains_key(ino) && t.nodes[ino] is Dir {
        let cs = t.nodes[ino]->Dir_children;
        Some(Seq::new(cs.len(), |k: int| (cs[k], t.names[(ino, cs[k])])))
    } else {
        None
    }
}

/// The directory inode that the first pair of `dirs` naming `slug` gives.
pub open spec fn dir_for(dirs: Seq<(String, u64)>, slug: Seq<char>) -> Option<u64>
    decreases dirs.len(),
{
    if dirs.len() == 0 {
        None
    } else if dirs[0].0@ == slug {
        Some(dirs[0].1)
    } else {
        dir_for(dirs.drop_first(), slug)
    }
}

/// The files of a multi-file ROM, each added under a fresh inode inside
/// `folder`, in order.
pub open spec fn add_rom_files(
    t: TreeView,
    folder: u64,
    rom_id: u64,
    mtime: Option<u64>,
    files: Seq<RomFile>,
) -> TreeView
    decreases files.len(),
{
    if files.len() == 0 {
        t
    } else {
        let t0 = add_rom_files(t, folder, rom_id, mtime, files.drop_last());
        let f = files.last();
        add_file_spec(
            bump(t0),
            folder,
            f.file_name@,
            t0.next_ino,
            rom_id,
            Some(f.id),
            f.file_name@,
            f.file_size_bytes,
            mtime,
        )
    }
}

/// The modification time of a ROM's files: its `updated_at`, read as
/// seconds since the epoch, when it is a timestamp.
pub open spec fn rom_mtime(rom: SimpleRom) -> Option<u64> {
    match rom.updated_at {
        Some(u) => timestamp_secs(u@),
        None => None,
    }
}

/// One ROM placed in the tree. A ROM whose platform has no directory is
/// left out; a ROM with several files becomes a folder (named after the ROM
/// without its extension) holding one node per file; any other ROM becomes
/// one file named `fs_name`.
pub open spec fn add_rom(t: TreeView, dirs: Seq<(String, u64)>, rom: SimpleRom) -> TreeView {
    match dir_for(dirs, rom.platform_slug@) {
        None => t,
        Some(d) => if rom.has_multiple_files && rom.files@.len() > 0 {
            add_rom_files(
                add_dir_spec(bump(t), d, rom.fs_name_no_ext@, t.next_ino),
                t.next_ino,
                rom.id,
                rom_mtime(rom),
                rom.files@,
            )
        } else {
            add_file_spec(
                bump(t),
                d,
                rom.fs_name@,
                t.next_ino,
                rom.id,
                if rom.files@.len() > 0 {
                    Some(rom.files@[0].id)
                } else {
                    None
                },
                rom.fs_name@,
                rom.fs_size_bytes,
                rom_mtime(rom),
            )
        },
    }
}

/// All ROMs placed in the tree, in order.
pub open spec fn add_roms(t: TreeView, dirs: Seq<(String, u64)>, roms: Seq<SimpleRom>) -> TreeView
    decreases roms.len(),
{
    if roms.len() == 0 {
        t
    } else {
        add_rom(add_roms(t, dirs, roms.drop_last()), dirs, roms.last())
    }
}

/// How many inodes placing `rom` hands out.
pub open spec fn rom_inodes(dirs: Seq<(String, u64)>, rom: SimpleRom) -> nat {
    match dir_for(dirs, rom.platform_slug@) {
        None => 0,
        Some(_) => if rom.has_multiple_files && rom.files@.len() > 0 {
            1 + rom.files@.len()
        } else {
            1
        },
    }
}

/// How many inodes placing all of `roms` hands out.
pub open spec fn roms_inodes(dirs: Seq<(String, u64)>, roms: Seq<SimpleRom>) -> nat
    decreases roms.len(),
{
    if roms.len() == 0 {
        0
    } else {
        roms_inodes(dirs, roms.drop_last()) + rom_inodes(dirs, roms.last())
    }
}

proof fn lemma_roms_inodes_prefix(dirs: Seq<(String, u64)>, roms: Seq<SimpleRom>, j: int)
    requires
        0 <= j <= roms.len(),
    ensures
        roms_inodes(dirs, roms.take(j)) <= roms_inodes(dirs, roms),
    decreases roms.len(),
{
    if j < roms.len() {
        lemma_roms_inodes_prefix(dirs, roms.drop_last(), j);
        assert(roms.drop_last().take(j) =~= roms.take(j));
    } else {
        assert(roms.take(j) =~= roms);
    }
}

proof fn lemma_dir_for_skip(dirs: Seq<(String, u64)>, slug: Seq<char>, i: int)
    requires
        0 <= i <= dirs.len(),
        forall|j: int| 0 <= j < i ==> dirs[j].0@ != slug,
    ensures
        dir_for(dirs, slug) == dir_for(dirs.skip(i), slug),
    decreases i,
{
    if i > 0 {
        lemma_dir_for_skip(dirs, slug, i - 1);
        assert(dirs.skip(i - 1).drop_first() =~= dirs.skip(i));
    } else {
        assert(dirs.skip(0) =~= dirs);
    }
}

/// What holds of every tree: each child a directory lists resolves through
/// the name index, and inodes are handed out from 2 on, so never the root.
pub open spec fn tree_inv(t: TreeView) -> bool {
    &&& children_resolve(t)
    &&& t.next_ino >= 2
}

/// One entry of the (parent, name) index.
struct NameEntry {
    parent: u64,
    name: String,
    ino: u64,
}

spec fn key_of(e: NameEntry) -> (u64, Seq<char>) {
    (e.parent, e.name@)
}

/// The map that a list of index entries stands for; a later entry wins.
spec fn names_map(s: Seq<NameEntry>) -> Map<(u64, Seq<char>), u64>
    decreases s.len(),
{
    if s.len() == 0 {
        Map::empty()
    } else {
        names_map(s.drop_last()).insert(key_of(s.last()), s.last().ino)
    }
}

spec fn unique_keys(s: Seq<NameEntry>) -> bool {
    forall|i: int, j: int| 0 <= i < j < s.len() ==> key_of(s[i]) != key_of(s[j])
}

proof fn lemma_names_map_dom(s: Seq<NameEntry>, k: (u64, Seq<char>))
    ensures
        names_map(s).contains_key(k) <==> exists|i: int| 0 <= i < s.len() && key_of(s[i]) == k,
    decreases s.len(),
{
    if s.len() > 0 {
        lemma_names_map_dom(s.drop_last(), k);
        if names_map(s).contains_key(k) && key_of(s.last()) != k {
            let i = choose|i: int| 0 <= i < s.drop_last().len() && key_of(s.drop_last()[i]) == k;
            assert(key_of(s[i]) == k);
        }
        if exists|i: int| 0 <= i < s.len() && key_of(s[i]) == k {
            let i = choose|i: int| 0 <= i < s.len() && key_of(s[i]) == k;
            if i < s.len() - 1 {
                assert(key_of(s.drop_last()[i]) == k);
            }
        }
    }
}

proof fn lemma_names_map_value(s: Seq<NameEntry>, i: int)
    requires
        unique_keys(s),
        0 <= i < s.len(),
    ensures
        names_map(s).contains_key(key_of(s[i])),
        names_map(s)[key_of(s[i])] == s[i].ino,
    decreases s.len(),
{
    if i < s.len() - 1 {
        lemma_names_map_value(s.drop_last(), i);
    }
}

proof fn lemma_names_map_update(s: Seq<NameEntry>, i: int, e: NameEntry)
    requires
        unique_keys(s),
        0 <= i < s.len(),
        key_of(e) == key_of(s[i]),
    ensures
        names_map(s.update(i, e)) == names_map(s).insert(key_of(e), e.ino),
    decreases s.len(),
{
    let u = s.update(i, e);
    if i == s.len() - 1 {
        assert(u.drop_last() =~= s.drop_last());
        assert(names_map(u) =~= names_map(s).insert(key_of(e), e.ino));
    } else {
        assert(u.drop_last() =~= s.drop_last().update(i, e));
        lemma_names_map_update(s.drop_last(), i, e);
        assert(names_map(u) =~= names_map(s).insert(key_of(e), e.ino));
    }
}

/// The directory tree. Its state is `view()`; `wf` is kept by every method.
pub struct FileTree {
    nodes: HashMap<u64, TreeNode>,
    names: Vec<NameEntry>,
    parent: HashMap<u64, u64>,
    next_ino: u64,
}

impl View for FileTree {
    type V = TreeView;

    closed spec fn view(&self) -> TreeView {
        TreeView {
            nodes: self.nodes@.map_values(|n: TreeNode| n@),
            names: names_map(self.names@),
            parent: self.parent@,
            next_ino: self.next_ino,
        }
    }
}

impl Default for FileTree {
    /// The same tree as `FileTree::new`.
    fn default() -> (tree: Self)
        ensures
            tree.wf(),
            tree@ == initial_tree(),
    {
        FileTree::new()
    }
}

impl FileTree {
    /// The tree's internal invariant: the name index has one entry per key,
    /// and `tree_inv` holds.
    pub closed spec fn wf(&self) -> bool {
        &&& unique_keys(self.names@)
        &&& tree_inv(self@)
    }

    /// An empty root directory under `ROOT_INO`; inodes are handed out from 2.
    pub fn new() -> (tree: Self)
        ensures
            tree.wf(),
            tree@ == initial_tree(),
    {
        let mut nodes: HashMap<u64, TreeNode> = HashMap::new();
        nodes.insert(ROOT_INO, TreeNode::Dir { name: String::new(), children: Vec::new() });
        let tree = FileTree { nodes, names: Vec::new(), parent: HashMap::new(), next_ino: 2 };
        proof {
            assert(string_seq_view(Seq::<String>::empty()) =~= Seq::empty());
            assert(tree@.nodes =~= initial_tree().nodes);
            assert(tree@.names =~= Map::empty());
        }
        tree
    }

    /// Hands out the next inode number.
    pub fn allocate_inode(&mut self) -> (ino: u64)
        requires
            old(self).wf(),
            old(self)@.next_ino < u64::MAX,
        ensures
            final(self).wf(),
            ino == old(self)@.next_ino,
            ino >= 2,
            final(self)@ == bump(old(self)@),
    {
        let ino = self.next_ino;
        self.next_ino = self.next_ino + 1;
        ino
    }

    /// The inode recorded under `name` in directory `parent`, if any.
    pub fn lookup(&self, parent: u64, name: &str) -> (r: Option<u64>)
        requires
            self.wf(),
        ensures
            r == self@.names.get((parent, name@)),
    {
        let key = name.to_owned();
        self.find_name(parent, &key)
    }

    fn find_name(&self, parent: u64, name: &String) -> (r: Option<u64>)
        requires
            self.wf(),
        ensures
            r == self@.names.get((parent, name@)),
            r is None ==> forall|i: int| 0 <= i < self.names@.len() ==> key_of(self.names@[i]) != (parent, name@),
            r is Some ==> exists|i: int| 0 <= i < self.names@.len() && key_of(self.names@[i]) == (parent, name@),
    {
        let mut i: usize = 0;
        while i < self.names.len()
            invariant
                self.wf(),
                i <= self.names@.len(),
                forall|j: int| 0 <= j < i ==> key_of(self.names@[j]) != (parent, name@),
            decreases self.names@.len() - i,
        {
            let e = &self.names[i];
            if e.parent == parent && e.name == *name {
                proof {
                    lemma_names_map_value(self.names@, i as int);
                }
                return Some(e.ino);
            }
            i = i + 1;
        }
        proof {
            lemma_names_map_dom(self.names@, (parent, name@));
        }
        None
    }

    /// Records `ino` under `(parent, name)`, replacing an earlier record of
    /// that key in place.
    fn record_name(&mut self, parent: u64, name: String, ino: u64)
        requires
            unique_keys(old(self).names@),
        ensures
            unique_keys(final(self).names@),
            names_map(final(self).names@) == names_map(old(self).names@).insert((parent, name@), ino),
            final(self).nodes == old(self).nodes,
            final(self).parent == old(self).parent,
            final(self).next_ino == old(self).next_ino,
    {
        let mut i: usize = 0;
        while i < self.names.len()
            invariant
                self.names == old(self).names,
                self.nodes == old(self).nodes,
                self.parent == old(self).parent,
                self.next_ino == old(self).next_ino,
                unique_keys(self.names@),
                i <= self.names@.len(),
                forall|j: int| 0 <= j < i ==> key_of(self.names@[j]) != (parent, name@),
            decreases self.names@.len() - i,
        {
            if self.names[i].parent == parent && self.names[i].name == name {
                let e = NameEntry { parent, name, ino };
                proof {
                    lemma_names_map_update(self.names@, i as int, e);
                }
                self.names.set(i, e);
                return;
            }
            i = i + 1;
        }
        let e = NameEntry { parent, name, ino };
        self.names.push(e);
        proof {
            assert(self.names@.drop_last() =~= old(self).names@);
        }
    }

    /// Shared body of `add_dir` and `add_file`.
    fn add_node(&mut self, parent: u64, name: String, ino: u64, node: TreeNode)
        requires
            old(self).wf(),
            node@ is File || node@->Dir_children.len() == 0,
        ensures
            final(self).wf(),
            final(self)@ == add_node(old(self)@, parent, name@, ino, node@),
    {
        let ghost t0 = self@;
        let ghost nv = node@;
        self.nodes.insert(ino, node);
        self.record_name(parent, name.clone(), ino);
        self.parent.insert(ino, parent);
        let ghost mid = self.nodes@;
        let ghost nodes1 = t0.nodes.insert(ino, nv);
        proof {
            assert(mid.map_values(|n: TreeNode| n@) =~= nodes1);
        }
        match self.nodes.remove(&parent) {
            Some(TreeNode::Dir { name: dname, mut children }) => {
                let ghost old_children = children@;
                children.push(name);
                self.nodes.insert(parent, TreeNode::Dir { name: dname, children });
                proof {
                    assert(string_seq_view(children@) =~= string_seq_view(old_children).push(
                        name@,
                    ));
                    assert(nodes1[parent] == NodeView::Dir {
                        name: dname@,
                        children: string_seq_view(old_children),
                    });
                    assert(self.nodes@.map_values(|n: TreeNode| n@) =~= nodes1.insert(
                        parent,
                        NodeView::Dir {
                            name: dname@,
                            children: string_seq_view(old_children).push(name@),
                        },
                    ));
                }
            },
            Some(other) => {
                self.nodes.insert(parent, other);
                proof {
                    assert(self.nodes@ =~= mid);
                }
            },
            None => {
                proof {
                    assert(self.nodes@ =~= mid);
                }
            },
        }
        proof {
            let t1 = add_node(t0, parent, name@, ino, nv);
            assert(self@.nodes =~= t1.nodes);
            assert(self@.parent =~= t1.parent);
            assert(self@ == t1);
            assert forall|d: u64, i: int|
                #![trigger t1.nodes[d]->Dir_children[i]]
                t1.nodes.contains_key(d) && t1.nodes[d] is Dir && 0 <= i
                    < t1.nodes[d]->Dir_children.len() implies t1.names.contains_key(
                (d, t1.nodes[d]->Dir_children[i]),
            ) by {
                if d != ino && d != parent {
                    assert(t1.nodes[d] == t0.nodes[d]);
                    assert(t0.names.contains_key((d, t0.nodes[d]->Dir_children[i])));
                } else if d == parent {
                    if i < t1.nodes[d]->Dir_children.len() - 1 {
                        if d != ino {
                            assert(t0.nodes[d]->Dir_children[i] == t1.nodes[d]->Dir_children[i]);
                            assert(t0.names.contains_key((d, t0.nodes[d]->Dir_children[i])));
                        }
                    } else {
                        assert(t1.nodes[d]->Dir_children[i] == name@);
                    }
                }
            }
        }
    }

    /// Adds an empty directory `name` under inode `ino` inside `parent`.
    pub fn add_dir(&mut self, parent: u64, name: String, ino: u64)
        requires
            old(self).wf(),
        ensures
            final(self).wf(),
            final(self)@ == add_dir_spec(old(self)@, parent, name@, ino),
    {
        let node = TreeNode::Dir { name: name.clone(), children: Vec::new() };
        proof {
            assert(string_seq_view(Seq::<String>::empty()) =~= Seq::empty());
        }
        self.add_node(parent, name, ino, node);
    }

    /// Adds a file `name` under inode `ino` inside `parent`; it stands for the
    /// file `file_name` (of `size` bytes) of ROM `rom_id`, last modified at
    /// `mtime` (seconds since the epoch) when that is known.
    pub fn add_file(
        &mut self,
        parent: u64,
        name: String,
        ino: u64,
        rom_id: u64,
        file_id: Option<u64>,
        file_name: String,
        size: u64,
        mtime: Option<u64>,
    )
        requires
            old(self).wf(),
        ensures
            final(self).wf(),
            final(self)@ == add_file_spec(
                old(self)@,
                parent,
                name@,
                ino,
                rom_id,
                file_id,
                file_name@,
                size,
                mtime,
            ),
    {
        let node = TreeNode::File { name: name.clone(), rom_id, file_id, file_name, size, mtime };
        self.add_node(parent, name, ino, node);
    }

    /// The children of directory `ino` as (name, inode) pairs, or `None`
    /// when `ino` is not a directory.
    pub fn children(&self, ino: u64) -> (r: Option<Vec<(String, u64)>>)
        requires
            self.wf(),
        ensures
            match r {
                Some(v) => children_spec(self@, ino) == Some(
                    v@.map_values(|p: (String, u64)| (p.0@, p.1)),
                ),
                None => children_spec(self@, ino) is None,
            },
    {
        match self.nodes.get(&ino) {
            Some(TreeNode::Dir { children, .. }) => {
                let ghost cs = string_seq_view(children@);
                let mut result: Vec<(String, u64)> = Vec::new();
                let mut k: usize = 0;
                while k < children.len()
                    invariant
                        self.wf(),
                        self@.nodes.contains_key(ino),
                        self@.nodes[ino] == (NodeView::Dir { name: self@.nodes[ino]->Dir_name, children: cs }),
                        cs == string_seq_view(children@),
                        k <= children@.len(),
                        result@.len() == k,
                        forall|m: int|
                            0 <= m < k ==> (#[trigger] result@[m]).0@ == cs[m] && result@[m].1
                                == self@.names[(ino, cs[m])],
                    decreases children@.len() - k,
                {
                    let name = &children[k];
                    proof {
                        assert(cs[k as int] == name@);
                        assert(self@.nodes[ino]->Dir_children[k as int] == cs[k as int]);
                        assert(self@.names.contains_key((ino, cs[k as int])));
                    }
                    match self.find_name(ino, name) {
                        Some(child) => {
                            result.push((name.clone(), child));
                        },
                        None => {
                            proof {
                                assert(false);
                            }
                        },
                    }
                    k = k + 1;
                }
                proof {
                    assert(result@.map_values(|p: (String, u64)| (p.0@, p.1)) =~= children_spec(
                        self@,
                        ino,
                    )->0);
                }
                Some(result)
            },
            _ => None,
        }
    }

    fn dir_for_slug(dirs: &[(String, u64)], slug: &String) -> (r: Option<u64>)
        ensures
            r == dir_for(dirs@, slug@),
    {
        let mut i: usize = 0;
        while i < dirs.len()
            invariant
                i <= dirs@.len(),
                forall|j: int| 0 <= j < i ==> dirs@[j].0@ != slug@,
            decreases dirs@.len() - i,
        {
            if dirs[i].0 == *slug {
                proof {
                    lemma_dir_for_skip(dirs@, slug@, i as int);
                }
                return Some(dirs[i].1);
            }
            i = i + 1;
        }
        proof {
            lemma_dir_for_skip(dirs@, slug@, i as int);
        }
        None
    }

    /// Places each of `roms` in the directory that `dirs` (a map from
    /// platform slug to directory inode) gives for its platform slug,
    /// handing out inodes in order (see `add_rom`).
    pub fn build_from_roms(&mut self, dirs: &[(String, u64)], roms: &[SimpleRom])
        requires
            old(self).wf(),
            unique_slugs(dirs@),
            old(self)@.next_ino + roms_inodes(dirs@, roms@) <= u64::MAX,
        ensures
            final(self).wf(),
            final(self)@ == add_roms(old(self)@, dirs@, roms@),
            final(self)@.next_ino == old(self)@.next_ino + roms_inodes(dirs@, roms@),
    {
        let mut i: usize = 0;
        while i < roms.len()
            invariant
                self.wf(),
                i <= roms@.len(),
                self@ == add_roms(old(self)@, dirs@, roms@.take(i as int)),
                self@.next_ino == old(self)@.next_ino + roms_inodes(dirs@, roms@.take(i as int)),
                old(self)@.next_ino + roms_inodes(dirs@, roms@) <= u64::MAX,
            decreases roms@.len() - i,
        {
            let rom = &roms[i];
            proof {
                assert(roms@.take(i + 1).drop_last() =~= roms@.take(i as int));
                lemma_roms_inodes_prefix(dirs@, roms@, i + 1);
            }
            self.add_rom(dirs, rom);
            i = i + 1;
        }
        proof {
            assert(roms@.take(i as int) =~= roms@);
        }
    }

    fn add_rom(&mut self, dirs: &[(String, u64)], rom: &SimpleRom)
        requires
            old(self).wf(),
            old(self)@.next_ino + rom_inodes(dirs@, *rom) <= u64::MAX,
        ensures
            final(self).wf(),
            final(self)@ == add_rom(old(self)@, dirs@, *rom),
            final(self)@.next_ino == old(self)@.next_ino + rom_inodes(dirs@, *rom),
    {
        let dir_ino = match Self::dir_for_slug(dirs, &rom.platform_slug) {
            Some(d) => d,
            None => return ,
        };
        let mtime = match &rom.updated_at {
            Some(u) => parse_timestamp(u.as_str()),
            None => None,
        };
        if rom.has_multiple_files && rom.files.len() > 0 {
            let folder_ino = self.allocate_inode();
            self.add_dir(dir_ino, rom.fs_name_no_ext.clone(), folder_ino);
            let ghost t1 = self@;
            let mut j: usize = 0;
            while j < rom.files.len()
                invariant
                    self.wf(),
                    j <= rom.files@.len(),
                    mtime == rom_mtime(*rom),
                    self@ == add_rom_files(t1, folder_ino, rom.id, mtime, rom.files@.take(j as int)),
                    self@.next_ino == t1.next_ino + j,
                    t1.next_ino + rom.files@.len() <= u64::MAX,
                decreases rom.files@.len() - j,
            {
                let file = &rom.files[j];
                proof {
                    assert(rom.files@.take(j + 1).drop_last() =~= rom.files@.take(j as int));
                }
                let file_ino = self.allocate_inode();
                self.add_file(
                    folder_ino,
                    file.file_name.clone(),
                    file_ino,
                    rom.id,
                    Some(file.id),
                    file.file_name.clone(),
                    file.file_size_bytes,
                    mtime,
                );
                j = j + 1;
            }
            proof {
                assert(rom.files@.take(j as int) =~= rom.files@);
            }
        } else {
            let file_ino = self.allocate_inode();
            let file_id = if rom.files.len() > 0 {
                Some(rom.files[0].id)
            } else {
                None
            };
            self.add_file(
                dir_ino,
                rom.fs_name.clone(),
                file_ino,
                rom.id,
                file_id,
                rom.fs_name.clone(),
                rom.fs_size_bytes,
                mtime,
            );
        }
    }

    /// The inode `allocate_inode` hands out next.
    pub fn next_inode(&self) -> (n: u64)
        ensures
            n == self@.next_ino,
    {
        self.next_ino
    }

    /// Whether placing `roms` (see `build_from_roms`) stays within the inode
    /// numbers: the next inode plus all those handed out is at most
    /// `u64::MAX`.
    pub fn fits_roms(&self, dirs: &[(String, u64)], roms: &[SimpleRom]) -> (r: bool)
        ensures
            r == (self@.next_ino + roms_inodes(dirs@, roms@) <= u64::MAX),
    {
        let mut total: u64 = self.next_ino;
        let mut i: usize = 0;
        while i < roms.len()
            invariant
                i <= roms@.len(),
                total == self@.next_ino + roms_inodes(dirs@, roms@.take(i as int)),
            decreases roms@.len() - i,
        {
            let rom = &roms[i];
            proof {
                assert(roms@.take(i + 1).drop_last() =~= roms@.take(i as int));
                lemma_roms_inodes_prefix(dirs@, roms@, i + 1);
            }
            let need: u64 = match Self::dir_for_slug(dirs, &rom.platform_slug) {
                None => 0,
                Some(_) => if rom.has_multiple_files && rom.files.len() > 0 {
                    if rom.files.len() as u64 == u64::MAX {
                        return false;
                    }
                    rom.files.len() as u64 + 1
                } else {
                    1
                },
            };
            if total > u64::MAX - need {
                return false;
            }
            total = total + need;
            i = i + 1;
        }
        proof {
            assert(roms@.take(i as int) =~= roms@);
        }
        true
    }

    /// The node under `ino`, if any.
    pub fn get(&self, ino: u64) -> (r: Option<&TreeNode>)
        requires
            self.wf(),
        ensures
            match r {
                Some(n) => self@.nodes.contains_key(ino) && n@ == self@.nodes[ino],
                None => !self@.nodes.contains_key(ino),
            },
    {
        self.nodes.get(&ino)
    }

    /// How many nodes the tree holds.
    pub fn node_count(&self) -> (n: usize)
        requires
            self.wf(),
        ensures
            n == self@.nodes.len(),
    {
        proof {
            assert(self@.nodes.dom() =~= self.nodes@.dom());
        }
        self.nodes.len()
    }
}

/// With no slug twice, `dirs` gives a slug the inode paired with it, and
/// nothing when no pair has it.
pub proof fn law_dir_for_is_map_lookup(dirs: Seq<(String, u64)>, slug: Seq<char>)
    requires
        unique_slugs(dirs),
    ensures
        forall|i: int|
            0 <= i < dirs.len() && (#[trigger] dirs[i]).0@ == slug ==> dir_for(dirs, slug) == Some(
                dirs[i].1,
            ),
        (forall|i: int| 0 <= i < dirs.len() ==> (#[trigger] dirs[i]).0@ != slug) ==> dir_for(
            dirs,
            slug,
        ) is None,
{
    assert forall|i: int| 0 <= i < dirs.len() && (#[trigger] dirs[i]).0@ == slug implies dir_for(
        dirs,
        slug,
    ) == Some(dirs[i].1) by {
        lemma_dir_for_skip(dirs, slug, i);
    }
    if forall|i: int| 0 <= i < dirs.len() ==> (#[trigger] dirs[i]).0@ != slug {
        lemma_dir_for_skip(dirs, slug, dirs.len() as int);
    }
}

/// Placing the ROMs of `a` and then those of `b` is placing those of
/// `a + b`: ROMs land in the order given, batch by batch.
pub proof fn law_add_roms_split(t: TreeView, dirs: Seq<(String, u64)>, a: Seq<SimpleRom>, b: Seq<SimpleRom>)
    ensures
        add_roms(t, dirs, a + b) == add_roms(add_roms(t, dirs, a), dirs, b),
    decreases b.len(),
{
    if b.len() == 0 {
        assert(a + b =~= a);
    } else {
        assert((a + b).drop_last() =~= a + b.drop_last());
        assert((a + b).last() == b.last());
        law_add_roms_split(t, dirs, a, b.drop_last());
    }
}

/// The inodes `i` with `lo <= i < hi`.
pub open spec fn inode_range(lo: int, hi: int) -> Set<u64> {
    Set::new(|i: u64| lo <= i < hi)
}

/// The key under which a ROM is recorded in its platform directory, when
/// its platform has one.
pub open spec fn rom_key(dirs: Seq<(String, u64)>, rom: SimpleRom) -> Option<(u64, Seq<char>)> {
    match dir_for(dirs, rom.platform_slug@) {
        None => None,
        Some(d) => Some(
            (
                d,
                if rom.has_multiple_files && rom.files@.len() > 0 {
                    rom.fs_name_no_ext@
                } else {
                    rom.fs_name@
                },
            ),
        ),
    }
}

/// Every directory that `dirs` names is an inode handed out before `next`.
pub open spec fn dirs_below(dirs: Seq<(String, u64)>, next: u64) -> bool {
    forall|j: int| 0 <= j < dirs.len() ==> (#[trigger] dirs[j]).1 < next
}

proof fn lemma_dir_for_in(dirs: Seq<(String, u64)>, slug: Seq<char>)
    ensures
        dir_for(dirs, slug) matches Some(d) ==> exists|j: int| 0 <= j < dirs.len() && #[trigger] dirs[j].1 == d,
    decreases dirs.len(),
{
    if dirs.len() > 0 && dirs[0].0@ != slug {
        lemma_dir_for_in(dirs.drop_first(), slug);
        if dir_for(dirs, slug) is Some {
            let d = dir_for(dirs, slug)->0;
            let j = choose|j: int| 0 <= j < dirs.drop_first().len() && #[trigger] dirs.drop_first()[j].1 == d;
            assert(dirs[j + 1].1 == d);
        }
    } else if dirs.len() > 0 {
        assert(dirs[0].1 == dir_for(dirs, slug)->0);
    }
}

proof fn lemma_files_facts(t: TreeView, folder: u64, rom_id: u64, mtime: Option<u64>, files: Seq<RomFile>)
    requires
        t.next_ino + files.len() <= u64::MAX,
    ensures
        ({
            let r = add_rom_files(t, folder, rom_id, mtime, files);
            &&& r.next_ino == t.next_ino + files.len()
            &&& r.nodes.dom() == t.nodes.dom().union(inode_range(t.next_ino as int, t.next_ino + files.len()))
            &&& forall|i: u64| i < t.next_ino && i != folder ==> #[trigger] r.nodes.get(i) == t.nodes.get(i)
            &&& forall|k: (u64, Seq<char>)| k.0 != folder ==> #[trigger] r.names.get(k) == t.names.get(k)
            &&& forall|i: u64| i < t.next_ino ==> #[trigger] r.parent.get(i) == t.parent.get(i)
        }),
    decreases files.len(),
{
    if files.len() > 0 {
        lemma_files_facts(t, folder, rom_id, mtime, files.drop_last());
        let r0 = add_rom_files(t, folder, rom_id, mtime, files.drop_last());
        let r = add_rom_files(t, folder, rom_id, mtime, files);
        assert(r.nodes.dom() =~= t.nodes.dom().union(inode_range(t.next_ino as int, t.next_ino + files.len())));
        assert forall|i: u64| i < t.next_ino && i != folder implies #[trigger] r.nodes.get(i) == t.nodes.get(i) by {
            assert(r.nodes.get(i) == r0.nodes.get(i));
        }
        assert forall|k: (u64, Seq<char>)| k.0 != folder implies #[trigger] r.names.get(k) == t.names.get(k) by {
            assert(r.names.get(k) == r0.names.get(k));
        }
        assert forall|i: u64| i < t.next_ino implies #[trigger] r.parent.get(i) == t.parent.get(i) by {
            assert(r.parent.get(i) == r0.parent.get(i));
        }
    } else {
        assert(t.nodes.dom() =~= t.nodes.dom().union(inode_range(t.next_ino as int, t.next_ino as int)));
    }
}

proof fn lemma_rom_facts(t: TreeView, dirs: Seq<(String, u64)>, rom: SimpleRom)
    requires
        t.next_ino + rom_inodes(dirs, rom) <= u64::MAX,
    ensures
        ({
            let r = add_rom(t, dirs, rom);
            &&& r.next_ino == t.next_ino + rom_inodes(dirs, rom)
            &&& r.nodes.dom() == t.nodes.dom().union(
                inode_range(t.next_ino as int, t.next_ino + rom_inodes(dirs, rom)),
            )
            &&& forall|i: u64|
                i < t.next_ino && dir_for(dirs, rom.platform_slug@) != Some(i) ==> #[trigger] r.nodes.get(i)
                    == t.nodes.get(i)
            &&& forall|k: (u64, Seq<char>)|
                k.0 < t.next_ino && rom_key(dirs, rom) != Some(k) ==> #[trigger] r.names.get(k)
                    == t.names.get(k)
            &&& forall|i: u64| i < t.next_ino ==> #[trigger] r.parent.get(i) == t.parent.get(i)
        }),
{
    let r = add_rom(t, dirs, rom);
    match dir_for(dirs, rom.platform_slug@) {
        None => {
            assert(t.nodes.dom() =~= t.nodes.dom().union(inode_range(t.next_ino as int, t.next_ino as int)));
        },
        Some(d) => {
            if rom.has_multiple_files && rom.files@.len() > 0 {
                let t1 = add_dir_spec(bump(t), d, rom.fs_name_no_ext@, t.next_ino);
                lemma_files_facts(t1, t.next_ino, rom.id, rom_mtime(rom), rom.files@);
                assert(r.nodes.dom() =~= t.nodes.dom().union(
                    inode_range(t.next_ino as int, t.next_ino + rom_inodes(dirs, rom)),
                ));
                assert forall|i: u64| i < t.next_ino && Some(d) != Some(i) implies #[trigger] r.nodes.get(i)
                    == t.nodes.get(i) by {
                    assert(r.nodes.get(i) == t1.nodes.get(i));
                }
                assert forall|k: (u64, Seq<char>)| k.0 < t.next_ino && rom_key(dirs, rom) != Some(k) implies #[trigger] r.names.get(k)
                    == t.names.get(k) by {
                    assert(r.names.get(k) == t1.names.get(k));
                }
                assert forall|i: u64| i < t.next_ino implies #[trigger] r.parent.get(i) == t.parent.get(i) by {
                    assert(r.parent.get(i) == t1.parent.get(i));
                }
            } else {
                assert(r.nodes.dom() =~= t.nodes.dom().union(
                    inode_range(t.next_ino as int, t.next_ino + rom_inodes(dirs, rom)),
                ));
            }
        },
    }
}

proof fn lemma_roms_facts(t: TreeView, dirs: Seq<(String, u64)>, roms: Seq<SimpleRom>)
    requires
        t.next_ino + roms_inodes(dirs, roms) <= u64::MAX,
        dirs_below(dirs, t.next_ino),
    ensures
        ({
            let r = add_roms(t, dirs, roms);
            &&& r.next_ino == t.next_ino + roms_inodes(dirs, roms)
            &&& r.nodes.dom() == t.nodes.dom().union(
                inode_range(t.next_ino as int, t.next_ino + roms_inodes(dirs, roms)),
            )
            &&& forall|i: u64|
                i < t.next_ino && (forall|j: int| 0 <= j < dirs.len() ==> (#[trigger] dirs[j]).1 != i)
                    ==> #[trigger] r.nodes.get(i) == t.nodes.get(i)
            &&& forall|k: (u64, Seq<char>)|
                k.0 < t.next_ino && (forall|j: int| 0 <= j < roms.len() ==> rom_key(dirs, #[trigger] roms[j]) != Some(k))
                    ==> #[trigger] r.names.get(k) == t.names.get(k)
            &&& forall|i: u64| i < t.next_ino ==> #[trigger] r.parent.get(i) == t.parent.get(i)
        }),
    decreases roms.len(),
{
    if roms.len() == 0 {
        assert(t.nodes.dom() =~= t.nodes.dom().union(inode_range(t.next_ino as int, t.next_ino as int)));
    } else {
        let p = roms.drop_last();
        let x = roms.last();
        lemma_roms_facts(t, dirs, p);
        let r0 = add_roms(t, dirs, p);
        lemma_rom_facts(r0, dirs, x);
        let r = add_roms(t, dirs, roms);
        lemma_dir_for_in(dirs, x.platform_slug@);
        assert(r.nodes.dom() =~= t.nodes.dom().union(
            inode_range(t.next_ino as int, t.next_ino + roms_inodes(dirs, roms)),
        ));
        assert forall|i: u64|
            i < t.next_ino && (forall|j: int| 0 <= j < dirs.len() ==> (#[trigger] dirs[j]).1 != i) implies #[trigger] r.nodes.get(i)
                == t.nodes.get(i) by {
            assert(r.nodes.get(i) == r0.nodes.get(i));
            assert(r0.nodes.get(i) == t.nodes.get(i));
        }
        assert forall|k: (u64, Seq<char>)|
            k.0 < t.next_ino && (forall|j: int| 0 <= j < roms.len() ==> rom_key(dirs, #[trigger] roms[j]) != Some(k)) implies #[trigger] r.names.get(k)
                == t.names.get(k) by {
            assert(rom_key(dirs, roms[roms.len() - 1]) != Some(k));
            assert forall|j: int| 0 <= j < p.len() implies rom_key(dirs, #[trigger] p[j]) != Some(k) by {
                assert(p[j] == roms[j]);
            }
            assert(r.names.get(k) == r0.names.get(k));
        }
        assert forall|i: u64| i < t.next_ino implies #[trigger] r.parent.get(i) == t.parent.get(i) by {
            assert(r.parent.get(i) == r0.parent.get(i));
        }
    }
}

/// A batch of ROMs adds exactly the inodes from the next one on, as many as
/// it hands out (`roms_inodes`), and no other; nodes that existed before,
/// other than the platform directories, are left as they were, and so is
/// every name recorded before under an older directory that no ROM of the
/// batch is recorded under.
pub proof fn law_batch_adds_next_inodes(t: TreeView, dirs: Seq<(String, u64)>, roms: Seq<SimpleRom>)
    requires
        t.next_ino + roms_inodes(dirs, roms) <= u64::MAX,
        dirs_below(dirs, t.next_ino),
    ensures
        ({
            let r = add_roms(t, dirs, roms);
            &&& r.next_ino == t.next_ino + roms_inodes(dirs, roms)
            &&& r.nodes.dom() == t.nodes.dom().union(
                inode_range(t.next_ino as int, t.next_ino + roms_inodes(dirs, roms)),
            )
            &&& forall|i: u64|
                i < t.next_ino && (forall|j: int| 0 <= j < dirs.len() ==> (#[trigger] dirs[j]).1 != i)
                    ==> #[trigger] r.nodes.get(i) == t.nodes.get(i)
            &&& forall|k: (u64, Seq<char>)|
                k.0 < t.next_ino && (forall|j: int| 0 <= j < roms.len() ==> rom_key(dirs, #[trigger] roms[j]) != Some(k))
                    ==> #[trigger] r.names.get(k) == t.names.get(k)
        }),
{
    lemma_roms_facts(t, dirs, roms);
}

proof fn lemma_inode_range_len(lo: int, hi: int)
    requires
        0 <= lo <= hi <= u64::MAX + 1,
    ensures
        inode_range(lo, hi).finite(),
        inode_range(lo, hi).len() == hi - lo,
    decreases hi - lo,
{
    if lo == hi {
        assert(inode_range(lo, hi) =~= Set::empty());
    } else {
        lemma_inode_range_len(lo, hi - 1);
        assert(inode_range(lo, hi - 1).insert((hi - 1) as u64) =~= inode_range(lo, hi));
    }
}

/// When every node of a finite tree lies below the next inode, a batch
/// adds exactly as many nodes as it hands out inodes.
pub proof fn law_batch_node_count(t: TreeView, dirs: Seq<(String, u64)>, roms: Seq<SimpleRom>)
    requires
        t.next_ino + roms_inodes(dirs, roms) <= u64::MAX,
        dirs_below(dirs, t.next_ino),
        t.nodes.dom().finite(),
        forall|i: u64| #[trigger] t.nodes.contains_key(i) ==> i < t.next_ino,
    ensures
        add_roms(t, dirs, roms).nodes.dom().finite(),
        add_roms(t, dirs, roms).nodes.len() == t.nodes.len() + roms_inodes(dirs, roms),
{
    law_batch_adds_next_inodes(t, dirs, roms);
    let lo = t.next_ino as int;
    let hi = t.next_ino + roms_inodes(dirs, roms);
    lemma_inode_range_len(lo, hi);
    let old_dom = t.nodes.dom();
    let new_inos = inode_range(lo, hi);
    assert(old_dom.disjoint(new_inos));
    vstd::set_lib::lemma_set_disjoint_lens(old_dom, new_inos);
    assert(old_dom + new_inos == old_dom.union(new_inos));
}

proof fn lemma_roms_inodes_add(dirs: Seq<(String, u64)>, a: Seq<SimpleRom>, b: Seq<SimpleRom>)
    ensures
        roms_inodes(dirs, a + b) == roms_inodes(dirs, a) + roms_inodes(dirs, b),
    decreases b.len(),
{
    if b.len() == 0 {
        assert(a + b =~= a);
    } else {
        assert((a + b).drop_last() =~= a + b.drop_last());
        lemma_roms_inodes_add(dirs, a, b.drop_last());
    }
}

/// A single-file ROM `r` placed in a batch (after the ROMs of `a`, before
/// those of `b`) in platform directory `d` can be looked up there by its
/// file name after the whole batch, as the file node of the inode it got,
/// unless a later ROM of the batch is recorded under the same name in `d`.
pub proof fn law_single_file_rom_in_batch(
    t: TreeView,
    dirs: Seq<(String, u64)>,
    a: Seq<SimpleRom>,
    r: SimpleRom,
    b: Seq<SimpleRom>,
    d: u64,
)
    requires
        dir_for(dirs, r.platform_slug@) == Some(d),
        !(r.has_multiple_files && r.files@.len() > 0),
        dirs_below(dirs, t.next_ino),
        t.next_ino + roms_inodes(dirs, a.push(r) + b) <= u64::MAX,
        forall|j: int| 0 <= j < b.len() ==> rom_key(dirs, #[trigger] b[j]) != Some((d, r.fs_name@)),
    ensures
        ({
            let f = (t.next_ino + roms_inodes(dirs, a)) as u64;
            let after = add_roms(t, dirs, a.push(r) + b);
            &&& after.names.get((d, r.fs_name@)) == Some(f)
            &&& f >= t.next_ino
            &&& (forall|i: u64| #[trigger] t.nodes.contains_key(i) ==> i < t.next_ino) ==> !t.nodes.contains_key(f)
            &&& after.parent.get(f) == Some(d)
            &&& after.nodes.contains_key(f)
            &&& after.nodes[f] == (NodeView::File {
                name: r.fs_name@,
                rom_id: r.id,
                file_id: if r.files@.len() > 0 {
                    Some(r.files@[0].id)
                } else {
                    None
                },
                file_name: r.fs_name@,
                size: r.fs_size_bytes,
                mtime: rom_mtime(r),
            })
        }),
{
    lemma_roms_inodes_add(dirs, a.push(r), b);
    assert(a.push(r).drop_last() =~= a);
    assert(roms_inodes(dirs, a.push(r)) == roms_inodes(dirs, a) + rom_inodes(dirs, r));
    law_add_roms_split(t, dirs, a.push(r), b);
    lemma_roms_facts(t, dirs, a);
    let t1 = add_roms(t, dirs, a);
    assert(a.push(r).drop_last() =~= a);
    let t2 = add_rom(t1, dirs, r);
    assert(add_roms(t, dirs, a.push(r)) == t2);
    lemma_dir_for_in(dirs, r.platform_slug@);
    law_single_file_rom_placed(t1, dirs, r, d);
    lemma_rom_facts(t1, dirs, r);
    assert(dirs_below(dirs, t2.next_ino));
    lemma_roms_facts(t2, dirs, b);
    let f = t1.next_ino;
    let after = add_roms(t2, dirs, b);
    assert(t2.parent.get(f) == Some(d));
    assert(after.parent.get(f) == t2.parent.get(f));
    assert(t2.nodes.contains_key(f));
    assert(forall|j: int| 0 <= j < dirs.len() ==> (#[trigger] dirs[j]).1 != f);
    assert(after.nodes.get(f) == t2.nodes.get(f));
    assert(after.names.get((d, r.fs_name@)) == t2.names.get((d, r.fs_name@)));
    assert(after == add_roms(t, dirs, a.push(r) + b));
}

/// The names of a ROM's files are all different.
pub open spec fn distinct_file_names(files: Seq<RomFile>) -> bool {
    forall|i: int, j: int| 0 <= i < j < files.len() ==> files[i].file_name@ != files[j].file_name@
}

/// The file node that file `f` of ROM `rom_id` becomes.
pub open spec fn rom_file_node(rom_id: u64, mtime: Option<u64>, f: RomFile) -> NodeView {
    NodeView::File {
        name: f.file_name@,
        rom_id,
        file_id: Some(f.id),
        file_name: f.file_name@,
        size: f.file_size_bytes,
        mtime,
    }
}

proof fn lemma_rom_files_each(t: TreeView, folder: u64, rom_id: u64, mtime: Option<u64>, files: Seq<RomFile>)
    requires
        folder < t.next_ino,
        t.next_ino + files.len() <= u64::MAX,
        distinct_file_names(files),
    ensures
        forall|i: int|
            0 <= i < files.len() ==> {
                let r = add_rom_files(t, folder, rom_id, mtime, files);
                let ino = (t.next_ino + i) as u64;
                &&& r.names.get((folder, (#[trigger] files[i]).file_name@)) == Some(ino)
                &&& r.parent.get(ino) == Some(folder)
                &&& r.nodes.contains_key(ino)
                &&& r.nodes[ino] == rom_file_node(rom_id, mtime, files[i])
            },
    decreases files.len(),
{
    if files.len() > 0 {
        let p = files.drop_last();
        lemma_rom_files_each(t, folder, rom_id, mtime, p);
        lemma_files_facts(t, folder, rom_id, mtime, p);
        let r0 = add_rom_files(t, folder, rom_id, mtime, p);
        let r = add_rom_files(t, folder, rom_id, mtime, files);
        assert forall|i: int| 0 <= i < files.len() implies {
            let ino = (t.next_ino + i) as u64;
            &&& r.names.get((folder, (#[trigger] files[i]).file_name@)) == Some(ino)
            &&& r.parent.get(ino) == Some(folder)
            &&& r.nodes.contains_key(ino)
            &&& r.nodes[ino] == rom_file_node(rom_id, mtime, files[i])
        } by {
            if i < files.len() - 1 {
                assert(files[i] == p[i]);
                assert(files[i].file_name@ != files.last().file_name@);
            }
        }
    }
}

/// A ROM with several (differently named) files placed in a batch (after
/// the ROMs of `a`, before those of `b`) in platform directory `d` is, after
/// the whole batch, the folder named after it in `d`, which lists its files
/// in order, each of which can be looked up in the folder as the file node
/// of the inode it got; unless a later ROM of the batch is recorded under
/// the same name in `d`.
pub proof fn law_multi_file_rom_in_batch(
    t: TreeView,
    dirs: Seq<(String, u64)>,
    a: Seq<SimpleRom>,
    r: SimpleRom,
    b: Seq<SimpleRom>,
    d: u64,
)
    requires
        dir_for(dirs, r.platform_slug@) == Some(d),
        r.has_multiple_files,
        r.files@.len() > 0,
        distinct_file_names(r.files@),
        dirs_below(dirs, t.next_ino),
        t.next_ino + roms_inodes(dirs, a.push(r) + b) <= u64::MAX,
        forall|j: int| 0 <= j < b.len() ==> rom_key(dirs, #[trigger] b[j]) != Some((d, r.fs_name_no_ext@)),
    ensures
        ({
            let g = (t.next_ino + roms_inodes(dirs, a)) as u64;
            let after = add_roms(t, dirs, a.push(r) + b);
            &&& after.names.get((d, r.fs_name_no_ext@)) == Some(g)
            &&& g >= t.next_ino
            &&& (forall|i: u64| #[trigger] t.nodes.contains_key(i) ==> i < t.next_ino) ==> !t.nodes.contains_key(g)
            &&& after.parent.get(g) == Some(d)
            &&& after.nodes.contains_key(g)
            &&& after.nodes[g] == (NodeView::Dir {
                name: r.fs_name_no_ext@,
                children: r.files@.map_values(|f: RomFile| f.file_name@),
            })
            &&& forall|i: int|
                0 <= i < r.files@.len() ==> {
                    let ino = (g + 1 + i) as u64;
                    &&& after.names.get((g, (#[trigger] r.files@[i]).file_name@)) == Some(ino)
                    &&& after.parent.get(ino) == Some(g)
                    &&& after.nodes.contains_key(ino)
                    &&& after.nodes[ino] == rom_file_node(r.id, rom_mtime(r), r.files@[i])
                }
        }),
{
    lemma_roms_inodes_add(dirs, a.push(r), b);
    assert(a.push(r).drop_last() =~= a);
    assert(roms_inodes(dirs, a.push(r)) == roms_inodes(dirs, a) + rom_inodes(dirs, r));
    law_add_roms_split(t, dirs, a.push(r), b);
    lemma_roms_facts(t, dirs, a);
    let t1 = add_roms(t, dirs, a);
    let t2 = add_rom(t1, dirs, r);
    assert(add_roms(t, dirs, a.push(r)) == t2);
    lemma_dir_for_in(dirs, r.platform_slug@);
    let g = t1.next_ino;
    law_multi_file_rom_becomes_folder(t1, dirs, r, d);
    lemma_rom_facts(t1, dirs, r);
    let tf = add_dir_spec(bump(t1), d, r.fs_name_no_ext@, g);
    lemma_rom_files_each(tf, g, r.id, rom_mtime(r), r.files@);
    lemma_files_facts(tf, g, r.id, rom_mtime(r), r.files@);
    assert(dirs_below(dirs, t2.next_ino));
    lemma_roms_facts(t2, dirs, b);
    let after = add_roms(t2, dirs, b);
    assert(forall|j: int| 0 <= j < dirs.len() ==> (#[trigger] dirs[j]).1 != g);
    assert(after.nodes.get(g) == t2.nodes.get(g));
    assert(after.parent.get(g) == t2.parent.get(g));
    let tf_files = add_rom_files(tf, g, r.id, rom_mtime(r), r.files@);
    assert(tf_files.parent.get(g) == tf.parent.get(g));
    assert(after.names.get((d, r.fs_name_no_ext@)) == t2.names.get((d, r.fs_name_no_ext@)));
    assert forall|i: int| 0 <= i < r.files@.len() implies {
        let ino = (g + 1 + i) as u64;
        &&& after.names.get((g, (#[trigger] r.files@[i]).file_name@)) == Some(ino)
        &&& after.parent.get(ino) == Some(g)
        &&& after.nodes.contains_key(ino)
        &&& after.nodes[ino] == rom_file_node(r.id, rom_mtime(r), r.files@[i])
    } by {
        let ino = (g + 1 + i) as u64;
        assert(forall|j: int| 0 <= j < dirs.len() ==> (#[trigger] dirs[j]).1 != ino);
        assert(after.nodes.get(ino) == t2.nodes.get(ino));
        assert(after.parent.get(ino) == t2.parent.get(ino));
        assert forall|j: int| 0 <= j < b.len() implies rom_key(dirs, #[trigger] b[j]) != Some(
            (g, r.files@[i].file_name@),
        ) by {
            lemma_dir_for_in(dirs, b[j].platform_slug@);
        }
        assert(after.names.get((g, r.files@[i].file_name@)) == t2.names.get(
            (g, r.files@[i].file_name@),
        ));
    }
    assert(after == add_roms(t, dirs, a.push(r) + b));
}

/// One call of `add_dir` or `add_file`: the node put under `ino` as `name`
/// in `parent`.
pub struct AddOp {
    pub parent: u64,
    pub name: Seq<char>,
    pub ino: u64,
    pub node: NodeView,
}

/// The tree after the additions `ops`, in order.
pub open spec fn apply_adds(t: TreeView, ops: Seq<AddOp>) -> TreeView
    decreases ops.len(),
{
    if ops.len() == 0 {
        t
    } else {
        let o = ops.last();
        add_node(apply_adds(t, ops.drop_last()), o.parent, o.name, o.ino, o.node)
    }
}

/// The inode of the last of `ops` made under key `k`, if any.
pub open spec fn last_added(ops: Seq<AddOp>, k: (u64, Seq<char>)) -> Option<u64>
    decreases ops.len(),
{
    if ops.len() == 0 {
        None
    } else if (ops.last().parent, ops.last().name) == k {
        Some(ops.last().ino)
    } else {
        last_added(ops.drop_last(), k)
    }
}

/// Looking up a (directory, name) pair finds the inode of the latest
/// addition under it; a pair no addition used finds what it found before,
/// and in a new tree, nothing.
pub proof fn law_lookup_finds_latest_add(t: TreeView, ops: Seq<AddOp>, k: (u64, Seq<char>))
    ensures
        apply_adds(t, ops).names.get(k) == match last_added(ops, k) {
            Some(i) => Some(i),
            None => t.names.get(k),
        },
        apply_adds(initial_tree(), ops).names.get(k) == last_added(ops, k),
    decreases ops.len(),
{
    if ops.len() > 0 {
        law_lookup_finds_latest_add(t, ops.drop_last(), k);
        law_lookup_finds_latest_add(initial_tree(), ops.drop_last(), k);
    }
}

/// How a tree built by adding fresh nodes under existing directories hangs
/// together: every recorded (directory, name) pair leads to a node whose
/// parent is that directory, which is a directory; and every directory lists
/// each name recorded under it exactly once, and nothing else.
pub open spec fn well_linked(t: TreeView) -> bool {
    &&& forall|k: (u64, Seq<char>)|
        #[trigger] t.names.contains_key(k) ==> {
            &&& t.nodes.contains_key(t.names[k])
            &&& t.parent.contains_key(t.names[k])
            &&& t.parent[t.names[k]] == k.0
            &&& t.nodes.contains_key(k.0)
            &&& t.nodes[k.0] is Dir
        }
    &&& forall|p: u64|
        #[trigger] t.nodes.contains_key(p) && t.nodes[p] is Dir ==> {
            &&& t.nodes[p]->Dir_children.no_duplicates()
            &&& forall|n: Seq<char>|
                #[trigger] t.nodes[p]->Dir_children.contains(n) <==> t.names.contains_key((p, n))
        }
}

/// A new tree hangs together.
pub proof fn law_initial_well_linked()
    ensures
        well_linked(initial_tree()),
{
    let t = initial_tree();
    assert forall|p: u64| #[trigger] t.nodes.contains_key(p) && t.nodes[p] is Dir implies {
        &&& t.nodes[p]->Dir_children.no_duplicates()
        &&& forall|n: Seq<char>|
            #[trigger] t.nodes[p]->Dir_children.contains(n) <==> t.names.contains_key((p, n))
    } by {
        assert forall|n: Seq<char>| #[trigger] t.nodes[p]->Dir_children.contains(n) <==> t.names.contains_key((p, n)) by {
            if t.nodes[p]->Dir_children.contains(n) {
                let i = choose|i: int| 0 <= i < t.nodes[p]->Dir_children.len() && t.nodes[p]->Dir_children[i] == n;
            }
        }
    }
}

/// Adding a file or an empty directory under a fresh inode, under a name
/// not yet used in an existing directory, keeps the tree hanging together:
/// the new node is found under its name, its parent is that directory, the
/// directory lists the name last, and no other node changes.
pub proof fn law_add_keeps_well_linked(t: TreeView, parent: u64, name: Seq<char>, ino: u64, node: NodeView)
    requires
        well_linked(t),
        t.nodes.contains_key(parent),
        t.nodes[parent] is Dir,
        !t.nodes.contains_key(ino),
        !t.names.contains_key((parent, name)),
        node is File || node->Dir_children.len() == 0,
    ensures
        ({
            let t1 = add_node(t, parent, name, ino, node);
            &&& well_linked(t1)
            &&& t1.names.get((parent, name)) == Some(ino)
            &&& t1.nodes.contains_key(ino)
            &&& t1.nodes[ino] == node
            &&& t1.parent[ino] == parent
            &&& t1.nodes[parent]->Dir_children == t.nodes[parent]->Dir_children.push(name)
            &&& forall|i: u64| i != parent && i != ino ==> #[trigger] t1.nodes.get(i) == t.nodes.get(i)
        }),
{
    let t1 = add_node(t, parent, name, ino, node);
    let old_children = t.nodes[parent]->Dir_children;
    let new_children = old_children.push(name);
    assert(t1.nodes[parent]->Dir_children == new_children);
    assert(!old_children.contains(name));
    assert forall|k: (u64, Seq<char>)| #[trigger] t1.names.contains_key(k) implies {
        &&& t1.nodes.contains_key(t1.names[k])
        &&& t1.parent.contains_key(t1.names[k])
        &&& t1.parent[t1.names[k]] == k.0
        &&& t1.nodes.contains_key(k.0)
        &&& t1.nodes[k.0] is Dir
    } by {
        if k != (parent, name) {
            assert(t.names.contains_key(k));
            assert(t.names[k] != ino);
        }
    }
    assert forall|p: u64| #[trigger] t1.nodes.contains_key(p) && t1.nodes[p] is Dir implies {
        &&& t1.nodes[p]->Dir_children.no_duplicates()
        &&& forall|n: Seq<char>|
            #[trigger] t1.nodes[p]->Dir_children.contains(n) <==> t1.names.contains_key((p, n))
    } by {
        if p == parent {
            assert forall|i: int, j: int| 0 <= i < j < new_children.len() implies new_children[i]
                != new_children[j] by {
                if j == new_children.len() - 1 {
                    assert(old_children.contains(old_children[i]));
                }
            }
            assert forall|n: Seq<char>| #[trigger] t1.nodes[p]->Dir_children.contains(n) <==> t1.names.contains_key((p, n)) by {
                if new_children.contains(n) && n != name {
                    let i = choose|i: int| 0 <= i < new_children.len() && new_children[i] == n;
                    assert(old_children[i] == n);
                    assert(old_children.contains(n));
                }
                if t1.names.contains_key((p, n)) && n != name {
                    assert(t.names.contains_key((p, n)));
                    assert(old_children.contains(n));
                    let i = choose|i: int| 0 <= i < old_children.len() && old_children[i] == n;
                    assert(new_children[i] == n);
                }
                if n == name {
                    assert(new_children[new_children.len() - 1] == n);
                }
            }
        } else if p == ino {
            assert forall|n: Seq<char>| #[trigger] t1.nodes[p]->Dir_children.contains(n) <==> t1.names.contains_key((p, n)) by {
                if t1.names.contains_key((p, n)) {
                    assert(t.names.contains_key((p, n)));
                }
            }
        } else {
            assert(t1.nodes[p] == t.nodes[p]);
            assert forall|n: Seq<char>| #[trigger] t1.nodes[p]->Dir_children.contains(n) <==> t1.names.contains_key((p, n)) by {
                assert(t.nodes[p]->Dir_children.contains(n) <==> t.names.contains_key((p, n)));
            }
        }
    }
}

/// In a tree that hangs together, every child a directory lists resolves
/// to a node whose parent is that directory.
pub proof fn law_children_have_their_parent(t: TreeView, d: u64, k: int)
    requires
        well_linked(t),
        t.nodes.contains_key(d),
        t.nodes[d] is Dir,
        0 <= k < t.nodes[d]->Dir_children.len(),
    ensures
        ({
            let n = t.nodes[d]->Dir_children[k];
            &&& t.names.contains_key((d, n))
            &&& t.nodes.contains_key(t.names[(d, n)])
            &&& t.parent[t.names[(d, n)]] == d
        }),
{
    let n = t.nodes[d]->Dir_children[k];
    assert(t.nodes[d]->Dir_children.contains(n));
}

/// After a node is added as `name` in `parent`, looking up `name` in
/// `parent` finds it.
pub proof fn law_lookup_after_add(t: TreeView, parent: u64, name: Seq<char>, ino: u64, node: NodeView)
    ensures
        add_node(t, parent, name, ino, node).names.get((parent, name)) == Some(ino),
{
}

/// After a node is added under an inode other than its parent's, that inode
/// holds exactly the node.
pub proof fn law_get_after_add(t: TreeView, parent: u64, name: Seq<char>, ino: u64, node: NodeView)
    requires
        ino != parent,
    ensures
        add_node(t, parent, name, ino, node).nodes.contains_key(ino),
        add_node(t, parent, name, ino, node).nodes[ino] == node,
{
}

/// Adding a child to a directory (other than the child's own inode) lists
/// it last among the directory's children, after the children it had.
pub proof fn law_child_listed_last(t: TreeView, parent: u64, name: Seq<char>, ino: u64, node: NodeView)
    requires
        ino != parent,
        t.nodes.contains_key(parent),
        t.nodes[parent] is Dir,
    ensures
        ({
            let t1 = add_node(t, parent, name, ino, node);
            &&& t1.nodes[parent] is Dir
            &&& t1.nodes[parent]->Dir_children == t.nodes[parent]->Dir_children.push(name)
            &&& children_spec(t1, parent)->0.last() == (name, ino)
        }),
{
}

/// In a well-formed tree, every (name, inode) pair that a directory lists
/// is what looking that name up in the directory gives.
pub proof fn law_children_resolve(tree: &FileTree, ino: u64)
    requires
        tree.wf(),
        children_spec(tree@, ino) is Some,
    ensures
        forall|k: int|
            0 <= k < children_spec(tree@, ino)->0.len() ==> {
                let (n, i) = #[trigger] children_spec(tree@, ino)->0[k];
                tree@.names.get((ino, n)) == Some(i)
            },
{
    let t = tree@;
    assert forall|k: int| 0 <= k < children_spec(t, ino)->0.len() implies {
        let (n, i) = #[trigger] children_spec(t, ino)->0[k];
        t.names.get((ino, n)) == Some(i)
    } by {
        assert(t.names.contains_key((ino, t.nodes[ino]->Dir_children[k])));
    }
}

/// A well-formed tree satisfies `tree_inv`: every listed child resolves,
/// and the next inode handed out is at least 2.
pub proof fn law_wf_tree_inv(tree: &FileTree)
    requires
        tree.wf(),
    ensures
        tree_inv(tree@),
{
}

/// Two allocations in a row hand out consecutive inodes, the first the
/// tree's next inode and never the root, and leave the nodes, the names and
/// the parents as they were.
pub proof fn law_allocations_consecutive(t: TreeView)
    requires
        tree_inv(t),
        t.next_ino + 2 <= u64::MAX,
    ensures
        t.next_ino >= 2,
        bump(t).next_ino == t.next_ino + 1,
        bump(bump(t)).next_ino == t.next_ino + 2,
        bump(bump(t)).nodes == t.nodes,
        bump(bump(t)).names == t.names,
        bump(bump(t)).parent == t.parent,
{
}

proof fn lemma_rom_files_fill_folder(
    t: TreeView,
    folder: u64,
    rom_id: u64,
    mtime: Option<u64>,
    files: Seq<RomFile>,
)
    requires
        t.nodes.contains_key(folder),
        t.nodes[folder] is Dir,
        folder < t.next_ino,
        t.next_ino + files.len() <= u64::MAX,
    ensures
        ({
            let r = add_rom_files(t, folder, rom_id, mtime, files);
            &&& r.next_ino == t.next_ino + files.len()
            &&& r.nodes.contains_key(folder)
            &&& r.nodes[folder] == (NodeView::Dir {
                name: t.nodes[folder]->Dir_name,
                children: t.nodes[folder]->Dir_children + files.map_values(
                    |f: RomFile| f.file_name@,
                ),
            })
            &&& forall|k: (u64, Seq<char>)| k.0 != folder ==> #[trigger] r.names.get(k) == t.names.get(k)
        }),
    decreases files.len(),
{
    if files.len() == 0 {
        assert(t.nodes[folder]->Dir_children + files.map_values(|f: RomFile| f.file_name@)
            =~= t.nodes[folder]->Dir_children);
    } else {
        lemma_rom_files_fill_folder(t, folder, rom_id, mtime, files.drop_last());
        assert(files.map_values(|f: RomFile| f.file_name@) =~= files.drop_last().map_values(
            |f: RomFile| f.file_name@,
        ).push(files.last().file_name@));
        let r0 = add_rom_files(t, folder, rom_id, mtime, files.drop_last());
        let r = add_rom_files(t, folder, rom_id, mtime, files);
        assert(r0.next_ino != folder);
        assert(r.nodes[folder]->Dir_children =~= t.nodes[folder]->Dir_children + files.map_values(
            |f: RomFile| f.file_name@,
        ));
        assert forall|k: (u64, Seq<char>)| k.0 != folder implies #[trigger] r.names.get(k) == t.names.get(k) by {
            assert(r.names.get(k) == r0.names.get(k));
        }
    }
}

/// A ROM with one file (or none listed) whose platform has directory `d`
/// becomes a file named after the ROM in `d`, under the next inode, standing
/// for the ROM's first file and dated by the ROM's `updated_at`.
pub proof fn law_single_file_rom_placed(t: TreeView, dirs: Seq<(String, u64)>, rom: SimpleRom, d: u64)
    requires
        dir_for(dirs, rom.platform_slug@) == Some(d),
        !(rom.has_multiple_files && rom.files@.len() > 0),
        d != t.next_ino,
    ensures
        ({
            let r = add_rom(t, dirs, rom);
            &&& r.names.get((d, rom.fs_name@)) == Some(t.next_ino)
            &&& r.nodes[t.next_ino] == (NodeView::File {
                name: rom.fs_name@,
                rom_id: rom.id,
                file_id: if rom.files@.len() > 0 {
                    Some(rom.files@[0].id)
                } else {
                    None
                },
                file_name: rom.fs_name@,
                size: rom.fs_size_bytes,
                mtime: rom_mtime(rom),
            })
        }),
{
}

/// A ROM with several files whose platform has directory `d` becomes a
/// folder in `d`, named after the ROM without its extension, that lists the
/// ROM's files in order.
pub proof fn law_multi_file_rom_becomes_folder(
    t: TreeView,
    dirs: Seq<(String, u64)>,
    rom: SimpleRom,
    d: u64,
)
    requires
        dir_for(dirs, rom.platform_slug@) == Some(d),
        rom.has_multiple_files,
        rom.files@.len() > 0,
        d != t.next_ino,
        t.next_ino + 1 + rom.files@.len() <= u64::MAX,
    ensures
        ({
            let r = add_rom(t, dirs, rom);
            &&& r.names.get((d, rom.fs_name_no_ext@)) == Some(t.next_ino)
            &&& r.nodes[t.next_ino] == (NodeView::Dir {
                name: rom.fs_name_no_ext@,
                children: rom.files@.map_values(|f: RomFile| f.file_name@),
            })
        }),
{
    let t1 = add_dir_spec(bump(t), d, rom.fs_name_no_ext@, t.next_ino);
    lemma_rom_files_fill_folder(t1, t.next_ino, rom.id, rom_mtime(rom), rom.files@);
    assert(t1.names.get((d, rom.fs_name_no_ext@)) == Some(t.next_ino));
    assert(Seq::<Seq<char>>::empty() + rom.files@.map_values(|f: RomFile| f.file_name@)
        =~= rom.files@.map_values(|f: RomFile| f.file_name@));
}

/// ROMs of platforms that have no directory leave the tree as it was.
pub proof fn law_unmapped_roms_ignored(t: TreeView, dirs: Seq<(String, u64)>, roms: Seq<SimpleRom>)
    requires
        forall|i: int| 0 <= i < roms.len() ==> dir_for(dirs, #[trigger] roms[i].platform_slug@) is None,
    ensures
        add_roms(t, dirs, roms) == t,
        roms_inodes(dirs, roms) == 0,
    decreases roms.len(),
{
    if roms.len() > 0 {
        let r = roms.drop_last();
        assert forall|i: int| 0 <= i < r.len() implies dir_for(dirs, #[trigger] r[i].platform_slug@) is None by {
            assert(r[i] == roms[i]);
        }
        law_unmapped_roms_ignored(t, dirs, r);
        assert(dir_for(dirs, roms[roms.len() - 1].platform_slug@) is None);
    }
}

} // verus!
