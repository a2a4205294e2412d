//! A two-way table between inode numbers and paths.
use std::collections::HashMap;
use vstd::prelude::*;

verus! {

broadcast use vstd::std_specs::hash::group_hash_axioms;

/// The state of an inode table: both directions and the next inode `alloc`
/// hands out.
pub struct InodeView {
    pub ino_to_path: Map<u64, Seq<char>>,
    pub path_to_ino: Map<Seq<char>, u64>,
    pub next: u64,
}

/// The table right after `InodeTable::new`: the root (inode 1) is the empty
/// path.
pub open spec fn initial_inodes() -> InodeView {
    InodeView {
        ino_to_path: Map::empty().insert(1u64, Seq::empty()),
        path_to_ino: Map::empty().insert(Seq::empty(), 1u64),
        next: 2,
    }
}

/// The table after `path` has been given the next inode.
pub open spec fn alloc_spec(t: InodeView, path: Seq<char>) -> InodeView {
    InodeView {
        ino_to_path: t.ino_to_path.insert(t.next, path),
        path_to_ino: t.path_to_ino.insert(path, t.next),
        next: (t.next + 1) as u64,
    }
}

spec fn path_map(s: Seq<(String, u64)>) -> Map<Seq<char>, u64>
    decreases s.len(),
{
    if s.len() == 0 {
        Map::empty()
    } else {
        path_map(s.drop_last()).insert(s.last().0@, s.last().1)
    }
}

spec fn unique_paths(s: Seq<(String, u64)>) -> bool {
    forall|i: int, j: int| 0 <= i < j < s.len() ==> s[i].0@ != s[j].0@
}

proof fn lemma_path_map_dom(s: Seq<(String, u64)>, k: Seq<char>)
    ensures
        path_map(s).contains_key(k) <==> exists|i: int| 0 <= i < s.len() && s[i].0@ == k,
    decreases s.len(),
{
    if s.len() > 0 {
        lemma_path_map_dom(s.drop_last(), k);
        if path_map(s).contains_key(k) && s.last().0@ != k {
            let i = choose|i: int| 0 <= i < s.drop_last().len() && s.drop_last()[i].0@ == k;
            assert(s[i].0@ == k);
        }
        if exists|i: int| 0 <= i < s.len() && s[i].0@ == k {
            let i = choose|i: int| 0 <= i < s.len() && s[i].0@ == k;
            if i < s.len() - 1 {
                assert(s.drop_last()[i].0@ == k);
            }
        }
    }
}

proof fn lemma_path_map_value(s: Seq<(String, u64)>, i: int)
    requires
        unique_paths(s),
        0 <= i < s.len(),
    ensures
        path_map(s).contains_key(s[i].0@),
        path_map(s)[s[i].0@] == s[i].1,
    decreases s.len(),
{
    if i < s.len() - 1 {
        lemma_path_map_value(s.drop_last(), i);
    }
}

proof fn lemma_path_map_update(s: Seq<(String, u64)>, i: int, e: (String, u64))
    requires
        unique_paths(s),
        0 <= i < s.len(),
        e.0@ == s[i].0@,
    ensures
        path_map(s.update(i, e)) == path_map(s).insert(e.0@, e.1),
    decreases s.len(),
{
    let u = s.update(i, e);
    if i == s.len() - 1 {
        assert(u.drop_last() =~= s.drop_last());
        assert(path_map(u) =~= path_map(s).insert(e.0@, e.1));
    } else {
        assert(u.drop_last() =~= s.drop_last().update(i, e));
        lemma_path_map_update(s.drop_last(), i, e);
        assert(path_map(u) =~= path_map(s).insert(e.0@, e.1));
    }
}

/// Maps inode numbers to paths and paths to inode numbers.
pub struct InodeTable {
    ino_to_path: HashMap<u64, String>,
    path_to_ino: Vec<(String, u64)>,
    next: u64,
}

impl View for InodeTable {
    type V = InodeView;

    closed spec fn view(&self) -> InodeView {
        InodeView {
            ino_to_path: self.ino_to_path@.map_values(|s: String| s@),
            path_to_ino: path_map(self.path_to_ino@),
            next: self.next,
        }
    }
}

/// Every path maps to an inode that maps back to it, and every inode in use
/// is below `next`.
pub open spec fn inodes_consistent(t: InodeView) -> bool {
    &&& forall|p: Seq<char>|
        #[trigger] t.path_to_ino.contains_key(p) ==> t.ino_to_path.contains_key(t.path_to_ino[p])
            && t.ino_to_path[t.path_to_ino[p]] == p
    &&& forall|i: u64| #[trigger] t.ino_to_path.contains_key(i) ==> i < t.next
}

impl InodeTable {
    /// The table's internal invariant: one index entry per path, and the
    /// two directions agree (`inodes_consistent`).
    pub closed spec fn wf(&self) -> bool {
        &&& unique_paths(self.path_to_ino@)
        &&& inodes_consistent(self@)
        &&& self.next >= 2
    }

    /// A table that knows only the root: inode 1 is the empty path.
    pub fn new() -> (t: Self)
        ensures
            t.wf(),
            t@ == initial_inodes(),
    {
        let mut ino_to_path: HashMap<u64, String> = HashMap::new();
        ino_to_path.insert(1, String::new());
        let mut path_to_ino: Vec<(String, u64)> = Vec::new();
        let root = String::new();
        proof {
            assert(root@ =~= Seq::<char>::empty());
        }
        path_to_ino.push((root, 1));
        let t = InodeTable { ino_to_path, path_to_ino, next: 2 };
        proof {
            assert(path_to_ino@.drop_last() =~= Seq::<(String, u64)>::empty());
            assert(path_to_ino@.last().0@ == Seq::<char>::empty());
            assert(path_map(path_to_ino@.drop_last()) == Map::<Seq<char>, u64>::empty());
            assert(t@.ino_to_path =~= initial_inodes().ino_to_path);
            assert(t@.path_to_ino =~= initial_inodes().path_to_ino);
        }
        t
    }

    /// Gives `path` the next inode and returns it. The inode was not in use;
    /// afterwards it names `path` and `path` names it.
    pub fn allocate(&mut self, path: &str) -> (ino: u64)
        requires
            old(self).wf(),
            old(self)@.next < u64::MAX,
        ensures
            final(self).wf(),
            ino == old(self)@.next,
            ino >= 2,
            forall|i: u64| #[trigger] old(self)@.ino_to_path.contains_key(i) ==> i < ino,
            !old(self)@.ino_to_path.contains_key(ino),
            inodes_consistent(final(self)@),
            final(self)@ == alloc_spec(old(self)@, path@),
    {
        let ghost t0 = self@;
        let ino = self.next;
        self.next = self.next + 1;
        self.ino_to_path.insert(ino, path.to_owned());
        let key = path.to_owned();
        match self.position(path) {
            Some(i) => {
                proof {
                    lemma_path_map_update(self.path_to_ino@, i as int, (key, ino));
                }
                self.path_to_ino.set(i, (key, ino));
            },
            None => {
                self.path_to_ino.push((key, ino));
                proof {
                    assert(self.path_to_ino@.drop_last() =~= old(self).path_to_ino@);
                }
            },
        }
        proof {
            assert(self@.ino_to_path =~= alloc_spec(t0, path@).ino_to_path);
            assert(self@.path_to_ino =~= alloc_spec(t0, path@).path_to_ino);
            let t1 = alloc_spec(t0, path@);
            assert forall|p: Seq<char>| #[trigger] t1.path_to_ino.contains_key(p) implies t1.ino_to_path.contains_key(
                t1.path_to_ino[p],
            ) && t1.ino_to_path[t1.path_to_ino[p]] == p by {
                if p != path@ {
                    assert(t0.path_to_ino.contains_key(p));
                    assert(t0.path_to_ino[p] < t0.next);
                }
            }
        }
        ino
    }

    /// The path of inode `ino`, if it has one.
    pub fn get_path(&self, ino: u64) -> (r: Option<&str>)
        requires
            self.wf(),
        ensures
            match r {
                Some(p) => self@.ino_to_path.contains_key(ino) && p@ == self@.ino_to_path[ino],
                None => !self@.ino_to_path.contains_key(ino),
            },
    {
        match self.ino_to_path.get(&ino) {
            Some(p) => Some(p.as_str()),
            None => None,
        }
    }

    /// The inode of `path`, if it has one.
    pub fn get_ino(&self, path: &str) -> (r: Option<u64>)
        requires
            self.wf(),
        ensures
            r == self@.path_to_ino.get(path@),
    {
        match self.position(path) {
            Some(i) => {
                proof {
                    lemma_path_map_value(self.path_to_ino@, i as int);
                }
                Some(self.path_to_ino[i].1)
            },
            None => {
                proof {
                    lemma_path_map_dom(self.path_to_ino@, path@);
                }
                None
            },
        }
    }

    fn position(&self, path: &str) -> (r: Option<usize>)
        ensures
            match r {
                Some(i) => i < self.path_to_ino@.len() && self.path_to_ino@[i as int].0@ == path@,
                None => forall|j: int|
                    0 <= j < self.path_to_ino@.len() ==> self.path_to_ino@[j].0@ != path@,
            },
    {
        let key = path.to_owned();
        let mut i: usize = 0;
        while i < self.path_to_ino.len()
            invariant
                key@ == path@,
                i <= self.path_to_ino@.len(),
                forall|j: int| 0 <= j < i ==> self.path_to_ino@[j].0@ != path@,
            decreases self.path_to_ino@.len() - i,
        {
            if self.path_to_ino[i].0 == key {
                return Some(i);
            }
            i = i + 1;
        }
        None
    }
}

/// A well-formed table is consistent (`inodes_consistent`) and hands out
/// inodes from 2 on.
pub proof fn law_wf_consistent(t: &InodeTable)
    requires
        t.wf(),
    ensures
        inodes_consistent(t@),
        t@.next >= 2,
{
}

/// Every path the table knows maps to an inode whose path is that same
/// path.
pub proof fn law_path_round_trip(t: &InodeTable, path: Seq<char>)
    requires
        t.wf(),
        t@.path_to_ino.contains_key(path),
    ensures
        t@.ino_to_path.contains_key(t@.path_to_ino[path]),
        t@.ino_to_path[t@.path_to_ino[path]] == path,
{
}

/// Allocating a path makes it resolve to the new inode, and the new inode to
/// it.
pub proof fn law_alloc_then_lookup(t: InodeView, path: Seq<char>)
    ensures
        alloc_spec(t, path).path_to_ino[path] == t.next,
        alloc_spec(t, path).ino_to_path[t.next] == path,
        alloc_spec(t, path).path_to_ino.contains_key(path),
        alloc_spec(t, path).ino_to_path.contains_key(t.next),
{
}

/// Allocating `path` leaves every other path's inode and every other
/// inode's path as they were, and the allocation after it hands out the
/// following inode.
pub proof fn law_alloc_changes_nothing_else(t: InodeView, path: Seq<char>, q: Seq<char>, j: u64)
    requires
        t.next < u64::MAX,
    ensures
        q != path ==> alloc_spec(t, path).path_to_ino.get(q) == t.path_to_ino.get(q),
        j != t.next ==> alloc_spec(t, path).ino_to_path.get(j) == t.ino_to_path.get(j),
        alloc_spec(t, path).next == t.next + 1,
{
}

} // verus!
