//! The shard files of one index as a verified in-memory value.

use vstd::prelude::*;

verus! {

use crate::node_path::Direction;
use crate::node_path::NodePath;
use vstd::map::*;

/// The shard files of one index, as a value: each entry pairs the position a
/// shard is addressed by with the bytes of its file. The real file system
/// holds the same pairs on disk; this value is what tree operations are
/// verified against.
pub struct ShardStore {
    pub files: Vec<(NodePath, Vec<u8>)>,
}

/// The map an entry list denotes: later entries win, though a well-formed
/// store never repeats a key.
pub open spec fn store_map_of(s: Seq<(NodePath, Vec<u8>)>) -> Map<Seq<Direction>, Seq<u8>>
    decreases s.len(),
{
    if s.len() == 0 {
        Map::empty()
    } else {
        store_map_of(s.drop_last()).insert(s.last().0@, s.last().1@)
    }
}

impl View for ShardStore {
    type V = Map<Seq<Direction>, Seq<u8>>;

    open spec fn view(&self) -> Map<Seq<Direction>, Seq<u8>> {
        store_map_of(self.files@)
    }
}

/// No two entries share a key.
pub open spec fn entries_unique(s: Seq<(NodePath, Vec<u8>)>) -> bool {
    forall|i: int, j: int| 0 <= i < j < s.len() ==> (#[trigger] s[i]).0@ != (#[trigger] s[j]).0@
}

/// In a store without repeated keys, every entry is visible in the map.
pub proof fn lemma_store_entries(s: Seq<(NodePath, Vec<u8>)>)
    requires
        entries_unique(s),
    ensures
        forall|i: int|
            0 <= i < s.len() ==> store_map_of(s).contains_key((#[trigger] s[i]).0@)
                && store_map_of(s)[s[i].0@] == s[i].1@,
        forall|k: Seq<Direction>|
            store_map_of(s).contains_key(k) ==> exists|i: int|
                0 <= i < s.len() && (#[trigger] s[i]).0@ == k,
    decreases s.len(),
{
    if s.len() > 0 {
        assert(entries_unique(s.drop_last())) by {
            assert forall|i: int, j: int|
                0 <= i < j < s.drop_last().len() implies (#[trigger] s.drop_last()[i]).0@ != (
            #[trigger] s.drop_last()[j]).0@ by {
                assert(s.drop_last()[i] == s[i]);
                assert(s.drop_last()[j] == s[j]);
            }
        }
        lemma_store_entries(s.drop_last());
        assert forall|i: int|
            0 <= i < s.len() implies store_map_of(s).contains_key((#[trigger] s[i]).0@)
            && store_map_of(s)[s[i].0@] == s[i].1@ by {
            if i < s.len() - 1 {
                assert(s.drop_last()[i] == s[i]);
                assert(s[i].0@ != s[s.len() - 1].0@);
            }
        }
        assert forall|k: Seq<Direction>| store_map_of(s).contains_key(k) implies exists|i: int|
            0 <= i < s.len() && (#[trigger] s[i]).0@ == k by {
            if k == s.last().0@ {
                assert(s[s.len() - 1].0@ == k);
            } else {
                assert(store_map_of(s.drop_last()).contains_key(k));
                let i = choose|i: int|
                    0 <= i < s.drop_last().len() && (#[trigger] s.drop_last()[i]).0@ == k;
                assert(s[i].0@ == k);
            }
        }
    }
}

/// Updating the bytes of one entry updates the map at its key.
pub proof fn lemma_store_update(s: Seq<(NodePath, Vec<u8>)>, i: int, e: (NodePath, Vec<u8>))
    requires
        entries_unique(s),
        0 <= i < s.len(),
        e.0@ == s[i].0@,
    ensures
        store_map_of(s.update(i, e)) == store_map_of(s).insert(e.0@, e.1@),
        entries_unique(s.update(i, e)),
    decreases s.len(),
{
    assert(entries_unique(s.drop_last())) by {
        assert forall|a: int, b: int|
            0 <= a < b < s.drop_last().len() implies (#[trigger] s.drop_last()[a]).0@ != (
        #[trigger] s.drop_last()[b]).0@ by {
            assert(s.drop_last()[a] == s[a]);
            assert(s.drop_last()[b] == s[b]);
        }
    }
    assert forall|a: int, b: int|
        0 <= a < b < s.update(i, e).len() implies (#[trigger] s.update(i, e)[a]).0@ != (
    #[trigger] s.update(i, e)[b]).0@ by {
        assert(s.update(i, e)[a] == if a == i {
            e
        } else {
            s[a]
        });
        assert(s.update(i, e)[b] == if b == i {
            e
        } else {
            s[b]
        });
    }
    if i == s.len() - 1 {
        assert(s.update(i, e).drop_last() =~= s.drop_last());
        assert(store_map_of(s.update(i, e)) =~= store_map_of(s).insert(e.0@, e.1@));
    } else {
        lemma_store_update(s.drop_last(), i, e);
        assert(s.update(i, e).drop_last() =~= s.drop_last().update(i, e));
        assert(s.update(i, e).last() == s.last());
        assert(store_map_of(s.update(i, e)) =~= store_map_of(s.drop_last()).insert(
            e.0@,
            e.1@,
        ).insert(s.last().0@, s.last().1@));
        lemma_store_entries(s);
        assert(e.0@ != s.last().0@);
        assert(store_map_of(s.drop_last()).insert(e.0@, e.1@).insert(s.last().0@, s.last().1@)
            =~= store_map_of(s.drop_last()).insert(s.last().0@, s.last().1@).insert(e.0@, e.1@));
    }
}

impl ShardStore {
    /// The store invariant: one entry per key.
    pub open spec fn wf(&self) -> bool {
        entries_unique(self.files@)
    }

    pub fn new() -> (r: ShardStore)
        ensures
            r.wf(),
            r@ == Map::<Seq<Direction>, Seq<u8>>::empty(),
    {
        ShardStore { files: Vec::new() }
    }

    /// The number of shard files held.
    pub fn file_count(&self) -> (r: usize)
        ensures
            r == self.files@.len(),
    {
        self.files.len()
    }

    /// The entry at a list index, for walking the whole store.
    pub fn entry_at(&self, i: usize) -> (r: (&NodePath, &Vec<u8>))
        requires
            i < self.files@.len(),
        ensures
            r.0@ == self.files@[i as int].0@,
            r.1@ == self.files@[i as int].1@,
    {
        let entry = &self.files[i];
        (&entry.0, &entry.1)
    }

    /// The bytes of the shard file at a position, if one was ever written.
    pub fn get(&self, path: &NodePath) -> (r: Option<&Vec<u8>>)
        requires
            self.wf(),
        ensures
            match r {
                Some(bytes) => self@.contains_key(path@) && bytes@ == self@[path@],
                None => !self@.contains_key(path@),
            },
    {
        proof {
            lemma_store_entries(self.files@);
        }
        let mut i: usize = 0;
        while i < self.files.len()
            invariant
                0 <= i <= self.files@.len(),
                self.wf(),
                forall|j: int| 0 <= j < i ==> (#[trigger] self.files@[j]).0@ != path@,
            decreases self.files@.len() - i,
        {
            if paths_equal(&self.files[i].0, path) {
                proof {
                    lemma_store_entries(self.files@);
                }
                return Some(&self.files[i].1);
            }
            i = i + 1;
        }
        proof {
            if self@.contains_key(path@) {
                lemma_store_entries(self.files@);
                let j = choose|j: int|
                    0 <= j < self.files@.len() && (#[trigger] self.files@[j]).0@ == path@;
                assert(false);
            }
        }
        None
    }

    /// Writes the shard file at a position whole, replacing any previous
    /// bytes: one entry per key stays one entry.
    pub fn put(&mut self, path: NodePath, bytes: Vec<u8>)
        requires
            old(self).wf(),
        ensures
            final(self).wf(),
            final(self)@ == old(self)@.insert(path@, bytes@),
    {
        let mut i: usize = 0;
        while i < self.files.len()
            invariant
                0 <= i <= self.files@.len(),
                self.wf(),
                self.files@ == old(self).files@,
                forall|j: int| 0 <= j < i ==> (#[trigger] self.files@[j]).0@ != path@,
            decreases self.files@.len() - i,
        {
            if paths_equal(&self.files[i].0, &path) {
                proof {
                    lemma_store_update(self.files@, i as int, (path, bytes));
                }
                self.files.set(i, (path, bytes));
                return ;
            }
            i = i + 1;
        }
        self.files.push((path, bytes));
        proof {
            assert(self.files@.drop_last() =~= old(self).files@);
            assert forall|a: int, b: int|
                0 <= a < b < self.files@.len() implies (#[trigger] self.files@[a]).0@ != (
            #[trigger] self.files@[b]).0@ by {
                if b < self.files@.len() - 1 {
                    assert(self.files@[a] == old(self).files@[a]);
                    assert(self.files@[b] == old(self).files@[b]);
                } else {
                    assert(self.files@[a] == old(self).files@[a]);
                }
            }
        }
    }
}

/// Whether two positions are the same sequence of directions.
pub fn paths_equal(a: &NodePath, b: &NodePath) -> (r: bool)
    ensures
        r == (a@ == b@),
{
    if a.path.len() != b.path.len() {
        proof {
            assert(a@ != b@);
        }
        return false;
    }
    let mut i: usize = 0;
    while i < a.path.len()
        invariant
            0 <= i <= a@.len(),
            a@.len() == b@.len(),
            forall|j: int| 0 <= j < i ==> a@[j] == b@[j],
        decreases a@.len() - i,
    {
        if a.path[i] != b.path[i] {
            proof {
                assert(a@[i as int] != b@[i as int]);
            }
            return false;
        }
        i = i + 1;
    }
    proof {
        assert(a@ =~= b@);
    }
    true
}

} // verus!
