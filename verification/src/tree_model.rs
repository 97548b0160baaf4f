//! What the sharded tree holds: records read through the store, the store
//! invariant, and how rewriting one shard leaves the rest untouched.

use vstd::prelude::*;

verus! {

use crate::constants::TreeConfig;
use crate::node::Node;
use crate::node::NodeV;
use crate::node::dec_node;
use crate::node::enc_wf;
use crate::node::lemma_enc_wf_bounded;
use crate::node::node_wf;
use crate::node_path::Direction;
use crate::node_path::NodePath;
use crate::shard_store::ShardStore;
use crate::shard_store::lemma_store_entries;
use crate::shard_store::paths_equal;
use vstd::map::*;
use vstd::multiset::Multiset;

/// Whether position `p` is a prefix of position `q`.
pub open spec fn is_prefix_of(p: Seq<Direction>, q: Seq<Direction>) -> bool {
    p.len() <= q.len() && q.subrange(0, p.len() as int) == p
}

pub proof fn lemma_prefix_refl(p: Seq<Direction>)
    ensures
        is_prefix_of(p, p),
{
    assert(p.subrange(0, p.len() as int) =~= p);
}

pub proof fn lemma_prefix_push(p: Seq<Direction>, d: Direction)
    ensures
        is_prefix_of(p, p.push(d)),
{
    assert(p.push(d).subrange(0, p.len() as int) =~= p);
}

pub proof fn lemma_prefix_trans(p: Seq<Direction>, q: Seq<Direction>, r: Seq<Direction>)
    requires
        is_prefix_of(p, q),
        is_prefix_of(q, r),
    ensures
        is_prefix_of(p, r),
{
    assert(r.subrange(0, p.len() as int) =~= r.subrange(0, q.len() as int).subrange(
        0,
        p.len() as int,
    ));
}

/// Positions that diverge at one step have no common extension.
pub proof fn lemma_prefix_disjoint(p: Seq<Direction>, d1: Direction, d2: Direction, k: Seq<Direction>)
    requires
        d1 != d2,
        is_prefix_of(p.push(d1), k),
    ensures
        !is_prefix_of(p.push(d2), k),
{
    assert(k.subrange(0, p.len() as int + 1)[p.len() as int] == k[p.len() as int]);
}

/// All records a subtree holds, reading shard contents from the store and
/// descending through at most `fuel` shard boundaries: inline records count
/// as they stand; a shard reference contributes its file's records, an absent
/// or unreadable file contributing nothing.
pub open spec fn store_records(
    m: Map<Seq<Direction>, Seq<u8>>,
    v: NodeV,
    fuel: nat,
) -> Multiset<(u64, Seq<u8>)>
    decreases fuel, v,
{
    match v {
        NodeV::Leaf { records } => records.to_multiset(),
        NodeV::Internal { near, far, .. } => store_records(m, *near, fuel).add(
            store_records(m, *far, fuel),
        ),
        NodeV::File { path } => {
            if fuel == 0 {
                Multiset::empty()
            } else if !m.contains_key(path) {
                Multiset::empty()
            } else {
                match dec_node(m[path]) {
                    Some(inner) => store_records(m, inner, (fuel - 1) as nat),
                    None => Multiset::empty(),
                }
            }
        },
    }
}

/// The position a shard file's content is traversed at. A shard forked from
/// a leaf holds its subtree one boundary step behind its own position; the
/// canonical root shard is the boundary itself, so its content sits at the
/// root position directly.
pub open spec fn file_content_position(k: Seq<Direction>) -> Seq<Direction> {
    if k == seq![Direction::File] {
        k
    } else {
        k.push(Direction::File)
    }
}

/// The store invariant: every shard file decodes to a subtree that is
/// well formed at its content position, and can be written back faithfully.
pub open spec fn store_wf(m: Map<Seq<Direction>, Seq<u8>>, max_leaf: int) -> bool {
    forall|k: Seq<Direction>|
        #[trigger] m.contains_key(k) ==> {
            &&& dec_node(m[k]) is Some
            &&& enc_wf(dec_node(m[k])->Some_0)
            &&& node_wf(dec_node(m[k])->Some_0, max_leaf, file_content_position(k))
        }
}

/// A content position extends the key it belongs to.
pub proof fn lemma_content_position_extends(k: Seq<Direction>)
    ensures
        is_prefix_of(k, file_content_position(k)),
{
    if k == seq![Direction::File] {
        lemma_prefix_refl(k);
    } else {
        lemma_prefix_push(k, Direction::File);
    }
}

/// The records a well-formed subtree holds depend only on the store entries
/// at positions the subtree spans: two stores that agree beyond `pos` give
/// the same records.
pub proof fn lemma_store_records_agree(
    m1: Map<Seq<Direction>, Seq<u8>>,
    m2: Map<Seq<Direction>, Seq<u8>>,
    v: NodeV,
    max_leaf: int,
    pos: Seq<Direction>,
    fuel: nat,
)
    requires
        node_wf(v, max_leaf, pos),
        store_wf(m1, max_leaf),
        forall|k: Seq<Direction>|
            #[trigger] is_prefix_of(pos, k) ==> (m1.contains_key(k) <==> m2.contains_key(k)) && (
            m1.contains_key(k) ==> m1[k] == m2[k]),
    ensures
        store_records(m1, v, fuel) == store_records(m2, v, fuel),
    decreases fuel, v,
{
    match v {
        NodeV::Leaf { .. } => {},
        NodeV::Internal { near, far, .. } => {
            assert forall|k: Seq<Direction>|
                #[trigger] is_prefix_of(pos.push(Direction::Near), k) implies (m1.contains_key(k)
                <==> m2.contains_key(k)) && (m1.contains_key(k) ==> m1[k] == m2[k]) by {
                lemma_prefix_push(pos, Direction::Near);
                lemma_prefix_trans(pos, pos.push(Direction::Near), k);
                assert(is_prefix_of(pos, k));
            }
            lemma_store_records_agree(m1, m2, *near, max_leaf, pos.push(Direction::Near), fuel);
            assert forall|k: Seq<Direction>|
                #[trigger] is_prefix_of(pos.push(Direction::Far), k) implies (m1.contains_key(k)
                <==> m2.contains_key(k)) && (m1.contains_key(k) ==> m1[k] == m2[k]) by {
                lemma_prefix_push(pos, Direction::Far);
                lemma_prefix_trans(pos, pos.push(Direction::Far), k);
                assert(is_prefix_of(pos, k));
            }
            lemma_store_records_agree(m1, m2, *far, max_leaf, pos.push(Direction::Far), fuel);
        },
        NodeV::File { path } => {
            if fuel > 0 {
                lemma_prefix_refl(pos);
                assert(path == pos);
                assert(is_prefix_of(pos, pos));
                if m1.contains_key(pos) {
                    assert(m2.contains_key(pos) && m2[pos] == m1[pos]);
                    let inner = dec_node(m1[pos])->Some_0;
                    assert forall|k: Seq<Direction>|
                        #[trigger] is_prefix_of(file_content_position(pos), k) implies (
                        m1.contains_key(k) <==> m2.contains_key(k)) && (m1.contains_key(k)
                        ==> m1[k] == m2[k]) by {
                        lemma_content_position_extends(pos);
                        lemma_prefix_trans(pos, file_content_position(pos), k);
                        assert(is_prefix_of(pos, k));
                    }
                    if dec_node(m1[pos]) is Some {
                        lemma_store_records_agree(
                            m1,
                            m2,
                            inner,
                            max_leaf,
                            file_content_position(pos),
                            (fuel - 1) as nat,
                        );
                    }
                } else {
                    assert(!m2.contains_key(pos));
                }
            }
        },
    }
}


/// For a subtree that is not itself a shard reference, the records depend
/// only on store entries strictly below its position: the entry at the
/// position itself is never read.
pub proof fn lemma_store_records_agree_strict(
    m1: Map<Seq<Direction>, Seq<u8>>,
    m2: Map<Seq<Direction>, Seq<u8>>,
    v: NodeV,
    max_leaf: int,
    pos: Seq<Direction>,
    fuel: nat,
)
    requires
        node_wf(v, max_leaf, pos),
        store_wf(m1, max_leaf),
        !(v is File),
        forall|k: Seq<Direction>|
            #[trigger] is_prefix_of(pos, k) && k != pos ==> (m1.contains_key(k)
                <==> m2.contains_key(k)) && (m1.contains_key(k) ==> m1[k] == m2[k]),
    ensures
        store_records(m1, v, fuel) == store_records(m2, v, fuel),
{
    match v {
        NodeV::Leaf { .. } => {},
        NodeV::Internal { near, far, .. } => {
            assert forall|k: Seq<Direction>|
                #[trigger] is_prefix_of(pos.push(Direction::Near), k) implies (m1.contains_key(k)
                <==> m2.contains_key(k)) && (m1.contains_key(k) ==> m1[k] == m2[k]) by {
                lemma_prefix_push(pos, Direction::Near);
                lemma_prefix_trans(pos, pos.push(Direction::Near), k);
                assert(is_prefix_of(pos, k));
                assert(k.len() > pos.len());
            }
            lemma_store_records_agree(m1, m2, *near, max_leaf, pos.push(Direction::Near), fuel);
            assert forall|k: Seq<Direction>|
                #[trigger] is_prefix_of(pos.push(Direction::Far), k) implies (m1.contains_key(k)
                <==> m2.contains_key(k)) && (m1.contains_key(k) ==> m1[k] == m2[k]) by {
                lemma_prefix_push(pos, Direction::Far);
                lemma_prefix_trans(pos, pos.push(Direction::Far), k);
                assert(is_prefix_of(pos, k));
                assert(k.len() > pos.len());
            }
            lemma_store_records_agree(m1, m2, *far, max_leaf, pos.push(Direction::Far), fuel);
        },
        NodeV::File { .. } => {},
    }
}


/// Whether one insert of a record with descriptor `desc` is guaranteed to
/// succeed: routing through internal nodes is decided by the stored vantages
/// alone, so until a full leaf is met -- whose split draws on the random
/// source -- success is a function of store, subtree, position and fuel. The
/// walk must stay within the fuel at each shard boundary, find every file it
/// opens readable, and end at a leaf with room.
pub open spec fn insert_route_ok(
    m: Map<Seq<Direction>, Seq<u8>>,
    v: NodeV,
    pos: Seq<Direction>,
    desc: Seq<u8>,
    max_leaf: int,
    max_depth: int,
    fuel: nat,
) -> bool
    decreases fuel, v,
{
    match v {
        NodeV::Leaf { records } => {
            &&& records.len() + 1 <= max_leaf
            &&& (crate::node_path::spec_should_split(pos, max_depth) ==> fuel >= 1)
        },
        NodeV::Internal { radius, vantage, near, far } => {
            if crate::feature_description::spec_distance(desc, vantage) < radius {
                insert_route_ok(
                    m,
                    *near,
                    pos.push(Direction::Near),
                    desc,
                    max_leaf,
                    max_depth,
                    fuel,
                )
            } else {
                insert_route_ok(m, *far, pos.push(Direction::Far), desc, max_leaf, max_depth, fuel)
            }
        },
        NodeV::File { path } => {
            &&& fuel >= 1
            &&& (m.contains_key(path) ==> dec_node(m[path]) is Some)
            &&& {
                let content = if m.contains_key(path) {
                    dec_node(m[path])->Some_0
                } else {
                    NodeV::Leaf { records: Seq::empty() }
                };
                &&& !(path == seq![Direction::File] && content is File)
                &&& insert_route_ok(
                    m,
                    content,
                    file_content_position(path),
                    desc,
                    max_leaf,
                    max_depth,
                    (fuel - 1) as nat,
                )
            }
        },
    }
}

/// A position whose records outnumber the leaf capacity cannot be a leaf:
/// once more records than the capacity have been routed to one position, the
/// node standing there is an internal split or a shard reference.
pub proof fn lemma_capacity_forces_split(
    m: Map<Seq<Direction>, Seq<u8>>,
    v: NodeV,
    max_leaf: int,
    pos: Seq<Direction>,
    fuel: nat,
)
    requires
        node_wf(v, max_leaf, pos),
        store_records(m, v, fuel).len() > max_leaf,
    ensures
        !(v is Leaf),
{
    broadcast use vstd::seq_lib::group_to_multiset_ensures;

    if v is Leaf {
        assert(store_records(m, v, fuel) == v->Leaf_records.to_multiset());
        assert(v->Leaf_records.to_multiset().len() == v->Leaf_records.len());
    }
}


impl ShardStore {
    /// Decides whether every shard file of the store is readable and well
    /// formed at its position, so that the verified tree operations accept
    /// the store: what a shell must check after loading foreign bytes from
    /// disk.
    pub fn validate(&self, config: &TreeConfig) -> (r: bool)
        requires
            self.wf(),
            config.wf(),
        ensures
            r == store_wf(self@, config.max_leaf_node_size as int),
    {
        let ghost ml = config.max_leaf_node_size as int;
        proof {
            lemma_store_entries(self.files@);
        }
        let mut root_key = NodePath::new_empty();
        root_key.push_direction(Direction::File);
        proof {
            assert(root_key@ =~= seq![Direction::File]);
        }
        let count = self.file_count();
        let mut i: usize = 0;
        while i < count
            invariant
                0 <= i <= count,
                count == self.files@.len(),
                self.wf(),
                config.wf(),
                ml == config.max_leaf_node_size as int,
                root_key@ == seq![Direction::File],
                forall|j: int|
                    0 <= j < i ==> {
                        &&& dec_node((#[trigger] self.files@[j]).1@) is Some
                        &&& enc_wf(dec_node(self.files@[j].1@)->Some_0)
                        &&& node_wf(
                            dec_node(self.files@[j].1@)->Some_0,
                            ml,
                            file_content_position(self.files@[j].0@),
                        )
                    },
            decreases count - i,
        {
            let (path, bytes) = self.entry_at(i);
            let ghost key = self.files@[i as int].0@;
            proof {
                lemma_store_entries(self.files@);
                assert(self@.contains_key(key) && self@[key] == bytes@);
            }
            let content = match Node::from_binary(bytes.as_slice()) {
                Ok(content) => content,
                Err(_) => {
                    proof {
                        assert(!store_wf(self@, ml));
                    }
                    return false;
                },
            };
            let mut content_pos = path.duplicate();
            if !paths_equal(path, &root_key) {
                content_pos.push_direction(Direction::File);
            }
            proof {
                assert(content_pos@ == file_content_position(key));
            }
            if !content.check_well_formed(config.max_leaf_node_size, &content_pos) {
                proof {
                    assert(!node_wf(dec_node(self@[key])->Some_0, ml, file_content_position(key)));
                    assert(!store_wf(self@, ml));
                }
                return false;
            }
            // Re-encoding bounds every length field of the subtree, so it can
            // be written back faithfully.
            let encoded = content.to_binary();
            let encoded_length = encoded.len();
            proof {
                assert(crate::node::enc_node(content@).len() == encoded_length);
                lemma_enc_wf_bounded(content@, ml, content_pos@);
            }
            i = i + 1;
        }
        proof {
            assert forall|k: Seq<Direction>| #[trigger] self@.contains_key(k) implies {
                &&& dec_node(self@[k]) is Some
                &&& enc_wf(dec_node(self@[k])->Some_0)
                &&& node_wf(dec_node(self@[k])->Some_0, ml, file_content_position(k))
            } by {
                let j = choose|j: int|
                    0 <= j < self.files@.len() && (#[trigger] self.files@[j]).0@ == k;
                assert(self@[k] == self.files@[j].1@);
            }
        }
        true
    }
}

} // verus!
