//! Walking the sharded tree: pruned search, sizing, and record collection.

use vstd::prelude::*;

verus! {

use crate::error::TreeError;
use crate::node::Node;
use crate::node::NodeV;
use crate::node::copy_features;
use crate::node::dec_node;
use crate::node::node_height;
use crate::search_result::SearchResultList;
use crate::shard_store::ShardStore;
use crate::tree_model::store_records;
use crate::uuid_description_pair::UUIDDescriptionPair;
use vstd::map::*;
use vstd::multiset::Multiset;
use vstd::seq_lib::lemma_multiset_commutative;

/// Whether every shard file a subtree reaches within `fuel` boundaries is
/// present-or-absent and readable: the condition under which traversals
/// cannot fail.
pub open spec fn subtree_ok(m: Map<Seq<crate::node_path::Direction>, Seq<u8>>, v: NodeV, fuel: nat) -> bool
    decreases fuel, v,
{
    match v {
        NodeV::Leaf { .. } => true,
        NodeV::Internal { near, far, .. } => subtree_ok(m, *near, fuel) && subtree_ok(
            m,
            *far,
            fuel,
        ),
        NodeV::File { path } => fuel > 0 && (m.contains_key(path) ==> dec_node(m[path]) is Some
            && subtree_ok(m, dec_node(m[path])->Some_0, (fuel - 1) as nat)),
    }
}

impl Node {
    /// Offers to the accumulator a subset of the records this subtree holds,
    /// skipping a side of a split only when the pruning test passes. Every
    /// record offered comes from the subtree, with its true distance; a
    /// subtree whose files are all readable within the fuel never fails.
    pub fn find(&self, store: &ShardStore, results: &mut SearchResultList, fuel: u32) -> (r:
        Result<(), TreeError>)
        requires
            store.wf(),
            old(results).wf(),
        ensures
            final(results).wf(),
            final(results).target == old(results).target,
            final(results).max_features == old(results).max_features,
            final(results).comparisons >= old(results).comparisons,
            old(results).offered@.is_prefix_of(final(results).offered@),
            final(results).offered@.skip(old(results).offered@.len() as int).to_multiset().subset_of(
                store_records(store@, self@, fuel as nat),
            ),
            subtree_ok(store@, self@, fuel as nat) ==> r is Ok,
            (*self) is Leaf ==> r is Ok && final(results).offered@ == old(results).offered@
                + self@->Leaf_records,
            r is Ok && final(results).results@.len() < final(results).max_features
                ==> store_records(store@, self@, fuel as nat).subset_of(
                final(results).offered@.skip(old(results).offered@.len() as int).to_multiset(),
            ),
        decreases fuel, node_height(*self),
    {
        proof {
            broadcast use vstd::seq_lib::group_to_multiset_ensures;
            broadcast use vstd::multiset::group_multiset_axioms;
        }
        let ghost off0 = results.offered@;
        match self {
            Node::Leaf(node) => {
                let ghost views = node.features@.map_values(|p: UUIDDescriptionPair| p@);
                let mut i: usize = 0;
                proof {
                    assert(results.offered@ =~= off0 + views.subrange(0, 0));
                }
                while i < node.features.len()
                    invariant
                        0 <= i <= node.features@.len(),
                        views == node.features@.map_values(|p: UUIDDescriptionPair| p@),
                        results.wf(),
                        results.target == old(results).target,
                        results.max_features == old(results).max_features,
                        results.comparisons >= old(results).comparisons,
                        results.offered@ == off0 + views.subrange(0, i as int),
                    decreases node.features@.len() - i,
                {
                    results.try_to_add(&node.features[i]);
                    proof {
                        assert(results.offered@ =~= off0 + views.subrange(0, i + 1));
                    }
                    i = i + 1;
                }
                proof {
                    assert(views.subrange(0, views.len() as int) =~= views);
                    assert(results.offered@ == off0 + views);
                    assert(results.offered@.skip(off0.len() as int) =~= views);
                    assert(store_records(store@, self@, fuel as nat) == views.to_multiset());
                    assert(views == self@->Leaf_records);
                    assert(store_records(store@, self@, fuel as nat).subset_of(
                        views.to_multiset(),
                    ));
                }
                Ok(())
            },
            Node::Internal(node) => {
                let distance_to_vantage = results.distance_to_feature(&node.vantage);
                let is_near = distance_to_vantage < node.radius;
                let ghost nearv = (*node.near)@;
                let ghost farv = (*node.far)@;
                let primary_result = if is_near {
                    node.near.find(store, results, fuel)
                } else {
                    node.far.find(store, results, fuel)
                };
                let ghost off1 = results.offered@;
                if let Err(e) = primary_result {
                    proof {
                        lemma_delta_widens(
                            store@,
                            self@,
                            nearv,
                            farv,
                            off0,
                            off1,
                            is_near,
                            fuel as nat,
                        );
                    }
                    return Err(e);
                }
                // Skip the secondary side only when the accumulator is full
                // and the pruning test passes: until k results are held the
                // worst-kept distance is not yet a non-increasing bound, so
                // both sides are visited.
                let visit_secondary = if results.results.len() < results.max_features {
                    true
                } else {
                    let worst = results.get_worst_distance_to_target();
                    let is_lucky = if is_near {
                        (worst as u64) + (distance_to_vantage as u64) < (node.radius as u64)
                    } else {
                        (node.radius as u64) + (worst as u64) <= (distance_to_vantage as u64)
                    };
                    !is_lucky
                };
                let secondary_result = if visit_secondary {
                    if is_near {
                        node.far.find(store, results, fuel)
                    } else {
                        node.near.find(store, results, fuel)
                    }
                } else {
                    Ok(())
                };
                let ghost off2 = results.offered@;
                proof {
                    assert(off1.skip(off0.len() as int).to_multiset().subset_of(
                        store_records(
                            store@,
                            if is_near {
                                nearv
                            } else {
                                farv
                            },
                            fuel as nat,
                        ),
                    ));
                    assert(off2.skip(off1.len() as int).to_multiset().subset_of(
                        store_records(
                            store@,
                            if is_near {
                                farv
                            } else {
                                nearv
                            },
                            fuel as nat,
                        ),
                    )) by {
                        if !visit_secondary {
                            assert(off2 == off1);
                            assert(off2.skip(off1.len() as int) =~= Seq::<(u64, Seq<u8>)>::empty());
                            crate::node::lemma_empty_seq_multiset();
                        }
                    }
                    let d1 = off1.skip(off0.len() as int);
                    let d2 = off2.skip(off1.len() as int);
                    assert(off2.skip(off0.len() as int) =~= d1 + d2);
                    lemma_multiset_commutative(d1, d2);
                    assert(store_records(store@, self@, fuel as nat) == store_records(
                        store@,
                        nearv,
                        fuel as nat,
                    ).add(store_records(store@, farv, fuel as nat)));
                    assert forall|o: (u64, Seq<u8>)| #[trigger]
                        (d1 + d2).to_multiset().count(o) <= store_records(
                            store@,
                            self@,
                            fuel as nat,
                        ).count(o) by {
                        assert(d1.to_multiset().count(o) + d2.to_multiset().count(o)
                            <= store_records(store@, nearv, fuel as nat).count(o) + store_records(
                            store@,
                            farv,
                            fuel as nat,
                        ).count(o));
                    }
                    // Completeness while the accumulator is not full: nothing
                    // was skipped on the way, so both sides handed over all
                    // their records.
                    if secondary_result is Ok && results.results@.len() < results.max_features {
                        assert(off1.len() <= off2.len());
                        assert(visit_secondary) by {
                            if !visit_secondary {
                                assert(off2 == off1);
                                assert(results.results@.len() == results.max_features);
                            }
                        }
                        assert(store_records(
                            store@,
                            if is_near {
                                nearv
                            } else {
                                farv
                            },
                            fuel as nat,
                        ).subset_of(d1.to_multiset()));
                        assert(store_records(
                            store@,
                            if is_near {
                                farv
                            } else {
                                nearv
                            },
                            fuel as nat,
                        ).subset_of(d2.to_multiset()));
                        assert forall|o: (u64, Seq<u8>)| #[trigger] store_records(
                            store@,
                            self@,
                            fuel as nat,
                        ).count(o) <= (d1 + d2).to_multiset().count(o) by {
                            assert(store_records(store@, nearv, fuel as nat).count(o)
                                + store_records(store@, farv, fuel as nat).count(o)
                                <= d1.to_multiset().count(o) + d2.to_multiset().count(o));
                        }
                    }
                }
                secondary_result
            },
            Node::File(node) => {
                if fuel == 0 {
                    proof {
                        lemma_empty_delta(off0, results.offered@);
                    }
                    return Err(TreeError::DepthExceeded);
                }
                let bytes = match store.get(&node.path_in_tree) {
                    Some(bytes) => bytes,
                    None => {
                        proof {
                            lemma_empty_delta(off0, results.offered@);
                            assert(store_records(store@, self@, fuel as nat) == Multiset::<
                                (u64, Seq<u8>),
                            >::empty());
                            assert forall|o: (u64, Seq<u8>)| #[trigger] store_records(
                                store@,
                                self@,
                                fuel as nat,
                            ).count(o) <= results.offered@.skip(
                                off0.len() as int,
                            ).to_multiset().count(o) by {}
                        }
                        return Ok(());
                    },
                };
                let content = match Node::from_binary(bytes.as_slice()) {
                    Ok(content) => content,
                    Err(e) => {
                        proof {
                            lemma_empty_delta(off0, results.offered@);
                        }
                        return Err(e);
                    },
                };
                let r = content.find(store, results, fuel - 1);
                proof {
                    assert(store_records(store@, self@, fuel as nat) == store_records(
                        store@,
                        content@,
                        (fuel - 1) as nat,
                    ));
                }
                r
            },
        }
    }
}

/// An unchanged offer history contributes an empty, trivially contained
/// record set.
proof fn lemma_empty_delta(off0: Seq<(u64, Seq<u8>)>, off1: Seq<(u64, Seq<u8>)>)
    requires
        off0 == off1,
    ensures
        off0.is_prefix_of(off1),
        forall|ms: Multiset<(u64, Seq<u8>)>| #[trigger]
            off1.skip(off0.len() as int).to_multiset().subset_of(ms),
{
    broadcast use vstd::seq_lib::group_to_multiset_ensures;
    broadcast use vstd::multiset::group_multiset_axioms;

    assert(off0.subrange(0, off0.len() as int) =~= off0);
    assert(off1.skip(off0.len() as int) =~= Seq::<(u64, Seq<u8>)>::empty());
    crate::node::lemma_empty_seq_multiset();
    assert forall|ms: Multiset<(u64, Seq<u8>)>| #[trigger]
        off1.skip(off0.len() as int).to_multiset().subset_of(ms) by {
        assert(off1.skip(off0.len() as int).to_multiset() == Multiset::<(u64, Seq<u8>)>::empty());
    }
}

/// Records offered while searching one side of a split are records of the
/// whole split.
proof fn lemma_delta_widens(
    m: Map<Seq<crate::node_path::Direction>, Seq<u8>>,
    whole: NodeV,
    nearv: NodeV,
    farv: NodeV,
    off0: Seq<(u64, Seq<u8>)>,
    off1: Seq<(u64, Seq<u8>)>,
    is_near: bool,
    fuel: nat,
)
    requires
        whole is Internal,
        *whole->Internal_near == nearv,
        *whole->Internal_far == farv,
        off0.is_prefix_of(off1),
        off1.skip(off0.len() as int).to_multiset().subset_of(
            store_records(
                m,
                if is_near {
                    nearv
                } else {
                    farv
                },
                fuel,
            ),
        ),
    ensures
        off1.skip(off0.len() as int).to_multiset().subset_of(store_records(m, whole, fuel)),
{
    broadcast use vstd::multiset::group_multiset_axioms;

    assert(store_records(m, whole, fuel) == store_records(m, nearv, fuel).add(
        store_records(m, farv, fuel),
    ));
}


impl Node {
    /// The number of records the subtree holds, recomputed from the store,
    /// never cached. Succeeds exactly when every reachable file is readable
    /// within the fuel and the count fits 64 bits.
    pub fn size(&self, store: &ShardStore, fuel: u32) -> (r: Result<u64, TreeError>)
        requires
            store.wf(),
        ensures
            match r {
                Ok(n) => subtree_ok(store@, self@, fuel as nat) && n == store_records(
                    store@,
                    self@,
                    fuel as nat,
                ).len(),
                Err(_) => !(subtree_ok(store@, self@, fuel as nat) && store_records(
                    store@,
                    self@,
                    fuel as nat,
                ).len() <= u64::MAX),
            },
        decreases fuel, node_height(*self),
    {
        proof {
            broadcast use vstd::seq_lib::group_to_multiset_ensures;
            broadcast use vstd::multiset::group_multiset_axioms;
        }
        match self {
            Node::Leaf(node) => Ok(node.features.len() as u64),
            Node::Internal(node) => {
                let near_size = match node.near.size(store, fuel) {
                    Ok(n) => n,
                    Err(e) => {
                        return Err(e);
                    },
                };
                let far_size = match node.far.size(store, fuel) {
                    Ok(n) => n,
                    Err(e) => {
                        return Err(e);
                    },
                };
                if near_size > u64::MAX - far_size {
                    return Err(TreeError::SizeOverflow);
                }
                Ok(near_size + far_size)
            },
            Node::File(node) => {
                if fuel == 0 {
                    return Err(TreeError::DepthExceeded);
                }
                let bytes = match store.get(&node.path_in_tree) {
                    Some(bytes) => bytes,
                    None => {
                        return Ok(0);
                    },
                };
                let content = match Node::from_binary(bytes.as_slice()) {
                    Ok(content) => content,
                    Err(e) => {
                        return Err(e);
                    },
                };
                let r = content.size(store, fuel - 1);
                proof {
                    assert(store_records(store@, self@, fuel as nat) == store_records(
                        store@,
                        content@,
                        (fuel - 1) as nat,
                    ));
                }
                r
            },
        }
    }

    /// Every record the subtree holds, read out of the store in one vector.
    /// Succeeds exactly when every reachable file is readable within the
    /// fuel.
    pub fn collect_records(&self, store: &ShardStore, fuel: u32) -> (r: Result<
        Vec<UUIDDescriptionPair>,
        TreeError,
    >)
        requires
            store.wf(),
        ensures
            match r {
                Ok(v) => subtree_ok(store@, self@, fuel as nat) && v@.map_values(
                    |p: UUIDDescriptionPair| p@,
                ).to_multiset() == store_records(store@, self@, fuel as nat),
                Err(_) => !subtree_ok(store@, self@, fuel as nat),
            },
        decreases fuel, node_height(*self),
    {
        proof {
            broadcast use vstd::seq_lib::group_to_multiset_ensures;
            broadcast use vstd::multiset::group_multiset_axioms;
        }
        match self {
            Node::Leaf(node) => Ok(copy_features(&node.features)),
            Node::Internal(node) => {
                let mut near_records = match node.near.collect_records(store, fuel) {
                    Ok(v) => v,
                    Err(e) => {
                        return Err(e);
                    },
                };
                let mut far_records = match node.far.collect_records(store, fuel) {
                    Ok(v) => v,
                    Err(e) => {
                        return Err(e);
                    },
                };
                let ghost nv = near_records@.map_values(|p: UUIDDescriptionPair| p@);
                let ghost fv = far_records@.map_values(|p: UUIDDescriptionPair| p@);
                near_records.append(&mut far_records);
                proof {
                    assert(near_records@.map_values(|p: UUIDDescriptionPair| p@) =~= nv + fv);
                    lemma_multiset_commutative(nv, fv);
                }
                Ok(near_records)
            },
            Node::File(node) => {
                if fuel == 0 {
                    return Err(TreeError::DepthExceeded);
                }
                let bytes = match store.get(&node.path_in_tree) {
                    Some(bytes) => bytes,
                    None => {
                        let empty: Vec<UUIDDescriptionPair> = Vec::new();
                        proof {
                            assert(empty@.map_values(|p: UUIDDescriptionPair| p@) =~= Seq::<
                                (u64, Seq<u8>),
                            >::empty());
                            crate::node::lemma_empty_seq_multiset();
                        }
                        return Ok(empty);
                    },
                };
                let content = match Node::from_binary(bytes.as_slice()) {
                    Ok(content) => content,
                    Err(e) => {
                        return Err(e);
                    },
                };
                let r = content.collect_records(store, fuel - 1);
                proof {
                    assert(store_records(store@, self@, fuel as nat) == store_records(
                        store@,
                        content@,
                        (fuel - 1) as nat,
                    ));
                }
                r
            },
        }
    }
}

} // verus!
