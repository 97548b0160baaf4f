//! Routing one record into the sharded tree: appends, median splits, and
//! shard forks, with the records of tree and store preserved exactly.

use vstd::prelude::*;

verus! {

use crate::constants::TreeConfig;
use crate::feature_description::spec_distance;
use crate::error::TreeError;
use crate::node::FileNode;
use crate::node::InternalNode;
use crate::node::LeafNode;
use crate::node::Node;
use crate::node::NodeV;
use crate::node::copy_features;
use crate::node::dec_node;
use crate::node::enc_wf;
use crate::node::inline_records;
use crate::node::lemma_dec_enc_node;
use crate::node::lemma_empty_seq_multiset;
use crate::node::lemma_enc_wf_bounded;
use crate::node::node_height;
use crate::node::node_wf;
use crate::node_path::Direction;
use crate::node_path::NodePath;
use crate::shard_store::ShardStore;
use crate::node_path::spec_should_split;
use crate::tree_model::file_content_position;
use crate::tree_model::insert_route_ok;
use crate::tree_model::is_prefix_of;
use crate::tree_model::lemma_content_position_extends;
use crate::tree_model::lemma_store_records_agree_strict;
use crate::tree_model::lemma_prefix_disjoint;
use crate::tree_model::lemma_prefix_push;
use crate::tree_model::lemma_prefix_refl;
use crate::tree_model::lemma_prefix_trans;
use crate::tree_model::store_records;
use crate::tree_model::store_wf;
use crate::tree_model::lemma_store_records_agree;
use crate::uuid_description_pair::UUIDDescriptionPair;
use vstd::multiset::Multiset;

impl Node {
    /// Routes one record into the subtree at `current_path`. A leaf under
    /// capacity takes the record; a full leaf is replaced in place by a
    /// median split of its stolen records; a leaf reached at a shard boundary
    /// is replaced by a shard reference whose file takes the records; a shard
    /// reference reads, updates and rewrites its file whole, and reports no
    /// change to its parent. On success the records across tree and store
    /// grow by exactly the record added, at every traversal depth the fuel
    /// admits.
    pub fn add(
        &mut self,
        store: &mut ShardStore,
        config: &TreeConfig,
        rng: &mut rand_chacha::ChaCha8Rng,
        to_add: UUIDDescriptionPair,
        current_path: NodePath,
        fuel: u32,
    ) -> (r: Result<bool, TreeError>)
        requires
            config.wf(),
            old(store).wf(),
            store_wf(old(store)@, config.max_leaf_node_size as int),
            node_wf(old(self)@, config.max_leaf_node_size as int, current_path@),
        ensures
            final(store).wf(),
            store_wf(final(store)@, config.max_leaf_node_size as int),
            node_wf(final(self)@, config.max_leaf_node_size as int, current_path@),
            inline_records(final(self)@).subset_of(inline_records(old(self)@).insert(to_add@)),
            final(self)@ is File ==> ((*old(self)) is File || crate::node_path::spec_should_split(
                current_path@,
                config.max_file_node_depth as int,
            )),
            forall|k: Seq<Direction>|
                !(#[trigger] is_prefix_of(current_path@, k)) ==> (old(store)@.contains_key(k)
                    <==> final(store)@.contains_key(k)) && (old(store)@.contains_key(k)
                    ==> final(store)@[k] == old(store)@[k]),
            match r {
                Ok(changed) => {
                    &&& forall|g: nat|
                        g >= fuel ==> #[trigger] store_records(final(store)@, final(self)@, g)
                            == store_records(old(store)@, old(self)@, g).insert(to_add@)
                    &&& ((*old(self)) is File ==> changed == false && final(self)@ == old(
                        self,
                    )@)
                    &&& ((*old(self)) is Leaf ==> changed == true)
                    &&& ((*old(self)) is Leaf && spec_should_split(
                        current_path@,
                        config.max_file_node_depth as int,
                    ) ==> final(self)@ == (NodeV::File { path: current_path@ }))
                    &&& ((*old(self)) is Internal ==> {
                        &&& final(self)@ is Internal
                        &&& final(self)@->Internal_vantage == old(self)@->Internal_vantage
                        &&& final(self)@->Internal_radius == old(self)@->Internal_radius
                        &&& (spec_distance(to_add@.1, old(self)@->Internal_vantage) < old(
                            self,
                        )@->Internal_radius ==> {
                            &&& *final(self)@->Internal_far == *old(self)@->Internal_far
                            &&& forall|g: nat|
                                g >= fuel ==> #[trigger] store_records(
                                    final(store)@,
                                    *final(self)@->Internal_near,
                                    g,
                                ) == store_records(
                                    old(store)@,
                                    *old(self)@->Internal_near,
                                    g,
                                ).insert(to_add@)
                        })
                        &&& (spec_distance(to_add@.1, old(self)@->Internal_vantage) >= old(
                            self,
                        )@->Internal_radius ==> {
                            &&& *final(self)@->Internal_near == *old(self)@->Internal_near
                            &&& forall|g: nat|
                                g >= fuel ==> #[trigger] store_records(
                                    final(store)@,
                                    *final(self)@->Internal_far,
                                    g,
                                ) == store_records(
                                    old(store)@,
                                    *old(self)@->Internal_far,
                                    g,
                                ).insert(to_add@)
                        })
                    })
                },
                Err(e) => e == TreeError::DepthExceeded,
            },
            insert_route_ok(
                old(store)@,
                old(self)@,
                current_path@,
                to_add@.1,
                config.max_leaf_node_size as int,
                config.max_file_node_depth as int,
                fuel as nat,
            ) ==> r is Ok,
        decreases fuel, node_height(*old(self)),
    {
        proof {
            broadcast use vstd::seq_lib::group_to_multiset_ensures;
            broadcast use vstd::multiset::group_multiset_axioms;
        }
        let ghost ml = config.max_leaf_node_size as int;
        let ghost pos = current_path@;
        let ghost m0 = store@;
        match self {
            Node::Internal(node) => {
                let ghost pre = *node;
                let distance = to_add.get_description().distance(&node.vantage);
                let go_near = distance < node.radius;
                let mut child_path = current_path;
                child_path.push_direction(
                    if go_near {
                        Direction::Near
                    } else {
                        Direction::Far
                    },
                );
                let ghost d = if go_near {
                    Direction::Near
                } else {
                    Direction::Far
                };
                let ghost other = if go_near {
                    Direction::Far
                } else {
                    Direction::Near
                };
                let ghost taken_old = if go_near {
                    *pre.near
                } else {
                    *pre.far
                };
                let ghost kept = if go_near {
                    *pre.far
                } else {
                    *pre.near
                };
                let res = if go_near {
                    node.near.add(store, config, rng, to_add, child_path, fuel)
                } else {
                    node.far.add(store, config, rng, to_add, child_path, fuel)
                };
                proof {
                    let taken_new = if go_near {
                        *node.near
                    } else {
                        *node.far
                    };
                    // The untouched child is unchanged.
                    assert(if go_near {
                        *node.far == *pre.far
                    } else {
                        *node.near == *pre.near
                    });
                    // Frame: the child touched only positions under its own.
                    assert forall|k: Seq<Direction>|
                        !(#[trigger] is_prefix_of(pos, k)) implies (m0.contains_key(k)
                        <==> store@.contains_key(k)) && (m0.contains_key(k) ==> store@[k] == m0[k]) by {
                        if is_prefix_of(pos.push(d), k) {
                            lemma_prefix_push(pos, d);
                            lemma_prefix_trans(pos, pos.push(d), k);
                        }
                    }
                    // Well-formedness of the updated node: the taken child is
                    // well formed by its contract, and its inline records are
                    // old ones plus possibly the routed record, which the
                    // branch test places on the correct side of the radius.
                    assert(spec_distance(to_add@.1, pre.vantage@) == distance) by {
                        assert(to_add@.1 == to_add.description@);
                    }
                    assert forall|o: (u64, Seq<u8>)| inline_records(taken_new@).contains(o) implies (
                    if go_near {
                        spec_distance(o.1, pre.vantage@) < pre.radius
                    } else {
                        spec_distance(o.1, pre.vantage@) >= pre.radius
                    }) by {
                        assert(inline_records(taken_new@).count(o) <= inline_records(
                            taken_old@,
                        ).insert(to_add@).count(o));
                        if o != to_add@ {
                            assert(inline_records(taken_old@).contains(o));
                        }
                    }
                    assert(node_wf(self@, ml, pos));
                    assert(inline_records(self@).subset_of(
                        inline_records(old(self)@).insert(to_add@),
                    )) by {
                        assert forall|o: (u64, Seq<u8>)| #[trigger]
                            inline_records(self@).count(o) <= inline_records(old(self)@).insert(
                            to_add@,
                        ).count(o) by {
                            assert(inline_records(taken_new@).count(o) <= inline_records(
                                taken_old@,
                            ).insert(to_add@).count(o));
                        }
                    }
                    if res is Ok {
                        assert forall|g: nat| g >= fuel implies #[trigger] store_records(
                            store@,
                            self@,
                            g,
                        ) == store_records(m0, old(self)@, g).insert(to_add@) by {
                            assert(store_records(store@, taken_new@, g) == store_records(
                                m0,
                                taken_old@,
                                g,
                            ).insert(to_add@));
                            assert forall|k: Seq<Direction>|
                                #[trigger] is_prefix_of(pos.push(other), k) implies (
                            m0.contains_key(k) <==> store@.contains_key(k)) && (m0.contains_key(k)
                                ==> m0[k] == store@[k]) by {
                                lemma_prefix_disjoint(pos, other, d, k);
                            }
                            lemma_store_records_agree(m0, store@, kept@, ml, pos.push(other), g);
                            assert(store_records(store@, self@, g) =~= store_records(
                                m0,
                                old(self)@,
                                g,
                            ).insert(to_add@));
                        }
                        // Routing: vantage and radius are untouched, the side
                        // the record was not routed to is unchanged, and the
                        // routed side took exactly the record.
                        assert(self@->Internal_vantage == old(self)@->Internal_vantage);
                        assert(self@->Internal_radius == old(self)@->Internal_radius);
                        if go_near {
                            assert(*self@->Internal_far == *old(self)@->Internal_far);
                            assert forall|g: nat| g >= fuel implies #[trigger] store_records(
                                store@,
                                *self@->Internal_near,
                                g,
                            ) == store_records(m0, *old(self)@->Internal_near, g).insert(
                                to_add@,
                            ) by {
                                assert(store_records(store@, taken_new@, g) == store_records(
                                    m0,
                                    taken_old@,
                                    g,
                                ).insert(to_add@));
                            }
                        } else {
                            assert(*self@->Internal_near == *old(self)@->Internal_near);
                            assert forall|g: nat| g >= fuel implies #[trigger] store_records(
                                store@,
                                *self@->Internal_far,
                                g,
                            ) == store_records(m0, *old(self)@->Internal_far, g).insert(
                                to_add@,
                            ) by {
                                assert(store_records(store@, taken_new@, g) == store_records(
                                    m0,
                                    taken_old@,
                                    g,
                                ).insert(to_add@));
                            }
                        }
                    }
                    // A guaranteed route through this node continues through
                    // the routed child.
                    if insert_route_ok(
                        m0,
                        old(self)@,
                        pos,
                        to_add@.1,
                        ml,
                        config.max_file_node_depth as int,
                        fuel as nat,
                    ) {
                        assert(insert_route_ok(
                            m0,
                            taken_old@,
                            pos.push(d),
                            to_add@.1,
                            ml,
                            config.max_file_node_depth as int,
                            fuel as nat,
                        ));
                        assert(res is Ok);
                    }
                }
                res
            },
            Node::File(node) => {
                let ghost route = insert_route_ok(
                    m0,
                    old(self)@,
                    pos,
                    to_add@.1,
                    ml,
                    config.max_file_node_depth as int,
                    fuel as nat,
                );
                if fuel == 0 {
                    proof {
                        assert(!route);
                    }
                    return Err(TreeError::DepthExceeded);
                }
                let key = node.path_in_tree.duplicate();
                proof {
                    assert(key@ == pos);
                }
                let content = match store.get(&key) {
                    Some(bytes) => {
                        match Node::from_binary(bytes.as_slice()) {
                            Ok(content) => content,
                            Err(_) => vstd::pervasive::unreached(),
                        }
                    },
                    None => LeafNode::new_empty(),
                };
                proof {
                    if m0.contains_key(pos) {
                        assert(dec_node(m0[pos]) == Some(content@));
                        assert(node_wf(content@, ml, file_content_position(pos)));
                    } else {
                        lemma_empty_seq_multiset();
                        assert(node_wf(content@, ml, file_content_position(pos)));
                    }
                }
                let ghost content0 = content@;
                proof {
                    if route {
                        assert(!(content0 is File && key@ == seq![Direction::File]));
                        assert(insert_route_ok(
                            m0,
                            content0,
                            file_content_position(pos),
                            to_add@.1,
                            ml,
                            config.max_file_node_depth as int,
                            (fuel - 1) as nat,
                        ));
                    }
                }
                match file_insert(store, config, rng, &key, content, to_add, fuel) {
                    Ok(()) => {},
                    Err(e) => {
                        proof {
                            assert(!route);
                        }
                        return Err(e);
                    },
                }
                proof {
                    assert(self@ == (NodeV::File { path: pos }));
                    assert forall|g: nat| g >= fuel implies #[trigger] store_records(
                        store@,
                        self@,
                        g,
                    ) == store_records(m0, old(self)@, g).insert(to_add@) by {
                        assert(store_records(store@, NodeV::File { path: key@ }, g)
                            == store_records(m0, content0, (g - 1) as nat).insert(to_add@));
                        if m0.contains_key(pos) {
                            assert(store_records(m0, old(self)@, g) == store_records(
                                m0,
                                content0,
                                (g - 1) as nat,
                            ));
                        } else {
                            lemma_empty_seq_multiset();
                            assert(store_records(m0, old(self)@, g) =~= store_records(
                                m0,
                                content0,
                                (g - 1) as nat,
                            ));
                        }
                    }
                }
                Ok(false)
            },
            Node::Leaf(node) => {
                let should_fork = current_path.should_split_to_new_file(
                    config.max_file_node_depth,
                );
                if should_fork {
                    let ghost route = insert_route_ok(
                        m0,
                        old(self)@,
                        pos,
                        to_add@.1,
                        ml,
                        config.max_file_node_depth as int,
                        fuel as nat,
                    );
                    if fuel == 0 {
                        proof {
                            assert(!route);
                        }
                        return Err(TreeError::DepthExceeded);
                    }
                    let records_copy = copy_features(&node.features);
                    let content = Node::Leaf(LeafNode { features: records_copy });
                    let ghost content0 = content@;
                    proof {
                        assert(content0 == old(self)@);
                        assert(node_wf(content0, ml, file_content_position(pos)));
                        if route {
                            // The forked file's content sits one boundary
                            // step behind, so it never forks again at once,
                            // and it has room for the routed record.
                            assert(file_content_position(pos) == pos.push(Direction::File));
                            assert(!spec_should_split(
                                pos.push(Direction::File),
                                config.max_file_node_depth as int,
                            )) by {
                                assert(pos.push(Direction::File).last() == Direction::File);
                            }
                            assert(insert_route_ok(
                                m0,
                                content0,
                                file_content_position(pos),
                                to_add@.1,
                                ml,
                                config.max_file_node_depth as int,
                                (fuel - 1) as nat,
                            ));
                        }
                    }
                    match file_insert(store, config, rng, &current_path, content, to_add, fuel) {
                        Ok(()) => {},
                        Err(e) => {
                            proof {
                                assert(!route);
                            }
                            return Err(e);
                        },
                    }
                    *self = Node::File(FileNode { path_in_tree: current_path });
                    proof {
                        assert(self@ == (NodeV::File { path: pos }));
                        assert(inline_records(self@).subset_of(
                            inline_records(old(self)@).insert(to_add@),
                        ));
                        assert forall|g: nat| g >= fuel implies #[trigger] store_records(
                            store@,
                            self@,
                            g,
                        ) == store_records(m0, old(self)@, g).insert(to_add@) by {
                            assert(store_records(store@, NodeV::File { path: pos }, g)
                                == store_records(m0, content0, (g - 1) as nat).insert(to_add@));
                            assert(store_records(m0, content0, (g - 1) as nat) == store_records(
                                m0,
                                old(self)@,
                                g,
                            ));
                        }
                    }
                    Ok(true)
                } else if node.features.len() as u64 >= config.max_leaf_node_size {
                    proof {
                        // The leaf is full, so this route is not guaranteed:
                        // the split ahead draws on the random source.
                        assert(old(self)@->Leaf_records.len() >= config.max_leaf_node_size);
                        assert(!insert_route_ok(
                            m0,
                            old(self)@,
                            pos,
                            to_add@.1,
                            ml,
                            config.max_file_node_depth as int,
                            fuel as nat,
                        ));
                    }
                    if fuel == 0 {
                        return Err(TreeError::DepthExceeded);
                    }
                    let ghost old_records = node.features@.map_values(
                        |p: UUIDDescriptionPair| p@,
                    );
                    let new_node = InternalNode::new_from_leaf(node, rng);
                    let ghost newv = new_node@;
                    *self = new_node;
                    proof {
                        // The split keeps every stolen record inline and its
                        // children are leaves within capacity, partitioned by
                        // the radius, so the replacement is well formed here.
                        assert(node_wf(self@, ml, pos)) by {
                            let nrecs = (*newv->Internal_near)->Leaf_records;
                            let frecs = (*newv->Internal_far)->Leaf_records;
                            assert(node_wf(*newv->Internal_near, ml, pos.push(Direction::Near)));
                            assert(node_wf(*newv->Internal_far, ml, pos.push(Direction::Far)));
                            assert forall|o: (u64, Seq<u8>)|
                                inline_records(*newv->Internal_near).contains(o) implies
                                spec_distance(#[trigger] o.1, newv->Internal_vantage)
                                < newv->Internal_radius by {
                                assert(nrecs.to_multiset().contains(o));
                                let i = choose|i: int| 0 <= i < nrecs.len() && nrecs[i] == o;
                            }
                            assert forall|o: (u64, Seq<u8>)|
                                inline_records(*newv->Internal_far).contains(o) implies
                                spec_distance(#[trigger] o.1, newv->Internal_vantage)
                                >= newv->Internal_radius by {
                                assert(frecs.to_multiset().contains(o));
                                let i = choose|i: int| 0 <= i < frecs.len() && frecs[i] == o;
                            }
                        }
                        assert(inline_records(newv) == old_records.to_multiset());
                        assert(inline_records(newv) == inline_records(old(self)@));
                    }
                    let res = self.add(store, config, rng, to_add, current_path, fuel - 1);
                    proof {
                        if res is Ok {
                            assert forall|g: nat| g >= fuel implies #[trigger] store_records(
                                store@,
                                self@,
                                g,
                            ) == store_records(m0, old(self)@, g).insert(to_add@) by {
                                assert(store_records(store@, self@, g) == store_records(
                                    m0,
                                    newv,
                                    g,
                                ).insert(to_add@));
                                let nearv = *newv->Internal_near;
                                let farv = *newv->Internal_far;
                                assert(store_records(m0, newv, g) == store_records(
                                    m0,
                                    nearv,
                                    g,
                                ).add(store_records(m0, farv, g)));
                                assert(store_records(m0, nearv, g)
                                    == nearv->Leaf_records.to_multiset());
                                assert(store_records(m0, farv, g)
                                    == farv->Leaf_records.to_multiset());
                                assert(inline_records(nearv) == nearv->Leaf_records.to_multiset());
                                assert(inline_records(farv) == farv->Leaf_records.to_multiset());
                                assert(store_records(m0, newv, g) =~= inline_records(newv));
                                assert(store_records(m0, old(self)@, g) == inline_records(
                                    old(self)@,
                                ));
                                assert(store_records(m0, newv, g) =~= store_records(
                                    m0,
                                    old(self)@,
                                    g,
                                ));
                            }
                        }
                        assert(inline_records(self@).subset_of(
                            inline_records(old(self)@).insert(to_add@),
                        )) by {
                            assert(inline_records(self@).subset_of(
                                inline_records(newv).insert(to_add@),
                            ));
                        }
                    }
                    match res {
                        Ok(_) => Ok(true),
                        Err(e) => Err(e),
                    }
                } else {
                    let ghost old_records = node.features@.map_values(
                        |p: UUIDDescriptionPair| p@,
                    );
                    node.add(to_add);
                    proof {
                        let new_records = node.features@.map_values(|p: UUIDDescriptionPair| p@);
                        assert(new_records =~= old_records.push(to_add@));
                        assert(node_wf(self@, ml, pos));
                        assert(store_records(store@, self@, 0nat) == inline_records(self@));
                        assert forall|g: nat| g >= fuel implies #[trigger] store_records(
                            store@,
                            self@,
                            g,
                        ) == store_records(m0, old(self)@, g).insert(to_add@) by {
                            assert(new_records.to_multiset() =~= old_records.to_multiset().insert(
                                to_add@,
                            ));
                        }
                    }
                    Ok(true)
                }
            },
        }
    }
}

/// One touch of a shard file: starting from `content` (the decoded file, a
/// fresh empty leaf, or the records of a leaf that is forking), routes one
/// record into the subtree and rewrites the file at `key` whole. The file
/// then holds exactly the starting records plus the one added.
fn file_insert(
    store: &mut ShardStore,
    config: &TreeConfig,
    rng: &mut rand_chacha::ChaCha8Rng,
    key: &NodePath,
    content: Node,
    to_add: UUIDDescriptionPair,
    fuel: u32,
) -> (r: Result<(), TreeError>)
    requires
        config.wf(),
        old(store).wf(),
        store_wf(old(store)@, config.max_leaf_node_size as int),
        node_wf(content@, config.max_leaf_node_size as int, file_content_position(key@)),
        fuel >= 1,
    ensures
        final(store).wf(),
        store_wf(final(store)@, config.max_leaf_node_size as int),
        forall|k: Seq<Direction>|
            !(#[trigger] is_prefix_of(key@, k)) ==> (old(store)@.contains_key(k)
                <==> final(store)@.contains_key(k)) && (old(store)@.contains_key(k)
                ==> final(store)@[k] == old(store)@[k]),
        match r {
            Ok(()) => forall|g: nat|
                g >= fuel ==> #[trigger] store_records(
                    final(store)@,
                    NodeV::File { path: key@ },
                    g,
                ) == store_records(old(store)@, content@, (g - 1) as nat).insert(to_add@),
            Err(e) => e == TreeError::DepthExceeded,
        },
        insert_route_ok(
            old(store)@,
            content@,
            file_content_position(key@),
            to_add@.1,
            config.max_leaf_node_size as int,
            config.max_file_node_depth as int,
            (fuel - 1) as nat,
        ) && !(content@ is File && key@ == seq![Direction::File]) ==> r is Ok,
    decreases fuel, 0nat,
{
    let ghost ml = config.max_leaf_node_size as int;
    let ghost m0 = store@;
    let ghost content0 = content@;
    let ghost cp = file_content_position(key@);

    // The canonical root shard's content sits at the root position itself; a
    // file that held nothing but a reference to itself would make every
    // traversal of it endless, so it is refused up front.
    let mut root_key = NodePath::new_empty();
    root_key.push_direction(Direction::File);
    proof {
        assert(root_key@ =~= seq![Direction::File]);
    }
    let key_is_root = crate::shard_store::paths_equal(key, &root_key);
    if key_is_root {
        match &content {
            Node::File(_) => {
                proof {
                    assert(content0 is File && key@ == seq![Direction::File]);
                }
                return Err(TreeError::DepthExceeded);
            },
            _ => {},
        }
    }

    let mut current = content;
    let mut content_path = key.duplicate();
    if !key_is_root {
        content_path.push_direction(Direction::File);
    }
    proof {
        assert(content_path@ == cp);
    }
    let res = current.add(store, config, rng, to_add, content_path, fuel - 1);
    proof {
        // Everything the routed insert touched extends the key.
        assert forall|k: Seq<Direction>|
            !(#[trigger] is_prefix_of(key@, k)) implies (m0.contains_key(k)
            <==> store@.contains_key(k)) && (m0.contains_key(k) ==> store@[k] == m0[k]) by {
            if is_prefix_of(cp, k) {
                lemma_content_position_extends(key@);
                lemma_prefix_trans(key@, cp, k);
            }
        }
        if insert_route_ok(
            m0,
            content0,
            cp,
            to_add@.1,
            ml,
            config.max_file_node_depth as int,
            (fuel - 1) as nat,
        ) {
            assert(res is Ok);
        }
    }
    if let Err(e) = res {
        return Err(e);
    }
    let bytes = current.to_binary();
    let bytes_len = bytes.len();
    proof {
        assert(crate::node::enc_node(current@).len() == bytes_len);
        lemma_enc_wf_bounded(current@, ml, cp);
        lemma_dec_enc_node(current@);
        // The rewritten content of the root shard is never itself a bare
        // self-reference: one could only have come in as one, which was
        // refused above, or have arisen from a fork, which never happens at
        // the boundary position itself.
        if key_is_root {
            assert(!(current@ is File)) by {
                if current@ is File {
                    assert(content0 is File || crate::node_path::spec_should_split(
                        cp,
                        config.max_file_node_depth as int,
                    ));
                    assert(crate::node_path::spec_non_file_depth(seq![Direction::File]) == 0) by {
                        assert(seq![Direction::File].drop_last() =~= Seq::<Direction>::empty());
                    }
                    assert(!crate::node_path::spec_should_split(
                        cp,
                        config.max_file_node_depth as int,
                    ));
                }
            }
        }
    }
    let ghost m1 = store@;
    let ghost newv = current@;
    store.put(key.duplicate(), bytes);
    proof {
        let m2 = store@;
        // The rewritten file decodes to the updated subtree.
        assert(m2 == m1.insert(key@, crate::node::enc_node(newv)));
        assert(dec_node(m2[key@]) == Some(newv));
        // Store invariant: the new entry is well formed at its position; the
        // rest are untouched.
        assert(store_wf(m2, ml)) by {
            assert forall|k: Seq<Direction>| #[trigger] m2.contains_key(k) implies {
                &&& dec_node(m2[k]) is Some
                &&& enc_wf(dec_node(m2[k])->Some_0)
                &&& node_wf(dec_node(m2[k])->Some_0, ml, file_content_position(k))
            } by {
                if k != key@ {
                    assert(m1.contains_key(k) && m1[k] == m2[k]);
                }
            }
        }
        // Frame: only the key itself changed in this step.
        assert forall|k: Seq<Direction>|
            !(#[trigger] is_prefix_of(key@, k)) implies (m0.contains_key(k) <==> m2.contains_key(
            k,
        )) && (m0.contains_key(k) ==> m2[k] == m0[k]) by {
            lemma_prefix_refl(key@);
            assert(k != key@);
        }
        // The file's records: the updated subtree read back under the new
        // store, which agrees with the pre-write store everywhere the subtree
        // reads.
        assert forall|g: nat| g >= fuel implies #[trigger] store_records(
            m2,
            NodeV::File { path: key@ },
            g,
        ) == store_records(m0, content0, (g - 1) as nat).insert(to_add@) by {
            assert(store_records(m2, NodeV::File { path: key@ }, g) == store_records(
                m2,
                newv,
                (g - 1) as nat,
            ));
            if key_is_root {
                assert forall|k: Seq<Direction>|
                    #[trigger] is_prefix_of(cp, k) && k != cp implies (m1.contains_key(k)
                    <==> m2.contains_key(k)) && (m1.contains_key(k) ==> m1[k] == m2[k]) by {
                    assert(k != key@);
                }
                lemma_store_records_agree_strict(m1, m2, newv, ml, cp, (g - 1) as nat);
            } else {
                assert forall|k: Seq<Direction>|
                    #[trigger] is_prefix_of(cp, k) implies (m1.contains_key(k)
                    <==> m2.contains_key(k)) && (m1.contains_key(k) ==> m1[k] == m2[k]) by {
                    assert(k.len() > key@.len());
                    assert(k != key@);
                }
                lemma_store_records_agree(m1, m2, newv, ml, cp, (g - 1) as nat);
            }
            assert(store_records(m1, newv, (g - 1) as nat) == store_records(
                m0,
                content0,
                (g - 1) as nat,
            ).insert(to_add@));
        }
    }
    Ok(())
}

} // verus!
