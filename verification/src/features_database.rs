//! The index as collaborators use it: batch and single insertion, bounded
//! nearest-neighbor search, diagnostics, and argument parsing.

use vstd::prelude::*;

verus! {

use crate::constants::TreeConfig;
use crate::error::TreeError;
use crate::feature_description::FeatureDescription;
use crate::feature_description::spec_distance;
use crate::node::FileNode;
use crate::node::Node;
use crate::node::NodeV;
use crate::node::node_wf;
use crate::node_path::Direction;
use crate::node_path::NodePath;
use crate::search_result::SearchResult;
use crate::search_result::SearchResultList;
use crate::search_result::result_views;
use crate::shard_store::ShardStore;
use crate::tree_model::store_records;
use crate::tree_model::store_wf;
use crate::tree_search::subtree_ok;
use crate::uuid_description_pair::UUIDDescriptionPair;
use vstd::map::*;
use vstd::multiset::Multiset;

/// The position of the canonical root shard: the empty path with one
/// boundary marker pre-applied, so the root always lives in its own file.
pub open spec fn root_position() -> Seq<Direction> {
    seq![Direction::File]
}

/// The records the whole index holds, reading the root shard and at most
/// `fuel` nested shard boundaries.
pub open spec fn database_records(m: Map<Seq<Direction>, Seq<u8>>, fuel: nat) -> Multiset<
    (u64, Seq<u8>),
> {
    store_records(m, NodeV::File { path: root_position() }, fuel)
}

impl Node {
    /// The canonical root: a shard reference rooted at the empty path with
    /// one boundary marker pre-applied.
    pub fn get_root_node() -> (r: Node)
        ensures
            r@ == (NodeV::File { path: root_position() }),
    {
        let mut root_path = NodePath::new_empty();
        root_path.add_direction(crate::constants::FILE_KEY);
        proof {
            assert(root_path@ =~= root_position());
        }
        FileNode::new_at_location(root_path)
    }
}

/// The root position as a value.
pub fn root_node_path() -> (r: NodePath)
    ensures
        r@ == root_position(),
{
    let mut root_path = NodePath::new_empty();
    root_path.add_direction(crate::constants::FILE_KEY);
    proof {
        assert(root_path@ =~= root_position());
    }
    root_path
}

/// Inserts every record of the vector into the index, in order. On success
/// the index holds exactly the old records plus the vector's, at every
/// traversal depth the fuel admits.
pub fn insert_description_vec_into_database(
    store: &mut ShardStore,
    config: &TreeConfig,
    rng: &mut rand_chacha::ChaCha8Rng,
    description_vec: Vec<UUIDDescriptionPair>,
    fuel: u32,
) -> (r: Result<(), TreeError>)
    requires
        config.wf(),
        old(store).wf(),
        store_wf(old(store)@, config.max_leaf_node_size as int),
    ensures
        final(store).wf(),
        store_wf(final(store)@, config.max_leaf_node_size as int),
        match r {
            Ok(()) => forall|g: nat|
                g >= fuel ==> #[trigger] database_records(final(store)@, g) == database_records(
                    old(store)@,
                    g,
                ).add(
                    description_vec@.map_values(|p: UUIDDescriptionPair| p@).to_multiset(),
                ),
            Err(e) => e == TreeError::DepthExceeded,
        },
{
    proof {
        broadcast use vstd::seq_lib::group_to_multiset_ensures;
        broadcast use vstd::multiset::group_multiset_axioms;
    }
    let ghost m0 = store@;
    let ghost views = description_vec@.map_values(|p: UUIDDescriptionPair| p@);
    let mut root_node = Node::get_root_node();
    let mut counter: usize = 0;
    proof {
        crate::node::lemma_empty_seq_multiset();
        assert(views.subrange(0, 0) =~= Seq::<(u64, Seq<u8>)>::empty());
    }
    while counter < description_vec.len()
        invariant
            0 <= counter <= description_vec@.len(),
            views == description_vec@.map_values(|p: UUIDDescriptionPair| p@),
            config.wf(),
            store.wf(),
            store_wf(store@, config.max_leaf_node_size as int),
            root_node@ == (NodeV::File { path: root_position() }),
            forall|g: nat|
                g >= fuel ==> #[trigger] database_records(store@, g) == database_records(
                    m0,
                    g,
                ).add(views.subrange(0, counter as int).to_multiset()),
        decreases description_vec@.len() - counter,
    {
        let ghost m_before = store@;
        let pair = description_vec[counter];
        let root_path = root_node_path();
        proof {
            assert(node_wf(root_node@, config.max_leaf_node_size as int, root_path@));
        }
        match root_node.add(store, config, rng, pair, root_path, fuel) {
            Ok(_) => {},
            Err(e) => {
                return Err(e);
            },
        }
        proof {
            assert forall|g: nat| g >= fuel implies #[trigger] database_records(store@, g)
                == database_records(m0, g).add(
                views.subrange(0, counter + 1).to_multiset(),
            ) by {
                broadcast use vstd::seq_lib::group_to_multiset_ensures;
                broadcast use vstd::multiset::group_multiset_axioms;

                assert(database_records(m_before, g) == database_records(m0, g).add(
                    views.subrange(0, counter as int).to_multiset(),
                ));
                assert(store_records(store@, root_node@, g) == store_records(
                    m_before,
                    NodeV::File { path: root_position() },
                    g,
                ).insert(pair@));
                assert(root_node@ == (NodeV::File { path: root_position() }));
                assert(database_records(store@, g) == database_records(m_before, g).insert(pair@));
                assert(views.subrange(0, counter + 1) =~= views.subrange(0, counter as int).push(
                    views[counter as int],
                ));
                assert(views[counter as int] == pair@);
                assert(views.subrange(0, counter as int).push(pair@).to_multiset()
                    =~= views.subrange(0, counter as int).to_multiset().insert(pair@));
                assert(views.subrange(0, counter + 1).to_multiset() =~= views.subrange(
                    0,
                    counter as int,
                ).to_multiset().insert(pair@));
                assert(database_records(store@, g) =~= database_records(m0, g).add(
                    views.subrange(0, counter + 1).to_multiset(),
                ));
            }
        }
        counter = counter + 1;
    }
    proof {
        assert(views.subrange(0, views.len() as int) =~= views);
    }
    Ok(())
}


/// Inserts one record into the index. On success the index holds exactly the
/// old records plus this one, at every traversal depth the fuel admits.
pub fn insert_description_into_database(
    store: &mut ShardStore,
    config: &TreeConfig,
    rng: &mut rand_chacha::ChaCha8Rng,
    description: UUIDDescriptionPair,
    fuel: u32,
) -> (r: Result<(), TreeError>)
    requires
        config.wf(),
        old(store).wf(),
        store_wf(old(store)@, config.max_leaf_node_size as int),
    ensures
        final(store).wf(),
        store_wf(final(store)@, config.max_leaf_node_size as int),
        match r {
            Ok(()) => forall|g: nat|
                g >= fuel ==> #[trigger] database_records(final(store)@, g) == database_records(
                    old(store)@,
                    g,
                ).insert(description@),
            Err(e) => e == TreeError::DepthExceeded,
        },
        crate::tree_model::insert_route_ok(
            old(store)@,
            NodeV::File { path: root_position() },
            root_position(),
            description@.1,
            config.max_leaf_node_size as int,
            config.max_file_node_depth as int,
            fuel as nat,
        ) ==> r is Ok,
{
    let mut root_node = Node::get_root_node();
    let root_path = root_node_path();
    proof {
        assert(node_wf(root_node@, config.max_leaf_node_size as int, root_path@));
    }
    match root_node.add(store, config, rng, description, root_path, fuel) {
        Ok(_) => Ok(()),
        Err(e) => Err(e),
    }
}

/// What a ranked answer list promises: ascending by distance, every entry a
/// record the index holds within the fuel, carrying its true distance to the
/// target, and no more entries than asked for.
pub open spec fn ranked_results_ok(
    m: Map<Seq<Direction>, Seq<u8>>,
    fuel: nat,
    target: Seq<u8>,
    k: int,
    rs: Seq<SearchResult>,
) -> bool {
    &&& forall|i: int, j: int|
        0 <= i <= j < rs.len() ==> (#[trigger] rs[i]).distance <= (#[trigger] rs[j]).distance
    &&& forall|i: int|
        0 <= i < rs.len() ==> (#[trigger] rs[i]).distance == spec_distance(target, rs[i].feature@.1)
    &&& result_views(rs).to_multiset().subset_of(database_records(m, fuel))
    &&& rs.len() <= k
}

/// What one whole search answer promises, beyond the ranked list itself: the
/// list holds min(k, records) answers -- everything there is, until the index
/// outgrows k -- and the comparison count lies between the answers returned
/// and the records stored.
pub open spec fn search_output_ok(
    m: Map<Seq<Direction>, Seq<u8>>,
    fuel: nat,
    target: Seq<u8>,
    k: int,
    comparisons: u64,
    rs: Seq<SearchResult>,
) -> bool {
    &&& ranked_results_ok(m, fuel, target, k, rs)
    &&& rs.len() == if database_records(m, fuel).len() < k {
        database_records(m, fuel).len() as int
    } else {
        k
    }
    &&& rs.len() <= comparisons
    &&& comparisons <= database_records(m, fuel).len()
}

/// Searches the index for the `number_of_neighbors` stored descriptors
/// closest to the target, returning the comparisons spent and the answers
/// ascending by distance. An index whose files are readable within the fuel
/// never fails.
pub fn find_feature_description_in_database(
    store: &ShardStore,
    to_find: FeatureDescription,
    number_of_neighbors: usize,
    fuel: u32,
) -> (r: Result<(u64, Vec<SearchResult>), TreeError>)
    requires
        store.wf(),
        number_of_neighbors >= 1,
    ensures
        match r {
            Ok(out) => search_output_ok(
                store@,
                fuel as nat,
                to_find@,
                number_of_neighbors as int,
                out.0,
                out.1@,
            ),
            Err(_) => !subtree_ok(store@, NodeV::File { path: root_position() }, fuel as nat),
        },
{
    proof {
        broadcast use vstd::seq_lib::group_to_multiset_ensures;
        broadcast use vstd::multiset::group_multiset_axioms;
    }
    let root_node = Node::get_root_node();
    let mut results = SearchResultList::new(number_of_neighbors, to_find);
    match root_node.find(store, &mut results, fuel) {
        Ok(()) => {},
        Err(e) => {
            return Err(e);
        },
    }
    let comparisons = results.get_comparisons();
    let ghost acc = results;
    let ranked = results.get_results();
    proof {
        let db = database_records(store@, fuel as nat);
        assert(acc.offered@.skip(0) =~= acc.offered@);
        assert(result_views(ranked@).to_multiset() == acc.kept_ms());
        assert forall|o: (u64, Seq<u8>)| #[trigger]
            result_views(ranked@).to_multiset().count(o) <= db.count(o) by {
            assert(acc.kept_ms().count(o) <= acc.offered_ms().count(o));
            assert(acc.offered_ms().count(o) <= db.count(o));
        }
        // The offered records are stored records, so there are at least as
        // many stored as offered.
        assert(acc.offered_ms().subset_of(db));
        assert(db.sub(acc.offered_ms()).len() == db.len() - acc.offered_ms().len());
        assert(acc.offered@.len() <= db.len());
        if acc.offered@.len() < number_of_neighbors {
            // Not full: nothing was pruned, so everything stored was offered
            // and the answer holds all of it.
            assert(acc.results@.len() < acc.max_features);
            assert(db.subset_of(acc.offered_ms()));
            assert(db =~= acc.offered_ms());
            assert(ranked@.len() == db.len());
        } else {
            assert(ranked@.len() == number_of_neighbors);
            assert(db.len() >= number_of_neighbors);
        }
        assert(ranked@.len() <= comparisons <= db.len());
    }
    Ok((comparisons, ranked))
}

/// Searches the index once per target descriptor, in order. Independent
/// whole-query searches share no mutable state, so callers may also run them
/// on separate workers; this form runs them one after the other.
pub fn search_for_all_descriptions(
    store: &ShardStore,
    descriptions: Vec<FeatureDescription>,
    number_of_neighbors: usize,
    fuel: u32,
) -> (r: Result<Vec<(u64, Vec<SearchResult>)>, TreeError>)
    requires
        store.wf(),
        number_of_neighbors >= 1,
    ensures
        match r {
            Ok(out) => {
                &&& out@.len() == descriptions@.len()
                &&& forall|i: int|
                    0 <= i < out@.len() ==> search_output_ok(
                        store@,
                        fuel as nat,
                        descriptions@[i]@,
                        number_of_neighbors as int,
                        (#[trigger] out@[i]).0,
                        out@[i].1@,
                    )
            },
            Err(_) => !subtree_ok(store@, NodeV::File { path: root_position() }, fuel as nat),
        },
{
    let mut results: Vec<(u64, Vec<SearchResult>)> = Vec::new();
    let mut i: usize = 0;
    while i < descriptions.len()
        invariant
            0 <= i <= descriptions@.len(),
            store.wf(),
            number_of_neighbors >= 1,
            results@.len() == i,
            forall|j: int|
                0 <= j < i ==> search_output_ok(
                    store@,
                    fuel as nat,
                    descriptions@[j]@,
                    number_of_neighbors as int,
                    (#[trigger] results@[j]).0,
                    results@[j].1@,
                ),
        decreases descriptions@.len() - i,
    {
        let description = descriptions[i];
        match find_feature_description_in_database(store, description, number_of_neighbors, fuel) {
            Ok(out) => {
                results.push(out);
            },
            Err(e) => {
                return Err(e);
            },
        }
        i = i + 1;
    }
    Ok(results)
}



/// The descriptor bytes of every static frame (frame index zero) of an
/// extraction batch, flattened in extraction order.
pub open spec fn static_descriptions<M>(
    l: Seq<(crate::frame_info::FrameInfo, Vec<(M, FeatureDescription)>)>,
) -> Seq<Seq<u8>>
    decreases l.len(),
{
    if l.len() == 0 {
        Seq::empty()
    } else {
        static_descriptions(l.drop_last()) + if l.last().0.index == 0 {
            l.last().1@.map_values(|e: (M, FeatureDescription)| e.1@)
        } else {
            Seq::empty()
        }
    }
}

/// A batch prefix never flattens to more descriptors than the whole batch.
pub proof fn lemma_static_descriptions_prefix<M>(
    l: Seq<(crate::frame_info::FrameInfo, Vec<(M, FeatureDescription)>)>,
    j: int,
)
    requires
        0 <= j <= l.len(),
    ensures
        static_descriptions(l.subrange(0, j)).len() <= static_descriptions(l).len(),
    decreases l.len(),
{
    if j == l.len() {
        assert(l.subrange(0, j) =~= l);
    } else {
        assert(l.subrange(0, j) =~= l.drop_last().subrange(0, j));
        lemma_static_descriptions_prefix(l.drop_last(), j);
    }
}

/// The identifiers of a batch of metadata groups, flattened in order.
pub open spec fn group_identifiers<M>(
    groups: Seq<(crate::frame_info::FrameInfo, Vec<(u64, M)>)>,
) -> Seq<u64>
    decreases groups.len(),
{
    if groups.len() == 0 {
        Seq::empty()
    } else {
        group_identifiers(groups.drop_last()) + groups.last().1@.map_values(|e: (u64, M)| e.0)
    }
}

/// Assigns fresh identifiers to an extraction batch: frames other than
/// static images are dropped, and every kept descriptor receives the next
/// identifier after the largest already issued, in extraction order. The
/// per-descriptor metadata values come back under the same identifiers, one
/// group per kept frame, for the caller's side-table.
pub fn assign_uuids_to_list<M>(
    list: Vec<(crate::frame_info::FrameInfo, Vec<(M, FeatureDescription)>)>,
    max_uuid: u64,
) -> (r: (Vec<(crate::frame_info::FrameInfo, Vec<(u64, M)>)>, Vec<UUIDDescriptionPair>))
    requires
        max_uuid + static_descriptions(list@).len() <= u64::MAX,
    ensures
        r.1@.map_values(|p: UUIDDescriptionPair| p@.1) == static_descriptions(list@),
        forall|i: int| 0 <= i < r.1@.len() ==> (#[trigger] r.1@[i])@.0 == max_uuid + 1 + i,
        group_identifiers(r.0@) == r.1@.map_values(|p: UUIDDescriptionPair| p@.0),
{
    let ghost orig = list@;
    let mut remaining = list;
    let ghost total_frames = remaining@.len();
    proof {
        assert(orig.len() == total_frames);
    }
    let frame_count = remaining.len();
    let mut metadata_frame_list: Vec<(crate::frame_info::FrameInfo, Vec<(u64, M)>)> = Vec::new();
    let mut all_descriptions: Vec<UUIDDescriptionPair> = Vec::new();
    let mut next_uuid: u64 = max_uuid;
    let mut i: usize = 0;
    proof {
        assert(orig.subrange(0, 0) =~= Seq::<
            (crate::frame_info::FrameInfo, Vec<(M, FeatureDescription)>),
        >::empty());
        assert(all_descriptions@.map_values(|p: UUIDDescriptionPair| p@.1) =~= static_descriptions(
            orig.subrange(0, 0),
        ));
        assert(group_identifiers(metadata_frame_list@) =~= all_descriptions@.map_values(
            |p: UUIDDescriptionPair| p@.0,
        ));
    }
    while remaining.len() > 0
        invariant
            0 <= i <= orig.len(),
            orig.len() == frame_count,
            i + remaining@.len() == orig.len(),
            remaining@ == orig.subrange(i as int, orig.len() as int),
            max_uuid + static_descriptions(orig).len() <= u64::MAX,
            next_uuid == max_uuid + all_descriptions@.len(),
            all_descriptions@.map_values(|p: UUIDDescriptionPair| p@.1) == static_descriptions(
                orig.subrange(0, i as int),
            ),
            group_identifiers(metadata_frame_list@) == all_descriptions@.map_values(
                |p: UUIDDescriptionPair| p@.0,
            ),
            forall|j: int|
                0 <= j < all_descriptions@.len() ==> (#[trigger] all_descriptions@[j])@.0
                    == max_uuid + 1 + j,
        decreases remaining@.len(),
    {
        let ghost pre_remaining = remaining@;
        let (frame, poi_list) = remaining.remove(0);
        proof {
            assert(remaining@ =~= orig.subrange(i + 1, orig.len() as int));
            assert(pre_remaining[0] == orig[i as int]);
            assert(orig.subrange(0, i + 1).drop_last() =~= orig.subrange(0, i as int));
            assert(orig.subrange(0, i + 1).last() == orig[i as int]);
        }
        if frame.get_id() != 0 {
            // Only static images are kept.
            proof {
                assert(static_descriptions(orig.subrange(0, i + 1)) =~= static_descriptions(
                    orig.subrange(0, i as int),
                ));
            }
            i = i + 1;
            continue ;
        }
        let ghost poi_views = poi_list@.map_values(|e: (M, FeatureDescription)| e.1@);
        let ghost chunk_start = all_descriptions@.len() as int;
        let mut metadata_vec: Vec<(u64, M)> = Vec::new();
        let mut poi_remaining = poi_list;
        let poi_count = poi_remaining.len();
        let mut k: usize = 0;
        proof {
            lemma_static_descriptions_prefix(orig, i + 1);
            assert(static_descriptions(orig.subrange(0, i + 1)) =~= static_descriptions(
                orig.subrange(0, i as int),
            ) + poi_views);
            assert(poi_views.subrange(0, 0) =~= Seq::<Seq<u8>>::empty());
            assert(all_descriptions@.map_values(|p: UUIDDescriptionPair| p@.1) =~= static_descriptions(
                orig.subrange(0, i as int),
            ) + poi_views.subrange(0, 0));
            assert(metadata_vec@.map_values(|e: (u64, M)| e.0) =~= Seq::<u64>::empty());
            assert(group_identifiers(metadata_frame_list@) + metadata_vec@.map_values(
                |e: (u64, M)| e.0,
            ) =~= all_descriptions@.map_values(|p: UUIDDescriptionPair| p@.0));
        }
        while poi_remaining.len() > 0
            invariant
                0 <= k <= poi_views.len(),
                poi_views.len() == poi_count,
                k + poi_remaining@.len() == poi_views.len(),
                poi_remaining@.map_values(|e: (M, FeatureDescription)| e.1@) == poi_views.subrange(
                    k as int,
                    poi_views.len() as int,
                ),
                chunk_start + poi_views.len() <= static_descriptions(orig).len(),
                max_uuid + static_descriptions(orig).len() <= u64::MAX,
                all_descriptions@.len() == chunk_start + k,
                next_uuid == max_uuid + all_descriptions@.len(),
                all_descriptions@.map_values(|p: UUIDDescriptionPair| p@.1) == static_descriptions(
                    orig.subrange(0, i as int),
                ) + poi_views.subrange(0, k as int),
                group_identifiers(metadata_frame_list@) + metadata_vec@.map_values(
                    |e: (u64, M)| e.0,
                ) == all_descriptions@.map_values(|p: UUIDDescriptionPair| p@.0),
                forall|j: int|
                    0 <= j < all_descriptions@.len() ==> (#[trigger] all_descriptions@[j])@.0
                        == max_uuid + 1 + j,
            decreases poi_remaining@.len(),
        {
            let ghost pre_pois = poi_remaining@;
            let (metadata, description) = poi_remaining.remove(0);
            proof {
                assert(pre_pois.map_values(|e: (M, FeatureDescription)| e.1@)[0] == pre_pois[0].1@);
                assert(poi_views.subrange(k as int, poi_views.len() as int)[0] == poi_views[
                    k as int
                ]);
                assert(pre_pois[0].1@ == poi_views[k as int]);
                assert forall|j: int|
                    #![trigger poi_views.subrange(k + 1, poi_views.len() as int)[j]]
                    0 <= j < poi_remaining@.len() implies poi_remaining@.map_values(
                    |e: (M, FeatureDescription)| e.1@,
                )[j] == poi_views.subrange(k + 1, poi_views.len() as int)[j] by {
                    assert(poi_remaining@[j] == pre_pois[j + 1]);
                    assert(pre_pois.map_values(|e: (M, FeatureDescription)| e.1@)[j + 1]
                        == pre_pois[j + 1].1@);
                    assert(poi_views.subrange(k as int, poi_views.len() as int)[j + 1]
                        == poi_views[k + 1 + j]);
                }
                assert(poi_remaining@.map_values(|e: (M, FeatureDescription)| e.1@)
                    =~= poi_views.subrange(k + 1, poi_views.len() as int));
            }
            next_uuid = next_uuid + 1;
            let ghost pre_all = all_descriptions@;
            let pair = UUIDDescriptionPair::new(next_uuid, description);
            metadata_vec.push((next_uuid, metadata));
            all_descriptions.push(pair);
            proof {
                assert(pair@.1 == poi_views[k as int]);
                assert(all_descriptions@.map_values(|p: UUIDDescriptionPair| p@.1)
                    =~= pre_all.map_values(|p: UUIDDescriptionPair| p@.1).push(pair@.1));
                assert(all_descriptions@.map_values(|p: UUIDDescriptionPair| p@.1)
                    =~= static_descriptions(orig.subrange(0, i as int)) + poi_views.subrange(
                    0,
                    k + 1,
                ));
                assert(metadata_vec@.map_values(|e: (u64, M)| e.0)
                    =~= metadata_vec@.subrange(0, metadata_vec@.len() - 1).map_values(
                    |e: (u64, M)| e.0,
                ).push(next_uuid));
                assert(all_descriptions@.map_values(|p: UUIDDescriptionPair| p@.0)
                    =~= pre_all.map_values(|p: UUIDDescriptionPair| p@.0).push(next_uuid));
                assert(group_identifiers(metadata_frame_list@) + metadata_vec@.map_values(
                    |e: (u64, M)| e.0,
                ) =~= all_descriptions@.map_values(|p: UUIDDescriptionPair| p@.0));
            }
            k = k + 1;
        }
        proof {
            assert(poi_views.subrange(0, poi_views.len() as int) =~= poi_views);
        }
        let ghost groups_before = metadata_frame_list@;
        let ghost group_ids = metadata_vec@.map_values(|e: (u64, M)| e.0);
        metadata_frame_list.push((frame, metadata_vec));
        proof {
            assert(metadata_frame_list@.drop_last() =~= groups_before);
            assert(metadata_frame_list@.last().1@.map_values(|e: (u64, M)| e.0) == group_ids);
            assert(group_identifiers(metadata_frame_list@) =~= group_identifiers(groups_before)
                + group_ids);
        }
        i = i + 1;
    }
    proof {
        assert(orig.subrange(0, orig.len() as int) =~= orig);
    }
    (metadata_frame_list, all_descriptions)
}

/// Whether every byte is an ASCII decimal digit.
pub open spec fn all_digits(b: Seq<u8>) -> bool {
    forall|i: int| 0 <= i < b.len() ==> 48 <= #[trigger] b[i] <= 57
}

/// The number a digit string denotes.
pub open spec fn digits_value(b: Seq<u8>) -> int
    decreases b.len(),
{
    if b.len() == 0 {
        0
    } else {
        digits_value(b.drop_last()) * 10 + (b.last() - 48)
    }
}

pub proof fn lemma_digits_value_nonneg(b: Seq<u8>)
    requires
        all_digits(b),
    ensures
        digits_value(b) >= 0,
    decreases b.len(),
{
    if b.len() > 0 {
        assert(all_digits(b.drop_last())) by {
            assert forall|i: int| 0 <= i < b.drop_last().len() implies 48 <= #[trigger] b.drop_last()[i]
                <= 57 by {
                assert(b.drop_last()[i] == b[i]);
            }
        }
        lemma_digits_value_nonneg(b.drop_last());
    }
}

/// A digit string is worth at least any of its prefixes.
pub proof fn lemma_digits_value_prefix(b: Seq<u8>, j: int)
    requires
        all_digits(b),
        0 <= j <= b.len(),
    ensures
        digits_value(b.subrange(0, j)) <= digits_value(b),
    decreases b.len(),
{
    if j == b.len() {
        assert(b.subrange(0, j) =~= b);
    } else {
        assert(all_digits(b.drop_last())) by {
            assert forall|i: int| 0 <= i < b.drop_last().len() implies 48 <= #[trigger] b.drop_last()[i]
                <= 57 by {
                assert(b.drop_last()[i] == b[i]);
            }
        }
        assert(b.subrange(0, j) =~= b.drop_last().subrange(0, j));
        lemma_digits_value_prefix(b.drop_last(), j);
        lemma_digits_value_nonneg(b.drop_last());
        assert(digits_value(b.drop_last()) * 10 >= digits_value(b.drop_last())) by (nonlinear_arith)
            requires
                digits_value(b.drop_last()) >= 0,
        ;
    }
}

/// The count a command-line argument denotes: an optional plus sign, then
/// decimal digits, the whole value fitting the machine word.
pub open spec fn spec_parse_count(b: Seq<u8>) -> Option<int> {
    let t = if b.len() > 0 && b[0] == 43 {
        b.skip(1)
    } else {
        b
    };
    if t.len() > 0 && all_digits(t) && digits_value(t) <= usize::MAX {
        Some(digits_value(t))
    } else {
        None
    }
}

/// The neighbor count a search uses for a command-line argument: the parsed
/// value clamped between one and the largest allowed, or the default when no
/// argument was given or it does not parse.
pub open spec fn spec_k_from_cli(k: Option<&str>) -> int {
    match k {
        None => crate::constants::DEFAULT_K as int,
        Some(s) => match spec_parse_count(vstd::utf8::encode_utf8(s@)) {
            Some(v) => if v < 1 {
                1
            } else if v > crate::constants::MAX_K_VALUE {
                crate::constants::MAX_K_VALUE as int
            } else {
                v
            },
            None => crate::constants::DEFAULT_K as int,
        },
    }
}

/// Reads the neighbor count from an optional command-line argument.
pub fn get_k_from_cli(k: Option<&str>) -> (r: usize)
    ensures
        r == spec_k_from_cli(k),
{
    broadcast use vstd::arithmetic::div_mod::lemma_fundamental_div_mod;

    let s = match k {
        Some(s) => s,
        None => {
            return crate::constants::DEFAULT_K;
        },
    };
    let bytes = s.as_bytes();
    let ghost b = vstd::utf8::encode_utf8(s@);
    proof {
        assert(bytes@ == b);
    }
    let mut start: usize = 0;
    if bytes.len() > 0 && bytes[0] == 43 {
        start = 1;
    }
    let ghost t = if b.len() > 0 && b[0] == 43 {
        b.skip(1)
    } else {
        b
    };
    proof {
        assert(t =~= b.subrange(start as int, b.len() as int));
    }
    if start >= bytes.len() {
        return crate::constants::DEFAULT_K;
    }
    let mut value: usize = 0;
    let mut i: usize = start;
    proof {
        assert(b.subrange(start as int, start as int) =~= Seq::<u8>::empty());
    }
    while i < bytes.len()
        invariant
            start <= i <= b.len(),
            bytes@ == b,
            k == Some(s),
            b == vstd::utf8::encode_utf8(s@),
            (b.len() > 0 && b[0] == 43) <==> start == 1,
            start <= 1,
            t == b.subrange(start as int, b.len() as int),
            t.len() > 0,
            forall|j: int| start <= j < i ==> 48 <= #[trigger] b[j] <= 57,
            value == digits_value(b.subrange(start as int, i as int)),
            value <= usize::MAX,
        decreases b.len() - i,
    {
        let d = bytes[i];
        if d < 48 || d > 57 {
            proof {
                assert(t[i - start] == b[i as int]);
                assert(!all_digits(t));
            }
            return crate::constants::DEFAULT_K;
        }
        let digit = (d - 48) as usize;
        proof {
            assert(b.subrange(start as int, i + 1).drop_last() =~= b.subrange(
                start as int,
                i as int,
            ));
            assert(b.subrange(start as int, i + 1).last() == b[i as int]);
        }
        if value > (usize::MAX - digit) / 10 {
            proof {
                assert(10 * value + digit > usize::MAX) by {
                    assert(value >= (usize::MAX - digit) / 10 + 1);
                    assert(10 * ((usize::MAX - digit) / 10 + 1) > usize::MAX - digit) by {
                        vstd::arithmetic::div_mod::lemma_fundamental_div_mod(
                            (usize::MAX - digit) as int,
                            10,
                        );
                        assert(0 <= (usize::MAX - digit) as int % 10 < 10) by (nonlinear_arith);
                    }
                    assert(10 * value >= 10 * ((usize::MAX - digit) / 10 + 1)) by (nonlinear_arith)
                        requires
                            value >= (usize::MAX - digit) / 10 + 1,
                    ;
                }
                assert(digits_value(b.subrange(start as int, i + 1)) > usize::MAX);
                assert(all_digits(t) ==> digits_value(t) > usize::MAX) by {
                    if all_digits(t) {
                        assert(b.subrange(start as int, i + 1) =~= t.subrange(0, i + 1 - start));
                        lemma_digits_value_prefix(t, i + 1 - start);
                    }
                }
                assert(!(t.len() > 0 && all_digits(t) && digits_value(t) <= usize::MAX));
                assert(t == (if b.len() > 0 && b[0] == 43 {
                    b.skip(1)
                } else {
                    b
                })) by {
                    if b.len() > 0 && b[0] == 43 {
                        assert(b.skip(1) =~= b.subrange(1, b.len() as int));
                    } else {
                        assert(b.subrange(0, b.len() as int) =~= b);
                    }
                }
                assert(spec_parse_count(b) is None);
                assert(spec_k_from_cli(k) == crate::constants::DEFAULT_K as int);
            }
            return crate::constants::DEFAULT_K;
        }
        value = value * 10 + digit;
        i = i + 1;
    }
    proof {
        assert(b.subrange(start as int, b.len() as int) =~= t);
        assert(all_digits(t)) by {
            assert forall|j: int| 0 <= j < t.len() implies 48 <= #[trigger] t[j] <= 57 by {
                assert(t[j] == b[j + start]);
            }
        }
        assert(digits_value(t) == value);
    }
    if value < 1 {
        1
    } else if value > crate::constants::MAX_K_VALUE {
        crate::constants::MAX_K_VALUE
    } else {
        value
    }
}


impl Node {
    /// One diagnostic line per node of the subtree: its depth and how many
    /// records it holds, the subtree's own line first. Sizes are recomputed,
    /// never cached.
    pub fn debug_lines(&self, store: &ShardStore, depth: u32, fuel: u32) -> (r: Result<
        Vec<(u32, u64)>,
        TreeError,
    >)
        requires
            store.wf(),
        ensures
            match r {
                Ok(lines) => {
                    &&& lines@.len() >= 1
                    &&& lines@[0].0 == depth
                    &&& lines@[0].1 == store_records(store@, self@, fuel as nat).len()
                    &&& forall|i: int| 0 <= i < lines@.len() ==> depth <= (#[trigger] lines@[i]).0
                },
                Err(_) => !(subtree_ok(store@, self@, fuel as nat) && store_records(
                    store@,
                    self@,
                    fuel as nat,
                ).len() <= u64::MAX),
            },
        decreases fuel, crate::node::node_height(*self),
    {
        let total = match self.size(store, fuel) {
            Ok(n) => n,
            Err(e) => {
                return Err(e);
            },
        };
        let mut lines: Vec<(u32, u64)> = Vec::new();
        lines.push((depth, total));
        let child_depth = if depth < u32::MAX {
            depth + 1
        } else {
            depth
        };
        match self {
            Node::Leaf(_) => Ok(lines),
            Node::Internal(node) => {
                proof {
                    broadcast use vstd::multiset::group_multiset_axioms;
                }
                let mut near_lines = match node.near.debug_lines(store, child_depth, fuel) {
                    Ok(v) => v,
                    Err(_) => vstd::pervasive::unreached(),
                };
                let mut far_lines = match node.far.debug_lines(store, child_depth, fuel) {
                    Ok(v) => v,
                    Err(_) => vstd::pervasive::unreached(),
                };
                let ghost own = lines@;
                let ghost nl = near_lines@;
                let ghost fl = far_lines@;
                lines.append(&mut near_lines);
                lines.append(&mut far_lines);
                proof {
                    assert(lines@ =~= own + nl + fl);
                    assert forall|i: int| 0 <= i < lines@.len() implies depth <= (
                    #[trigger] lines@[i]).0 by {
                        if i >= own.len() + nl.len() {
                            assert(lines@[i] == fl[i - own.len() - nl.len()]);
                        } else if i >= own.len() {
                            assert(lines@[i] == nl[i - own.len()]);
                        }
                    }
                }
                Ok(lines)
            },
            Node::File(node) => {
                let bytes = match store.get(&node.path_in_tree) {
                    Some(bytes) => bytes,
                    None => {
                        return Ok(lines);
                    },
                };
                let content = match Node::from_binary(bytes.as_slice()) {
                    Ok(content) => content,
                    Err(_) => vstd::pervasive::unreached(),
                };
                proof {
                    assert(store_records(store@, self@, fuel as nat) == store_records(
                        store@,
                        content@,
                        (fuel - 1) as nat,
                    ));
                }
                let mut content_lines = match content.debug_lines(store, child_depth, fuel - 1) {
                    Ok(v) => v,
                    Err(_) => vstd::pervasive::unreached(),
                };
                let ghost own = lines@;
                let ghost cl = content_lines@;
                lines.append(&mut content_lines);
                proof {
                    assert(lines@ =~= own + cl);
                    assert forall|i: int| 0 <= i < lines@.len() implies depth <= (
                    #[trigger] lines@[i]).0 by {
                        if i >= own.len() {
                            assert(lines@[i] == cl[i - own.len()]);
                        }
                    }
                }
                Ok(lines)
            },
        }
    }
}

/// Renders the subtree stored behind one shard file name as diagnostic
/// lines, one node each: the name's directions locate the shard, and the
/// first line carries the whole subtree's record count.
pub fn print_path(store: &ShardStore, path: String, fuel: u32) -> (r: Result<
    Vec<(u32, u64)>,
    TreeError,
>)
    requires
        store.wf(),
        crate::node_path::spec_name_has_directions(vstd::utf8::encode_utf8(path@)),
    ensures
        match r {
            Ok(lines) => {
                &&& lines@.len() >= 1
                &&& lines@[0].1 == store_records(
                    store@,
                    NodeV::File {
                        path: crate::node_path::spec_name_directions(
                            vstd::utf8::encode_utf8(path@),
                        ),
                    },
                    fuel as nat,
                ).len()
            },
            Err(_) => true,
        },
{
    let node_path = NodePath::from_file_path_string(path);
    let root = FileNode::new_at_location(node_path);
    root.debug_lines(store, 0, fuel)
}

} // verus!
