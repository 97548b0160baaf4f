//! The bounded top-k accumulator a search fills.

use vstd::prelude::*;

verus! {

use crate::feature_description::FeatureDescription;
use crate::feature_description::spec_distance;
use crate::uuid_description_pair::UUIDDescriptionPair;
use vstd::multiset::Multiset;

/// One ranked answer: a stored record together with its squared distance to
/// the search target.
#[derive(Clone, Copy, Debug)]
pub struct SearchResult {
    pub feature: UUIDDescriptionPair,
    pub distance: u32,
}

impl SearchResult {
    pub fn new(feature: UUIDDescriptionPair, distance: u32) -> (r: SearchResult)
        ensures
            r.feature == feature,
            r.distance == distance,
    {
        SearchResult { feature, distance }
    }

    pub fn get_distance(&self) -> (r: u32)
        ensures
            r == self.distance,
    {
        self.distance
    }

    pub fn get_result_uuid(&self) -> (r: u64)
        ensures
            r == self.feature@.0,
    {
        self.feature.get_uuid()
    }
}

/// The record views of a sequence of results.
pub open spec fn result_views(s: Seq<SearchResult>) -> Seq<(u64, Seq<u8>)> {
    s.map_values(|r: SearchResult| r.feature@)
}

/// A bounded top-k collector: the search target, at most `max_features` kept
/// results, and a monotonic comparison counter. The ghost `offered` sequence
/// records every record ever offered, so the contracts can say that the kept
/// results are the best among them.
pub struct SearchResultList {
    pub results: Vec<SearchResult>,
    pub max_features: usize,
    pub target: FeatureDescription,
    pub comparisons: u64,
    pub offered: Ghost<Seq<(u64, Seq<u8>)>>,
}

impl SearchResultList {
    pub open spec fn kept_ms(&self) -> Multiset<(u64, Seq<u8>)> {
        result_views(self.results@).to_multiset()
    }

    pub open spec fn offered_ms(&self) -> Multiset<(u64, Seq<u8>)> {
        self.offered@.to_multiset()
    }

    /// The records offered but not currently kept.
    pub open spec fn rejected_ms(&self) -> Multiset<(u64, Seq<u8>)> {
        self.offered_ms().sub(self.kept_ms())
    }

    /// The accumulator invariant: it holds min(k, offered) records, all drawn
    /// from the offered ones, each carrying its true distance to the target,
    /// none farther from the target than any rejected record, and the
    /// comparison counter equal to the offers made (saturating).
    pub open spec fn wf(&self) -> bool {
        &&& self.max_features >= 1
        &&& self.results@.len() == if self.offered@.len() < self.max_features {
            self.offered@.len() as int
        } else {
            self.max_features as int
        }
        &&& self.comparisons == if self.offered@.len() < u64::MAX {
            self.offered@.len() as int
        } else {
            u64::MAX as int
        }
        &&& self.kept_ms().subset_of(self.offered_ms())
        &&& forall|i: int|
            0 <= i < self.results@.len() ==> (#[trigger] self.results@[i]).distance
                == spec_distance(self.target@, self.results@[i].feature@.1)
        &&& forall|i: int, o: (u64, Seq<u8>)|
            #![trigger self.results@[i], self.rejected_ms().count(o)]
            0 <= i < self.results@.len() && self.rejected_ms().contains(o) ==> self.results@[i].distance <= spec_distance(self.target@, o.1)
    }

    pub fn new(max_features: usize, target: FeatureDescription) -> (r: SearchResultList)
        requires
            max_features >= 1,
        ensures
            r.wf(),
            r.max_features == max_features,
            r.target == target,
            r.comparisons == 0,
            r.offered@ == Seq::<(u64, Seq<u8>)>::empty(),
            r.results@.len() == 0,
    {
        let r = SearchResultList {
            results: Vec::new(),
            max_features,
            target,
            comparisons: 0,
            offered: Ghost(Seq::empty()),
        };
        proof {
            broadcast use vstd::seq_lib::group_to_multiset_ensures;
            broadcast use vstd::multiset::group_multiset_axioms;

            assert(result_views(r.results@) =~= Seq::<(u64, Seq<u8>)>::empty());
            assert(r.offered@ =~= Seq::<(u64, Seq<u8>)>::empty());
        }
        r
    }

    /// The squared distance from the search target to a descriptor.
    pub fn distance_to_feature(&self, feature: &FeatureDescription) -> (r: u32)
        ensures
            r == spec_distance(self.target@, feature@),
            r <= 2080800,
    {
        self.target.distance(feature)
    }

    /// The largest distance among the kept results: the current pruning
    /// bound. Meaningful only once a record was offered.
    pub fn get_worst_distance_to_target(&self) -> (r: u32)
        requires
            self.results@.len() >= 1,
        ensures
            forall|i: int|
                0 <= i < self.results@.len() ==> (#[trigger] self.results@[i]).distance <= r,
            exists|i: int|
                0 <= i < self.results@.len() && (#[trigger] self.results@[i]).distance == r,
    {
        let (i, worst) = self.worst_index();
        proof {
            assert(self.results@[i as int].distance == worst);
        }
        worst
    }

    /// The index and distance of the farthest kept result.
    fn worst_index(&self) -> (r: (usize, u32))
        requires
            self.results@.len() >= 1,
        ensures
            r.0 < self.results@.len(),
            self.results@[r.0 as int].distance == r.1,
            forall|i: int|
                0 <= i < self.results@.len() ==> (#[trigger] self.results@[i]).distance <= r.1,
    {
        let mut worst_index: usize = 0;
        let mut worst: u32 = self.results[0].distance;
        let mut i: usize = 1;
        while i < self.results.len()
            invariant
                1 <= i <= self.results@.len(),
                worst_index < i,
                self.results@[worst_index as int].distance == worst,
                forall|j: int| 0 <= j < i ==> (#[trigger] self.results@[j]).distance <= worst,
            decreases self.results@.len() - i,
        {
            if self.results[i].distance > worst {
                worst_index = i;
                worst = self.results[i].distance;
            }
            i = i + 1;
        }
        (worst_index, worst)
    }

    pub fn get_comparisons(&self) -> (r: u64)
        ensures
            r == self.comparisons,
    {
        self.comparisons
    }

    /// Offers one record: the counter always moves; the record is kept when
    /// fewer than k are held, or when it beats the current worst, which is
    /// then evicted.
    pub fn try_to_add(&mut self, to_add: &UUIDDescriptionPair)
        requires
            old(self).wf(),
        ensures
            final(self).wf(),
            final(self).offered@ == old(self).offered@.push(to_add@),
            final(self).target == old(self).target,
            final(self).max_features == old(self).max_features,
            final(self).comparisons == if old(self).comparisons < u64::MAX {
                old(self).comparisons + 1
            } else {
                u64::MAX as int
            },
    {
        let ghost pre = *self;
        let ghost v = to_add@;
        if self.comparisons < u64::MAX {
            self.comparisons = self.comparisons + 1;
        }
        let distance_to_target = self.target.distance(to_add.get_description());
        let new_result = SearchResult::new(*to_add, distance_to_target);
        proof {
            assert(new_result.feature@ == v);
        }
        if self.results.len() < self.max_features {
            // Fewer than k held: nothing was ever rejected, keep the record.
            self.results.push(new_result);
            self.offered = Ghost(self.offered@.push(v));
            proof {
                lemma_accumulator_keep(pre, *self, new_result);
            }
        } else {
            let (worst_index, worst) = self.worst_index();
            if distance_to_target < worst {
                // Full, and the record beats the worst kept: evict the worst.
                self.results.remove(worst_index);
                self.results.push(new_result);
                self.offered = Ghost(self.offered@.push(v));
                proof {
                    lemma_accumulator_replace(pre, *self, new_result, worst_index as int);
                }
            } else {
                // Full, and the record does not beat the worst kept: reject it.
                self.offered = Ghost(self.offered@.push(v));
                proof {
                    lemma_accumulator_discard(pre, *self, new_result, worst_index as int);
                }
            }
        }
    }

    /// Consumes the accumulator and returns the kept results ascending by
    /// distance: the same records, reordered.
    pub fn get_results(self) -> (r: Vec<SearchResult>)
        requires
            self.wf(),
        ensures
            result_views(r@).to_multiset() == self.kept_ms(),
            r@.len() == self.results@.len(),
            forall|i: int, j: int|
                0 <= i <= j < r@.len() ==> (#[trigger] r@[i]).distance <= (#[trigger] r@[j]).distance,
            forall|i: int|
                0 <= i < r@.len() ==> (#[trigger] r@[i]).distance == spec_distance(
                    self.target@,
                    r@[i].feature@.1,
                ),
    {
        proof {
            broadcast use vstd::seq_lib::group_to_multiset_ensures;
            broadcast use vstd::multiset::group_multiset_axioms;
        }
        let mut remaining = self.results;
        let ghost pre_views = result_views(remaining@);
        let mut sorted: Vec<SearchResult> = Vec::new();
        proof {
            assert(result_views(sorted@) =~= Seq::<(u64, Seq<u8>)>::empty());
            assert(result_views(sorted@).to_multiset().add(result_views(remaining@).to_multiset())
                =~= pre_views.to_multiset());
        }
        while remaining.len() > 0
            invariant
                result_views(sorted@).to_multiset().add(result_views(remaining@).to_multiset())
                    =~= pre_views.to_multiset(),
                sorted@.len() + remaining@.len() == pre_views.len(),
                forall|i: int, j: int|
                    0 <= i <= j < sorted@.len() ==> (#[trigger] sorted@[i]).distance <= (
                    #[trigger] sorted@[j]).distance,
                forall|i: int, j: int|
                    0 <= i < sorted@.len() && 0 <= j < remaining@.len() ==> (
                    #[trigger] sorted@[i]).distance <= (#[trigger] remaining@[j]).distance,
                forall|i: int|
                    0 <= i < sorted@.len() ==> (#[trigger] sorted@[i]).distance == spec_distance(
                        self.target@,
                        sorted@[i].feature@.1,
                    ),
                forall|i: int|
                    0 <= i < remaining@.len() ==> (#[trigger] remaining@[i]).distance
                        == spec_distance(self.target@, remaining@[i].feature@.1),
            decreases remaining@.len(),
        {
            // Index of the closest remaining result.
            let mut best_index: usize = 0;
            let mut best: u32 = remaining[0].distance;
            let mut i: usize = 1;
            while i < remaining.len()
                invariant
                    1 <= i <= remaining@.len(),
                    best_index < i,
                    remaining@[best_index as int].distance == best,
                    forall|j: int| 0 <= j < i ==> (#[trigger] remaining@[j]).distance >= best,
                decreases remaining@.len() - i,
            {
                if remaining[i].distance < best {
                    best_index = i;
                    best = remaining[i].distance;
                }
                i = i + 1;
            }
            let ghost before = remaining@;
            let ghost before_sorted = sorted@;
            let item = remaining.remove(best_index);
            sorted.push(item);
            proof {
                broadcast use vstd::seq_lib::group_to_multiset_ensures;
                broadcast use vstd::multiset::group_multiset_axioms;
                broadcast use vstd::multiset::group_multiset_properties;

                assert(result_views(remaining@) =~= result_views(before).remove(best_index as int));
                assert(result_views(sorted@) =~= result_views(before_sorted).push(item.feature@));
                assert(result_views(before)[best_index as int] == item.feature@);
                assert(result_views(before).remove(best_index as int).to_multiset() =~= result_views(
                    before,
                ).to_multiset().remove(item.feature@));
                assert(result_views(remaining@).to_multiset() =~= result_views(
                    before,
                ).to_multiset().remove(item.feature@));
                assert(result_views(before_sorted).push(item.feature@).to_multiset()
                    =~= result_views(before_sorted).to_multiset().insert(item.feature@));
                assert(result_views(sorted@).to_multiset() =~= result_views(
                    before_sorted,
                ).to_multiset().insert(item.feature@));
                assert(result_views(before).contains(item.feature@));
                assert(result_views(before).to_multiset().count(item.feature@) > 0);
                assert forall|u: (u64, Seq<u8>)| #[trigger]
                    result_views(sorted@).to_multiset().add(
                        result_views(remaining@).to_multiset(),
                    ).count(u) == pre_views.to_multiset().count(u) by {
                    assert(result_views(before_sorted).to_multiset().add(
                        result_views(before).to_multiset(),
                    ).count(u) == pre_views.to_multiset().count(u));
                }
                assert(result_views(sorted@).to_multiset().add(
                    result_views(remaining@).to_multiset(),
                ) =~= pre_views.to_multiset());
                assert forall|j: int| 0 <= j < remaining@.len() implies (
                #[trigger] remaining@[j]).distance >= best by {
                    if j < best_index as int {
                        assert(remaining@[j] == before[j]);
                    } else {
                        assert(remaining@[j] == before[j + 1]);
                    }
                }
            }
        }
        sorted
    }
}


/// The state relation one offer leaves behind, apart from the kept results
/// themselves: the record joins the offer history, target and bound stay,
/// and the counter advances with the history.
spec fn offer_step(pre: SearchResultList, post: SearchResultList, sr: SearchResult) -> bool {
    &&& sr.distance == spec_distance(pre.target@, sr.feature@.1)
    &&& post.offered@ == pre.offered@.push(sr.feature@)
    &&& post.max_features == pre.max_features
    &&& post.target == pre.target
    &&& post.comparisons == if post.offered@.len() < u64::MAX {
        post.offered@.len() as int
    } else {
        u64::MAX as int
    }
}

/// Keeping an offered record while fewer than k are held preserves the
/// accumulator invariant: such an accumulator has rejected nothing yet, so
/// the record joins the kept set outright.
proof fn lemma_accumulator_keep(pre: SearchResultList, post: SearchResultList, sr: SearchResult)
    requires
        pre.wf(),
        pre.results@.len() < pre.max_features,
        offer_step(pre, post, sr),
        post.results@ == pre.results@.push(sr),
    ensures
        post.wf(),
{
    broadcast use vstd::seq_lib::group_to_multiset_ensures;
    broadcast use vstd::multiset::group_multiset_axioms;
    broadcast use vstd::multiset::group_multiset_properties;

    let v = sr.feature@;
    assert(result_views(post.results@) =~= result_views(pre.results@).push(v));
    assert(post.kept_ms() =~= pre.kept_ms().insert(v));
    assert(post.offered_ms() =~= pre.offered_ms().insert(v));
    assert(post.kept_ms().len() == post.results@.len());
    // The old accumulator was not full, so it had rejected nothing and
    // neither has the new one.
    assert(pre.kept_ms().len() == pre.offered_ms().len());
    assert forall|u: (u64, Seq<u8>)| #[trigger] post.rejected_ms().count(u) == 0 by {
        assert(pre.kept_ms().count(u) <= pre.offered_ms().count(u));
        assert(pre.offered_ms().sub(pre.kept_ms()).len() == 0);
        assert(pre.rejected_ms().count(u) == 0);
    }
}

/// Replacing the farthest kept result by a strictly closer offered record
/// preserves the accumulator invariant: the evicted result joins the
/// rejected ones, and nothing kept is farther than it was.
proof fn lemma_accumulator_replace(
    pre: SearchResultList,
    post: SearchResultList,
    sr: SearchResult,
    wi: int,
)
    requires
        pre.wf(),
        pre.results@.len() == pre.max_features,
        0 <= wi < pre.results@.len(),
        forall|i: int|
            0 <= i < pre.results@.len() ==> (#[trigger] pre.results@[i]).distance
                <= pre.results@[wi].distance,
        offer_step(pre, post, sr),
        sr.distance < pre.results@[wi].distance,
        post.results@ == pre.results@.remove(wi).push(sr),
    ensures
        post.wf(),
{
    broadcast use vstd::seq_lib::group_to_multiset_ensures;
    broadcast use vstd::multiset::group_multiset_axioms;
    broadcast use vstd::multiset::group_multiset_properties;

    let v = sr.feature@;
    let w = pre.results@[wi].feature@;
    let worst = pre.results@[wi].distance;
    let pviews = result_views(pre.results@);
    assert(result_views(pre.results@.remove(wi)) =~= pviews.remove(wi));
    assert(result_views(post.results@) =~= pviews.remove(wi).push(v));
    assert(pviews[wi] == w);
    assert(post.kept_ms() =~= pre.kept_ms().remove(w).insert(v));
    assert(post.offered_ms() =~= pre.offered_ms().insert(v));
    assert(pre.kept_ms().contains(w));
    assert forall|u: (u64, Seq<u8>)| #[trigger]
        post.kept_ms().count(u) <= post.offered_ms().count(u) by {
        assert(pre.kept_ms().count(u) <= pre.offered_ms().count(u));
    }
    assert(post.rejected_ms() =~= pre.rejected_ms().insert(w));
    // Distances: surviving results are old ones, plus the new record.
    assert forall|i: int| 0 <= i < post.results@.len() implies (
    #[trigger] post.results@[i]).distance == spec_distance(
        post.target@,
        post.results@[i].feature@.1,
    ) && post.results@[i].distance <= worst by {
        if i < post.results@.len() - 1 {
            let j: int = if i < wi {
                i
            } else {
                i + 1
            };
            assert(post.results@[i] == pre.results@[j]);
        } else {
            assert(post.results@[i] == sr);
        }
    }
    // The old worst is the distance of the evicted view.
    assert(spec_distance(post.target@, w.1) == worst);
    assert forall|i: int, o: (u64, Seq<u8>)|
        #![trigger post.results@[i], post.rejected_ms().count(o)]
        0 <= i < post.results@.len() && post.rejected_ms().contains(o) implies post.results@[i].distance
        <= spec_distance(post.target@, o.1) by {
        assert(post.rejected_ms().count(o) == pre.rejected_ms().insert(w).count(o));
        assert(post.results@[i].distance <= worst);
        if o == w {
            assert(spec_distance(post.target@, o.1) == worst);
        } else {
            assert(pre.rejected_ms().insert(w).count(o) == pre.rejected_ms().count(o));
            assert(pre.rejected_ms().contains(o));
            assert(pre.results@[wi].distance <= spec_distance(pre.target@, o.1));
            assert(worst <= spec_distance(post.target@, o.1));
        }
    }
}

/// Rejecting an offered record no closer than the farthest kept one
/// preserves the accumulator invariant: everything kept is at least as close
/// as the newly rejected record.
proof fn lemma_accumulator_discard(
    pre: SearchResultList,
    post: SearchResultList,
    sr: SearchResult,
    wi: int,
)
    requires
        pre.wf(),
        pre.results@.len() == pre.max_features,
        0 <= wi < pre.results@.len(),
        forall|i: int|
            0 <= i < pre.results@.len() ==> (#[trigger] pre.results@[i]).distance
                <= pre.results@[wi].distance,
        offer_step(pre, post, sr),
        sr.distance >= pre.results@[wi].distance,
        post.results@ == pre.results@,
    ensures
        post.wf(),
{
    broadcast use vstd::seq_lib::group_to_multiset_ensures;
    broadcast use vstd::multiset::group_multiset_axioms;
    broadcast use vstd::multiset::group_multiset_properties;

    let v = sr.feature@;
    let worst = pre.results@[wi].distance;
    assert(post.kept_ms() == pre.kept_ms());
    assert(post.offered_ms() =~= pre.offered_ms().insert(v));
    assert(post.rejected_ms() =~= pre.rejected_ms().insert(v));
    assert(spec_distance(post.target@, v.1) == sr.distance);
    assert forall|i: int, o: (u64, Seq<u8>)|
        #![trigger post.results@[i], post.rejected_ms().count(o)]
        0 <= i < post.results@.len() && post.rejected_ms().contains(o) implies post.results@[i].distance
        <= spec_distance(post.target@, o.1) by {
        assert(post.results@[i] == pre.results@[i]);
        assert(post.rejected_ms().count(o) == pre.rejected_ms().insert(v).count(o));
        if o == v {
            assert(post.results@[i].distance <= worst);
            assert(worst <= sr.distance);
        } else {
            assert(pre.rejected_ms().insert(v).count(o) == pre.rejected_ms().count(o));
            assert(pre.rejected_ms().contains(o));
        }
    }
}

/// After offering n >= k records, the accumulator holds exactly k results,
/// each at distance from the target no greater than any rejected record's.
pub proof fn lemma_top_k_bound(acc: SearchResultList)
    requires
        acc.wf(),
        acc.offered@.len() >= acc.max_features,
    ensures
        acc.results@.len() == acc.max_features,
        forall|i: int, o: (u64, Seq<u8>)|
            #![trigger acc.results@[i], acc.rejected_ms().count(o)]
            0 <= i < acc.results@.len() && acc.rejected_ms().contains(o) ==> acc.results@[i].distance <= spec_distance(acc.target@, o.1),
{
}

} // verus!
