//! The fixed-length binary descriptor and its squared Euclidean metric.

use vstd::prelude::*;

verus! {

use crate::constants::FEATURE_DESCRIPTION_LENGTH;
use crate::rng::chacha8_from_seed;
use crate::rng::chacha8_next_u32;

/// A fixed-length binary feature descriptor, compared by squared Euclidean
/// distance.
#[derive(Clone, Copy, Debug)]
pub struct FeatureDescription {
    pub data: [u8; 32],
}

/// Squared Euclidean distance between the first `n` bytes of two descriptors.
pub open spec fn partial_distance(a: Seq<u8>, b: Seq<u8>, n: int) -> int
    decreases n,
{
    if n <= 0 {
        0
    } else {
        partial_distance(a, b, n - 1) + (a[n - 1] - b[n - 1]) * (a[n - 1] - b[n - 1])
    }
}

/// Squared Euclidean distance between two full descriptors.
pub open spec fn spec_distance(a: Seq<u8>, b: Seq<u8>) -> int {
    partial_distance(a, b, FEATURE_DESCRIPTION_LENGTH as int)
}

/// Distance is built from squared differences, so each partial sum is
/// nonnegative, bounded by 65,025 per byte, and symmetric in its arguments.
pub proof fn lemma_partial_distance_basics(a: Seq<u8>, b: Seq<u8>, n: int)
    requires
        0 <= n,
        a.len() >= n,
        b.len() >= n,
    ensures
        0 <= partial_distance(a, b, n) <= n * 65025,
        partial_distance(a, b, n) == partial_distance(b, a, n),
    decreases n,
{
    if n > 0 {
        lemma_partial_distance_basics(a, b, n - 1);
        let d = a[n - 1] - b[n - 1];
        assert(0 <= d * d <= 65025) by (nonlinear_arith)
            requires
                -255 <= d <= 255,
        ;
        assert((a[n - 1] - b[n - 1]) * (a[n - 1] - b[n - 1]) == (b[n - 1] - a[n - 1]) * (b[n - 1]
            - a[n - 1])) by (nonlinear_arith);
        assert(n * 65025 == (n - 1) * 65025 + 65025) by (nonlinear_arith);
    }
}

/// The partial distance is zero exactly when the first `n` bytes agree.
pub proof fn lemma_partial_distance_zero(a: Seq<u8>, b: Seq<u8>, n: int)
    requires
        0 <= n,
        a.len() >= n,
        b.len() >= n,
    ensures
        partial_distance(a, b, n) == 0 <==> (forall|i: int| 0 <= i < n ==> a[i] == b[i]),
    decreases n,
{
    if n > 0 {
        lemma_partial_distance_zero(a, b, n - 1);
        lemma_partial_distance_basics(a, b, n - 1);
        let d = a[n - 1] - b[n - 1];
        assert(d * d == 0 <==> d == 0) by (nonlinear_arith);
        assert(d * d >= 0) by (nonlinear_arith);
    }
}

/// Distance is symmetric, zero exactly on equal descriptors, and bounded by
/// 2,080,800, so it fits an unsigned 32-bit value for all inputs.
pub proof fn lemma_distance_metric(a: Seq<u8>, b: Seq<u8>)
    requires
        a.len() == FEATURE_DESCRIPTION_LENGTH,
        b.len() == FEATURE_DESCRIPTION_LENGTH,
    ensures
        spec_distance(a, b) == spec_distance(b, a),
        spec_distance(a, b) == 0 <==> a == b,
        0 <= spec_distance(a, b) <= 2080800,
{
    lemma_partial_distance_basics(a, b, FEATURE_DESCRIPTION_LENGTH as int);
    lemma_partial_distance_zero(a, b, FEATURE_DESCRIPTION_LENGTH as int);
    if spec_distance(a, b) == 0 {
        assert(a =~= b);
    }
}

impl View for FeatureDescription {
    type V = Seq<u8>;

    open spec fn view(&self) -> Seq<u8> {
        self.data@
    }
}

impl FeatureDescription {
    pub fn new(data: [u8; 32]) -> (r: FeatureDescription)
        ensures
            r@ == data@,
    {
        FeatureDescription { data }
    }

    /// Builds a descriptor from the first 32 bytes of a vector.
    pub fn new_from_vec(input_vec: Vec<u8>) -> (r: FeatureDescription)
        requires
            input_vec@.len() >= FEATURE_DESCRIPTION_LENGTH,
        ensures
            r@ == input_vec@.subrange(0, FEATURE_DESCRIPTION_LENGTH as int),
    {
        let mut data: [u8; 32] = [0; 32];
        let mut i: usize = 0;
        while i < FEATURE_DESCRIPTION_LENGTH
            invariant
                0 <= i <= FEATURE_DESCRIPTION_LENGTH,
                input_vec@.len() >= FEATURE_DESCRIPTION_LENGTH,
                data@.len() == FEATURE_DESCRIPTION_LENGTH,
                forall|j: int| 0 <= j < i ==> data@[j] == input_vec@[j],
            decreases FEATURE_DESCRIPTION_LENGTH - i,
        {
            data[i] = input_vec[i];
            i = i + 1;
        }
        proof {
            assert(data@ =~= input_vec@.subrange(0, FEATURE_DESCRIPTION_LENGTH as int));
        }
        FeatureDescription { data }
    }

    /// Squared Euclidean distance, summed over bytes as signed differences.
    /// The result is at most 32 * 255 * 255 = 2,080,800 and so always fits
    /// an unsigned 32-bit value.
    pub fn distance(&self, other: &FeatureDescription) -> (r: u32)
        ensures
            r == spec_distance(self@, other@),
            r <= 2080800,
    {
        let mut sum: u32 = 0;
        let mut i: usize = 0;
        while i < FEATURE_DESCRIPTION_LENGTH
            invariant
                0 <= i <= FEATURE_DESCRIPTION_LENGTH,
                sum == partial_distance(self@, other@, i as int),
                sum <= i * 65025,
            decreases FEATURE_DESCRIPTION_LENGTH - i,
        {
            let x = self.data[i] as i32;
            let y = other.data[i] as i32;
            let d = x - y;
            proof {
                assert((x - y) * (x - y) <= 65025) by (nonlinear_arith)
                    requires
                        -255 <= x - y <= 255,
                ;
                assert((x - y) * (x - y) >= 0) by (nonlinear_arith);
            }
            sum = sum + (d * d) as u32;
            i = i + 1;
        }
        sum
    }

    /// A descriptor with every byte drawn uniformly at random.
    pub fn random() -> (r: FeatureDescription)
        ensures
            r@.len() == FEATURE_DESCRIPTION_LENGTH,
    {
        let mut data: [u8; 32] = [0; 32];
        let mut i: usize = 0;
        while i < FEATURE_DESCRIPTION_LENGTH
            invariant
                0 <= i <= FEATURE_DESCRIPTION_LENGTH,
            decreases FEATURE_DESCRIPTION_LENGTH - i,
        {
            data[i] = rand::random::<u8>();
            i = i + 1;
        }
        FeatureDescription { data }
    }

    /// An "edge" descriptor: every byte independently either 0 or 255. Such
    /// vantage points empirically yield better splits than interior points.
    pub fn random_edge() -> (r: FeatureDescription)
        ensures
            r@.len() == FEATURE_DESCRIPTION_LENGTH,
            forall|i: int| 0 <= i < r@.len() ==> r@[i] == 0 || r@[i] == 255,
    {
        let mut data: [u8; 32] = [0; 32];
        let mut i: usize = 0;
        while i < FEATURE_DESCRIPTION_LENGTH
            invariant
                0 <= i <= FEATURE_DESCRIPTION_LENGTH,
                data@.len() == FEATURE_DESCRIPTION_LENGTH,
                forall|j: int| 0 <= j < i ==> data@[j] == 0 || data@[j] == 255,
            decreases FEATURE_DESCRIPTION_LENGTH - i,
        {
            data[i] = if rand::random::<bool>() { 255 } else { 0 };
            i = i + 1;
        }
        FeatureDescription { data }
    }

    /// An edge descriptor whose bytes are drawn from an injected seedable
    /// source, so that splits are reproducible in tests.
    pub fn random_edge_from(rng: &mut rand_chacha::ChaCha8Rng) -> (r: FeatureDescription)
        ensures
            r@.len() == FEATURE_DESCRIPTION_LENGTH,
            forall|i: int| 0 <= i < r@.len() ==> r@[i] == 0 || r@[i] == 255,
    {
        let mut data: [u8; 32] = [0; 32];
        let mut i: usize = 0;
        while i < FEATURE_DESCRIPTION_LENGTH
            invariant
                0 <= i <= FEATURE_DESCRIPTION_LENGTH,
                data@.len() == FEATURE_DESCRIPTION_LENGTH,
                forall|j: int| 0 <= j < i ==> data@[j] == 0 || data@[j] == 255,
            decreases FEATURE_DESCRIPTION_LENGTH - i,
        {
            let bit = chacha8_next_u32(rng) & 1;
            data[i] = if bit == 1 { 255 } else { 0 };
            i = i + 1;
        }
        FeatureDescription { data }
    }

    /// A reproducible stream of descriptors from a 64-bit seed.
    pub fn seeded_random(seed: u64) -> (r: SeededDescriptionSource) {
        SeededDescriptionSource { rng: chacha8_from_seed(seed) }
    }

    /// The descriptor's bytes in wire order.
    pub fn to_binary(&self) -> (r: Vec<u8>)
        ensures
            r@ == self@,
    {
        let mut result: Vec<u8> = Vec::new();
        let mut i: usize = 0;
        while i < FEATURE_DESCRIPTION_LENGTH
            invariant
                0 <= i <= FEATURE_DESCRIPTION_LENGTH,
                result@ == self@.subrange(0, i as int),
            decreases FEATURE_DESCRIPTION_LENGTH - i,
        {
            result.push(self.data[i]);
            proof {
                assert(result@ =~= self@.subrange(0, i + 1));
            }
            i = i + 1;
        }
        proof {
            assert(result@ =~= self@);
        }
        result
    }

    /// Reads a descriptor back from the first 32 bytes of a wire block.
    pub fn from_binary(binary: &[u8]) -> (r: FeatureDescription)
        requires
            binary@.len() >= FEATURE_DESCRIPTION_LENGTH,
        ensures
            r@ == binary@.subrange(0, FEATURE_DESCRIPTION_LENGTH as int),
    {
        let mut data: [u8; 32] = [0; 32];
        let mut i: usize = 0;
        while i < FEATURE_DESCRIPTION_LENGTH
            invariant
                0 <= i <= FEATURE_DESCRIPTION_LENGTH,
                binary@.len() >= FEATURE_DESCRIPTION_LENGTH,
                data@.len() == FEATURE_DESCRIPTION_LENGTH,
                forall|j: int| 0 <= j < i ==> data@[j] == binary@[j],
            decreases FEATURE_DESCRIPTION_LENGTH - i,
        {
            data[i] = binary[i];
            i = i + 1;
        }
        proof {
            assert(data@ =~= binary@.subrange(0, FEATURE_DESCRIPTION_LENGTH as int));
        }
        FeatureDescription { data }
    }
}

/// A reproducible stream of random descriptors: the same seed always yields
/// the same sequence of descriptors within one build of the library.
pub struct SeededDescriptionSource {
    pub rng: rand_chacha::ChaCha8Rng,
}

impl SeededDescriptionSource {
    /// The next descriptor of the stream.
    pub fn next_description(&mut self) -> (r: FeatureDescription)
        ensures
            r@.len() == FEATURE_DESCRIPTION_LENGTH,
    {
        let mut data: [u8; 32] = [0; 32];
        let mut i: usize = 0;
        while i < FEATURE_DESCRIPTION_LENGTH
            invariant
                0 <= i <= FEATURE_DESCRIPTION_LENGTH,
            decreases FEATURE_DESCRIPTION_LENGTH - i,
        {
            data[i] = (chacha8_next_u32(&mut self.rng) & 255) as u8;
            i = i + 1;
        }
        FeatureDescription { data }
    }
}

} // verus!
