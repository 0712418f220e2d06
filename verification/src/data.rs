//! The dataset generator: random unsigned integers drawn uniformly from
//! `[1, 1000)`, as many as the terminal is wide (minus a margin).

use vstd::prelude::*;
use vstd::seq_lib::group_to_multiset_ensures;
use rand::Rng;

verus! {

/// Every value of the sequence lies in `[1, 1000)`.
pub open spec fn in_range(s: Seq<u64>) -> bool {
    forall|k: int| 0 <= k < s.len() ==> 1 <= #[trigger] s[k] < 1000
}

/// Rearranging a sequence keeps every value inside `[1, 1000)`.
pub proof fn lemma_in_range_permutation(s1: Seq<u64>, s2: Seq<u64>)
    requires
        s1.to_multiset() == s2.to_multiset(),
        in_range(s1),
    ensures
        in_range(s2),
{
    broadcast use group_to_multiset_ensures;

    assert forall|k: int| 0 <= k < s2.len() implies 1 <= #[trigger] s2[k] < 1000 by {
        assert(s2.contains(s2[k]));
        assert(s2.to_multiset().count(s2[k]) > 0);
        assert(s1.to_multiset().count(s2[k]) > 0);
        assert(s1.contains(s2[k]));
        let k1 = choose|k1: int| 0 <= k1 < s1.len() && s1[k1] == s2[k];
        assert(1 <= s1[k1] < 1000);
    }
}

/// rand::rngs::ThreadRng, the handle to the thread-local random generator.
#[verifier::external_type_specification]
#[verifier::external_body]
pub struct ExThreadRng(rand::rngs::ThreadRng);

/// Relies on rand::thread_rng: returns a handle to the lazily seeded
/// thread-local random generator.
#[verifier::external_body]
fn fresh_rng() -> rand::rngs::ThreadRng {
    rand::thread_rng()
}

/// Relies on rand::Rng::gen_range: returns a value uniformly distributed
/// over the given range, here the non-empty range `[1, 1000)`.
#[verifier::external_body]
fn sample_value(rng: &mut rand::rngs::ThreadRng) -> (r: u64)
    ensures
        1 <= r < 1000,
{
    rng.gen_range(1..1000u64)
}

/// Produce `data_count` random values, each in `[1, 1000)`.
pub fn rand_data(data_count: u32) -> (r: Vec<u64>)
    ensures
        r@.len() == data_count,
        in_range(r@),
{
    let mut rng = fresh_rng();
    let mut random_slice: Vec<u64> = Vec::new();
    let mut made: u32 = 0;
    while made < data_count
        invariant
            made <= data_count,
            random_slice@.len() == made,
            in_range(random_slice@),
        decreases data_count - made,
    {
        let v = sample_value(&mut rng);
        random_slice.push(v);
        made = made + 1;
    }
    random_slice
}

/// A fresh dataset sized to a terminal `width` columns wide, leaving a
/// two-column margin for the chart borders.
pub fn init_data(width: u16) -> (r: Vec<u64>)
    requires
        width >= 2,
    ensures
        r@.len() == width - 2,
        in_range(r@),
{
    let data_count = width - 2;
    rand_data(data_count as u32)
}

} // verus!
