//! Adding up a whole report.

use crate::order::Ordered;
use crate::partial::tallies;
use crate::sorted_map::{lemma_sum_by, lemma_sum_of_prefix, sum_by, total_of, SortedMap};
use crate::tally::{fits, Bucket, Tally};
use vstd::prelude::*;

verus! {

/// The counts in a report, for adding up.
pub open spec fn counts() -> spec_fn(Tally) -> int {
    |t: Tally| t.count
}

/// The bytes in a report, for adding up.
pub open spec fn byte_counts() -> spec_fn(Tally) -> int {
    |t: Tally| t.bytes
}

/// Every file in a report, and every byte.
pub open spec fn grand_total<Q>(m: Map<Q, Tally>) -> Tally {
    Tally { count: total_of(m, counts()), bytes: total_of(m, byte_counts()) }
}

spec fn bucket_counts() -> spec_fn(Bucket) -> int {
    |b: Bucket| b.count as int
}

spec fn bucket_bytes() -> spec_fn(Bucket) -> int {
    |b: Bucket| b.bytes as int
}

proof fn totals_of_buckets<K: Ordered>(map: SortedMap<K, Bucket>)
    requires
        map.well_formed(),
    ensures
        total_of(tallies(map.map()), counts()) == sum_by(map.pairs(), bucket_counts()),
        total_of(tallies(map.map()), byte_counts()) == sum_by(map.pairs(), bucket_bytes()),
{
    lemma_sum_by::<K, Bucket>(map.pairs(), bucket_counts());
    lemma_sum_by::<K, Bucket>(map.pairs(), bucket_bytes());
    let m = map.map();
    assert(tallies(m).map_values(counts()) =~= m.map_values(bucket_counts()));
    assert(tallies(m).map_values(byte_counts()) =~= m.map_values(bucket_bytes()));
}

/// How many files a report covers, if that fits a counter.
pub fn sum_counts<K: Ordered>(map: &SortedMap<K, Bucket>) -> (r: Option<u64>)
    requires
        map.well_formed(),
    ensures
        r is Some <==> fits(grand_total(tallies(map.map())).count),
        r matches Some(n) ==> n == grand_total(tallies(map.map())).count,
{
    let ghost pairs = map.pairs();
    let ghost f = bucket_counts();
    proof {
        totals_of_buckets(*map);
        assert(pairs.take(0) =~= Seq::empty());
    }
    let mut sum: u64 = 0;
    let mut i: usize = 0;
    while i < map.len()
        invariant
            pairs == map.pairs(),
            f == bucket_counts(),
            i <= pairs.len(),
            sum == sum_by(pairs.take(i as int), f),
            sum_by(pairs, f) == grand_total(tallies(map.map())).count,
        decreases pairs.len() - i,
    {
        proof {
            lemma_sum_of_prefix(pairs, f, i + 1);
            assert(pairs.take(i + 1).drop_last() =~= pairs.take(i as int));
        }
        match sum.checked_add(map.value_at(i).count) {
            Some(more) => {
                sum = more;
            },
            None => {
                return None;
            },
        }
        i = i + 1;
    }
    assert(pairs.take(i as int) =~= pairs);
    Some(sum)
}

/// How many bytes a report covers, if that fits a counter.
pub fn sum_bytes<K: Ordered>(map: &SortedMap<K, Bucket>) -> (r: Option<u64>)
    requires
        map.well_formed(),
    ensures
        r is Some <==> fits(grand_total(tallies(map.map())).bytes),
        r matches Some(n) ==> n == grand_total(tallies(map.map())).bytes,
{
    let ghost pairs = map.pairs();
    let ghost f = bucket_bytes();
    proof {
        totals_of_buckets(*map);
        assert(pairs.take(0) =~= Seq::empty());
    }
    let mut sum: u64 = 0;
    let mut i: usize = 0;
    while i < map.len()
        invariant
            pairs == map.pairs(),
            f == bucket_bytes(),
            i <= pairs.len(),
            sum == sum_by(pairs.take(i as int), f),
            sum_by(pairs, f) == grand_total(tallies(map.map())).bytes,
        decreases pairs.len() - i,
    {
        proof {
            lemma_sum_of_prefix(pairs, f, i + 1);
            assert(pairs.take(i + 1).drop_last() =~= pairs.take(i as int));
        }
        match sum.checked_add(map.value_at(i).bytes) {
            Some(more) => {
                sum = more;
            },
            None => {
                return None;
            },
        }
        i = i + 1;
    }
    assert(pairs.take(i as int) =~= pairs);
    Some(sum)
}

} // verus!
