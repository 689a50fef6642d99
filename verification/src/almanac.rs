//! Seed-to-location queries over a conversion pipeline.
//!
//! A parsed almanac is a list of seed numbers and an ordered list of
//! conversion tables. The first answer is the least location reached by any
//! single seed; the second reads the seed numbers as `(start, length)` pairs
//! and finds the least location reached by any seed of those ranges.

use vstd::prelude::*;

use crate::range_map::Interval;
use crate::range_map::Table;
use crate::range_map::all_valid;
use crate::range_map::covers_value;
use crate::range_map::pipeline_apply;
use crate::range_map::pipeline_valid;
use crate::range_map::rewrite_pipeline;

verus! {

/// The interval described by the `i`-th pair of seed numbers.
pub open spec fn pair_interval(seeds: Seq<usize>, i: int) -> Interval {
    Interval { start: seeds[2 * i], length: seeds[2 * i + 1] }
}

/// Sends one value through every table in order.
pub fn seed_location(tables: &Vec<Table>, seed: usize) -> (r: usize)
    requires
        pipeline_valid(tables@),
    ensures
        r == pipeline_apply(tables@, seed as int),
{
    let n: usize = tables.len();
    let mut cur: usize = seed;
    let mut t: usize = 0;
    proof {
        assert(tables@.take(0) =~= Seq::<Table>::empty());
    }
    while t < n
        invariant
            pipeline_valid(tables@),
            n == tables@.len(),
            0 <= t <= n,
            cur == pipeline_apply(tables@.take(t as int), seed as int),
        decreases n - t,
    {
        assert(tables@[t as int].valid());
        cur = tables[t].apply_value(cur);
        proof {
            assert(tables@.take(t + 1).drop_last() =~= tables@.take(t as int));
            assert(tables@.take(t + 1).last() == tables@[t as int]);
        }
        t = t + 1;
    }
    proof {
        assert(tables@.take(n as int) =~= tables@);
    }
    cur
}

/// The least location that any single seed reaches.
pub fn first_star(seeds: &Vec<usize>, tables: &Vec<Table>) -> (r: usize)
    requires
        seeds@.len() >= 1,
        pipeline_valid(tables@),
    ensures
        exists|i: int|
            0 <= i < seeds@.len() && r == #[trigger] pipeline_apply(tables@, seeds@[i] as int),
        forall|i: int|
            0 <= i < seeds@.len() ==> r <= #[trigger] pipeline_apply(tables@, seeds@[i] as int),
{
    let mut best: usize = seed_location(tables, seeds[0]);
    let mut i: usize = 1;
    while i < seeds.len()
        invariant
            seeds@.len() >= 1,
            pipeline_valid(tables@),
            1 <= i <= seeds@.len(),
            exists|j: int|
                0 <= j < i && best == #[trigger] pipeline_apply(tables@, seeds@[j] as int),
            forall|j: int|
                0 <= j < i ==> best <= #[trigger] pipeline_apply(tables@, seeds@[j] as int),
        decreases seeds@.len() - i,
    {
        let loc = seed_location(tables, seeds[i]);
        if loc < best {
            best = loc;
        }
        i = i + 1;
    }
    best
}

/// The least location that any seed of the `(start, length)` ranges reaches.
pub fn second_star(seeds: &Vec<usize>, tables: &Vec<Table>) -> (r: usize)
    requires
        seeds@.len() >= 2,
        seeds@.len() % 2 == 0,
        forall|i: int|
            0 <= i < seeds@.len() / 2 ==> (#[trigger] pair_interval(seeds@, i)).valid(),
        pipeline_valid(tables@),
    ensures
        exists|i: int, v: int|
            0 <= i < seeds@.len() / 2 && #[trigger] pair_interval(seeds@, i).contains(v) && r
                == pipeline_apply(tables@, v),
        forall|i: int, v: int|
            0 <= i < seeds@.len() / 2 && #[trigger] pair_interval(seeds@, i).contains(v) ==> r
                <= pipeline_apply(tables@, v),
{
    let half: usize = seeds.len() / 2;
    let mut ranges: Vec<Interval> = Vec::new();
    let mut i: usize = 0;
    while i < half
        invariant
            seeds@.len() % 2 == 0,
            seeds@.len() <= usize::MAX,
            half == seeds@.len() / 2,
            forall|j: int|
                0 <= j < seeds@.len() / 2 ==> (#[trigger] pair_interval(seeds@, j)).valid(),
            0 <= i <= half,
            ranges@.len() == i,
            forall|j: int| 0 <= j < i ==> ranges@[j] == pair_interval(seeds@, j),
        decreases half - i,
    {
        assert(pair_interval(seeds@, i as int).valid());
        assert(seeds@.len() == 2 * (half as int));
        assert(2 * (i as int) + 1 < seeds@.len());
        let iv = Interval { start: seeds[2 * i], length: seeds[2 * i + 1] };
        ranges.push(iv);
        i = i + 1;
    }
    assert(all_valid(ranges@)) by {
        assert forall|j: int| 0 <= j < ranges@.len() implies (#[trigger] ranges@[j]).valid() by {
            assert(ranges@[j] == pair_interval(seeds@, j));
        }
    }
    let out = rewrite_pipeline(tables, &ranges);
    proof {
        // the image of every seed value appears in the rewritten ranges
        assert forall|j: int, v: int|
            0 <= j < seeds@.len() / 2 && #[trigger] pair_interval(seeds@, j).contains(v) implies covers_value(out@, pipeline_apply(tables@, v)) by {
            assert(ranges@[j].contains(v));
            assert(covers_value(ranges@, v));
        }
        let v0 = pair_interval(seeds@, 0).start as int;
        assert(pair_interval(seeds@, 0).contains(v0));
        assert(covers_value(out@, pipeline_apply(tables@, v0)));
        assert(out@.len() >= 1);
    }
    let mut best: usize = out[0].start;
    let mut k: usize = 1;
    while k < out.len()
        invariant
            1 <= k <= out@.len(),
            exists|j: int| 0 <= j < k && best == (#[trigger] out@[j]).start,
            forall|j: int| 0 <= j < k ==> best <= (#[trigger] out@[j]).start,
        decreases out@.len() - k,
    {
        if out[k].start < best {
            best = out[k].start;
        }
        k = k + 1;
    }
    proof {
        // the least output start is itself a reached location ...
        let j = choose|j: int| 0 <= j < out@.len() && best == (#[trigger] out@[j]).start;
        assert(out@[j].valid());
        assert(out@[j].contains(best as int));
        assert(covers_value(out@, best as int));
        let v = choose|v: int|
            covers_value(ranges@, v) && #[trigger] pipeline_apply(tables@, v) == best as int;
        let ji = choose|ji: int|
            0 <= ji < ranges@.len() && (#[trigger] ranges@[ji]).contains(v);
        assert(ranges@[ji] == pair_interval(seeds@, ji));
        // ... and no reached location is smaller
        assert forall|i2: int, v2: int|
            0 <= i2 < seeds@.len() / 2 && #[trigger] pair_interval(seeds@, i2).contains(v2) implies best <= pipeline_apply(tables@, v2) by {
            let w = pipeline_apply(tables@, v2);
            assert(covers_value(out@, w));
            let j2 = choose|j2: int| 0 <= j2 < out@.len() && (#[trigger] out@[j2]).contains(w);
            assert(best <= out@[j2].start);
        }
    }
    best
}

} // verus!
