//! Interval-rewrite pipeline.
//!
//! An `Interval` is a half-open range of non-negative integers
//! `[start, start + length)` with `length >= 1`. A `Rule` maps every value of
//! its source interval by a fixed offset to a destination range. A `Table` is
//! a set of rules with pairwise disjoint sources; values outside every source
//! map to themselves. Applying a table to a collection of intervals splits
//! each interval along rule boundaries, so the image of arbitrarily large
//! ranges is computed without visiting individual values.

use vstd::prelude::*;

verus! {

/// A half-open range `[start, start + length)` of `usize` values.
///
/// Well-formed intervals are nonempty and their end fits in `usize`.
#[derive(Clone, Copy, Debug, PartialEq, Eq, Structural)]
pub struct Interval {
    pub start: usize,
    pub length: usize,
}

impl Interval {
    /// A well-formed interval: nonempty, with an end that does not overflow.
    pub open spec fn valid(self) -> bool {
        1 <= self.length && self.start + self.length <= usize::MAX
    }

    /// One past the last value of the interval.
    pub open spec fn end(self) -> int {
        self.start + self.length
    }

    /// Whether `v` lies inside the interval.
    pub open spec fn contains(self, v: int) -> bool {
        self.start <= v < self.end()
    }

    /// Constructs `[start, start + length)`, rejecting empty or overflowing
    /// ranges.
    pub fn new(start: usize, length: usize) -> (r: Result<Interval, RewriteError>)
        ensures
            r is Ok <==> (1 <= length && start + length <= usize::MAX),
            r matches Ok(i) ==> i == (Interval { start, length }) && i.valid(),
            r is Err ==> r == Err::<Interval, RewriteError>(RewriteError::InvalidInterval),
    {
        if length >= 1 && start <= usize::MAX - length {
            Ok(Interval { start, length })
        } else {
            Err(RewriteError::InvalidInterval)
        }
    }
}

/// Rejected input: an empty interval, or a table whose rule sources overlap.
#[derive(Clone, Copy, Debug, PartialEq, Eq, Structural)]
pub enum RewriteError {
    InvalidInterval,
    OverlappingRules,
}

/// Whether every interval of `s` is well-formed.
pub open spec fn all_valid(s: Seq<Interval>) -> bool {
    forall|j: int| 0 <= j < s.len() ==> (#[trigger] s[j]).valid()
}

/// The total number of values covered by the intervals of `s`, with
/// multiplicity.
pub open spec fn sum_lens(s: Seq<Interval>) -> int
    decreases s.len(),
{
    if s.len() == 0 {
        0
    } else {
        sum_lens(s.drop_last()) + s.last().length
    }
}

/// Whether some interval of `s` contains `v`.
pub open spec fn covers_value(s: Seq<Interval>, v: int) -> bool {
    exists|j: int| 0 <= j < s.len() && (#[trigger] s[j]).contains(v)
}

/// The length of the interval held by `o`, or zero.
pub open spec fn opt_len(o: Option<Interval>) -> int {
    match o {
        Some(m) => m.length as int,
        None => 0,
    }
}

proof fn lemma_sum_lens_empty()
    ensures
        sum_lens(Seq::<Interval>::empty()) == 0,
{
}

proof fn lemma_sum_lens_singleton(x: Interval)
    ensures
        sum_lens(seq![x]) == x.length,
{
    assert(seq![x].drop_last() =~= Seq::<Interval>::empty());
    lemma_sum_lens_empty();
}

proof fn lemma_sum_lens_pair(x: Interval, y: Interval)
    ensures
        sum_lens(seq![x, y]) == x.length + y.length,
{
    assert(seq![x, y].drop_last() =~= seq![x]);
    lemma_sum_lens_singleton(x);
}

proof fn lemma_sum_lens_push(s: Seq<Interval>, x: Interval)
    ensures
        sum_lens(s.push(x)) == sum_lens(s) + x.length,
{
    assert(s.push(x).drop_last() =~= s);
}

proof fn lemma_sum_lens_append(a: Seq<Interval>, b: Seq<Interval>)
    ensures
        sum_lens(a + b) == sum_lens(a) + sum_lens(b),
    decreases b.len(),
{
    if b.len() == 0 {
        assert(a + b =~= a);
    } else {
        lemma_sum_lens_append(a, b.drop_last());
        assert((a + b).drop_last() =~= a + b.drop_last());
    }
}

proof fn lemma_sum_lens_lower_bound(s: Seq<Interval>)
    requires
        all_valid(s),
    ensures
        sum_lens(s) >= s.len(),
    decreases s.len(),
{
    if s.len() > 0 {
        assert(all_valid(s.drop_last())) by {
            assert(forall|j: int|
                0 <= j < s.drop_last().len() ==> #[trigger] s.drop_last()[j] == s[j]);
        }
        lemma_sum_lens_lower_bound(s.drop_last());
    }
}

proof fn lemma_covers_value_push(s: Seq<Interval>, x: Interval, v: int)
    requires
        covers_value(s, v),
    ensures
        covers_value(s.push(x), v),
{
    let j = choose|j: int| 0 <= j < s.len() && (#[trigger] s[j]).contains(v);
    assert(s.push(x)[j].contains(v));
}

proof fn lemma_covers_value_append(a: Seq<Interval>, b: Seq<Interval>, v: int)
    requires
        covers_value(a, v) || covers_value(b, v),
    ensures
        covers_value(a + b, v),
{
    if covers_value(a, v) {
        let j = choose|j: int| 0 <= j < a.len() && (#[trigger] a[j]).contains(v);
        assert((a + b)[j].contains(v));
    } else {
        let j = choose|j: int| 0 <= j < b.len() && (#[trigger] b[j]).contains(v);
        assert((a + b)[a.len() + j].contains(v));
    }
}

proof fn lemma_covers_value_split(a: Seq<Interval>, b: Seq<Interval>, v: int)
    requires
        covers_value(a + b, v),
    ensures
        covers_value(a, v) || covers_value(b, v),
{
    let j = choose|j: int| 0 <= j < (a + b).len() && (#[trigger] (a + b)[j]).contains(v);
    if j < a.len() {
        assert(a[j].contains(v));
    } else {
        assert(b[j - a.len()].contains(v));
    }
}

/// One source-to-destination substitution: every value `v` of `source` maps
/// to `destination_start + (v - source.start)`.
#[derive(Clone, Copy, Debug, PartialEq, Eq, Structural)]
pub struct Rule {
    pub source: Interval,
    pub destination_start: usize,
}

impl Rule {
    /// A well-formed rule: a well-formed source whose translated image also
    /// fits in `usize`.
    pub open spec fn valid(self) -> bool {
        self.source.valid() && self.destination_start + self.source.length <= usize::MAX
    }

    /// Where the rule sends a value of its source interval.
    pub open spec fn map_value(self, v: int) -> int {
        self.destination_start + (v - self.source.start)
    }

    /// Maps `x` if it lies in the source interval, and refuses it otherwise.
    pub fn convert(&self, x: usize) -> (r: Option<usize>)
        requires
            self.valid(),
        ensures
            r is Some <==> self.source.contains(x as int),
            (r matches Some(y) ==> y == self.map_value(x as int)),
    {
        if x < self.source.start || x - self.source.start >= self.source.length {
            None
        } else {
            Some(self.destination_start + (x - self.source.start))
        }
    }

    /// Splits `r` against this rule's source interval.
    ///
    /// The mapped part is the translated overlap, when the two intervals
    /// overlap at all; the unmapped parts are the sub-ranges of `r` strictly
    /// before and strictly after the source interval. Together they cover
    /// every value of `r` exactly once: nothing is duplicated or dropped.
    pub fn convert_range(&self, r: &Interval) -> (out: (Vec<Interval>, Option<Interval>))
        requires
            self.valid(),
            r.valid(),
        ensures
            out.0@.len() <= 2,
            all_valid(out.0@),
            (out.1 matches Some(m) ==> m.valid()),
            sum_lens(out.0@) + opt_len(out.1) == r.length,
            out.1 is None <==> (self.source.start >= r.end() || r.start >= self.source.end()),
            out.1 is None ==> out.0@ == seq![*r],
            forall|v: int| covers_value(out.0@, v) <==> (r.contains(v)
                && !self.source.contains(v)),
            (out.1 matches Some(m) ==> {
                let lo = if r.start >= self.source.start { r.start as int } else { self.source.start as int };
                let hi = if r.end() <= self.source.end() { r.end() } else { self.source.end() };
                m.start == lo - self.source.start + self.destination_start
                    && m.length == hi - lo
            }),
    {
        let src_a: usize = self.source.start;
        let src_b: usize = self.source.start + self.source.length;
        let r_a: usize = r.start;
        let r_b: usize = r.start + r.length;

        if src_a >= r_b || r_a >= src_b {
            let mut unmapped: Vec<Interval> = Vec::new();
            unmapped.push(*r);
            proof {
                assert(unmapped@ =~= seq![*r]);
                lemma_sum_lens_singleton(*r);
                assert forall|v: int| covers_value(unmapped@, v) <==> (r.contains(v)
                    && !self.source.contains(v)) by {
                    if r.contains(v) && !self.source.contains(v) {
                        assert(unmapped@[0].contains(v));
                    }
                }
            }
            (unmapped, None)
        } else {
            let mut unmapped: Vec<Interval> = Vec::new();
            if r_a < src_a {
                unmapped.push(Interval { start: r_a, length: src_a - r_a });
            }
            if r_b > src_b {
                unmapped.push(Interval { start: src_b, length: r_b - src_b });
            }
            let a: usize = if r_a > src_a { r_a } else { src_a };
            let b: usize = if r_b < src_b { r_b } else { src_b };
            let mapped = Interval { start: a - src_a + self.destination_start, length: b - a };
            proof {
                if r_a < src_a && r_b > src_b {
                    let left = Interval { start: r_a, length: (src_a - r_a) as usize };
                    let right = Interval { start: src_b, length: (r_b - src_b) as usize };
                    assert(unmapped@ =~= seq![left, right]);
                    lemma_sum_lens_pair(left, right);
                } else if r_a < src_a {
                    let left = Interval { start: r_a, length: (src_a - r_a) as usize };
                    assert(unmapped@ =~= seq![left]);
                    lemma_sum_lens_singleton(left);
                } else if r_b > src_b {
                    let right = Interval { start: src_b, length: (r_b - src_b) as usize };
                    assert(unmapped@ =~= seq![right]);
                    lemma_sum_lens_singleton(right);
                } else {
                    assert(unmapped@ =~= Seq::<Interval>::empty());
                    lemma_sum_lens_empty();
                }
                assert forall|v: int| covers_value(unmapped@, v) <==> (r.contains(v)
                    && !self.source.contains(v)) by {
                    if r.contains(v) && !self.source.contains(v) {
                        if v < src_a {
                            assert(unmapped@[0].contains(v));
                        } else {
                            assert(unmapped@[unmapped@.len() - 1].contains(v));
                        }
                    }
                }
            }
            (unmapped, Some(mapped))
        }
    }

    /// Whether the rule's source interval and `iv` share no value.
    pub open spec fn away_from(self, iv: Interval) -> bool {
        self.source.end() <= iv.start || iv.end() <= self.source.start
    }

    /// Runs `convert_range` over every interval of `items`, pushing the
    /// mapped parts onto `processed` and returning the unmapped parts.
    fn split_all(&self, items: &Vec<Interval>, processed: &mut Vec<Interval>) -> (rest: Vec<
        Interval,
    >)
        requires
            self.valid(),
            all_valid(items@),
            all_valid(old(processed)@),
        ensures
            all_valid(rest@),
            all_valid(final(processed)@),
            sum_lens(final(processed)@) + sum_lens(rest@) == sum_lens(old(processed)@) + sum_lens(
                items@,
            ),
            forall|v: int|
                #[trigger] covers_value(rest@, v) ==> covers_value(items@, v)
                    && !self.source.contains(v),
            forall|w: int|
                #[trigger] covers_value(final(processed)@, w) ==> covers_value(old(processed)@, w)
                    || (exists|v: int|
                    covers_value(items@, v) && self.source.contains(v) && w == #[trigger] self.map_value(
                        v,
                    )),
            forall|w: int|
                #[trigger] covers_value(old(processed)@, w) ==> covers_value(final(processed)@, w),
            forall|v: int|
                #[trigger] covers_value(items@, v) ==> (self.source.contains(v) && covers_value(
                    final(processed)@,
                    self.map_value(v),
                )) || (!self.source.contains(v) && covers_value(rest@, v)),
            forall|k: int|
                0 <= k < items@.len() && self.away_from(#[trigger] items@[k]) ==> rest@.contains(
                    items@[k],
                ),
    {
        let ghost proc0 = old(processed)@;
        let mut rest: Vec<Interval> = Vec::new();
        let n: usize = items.len();
        let mut k: usize = 0;
        proof {
            assert(items@.take(0) =~= Seq::<Interval>::empty());
        }
        while k < n
            invariant
                self.valid(),
                all_valid(items@),
                n == items@.len(),
                0 <= k <= n,
                all_valid(rest@),
                all_valid(processed@),
                sum_lens(processed@) + sum_lens(rest@) == sum_lens(proc0) + sum_lens(
                    items@.take(k as int),
                ),
                forall|v: int|
                    #[trigger] covers_value(rest@, v) ==> covers_value(items@, v)
                        && !self.source.contains(v),
                forall|w: int|
                    #[trigger] covers_value(processed@, w) ==> covers_value(proc0, w) || (
                    exists|v: int|
                        covers_value(items@, v) && self.source.contains(v) && w
                            == #[trigger] self.map_value(v)),
                forall|w: int| #[trigger] covers_value(proc0, w) ==> covers_value(processed@, w),
                forall|j: int, v: int|
                    0 <= j < k && #[trigger] items@[j].contains(v) ==> (self.source.contains(v)
                        && covers_value(processed@, self.map_value(v))) || (!self.source.contains(v)
                        && covers_value(rest@, v)),
                forall|j: int|
                    0 <= j < k && self.away_from(#[trigger] items@[j]) ==> rest@.contains(
                        items@[j],
                    ),
            decreases n - k,
        {
            let item = items[k];
            assert(items@[k as int].valid());
            let ghost proc_before = processed@;
            let ghost rest_before = rest@;
            let (mut unmapped, mapped) = self.convert_range(&item);
            let ghost um = unmapped@;
            if let Some(m) = mapped {
                processed.push(m);
                proof {
                    lemma_sum_lens_push(proc_before, m);
                    assert forall|w: int| #[trigger] covers_value(proc_before, w) implies
                        covers_value(processed@, w) by {
                        lemma_covers_value_push(proc_before, m, w);
                    }
                    // every value of the pushed interval is the image of a
                    // value of `item` under this rule
                    assert forall|w: int| m.contains(w) implies (exists|v: int|
                        covers_value(items@, v) && self.source.contains(v) && w
                            == #[trigger] self.map_value(v)) by {
                        let lo = if item.start >= self.source.start {
                            item.start as int
                        } else {
                            self.source.start as int
                        };
                        let v = w - self.destination_start + self.source.start;
                        assert(item.contains(v));
                        assert(covers_value(items@, v)) by {
                            assert(items@[k as int].contains(v));
                        }
                        assert(self.source.contains(v));
                        assert(self.map_value(v) == w);
                    }
                    assert forall|w: int| #[trigger] covers_value(processed@, w) implies
                        covers_value(proc_before, w) || m.contains(w) by {
                        let j = choose|j: int|
                            0 <= j < processed@.len() && (#[trigger] processed@[j]).contains(w);
                        if j < proc_before.len() {
                            assert(proc_before[j].contains(w));
                        }
                    }
                }
            }
            let ghost rest_mid = rest@;
            rest.append(&mut unmapped);
            proof {
                assert(rest@ == rest_mid + um);
                lemma_sum_lens_append(rest_mid, um);
                assert(items@.take(k + 1).drop_last() =~= items@.take(k as int));
                assert(items@.take(k + 1).last() == items@[k as int]);
                assert forall|j: int|
                    0 <= j < rest@.len() implies (#[trigger] rest@[j]).valid() by {
                    if j < rest_mid.len() {
                        assert(rest_mid[j].valid());
                    } else {
                        assert(um[j - rest_mid.len()].valid());
                    }
                }
                assert forall|v: int| #[trigger] covers_value(rest_mid, v) implies
                    covers_value(rest@, v) by {
                    lemma_covers_value_append(rest_mid, um, v);
                }
                assert forall|v: int| #[trigger] covers_value(rest@, v) implies
                    covers_value(rest_mid, v) || covers_value(um, v) by {
                    lemma_covers_value_split(rest_mid, um, v);
                }
                assert forall|v: int| covers_value(um, v) implies covers_value(items@, v) by {
                    assert(item.contains(v));
                    assert(items@[k as int].contains(v));
                }
                // the item just handled lands where the invariant wants it
                assert forall|v: int| items@[k as int].contains(v) implies (
                    self.source.contains(v) && covers_value(processed@, self.map_value(v))) || (
                    !self.source.contains(v) && covers_value(rest@, v)) by {
                    if self.source.contains(v) {
                        assert(mapped is Some);
                        let m = mapped->Some_0;
                        assert(m.contains(self.map_value(v)));
                        assert(covers_value(processed@, self.map_value(v))) by {
                            assert(processed@[processed@.len() - 1].contains(self.map_value(v)));
                        }
                    } else {
                        assert(covers_value(um, v));
                        lemma_covers_value_append(rest_mid, um, v);
                    }
                }
                if self.away_from(items@[k as int]) {
                    assert(um == seq![item]);
                    assert(rest@[rest_mid.len() as int] == item);
                    assert(rest@.contains(items@[k as int]));
                }
                assert forall|j: int|
                    0 <= j < k + 1 && self.away_from(#[trigger] items@[j]) implies rest@.contains(
                        items@[j],
                    ) by {
                    if j < k {
                        let idx = choose|idx: int|
                            0 <= idx < rest_mid.len() && rest_mid[idx] == items@[j];
                        assert(rest@[idx] == items@[j]);
                    }
                }
            }
            k = k + 1;
        }
        proof {
            assert(items@.take(n as int) =~= items@);
            assert forall|v: int| #[trigger] covers_value(items@, v) implies (
                self.source.contains(v) && covers_value(processed@, self.map_value(v))) || (
                !self.source.contains(v) && covers_value(rest@, v)) by {
                let j = choose|j: int|
                    0 <= j < items@.len() && (#[trigger] items@[j]).contains(v);
            }
        }
        rest
    }
}

/// One conversion stage: a collection of rules with pairwise disjoint source
/// intervals. Values outside every source interval map to themselves.
#[derive(Debug)]
pub struct Table {
    pub rules: Vec<Rule>,
}

impl Table {
    /// Every rule of the table is well-formed.
    pub open spec fn rules_valid(self) -> bool {
        forall|i: int| 0 <= i < self.rules@.len() ==> (#[trigger] self.rules@[i]).valid()
    }

    /// The source intervals of distinct rules do not overlap.
    pub open spec fn disjoint_sources(self) -> bool {
        forall|i: int, j: int|
            0 <= i < self.rules@.len() && 0 <= j < self.rules@.len() && i != j
                ==> #[trigger] self.rules@[i].source.end() <= #[trigger] self.rules@[j].source.start
                    || self.rules@[j].source.end() <= self.rules@[i].source.start
    }

    /// A well-formed table, as `new` establishes it.
    pub open spec fn valid(self) -> bool {
        self.rules_valid() && self.disjoint_sources()
    }

    /// Whether some rule's source interval contains `v`.
    pub open spec fn covers(self, v: int) -> bool {
        exists|i: int| 0 <= i < self.rules@.len()
            && (#[trigger] self.rules@[i]).source.contains(v)
    }

    /// The table's per-value function: the unique covering rule's mapping,
    /// or `v` itself when no rule covers `v`.
    pub open spec fn apply_spec(self, v: int) -> int {
        if self.covers(v) {
            let i = choose|i: int| 0 <= i < self.rules@.len()
                && (#[trigger] self.rules@[i]).source.contains(v);
            self.rules@[i].map_value(v)
        } else {
            v
        }
    }

    /// Builds a table, rejecting malformed rules and overlapping sources.
    ///
    /// A malformed rule is reported before an overlap is.
    pub fn new(rules: Vec<Rule>) -> (r: Result<Table, RewriteError>)
        ensures
            (r matches Ok(t) ==> t.rules@ == rules@ && t.valid()),
            r is Err <==> !(Table { rules: rules }).valid(),
            (r matches Err(e) ==> (e == RewriteError::InvalidInterval
                <==> !(Table { rules: rules }).rules_valid())),
            (r matches Err(e) ==> (e == RewriteError::OverlappingRules
                <==> ((Table { rules: rules }).rules_valid()
                    && !(Table { rules: rules }).disjoint_sources()))),
    {
        let ghost gt = Table { rules: rules };
        let n: usize = rules.len();
        let mut i: usize = 0;
        while i < n
            invariant
                n == rules@.len(),
                gt == (Table { rules: rules }),
                0 <= i <= n,
                forall|k: int| 0 <= k < i ==> (#[trigger] rules@[k]).valid(),
            decreases n - i,
        {
            let rl = rules[i];
            if rl.source.length < 1
                || rl.source.start > usize::MAX - rl.source.length
                || rl.destination_start > usize::MAX - rl.source.length
            {
                assert(!gt.rules@[i as int].valid());
                assert(!gt.rules_valid());
                return Err(RewriteError::InvalidInterval);
            }
            i = i + 1;
        }
        assert(gt.rules_valid());
        let mut i: usize = 0;
        while i < n
            invariant
                n == rules@.len(),
                gt == (Table { rules: rules }),
                gt.rules_valid(),
                0 <= i <= n,
                forall|a: int, b: int|
                    0 <= a < i && 0 <= b < rules@.len() && a != b
                        ==> #[trigger] rules@[a].source.end() <= #[trigger] rules@[b].source.start
                            || rules@[b].source.end() <= rules@[a].source.start,
            decreases n - i,
        {
            let mut j: usize = i + 1;
            while j < n
                invariant
                    n == rules@.len(),
                    gt == (Table { rules: rules }),
                    gt.rules_valid(),
                    0 <= i < n,
                    i < j <= n,
                    forall|b: int|
                        i < b < j
                            ==> #[trigger] rules@[i as int].source.end() <= rules@[b].source.start
                                || rules@[b].source.end() <= rules@[i as int].source.start,
                decreases n - j,
            {
                let ra = rules[i];
                let rb = rules[j];
                assert(gt.rules@[i as int].valid());
                assert(gt.rules@[j as int].valid());
                let a_end: usize = ra.source.start + ra.source.length;
                let b_end: usize = rb.source.start + rb.source.length;
                if !(a_end <= rb.source.start || b_end <= ra.source.start) {
                    assert(!(gt.rules@[i as int].source.end() <= gt.rules@[j as int].source.start
                        || gt.rules@[j as int].source.end() <= gt.rules@[i as int].source.start));
                    assert(!gt.disjoint_sources());
                    return Err(RewriteError::OverlappingRules);
                }
                j = j + 1;
            }
            i = i + 1;
        }
        assert(gt.disjoint_sources());
        Ok(Table { rules: rules })
    }

    /// With disjoint sources, any rule that covers `v` decides `apply_spec`.
    pub proof fn lemma_apply_rule(self, i: int, v: int)
        requires
            self.valid(),
            0 <= i < self.rules@.len(),
            self.rules@[i].source.contains(v),
        ensures
            self.covers(v),
            self.apply_spec(v) == self.rules@[i].map_value(v),
    {
        assert(self.covers(v));
        let j = choose|j: int| 0 <= j < self.rules@.len()
            && (#[trigger] self.rules@[j]).source.contains(v);
        if i != j {
            assert(self.rules@[i].source.end() <= self.rules@[j].source.start
                || self.rules@[j].source.end() <= self.rules@[i].source.start);
            assert(false);
        }
    }

    /// Whether some of the first `k` rules' source intervals contains `v`.
    pub open spec fn covered_by_prefix(self, v: int, k: int) -> bool {
        exists|r: int| 0 <= r < k && (#[trigger] self.rules@[r]).source.contains(v)
    }

    /// Whether `iv` lies entirely outside every rule's source interval.
    pub open spec fn away_from_sources(self, iv: Interval) -> bool {
        forall|i: int| 0 <= i < self.rules@.len() ==> (#[trigger] self.rules@[i]).away_from(iv)
    }

    /// Applies the table's per-value function to a single value.
    pub fn apply_value(&self, x: usize) -> (r: usize)
        requires
            self.valid(),
        ensures
            r == self.apply_spec(x as int),
    {
        let n: usize = self.rules.len();
        let mut i: usize = 0;
        while i < n
            invariant
                self.valid(),
                n == self.rules@.len(),
                0 <= i <= n,
                forall|k: int| 0 <= k < i ==> !(#[trigger] self.rules@[k]).source.contains(x as int),
            decreases n - i,
        {
            if let Some(y) = self.rules[i].convert(x) {
                proof {
                    self.lemma_apply_rule(i as int, x as int);
                }
                return y;
            }
            i = i + 1;
        }
        assert(!self.covers(x as int));
        x
    }

    /// Rewrites a collection of intervals through the table.
    ///
    /// The output covers, with multiplicity, exactly the images of the input
    /// values under the table's per-value function: total covered length is
    /// conserved, an interval outside every source range passes through
    /// unchanged, an empty table returns its input as it is, and a
    /// single-value input comes back as the single mapped value.
    pub fn rewrite_table(&self, intervals: &Vec<Interval>) -> (out: Vec<Interval>)
        requires
            self.valid(),
            all_valid(intervals@),
        ensures
            all_valid(out@),
            sum_lens(out@) == sum_lens(intervals@),
            forall|w: int|
                #[trigger] covers_value(out@, w) <==> (exists|v: int|
                    covers_value(intervals@, v) && #[trigger] self.apply_spec(v) == w),
            forall|k: int|
                0 <= k < intervals@.len() && self.away_from_sources(#[trigger] intervals@[k])
                    ==> out@.contains(intervals@[k]),
            self.rules@.len() == 0 ==> out@ == intervals@,
            (intervals@.len() == 1 && intervals@[0].length == 1) ==> (out@.len() == 1
                && out@[0].length == 1 && out@[0].start == self.apply_spec(
                intervals@[0].start as int,
            )),
    {
        let ghost input = intervals@;
        let mut processed: Vec<Interval> = Vec::new();
        let mut unprocessed: Vec<Interval> = Vec::new();
        let mut c: usize = 0;
        proof {
            assert(input.take(0) =~= Seq::<Interval>::empty());
        }
        while c < intervals.len()
            invariant
                0 <= c <= input.len(),
                input == intervals@,
                unprocessed@ == input.take(c as int),
            decreases input.len() - c,
        {
            unprocessed.push(intervals[c]);
            proof {
                assert(input.take(c + 1) =~= input.take(c as int).push(input[c as int]));
            }
            c = c + 1;
        }
        proof {
            assert(unprocessed@ =~= input);
        }
        let nrules: usize = self.rules.len();
        let mut ri: usize = 0;
        while ri < nrules
            invariant
                self.valid(),
                all_valid(input),
                input == intervals@,
                nrules == self.rules@.len(),
                0 <= ri <= nrules,
                all_valid(processed@),
                all_valid(unprocessed@),
                sum_lens(processed@) + sum_lens(unprocessed@) == sum_lens(input),
                forall|v: int|
                    #[trigger] covers_value(unprocessed@, v) ==> covers_value(input, v)
                        && !self.covered_by_prefix(v, ri as int),
                forall|w: int|
                    #[trigger] covers_value(processed@, w) ==> (exists|v: int|
                        covers_value(input, v) && #[trigger] self.apply_spec(v) == w),
                forall|v: int|
                    #[trigger] covers_value(input, v) ==> covers_value(
                        processed@,
                        self.apply_spec(v),
                    ) || covers_value(unprocessed@, v),
                forall|k: int|
                    0 <= k < input.len() && self.away_from_sources(#[trigger] input[k])
                        ==> unprocessed@.contains(input[k]),
                nrules == 0 ==> processed@ == Seq::<Interval>::empty() && unprocessed@ == input,
            decreases nrules - ri,
        {
            let rule = self.rules[ri];
            assert(rule == self.rules@[ri as int] && rule.valid());
            let ghost proc_before = processed@;
            let ghost un_before = unprocessed@;
            let next = rule.split_all(&unprocessed, &mut processed);
            proof {
                // values of the remainder are uncovered by one more rule
                assert forall|v: int| #[trigger] covers_value(next@, v) implies covers_value(
                    input,
                    v,
                ) && !self.covered_by_prefix(v, ri + 1) by {
                    assert(covers_value(un_before, v));
                    if self.covered_by_prefix(v, ri + 1) {
                        let r = choose|r: int|
                            0 <= r < ri + 1 && (#[trigger] self.rules@[r]).source.contains(v);
                        if r < ri {
                            assert(self.covered_by_prefix(v, ri as int));
                        }
                        assert(false);
                    }
                }
                // newly mapped values are images of covered input values
                assert forall|w: int| #[trigger] covers_value(processed@, w) implies (
                exists|v: int| covers_value(input, v) && #[trigger] self.apply_spec(v) == w) by {
                    if !covers_value(proc_before, w) {
                        let v = choose|v: int|
                            covers_value(un_before, v) && rule.source.contains(v) && w
                                == #[trigger] rule.map_value(v);
                        self.lemma_apply_rule(ri as int, v);
                        assert(covers_value(input, v) && self.apply_spec(v) == w);
                    }
                }
                // every covered input value is still accounted for
                assert forall|v: int| #[trigger] covers_value(input, v) implies covers_value(
                    processed@,
                    self.apply_spec(v),
                ) || covers_value(next@, v) by {
                    if !covers_value(processed@, self.apply_spec(v)) {
                        assert(covers_value(un_before, v));
                        if rule.source.contains(v) {
                            self.lemma_apply_rule(ri as int, v);
                            assert(covers_value(processed@, rule.map_value(v)));
                            assert(false);
                        }
                    }
                }
                // untouched intervals survive into the remainder
                assert forall|k: int|
                    0 <= k < input.len() && self.away_from_sources(
                        #[trigger] input[k],
                    ) implies next@.contains(input[k]) by {
                    let j = choose|j: int| 0 <= j < un_before.len() && un_before[j] == input[k];
                    assert(rule.away_from(un_before[j]));
                    assert(next@.contains(un_before[j]));
                }
            }
            unprocessed = next;
            ri = ri + 1;
        }
        let ghost proc_fin = processed@;
        let ghost un_fin = unprocessed@;
        processed.append(&mut unprocessed);
        let out = processed;
        proof {
            assert(out@ == proc_fin + un_fin);
            lemma_sum_lens_append(proc_fin, un_fin);
            assert forall|j: int| 0 <= j < out@.len() implies (#[trigger] out@[j]).valid() by {
                if j < proc_fin.len() {
                    assert(proc_fin[j].valid());
                } else {
                    assert(un_fin[j - proc_fin.len()].valid());
                }
            }
            // values the table does not cover map to themselves
            assert forall|v: int| covers_value(un_fin, v) implies !self.covers(v)
                && self.apply_spec(v) == v by {
                if self.covers(v) {
                    let r = choose|r: int|
                        0 <= r < self.rules@.len()
                            && (#[trigger] self.rules@[r]).source.contains(v);
                    assert(self.covered_by_prefix(v, nrules as int));
                    assert(false);
                }
            }
            assert forall|w: int| #[trigger] covers_value(out@, w) implies (exists|v: int|
                covers_value(intervals@, v) && #[trigger] self.apply_spec(v) == w) by {
                lemma_covers_value_split(proc_fin, un_fin, w);
                if covers_value(un_fin, w) {
                    assert(covers_value(input, w) && self.apply_spec(w) == w);
                }
            }
            assert forall|w: int| (exists|v: int|
                covers_value(intervals@, v) && #[trigger] self.apply_spec(v) == w) implies
                covers_value(out@, w) by {
                let v = choose|v: int|
                    covers_value(intervals@, v) && #[trigger] self.apply_spec(v) == w;
                if covers_value(proc_fin, self.apply_spec(v)) {
                    lemma_covers_value_append(proc_fin, un_fin, w);
                } else {
                    assert(covers_value(un_fin, v));
                    assert(self.apply_spec(v) == v);
                    lemma_covers_value_append(proc_fin, un_fin, v);
                }
            }
            assert forall|k: int|
                0 <= k < intervals@.len() && self.away_from_sources(
                    #[trigger] intervals@[k],
                ) implies out@.contains(intervals@[k]) by {
                let j = choose|j: int| 0 <= j < un_fin.len() && un_fin[j] == input[k];
                assert(out@[proc_fin.len() + j] == input[k]);
            }
            if nrules == 0 {
                assert(out@ =~= intervals@);
            }
            if input.len() == 1 && input[0].length == 1 {
                let v0 = input[0].start as int;
                assert(covers_value(input, v0)) by {
                    assert(input[0].contains(v0));
                }
                assert(covers_value(out@, self.apply_spec(v0)));
                assert forall|x: int| #[trigger] covers_value(input, x) implies x == v0 by {
                    let j = choose|j: int|
                        0 <= j < input.len() && (#[trigger] input[j]).contains(x);
                }
                assert(sum_lens(input) == input[0].length) by {
                    assert(input =~= seq![input[0]]);
                    lemma_sum_lens_singleton(input[0]);
                }
                lemma_sum_lens_lower_bound(out@);
                assert(out@.len() == 1);
                assert(sum_lens(out@) == out@[0].length) by {
                    assert(out@ =~= seq![out@[0]]);
                    lemma_sum_lens_singleton(out@[0]);
                }
                assert(out@[0].contains(self.apply_spec(v0))) by {
                    let j = choose|j: int|
                        0 <= j < out@.len() && (#[trigger] out@[j]).contains(self.apply_spec(v0));
                }
                assert(out@[0].start == self.apply_spec(v0));
            }
        }
        out
    }
}

/// Every table of the pipeline is well-formed.
pub open spec fn pipeline_valid(tables: Seq<Table>) -> bool {
    forall|i: int| 0 <= i < tables.len() ==> (#[trigger] tables[i]).valid()
}

/// The pipeline's per-value function: each table's function applied in
/// order, the first table first.
pub open spec fn pipeline_apply(tables: Seq<Table>, v: int) -> int
    decreases tables.len(),
{
    if tables.len() == 0 {
        v
    } else {
        tables.last().apply_spec(pipeline_apply(tables.drop_last(), v))
    }
}

/// Rewrites a collection of intervals through every table in order, the
/// output of one stage feeding the next.
///
/// The output covers exactly the images of the input values under the
/// composed per-value functions, without visiting individual values; total
/// covered length is conserved.
pub fn rewrite_pipeline(tables: &Vec<Table>, intervals: &Vec<Interval>) -> (out: Vec<Interval>)
    requires
        pipeline_valid(tables@),
        all_valid(intervals@),
    ensures
        all_valid(out@),
        sum_lens(out@) == sum_lens(intervals@),
        forall|w: int|
            #[trigger] covers_value(out@, w) <==> (exists|v: int|
                covers_value(intervals@, v) && #[trigger] pipeline_apply(tables@, v) == w),
        tables@.len() == 0 ==> out@ == intervals@,
        (intervals@.len() == 1 && intervals@[0].length == 1) ==> (out@.len() == 1
            && out@[0].length == 1 && out@[0].start == pipeline_apply(
            tables@,
            intervals@[0].start as int,
        )),
{
    let ghost input = intervals@;
    let mut cur: Vec<Interval> = Vec::new();
    let mut c: usize = 0;
    proof {
        assert(input.take(0) =~= Seq::<Interval>::empty());
    }
    while c < intervals.len()
        invariant
            0 <= c <= input.len(),
            input == intervals@,
            cur@ == input.take(c as int),
        decreases input.len() - c,
    {
        cur.push(intervals[c]);
        proof {
            assert(input.take(c + 1) =~= input.take(c as int).push(input[c as int]));
        }
        c = c + 1;
    }
    proof {
        assert(cur@ =~= input);
        assert(tables@.take(0) =~= Seq::<Table>::empty());
        assert forall|w: int| #[trigger] covers_value(cur@, w) <==> (exists|v: int|
            covers_value(input, v) && #[trigger] pipeline_apply(tables@.take(0), v) == w) by {
            if covers_value(cur@, w) {
                assert(covers_value(input, w) && pipeline_apply(tables@.take(0), w) == w);
            }
        }
    }
    let n: usize = tables.len();
    let mut t: usize = 0;
    while t < n
        invariant
            pipeline_valid(tables@),
            all_valid(input),
            input == intervals@,
            n == tables@.len(),
            0 <= t <= n,
            all_valid(cur@),
            sum_lens(cur@) == sum_lens(input),
            forall|w: int|
                #[trigger] covers_value(cur@, w) <==> (exists|v: int|
                    covers_value(input, v) && #[trigger] pipeline_apply(tables@.take(t as int), v)
                        == w),
            n == 0 ==> cur@ == input,
            (input.len() == 1 && input[0].length == 1) ==> (cur@.len() == 1 && cur@[0].length == 1
                && cur@[0].start == pipeline_apply(tables@.take(t as int), input[0].start as int)),
        decreases n - t,
    {
        let ghost prev = cur@;
        assert(tables@[t as int].valid());
        let next = tables[t].rewrite_table(&cur);
        proof {
            let stage = tables@[t as int];
            assert(tables@.take(t + 1).drop_last() =~= tables@.take(t as int));
            assert(tables@.take(t + 1).last() == stage);
            assert forall|v: int|
                #[trigger] pipeline_apply(tables@.take(t + 1), v) == stage.apply_spec(
                    pipeline_apply(tables@.take(t as int), v),
                ) by {}
            assert forall|w: int| #[trigger] covers_value(next@, w) implies (exists|v: int|
                covers_value(input, v) && #[trigger] pipeline_apply(tables@.take(t + 1), v)
                    == w) by {
                let u = choose|u: int|
                    covers_value(prev, u) && #[trigger] stage.apply_spec(u) == w;
                let v = choose|v: int|
                    covers_value(input, v) && #[trigger] pipeline_apply(tables@.take(t as int), v)
                        == u;
                assert(pipeline_apply(tables@.take(t + 1), v) == w);
            }
            assert forall|w: int| (exists|v: int|
                covers_value(input, v) && #[trigger] pipeline_apply(tables@.take(t + 1), v)
                    == w) implies covers_value(next@, w) by {
                let v = choose|v: int|
                    covers_value(input, v) && #[trigger] pipeline_apply(tables@.take(t + 1), v)
                        == w;
                let u = pipeline_apply(tables@.take(t as int), v);
                assert(covers_value(prev, u));
                assert(stage.apply_spec(u) == w);
            }
        }
        cur = next;
        t = t + 1;
    }
    proof {
        assert(tables@.take(n as int) =~= tables@);
    }
    cur
}

} // verus!
