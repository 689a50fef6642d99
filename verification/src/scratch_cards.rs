//! Scratch cards.
//!
//! A card lists winning numbers and drawn numbers; its win count is how many
//! of its winning numbers were drawn. The first answer scores each card as
//! two to the power of one less than its win count and sums the scores. The
//! second starts with one copy of each card, lets a card with `w` wins add
//! its copies to each of the next `w` cards, and counts all copies.

use vstd::prelude::*;

verus! {

/// One scratch card.
#[derive(Debug)]
pub struct Card {
    pub id: u32,
    pub winning: Vec<u32>,
    pub numbers: Vec<u32>,
}

/// How many of the first `k` winning numbers appear among the drawn numbers.
pub open spec fn wins_upto(winning: Seq<u32>, numbers: Seq<u32>, k: int) -> int
    decreases k,
{
    if k <= 0 {
        0
    } else {
        wins_upto(winning, numbers, k - 1) + if numbers.contains(winning[k - 1]) {
            1int
        } else {
            0int
        }
    }
}

/// The card's win count: how many of its winning numbers were drawn.
pub open spec fn win_count(c: Card) -> int {
    wins_upto(c.winning@, c.numbers@, c.winning@.len() as int)
}

/// Two to the `k`-th power, and 1 below zero.
pub open spec fn pow2(k: int) -> int
    decreases k,
{
    if k <= 0 {
        1
    } else {
        2 * pow2(k - 1)
    }
}

/// The card's score: nothing without a win, else a doubling per further win.
pub open spec fn points(c: Card) -> int {
    if win_count(c) == 0 {
        0
    } else {
        pow2(win_count(c) - 1)
    }
}

/// The sum of the scores of all cards.
pub open spec fn total_points(cards: Seq<Card>) -> int
    decreases cards.len(),
{
    if cards.len() == 0 {
        0
    } else {
        total_points(cards.drop_last()) + points(cards.last())
    }
}

proof fn lemma_wins_upto_bounds(winning: Seq<u32>, numbers: Seq<u32>, k: int)
    requires
        k >= 0,
    ensures
        0 <= wins_upto(winning, numbers, k) <= k,
    decreases k,
{
    if k > 0 {
        lemma_wins_upto_bounds(winning, numbers, k - 1);
    }
}

proof fn lemma_pow2_pos(k: int)
    ensures
        pow2(k) >= 1,
    decreases k,
{
    if k > 0 {
        lemma_pow2_pos(k - 1);
    }
}

proof fn lemma_pow2_mono(a: int, b: int)
    requires
        a <= b,
    ensures
        pow2(a) <= pow2(b),
    decreases b - a,
{
    if a < b {
        lemma_pow2_mono(a, b - 1);
        lemma_pow2_pos(b - 1);
    }
}

proof fn lemma_points_nonneg(c: Card)
    ensures
        points(c) >= 0,
{
    lemma_pow2_pos(win_count(c) - 1);
}

proof fn lemma_total_points_take_le(cards: Seq<Card>, k: int)
    requires
        0 <= k <= cards.len(),
    ensures
        total_points(cards.take(k)) <= total_points(cards),
    decreases cards.len() - k,
{
    if k == cards.len() {
        assert(cards.take(k) =~= cards);
    } else {
        lemma_total_points_take_le(cards, k + 1);
        assert(cards.take(k + 1).drop_last() =~= cards.take(k));
        assert(cards.take(k + 1).last() == cards[k]);
        lemma_points_nonneg(cards[k]);
    }
}

/// Whether `x` appears in `xs`.
fn contains_u32(xs: &Vec<u32>, x: u32) -> (r: bool)
    ensures
        r == xs@.contains(x),
{
    let n: usize = xs.len();
    let mut i: usize = 0;
    while i < n
        invariant
            n == xs@.len(),
            0 <= i <= n,
            forall|j: int| 0 <= j < i ==> xs@[j] != x,
        decreases n - i,
    {
        if xs[i] == x {
            assert(xs@[i as int] == x);
            return true;
        }
        i = i + 1;
    }
    false
}

/// Counts how many of the card's winning numbers were drawn.
pub fn count_wins(card: &Card) -> (w: usize)
    ensures
        w == win_count(*card),
        w <= card.winning@.len(),
{
    let n: usize = card.winning.len();
    let mut w: usize = 0;
    let mut k: usize = 0;
    while k < n
        invariant
            n == card.winning@.len(),
            0 <= k <= n,
            w == wins_upto(card.winning@, card.numbers@, k as int),
            w <= k,
        decreases n - k,
    {
        if contains_u32(&card.numbers, card.winning[k]) {
            w = w + 1;
        }
        k = k + 1;
    }
    w
}

/// Scores one card.
pub fn card_points(card: &Card) -> (p: u32)
    requires
        points(*card) <= u32::MAX,
    ensures
        p == points(*card),
{
    let w = count_wins(card);
    if w == 0 {
        0
    } else {
        let mut p: u32 = 1;
        let mut j: usize = 0;
        while j < w - 1
            invariant
                w == win_count(*card),
                w >= 1,
                points(*card) <= u32::MAX,
                0 <= j <= w - 1,
                p == pow2(j as int),
            decreases w - 1 - j,
        {
            proof {
                lemma_pow2_mono(j + 1, w - 1);
            }
            p = p * 2;
            j = j + 1;
        }
        p
    }
}

/// The sum of the scores of all cards.
pub fn first_star(cards: &Vec<Card>) -> (r: u32)
    requires
        total_points(cards@) <= u32::MAX,
    ensures
        r == total_points(cards@),
{
    let n: usize = cards.len();
    let mut acc: u32 = 0;
    let mut i: usize = 0;
    proof {
        assert(cards@.take(0) =~= Seq::<Card>::empty());
    }
    while i < n
        invariant
            n == cards@.len(),
            total_points(cards@) <= u32::MAX,
            0 <= i <= n,
            acc == total_points(cards@.take(i as int)),
        decreases n - i,
    {
        proof {
            assert(cards@.take(i + 1).drop_last() =~= cards@.take(i as int));
            assert(cards@.take(i + 1).last() == cards@[i as int]);
            lemma_total_points_take_le(cards@, i + 1);
            lemma_points_nonneg(cards@[i as int]);
            assert(total_points(cards@.take(i as int)) >= 0) by {
                lemma_total_points_take_le(cards@, 0);
                assert(cards@.take(0) =~= Seq::<Card>::empty());
                lemma_nonneg_points_prefix(cards@, i as int);
            }
        }
        let p = card_points(&cards[i]);
        acc = acc + p;
        i = i + 1;
    }
    proof {
        assert(cards@.take(n as int) =~= cards@);
    }
    acc
}

/// The copy counts after card `idx` with `w` wins has added its copies to
/// each of the following `w` cards.
pub open spec fn step_copies(copies: Seq<int>, idx: int, w: int) -> Seq<int> {
    Seq::new(
        copies.len(),
        |j: int|
            if idx < j <= idx + w {
                copies[j] + copies[idx]
            } else {
                copies[j]
            },
    )
}

/// The copy counts after the first `k` cards have been played, starting from
/// one copy of each card.
pub open spec fn copies_after(cards: Seq<Card>, k: int) -> Seq<int>
    decreases k,
{
    if k <= 0 {
        Seq::new(cards.len(), |j: int| 1int)
    } else {
        step_copies(copies_after(cards, k - 1), k - 1, win_count(cards[k - 1]))
    }
}

/// The sum of the entries of `s`.
pub open spec fn sum_ints(s: Seq<int>) -> int
    decreases s.len(),
{
    if s.len() == 0 {
        0
    } else {
        sum_ints(s.drop_last()) + s.last()
    }
}

/// How many cards are held once every card has been played.
pub open spec fn total_cards(cards: Seq<Card>) -> int {
    sum_ints(copies_after(cards, cards.len() as int))
}

proof fn lemma_copies_entries_ge_one(cards: Seq<Card>, k: int)
    requires
        0 <= k,
    ensures
        copies_after(cards, k).len() == cards.len(),
        forall|j: int| 0 <= j < cards.len() ==> #[trigger] copies_after(cards, k)[j] >= 1,
    decreases k,
{
    if k > 0 {
        lemma_copies_entries_ge_one(cards, k - 1);
    }
}

proof fn lemma_copies_le_final(cards: Seq<Card>, k: int)
    requires
        0 <= k <= cards.len(),
    ensures
        forall|j: int|
            0 <= j < cards.len() ==> #[trigger] copies_after(cards, k)[j] <= copies_after(
                cards,
                cards.len() as int,
            )[j],
    decreases cards.len() - k,
{
    if k < cards.len() {
        lemma_copies_entries_ge_one(cards, k);
        lemma_copies_le_final(cards, k + 1);
        let prev = copies_after(cards, k);
        let next = copies_after(cards, k + 1);
        assert(next == step_copies(prev, k, win_count(cards[k])));
        assert forall|j: int| 0 <= j < cards.len() implies #[trigger] prev[j] <= next[j] by {
            assert(prev[k] >= 1);
        }
    }
}

proof fn lemma_sum_ints_nonneg(s: Seq<int>)
    requires
        forall|j: int| 0 <= j < s.len() ==> #[trigger] s[j] >= 0,
    ensures
        sum_ints(s) >= 0,
    decreases s.len(),
{
    if s.len() > 0 {
        assert(forall|j: int|
            0 <= j < s.drop_last().len() ==> #[trigger] s.drop_last()[j] == s[j]);
        lemma_sum_ints_nonneg(s.drop_last());
    }
}

proof fn lemma_entry_le_sum(s: Seq<int>, j: int)
    requires
        0 <= j < s.len(),
        forall|i: int| 0 <= i < s.len() ==> #[trigger] s[i] >= 0,
    ensures
        s[j] <= sum_ints(s),
    decreases s.len(),
{
    assert(forall|i: int| 0 <= i < s.drop_last().len() ==> #[trigger] s.drop_last()[i] == s[i]);
    if j == s.len() - 1 {
        lemma_sum_ints_nonneg(s.drop_last());
    } else {
        lemma_entry_le_sum(s.drop_last(), j);
    }
}

proof fn lemma_sum_ints_take_le(s: Seq<int>, k: int)
    requires
        0 <= k <= s.len(),
        forall|i: int| 0 <= i < s.len() ==> #[trigger] s[i] >= 0,
    ensures
        sum_ints(s.take(k)) <= sum_ints(s),
    decreases s.len() - k,
{
    if k == s.len() {
        assert(s.take(k) =~= s);
    } else {
        lemma_sum_ints_take_le(s, k + 1);
        assert(s.take(k + 1).drop_last() =~= s.take(k));
        assert(s.take(k + 1).last() == s[k]);
    }
}

/// Plays every card once, each card with `w` wins granting a copy of the
/// next `w` cards per copy held, and counts the copies held at the end.
pub fn second_star(cards: &Vec<Card>) -> (r: u32)
    requires
        total_cards(cards@) <= u32::MAX,
    ensures
        r == total_cards(cards@),
{
    let n: usize = cards.len();
    let ghost fin = copies_after(cards@, n as int);
    proof {
        lemma_copies_entries_ge_one(cards@, n as int);
    }
    let mut copies: Vec<u32> = Vec::new();
    let mut c: usize = 0;
    while c < n
        invariant
            0 <= c <= n,
            copies@.len() == c,
            forall|j: int| 0 <= j < c ==> copies@[j] == 1u32,
        decreases n - c,
    {
        copies.push(1);
        c = c + 1;
    }
    let mut idx: usize = 0;
    while idx < n
        invariant
            n == cards@.len(),
            fin == copies_after(cards@, n as int),
            fin.len() == n,
            total_cards(cards@) <= u32::MAX,
            copies@.len() == n,
            0 <= idx <= n,
            forall|j: int|
                0 <= j < n ==> copies@[j] as int == #[trigger] copies_after(
                    cards@,
                    idx as int,
                )[j],
        decreases n - idx,
    {
        let ghost prev = copies_after(cards@, idx as int);
        let ghost next = copies_after(cards@, idx + 1);
        let wins = count_wins(&cards[idx]);
        proof {
            lemma_copies_entries_ge_one(cards@, idx as int);
            lemma_copies_entries_ge_one(cards@, idx + 1);
            lemma_copies_entries_ge_one(cards@, n as int);
            lemma_copies_le_final(cards@, idx + 1);
            assert forall|j: int| 0 <= j < n implies #[trigger] next[j] <= u32::MAX by {
                lemma_entry_le_sum(fin, j);
            }
        }
        let base: u32 = copies[idx];
        let remaining: usize = n - idx - 1;
        let cnt: usize = if wins < remaining {
            wins
        } else {
            remaining
        };
        let mut i: usize = idx + 1;
        while i < idx + 1 + cnt
            invariant
                n == cards@.len(),
                copies@.len() == n,
                0 <= idx < n,
                cnt <= n - idx - 1,
                cnt as int == if win_count(cards@[idx as int]) < n - idx - 1 {
                    win_count(cards@[idx as int])
                } else {
                    n - idx - 1
                },
                idx + 1 <= i <= idx + 1 + cnt,
                prev == copies_after(cards@, idx as int),
                next == copies_after(cards@, idx + 1),
                prev.len() == n,
                next.len() == n,
                next == step_copies(prev, idx as int, win_count(cards@[idx as int])),
                base as int == prev[idx as int],
                forall|j: int| 0 <= j < n ==> #[trigger] next[j] <= u32::MAX,
                forall|j: int|
                    0 <= j < n ==> copies@[j] as int == (if idx < j < i {
                        next[j]
                    } else {
                        prev[j]
                    }),
            decreases idx + 1 + cnt - i,
        {
            assert(copies@[i as int] as int == prev[i as int]);
            assert(next[i as int] == prev[i as int] + prev[idx as int]);
            let updated: u32 = copies[i] + base;
            copies[i] = updated;
            i = i + 1;
        }
        proof {
            assert forall|j: int| 0 <= j < n implies copies@[j] as int == next[j] by {
                if !(idx < j < idx + 1 + cnt) {
                    assert(copies@[j] as int == prev[j]);
                    assert(!(idx < j <= idx + win_count(cards@[idx as int])) || j >= n);
                    assert(next[j] == prev[j]);
                }
            }
        }
        idx = idx + 1;
    }
    let mut acc: u32 = 0;
    let mut j: usize = 0;
    proof {
        assert(fin.take(0) =~= Seq::<int>::empty());
        lemma_copies_entries_ge_one(cards@, n as int);
    }
    while j < n
        invariant
            n == cards@.len(),
            fin == copies_after(cards@, n as int),
            fin.len() == n,
            total_cards(cards@) <= u32::MAX,
            copies@.len() == n,
            forall|i: int| 0 <= i < n ==> copies@[i] as int == #[trigger] fin[i],
            forall|i: int| 0 <= i < n ==> #[trigger] fin[i] >= 1,
            0 <= j <= n,
            acc == sum_ints(fin.take(j as int)),
        decreases n - j,
    {
        proof {
            assert(fin.take(j + 1).drop_last() =~= fin.take(j as int));
            assert(fin.take(j + 1).last() == fin[j as int]);
            lemma_sum_ints_take_le(fin, j + 1);
        }
        acc = acc + copies[j];
        j = j + 1;
    }
    proof {
        assert(fin.take(n as int) =~= fin);
    }
    acc
}

proof fn lemma_nonneg_points_prefix(cards: Seq<Card>, k: int)
    requires
        0 <= k <= cards.len(),
    ensures
        total_points(cards.take(k)) >= 0,
    decreases k,
{
    if k > 0 {
        lemma_nonneg_points_prefix(cards, k - 1);
        assert(cards.take(k).drop_last() =~= cards.take(k - 1));
        lemma_points_nonneg(cards[k - 1]);
        assert(cards.take(k).last() == cards[k - 1]);
    }
}

} // verus!
