//! Calibration values.
//!
//! Each line hides a two-digit value: ten times its first digit plus its
//! last. The first answer reads only digit characters; the second also
//! reads the spelled-out digits `one` through `nine`, taking the earliest
//! and latest place where either form starts.

use vstd::prelude::*;

verus! {

/// Whether byte `b` is an ASCII digit.
pub open spec fn is_digit_byte(b: u8) -> bool {
    48 <= b <= 57
}

/// The numeric value of the ASCII digit `b`.
pub open spec fn digit_of(b: u8) -> int {
    b - 48
}

/// The value of the first digit at index `i` or later, and -1 without one.
pub open spec fn first_digit_from(s: Seq<u8>, i: int) -> int
    decreases s.len() - i,
{
    if i < 0 || i >= s.len() {
        -1
    } else if is_digit_byte(s[i]) {
        digit_of(s[i])
    } else {
        first_digit_from(s, i + 1)
    }
}

/// The value of the last digit at index `i` or earlier, and -1 without one.
pub open spec fn last_digit_until(s: Seq<u8>, i: int) -> int
    decreases i + 1,
{
    if i < 0 || i >= s.len() {
        -1
    } else if is_digit_byte(s[i]) {
        digit_of(s[i])
    } else {
        last_digit_until(s, i - 1)
    }
}

/// The calibration value read from digits alone.
pub open spec fn digit_value(s: Seq<u8>) -> int {
    10 * first_digit_from(s, 0) + last_digit_until(s, s.len() - 1)
}

/// The digit token starting at index `i`: a digit character or a
/// spelled-out digit word, and -1 where neither starts.
pub open spec fn token_at(s: Seq<u8>, i: int) -> int {
    if 0 <= i < s.len() && is_digit_byte(s[i]) {
        digit_of(s[i])
    } else if word_at(s, i, "one"@) {
        1
    } else if word_at(s, i, "two"@) {
        2
    } else if word_at(s, i, "three"@) {
        3
    } else if word_at(s, i, "four"@) {
        4
    } else if word_at(s, i, "five"@) {
        5
    } else if word_at(s, i, "six"@) {
        6
    } else if word_at(s, i, "seven"@) {
        7
    } else if word_at(s, i, "eight"@) {
        8
    } else if word_at(s, i, "nine"@) {
        9
    } else {
        -1
    }
}

/// Whether the characters of `w`, as bytes, appear at index `i` of `s`.
pub open spec fn word_at(s: Seq<u8>, i: int, w: Seq<char>) -> bool {
    0 <= i && i + w.len() <= s.len() && forall|j: int|
        0 <= j < w.len() ==> s[i + j] == (#[trigger] w[j]) as u8
}

/// The value of the first digit token at index `i` or later, -1 without one.
pub open spec fn first_token_from(s: Seq<u8>, i: int) -> int
    decreases s.len() - i,
{
    if i < 0 || i >= s.len() {
        -1
    } else if token_at(s, i) >= 0 {
        token_at(s, i)
    } else {
        first_token_from(s, i + 1)
    }
}

/// The value of the last digit token starting at index `i` or earlier, -1
/// without one.
pub open spec fn last_token_until(s: Seq<u8>, i: int) -> int
    decreases i + 1,
{
    if i < 0 || i >= s.len() {
        -1
    } else if token_at(s, i) >= 0 {
        token_at(s, i)
    } else {
        last_token_until(s, i - 1)
    }
}

/// The calibration value read from digits and spelled-out digits.
pub open spec fn token_value(s: Seq<u8>) -> int {
    10 * first_token_from(s, 0) + last_token_until(s, s.len() - 1)
}

/// The sum of the digit-only calibration values of all lines.
pub open spec fn digit_total(lines: Seq<Vec<u8>>) -> int
    decreases lines.len(),
{
    if lines.len() == 0 {
        0
    } else {
        digit_total(lines.drop_last()) + digit_value(lines.last()@)
    }
}

/// The sum of the token calibration values of all lines.
pub open spec fn token_total(lines: Seq<Vec<u8>>) -> int
    decreases lines.len(),
{
    if lines.len() == 0 {
        0
    } else {
        token_total(lines.drop_last()) + token_value(lines.last()@)
    }
}

/// The value of the first digit of `line`, and -1 on a line without one.
pub fn first_digit(line: &Vec<u8>) -> (r: i32)
    ensures
        r == first_digit_from(line@, 0),
{
    let n: usize = line.len();
    let mut i: usize = 0;
    while i < n
        invariant
            n == line@.len(),
            0 <= i <= n,
            first_digit_from(line@, 0) == first_digit_from(line@, i as int),
        decreases n - i,
    {
        let b = line[i];
        if b >= 48 && b <= 57 {
            return (b - 48) as i32;
        }
        i = i + 1;
    }
    -1
}

/// The value of the last digit of `line`, and -1 on a line without one.
pub fn last_digit(line: &Vec<u8>) -> (r: i32)
    ensures
        r == last_digit_until(line@, line@.len() - 1),
{
    let n: usize = line.len();
    let mut i: usize = n;
    while i > 0
        invariant
            n == line@.len(),
            0 <= i <= n,
            last_digit_until(line@, n - 1) == last_digit_until(line@, i - 1),
        decreases i,
    {
        i = i - 1;
        let b = line[i];
        if b >= 48 && b <= 57 {
            return (b - 48) as i32;
        }
    }
    -1
}

/// The digit token starting at index `i` of `line`, and -1 where none does.
pub fn token_at_index(line: &Vec<u8>, i: usize) -> (t: i32)
    requires
        i < line@.len(),
    ensures
        t == token_at(line@, i as int),
{
    proof {
        reveal_strlit("one");
        reveal_strlit("two");
        reveal_strlit("three");
        reveal_strlit("four");
        reveal_strlit("five");
        reveal_strlit("six");
        reveal_strlit("seven");
        reveal_strlit("eight");
        reveal_strlit("nine");
        lemma_word_bytes(line@, i as int, "one"@);
        lemma_word_bytes(line@, i as int, "two"@);
        lemma_word_bytes(line@, i as int, "three"@);
        lemma_word_bytes(line@, i as int, "four"@);
        lemma_word_bytes(line@, i as int, "five"@);
        lemma_word_bytes(line@, i as int, "six"@);
        lemma_word_bytes(line@, i as int, "seven"@);
        lemma_word_bytes(line@, i as int, "eight"@);
        lemma_word_bytes(line@, i as int, "nine"@);
    }
    let n: usize = line.len();
    let b = line[i];
    if b >= 48 && b <= 57 {
        return (b - 48) as i32;
    }
    if n - i >= 3 && line[i] == 111 && line[i + 1] == 110 && line[i + 2] == 101 {
        assert(word_at(line@, i as int, "one"@));
        return 1;
    }
    if n - i >= 3 && line[i] == 116 && line[i + 1] == 119 && line[i + 2] == 111 {
        assert(word_at(line@, i as int, "two"@));
        return 2;
    }
    if n - i >= 5 && line[i] == 116 && line[i + 1] == 104 && line[i + 2] == 114 && line[i + 3]
        == 101 && line[i + 4] == 101 {
        assert(word_at(line@, i as int, "three"@));
        return 3;
    }
    if n - i >= 4 && line[i] == 102 && line[i + 1] == 111 && line[i + 2] == 117 && line[i + 3]
        == 114 {
        assert(word_at(line@, i as int, "four"@));
        return 4;
    }
    if n - i >= 4 && line[i] == 102 && line[i + 1] == 105 && line[i + 2] == 118 && line[i + 3]
        == 101 {
        assert(word_at(line@, i as int, "five"@));
        return 5;
    }
    if n - i >= 3 && line[i] == 115 && line[i + 1] == 105 && line[i + 2] == 120 {
        assert(word_at(line@, i as int, "six"@));
        return 6;
    }
    if n - i >= 5 && line[i] == 115 && line[i + 1] == 101 && line[i + 2] == 118 && line[i + 3]
        == 101 && line[i + 4] == 110 {
        assert(word_at(line@, i as int, "seven"@));
        return 7;
    }
    if n - i >= 5 && line[i] == 101 && line[i + 1] == 105 && line[i + 2] == 103 && line[i + 3]
        == 104 && line[i + 4] == 116 {
        assert(word_at(line@, i as int, "eight"@));
        return 8;
    }
    if n - i >= 4 && line[i] == 110 && line[i + 1] == 105 && line[i + 2] == 110 && line[i + 3]
        == 101 {
        assert(word_at(line@, i as int, "nine"@));
        return 9;
    }
    -1
}

/// Spells out what `word_at` claims byte by byte, so that one failed byte
/// comparison refutes it.
proof fn lemma_word_bytes(s: Seq<u8>, i: int, w: Seq<char>)
    requires
        1 <= w.len() <= 5,
    ensures
        word_at(s, i, w) ==> 0 <= i && i + w.len() <= s.len(),
        word_at(s, i, w) ==> s[i] == w[0] as u8,
        word_at(s, i, w) && w.len() >= 2 ==> s[i + 1] == w[1] as u8,
        word_at(s, i, w) && w.len() >= 3 ==> s[i + 2] == w[2] as u8,
        word_at(s, i, w) && w.len() >= 4 ==> s[i + 3] == w[3] as u8,
        word_at(s, i, w) && w.len() >= 5 ==> s[i + 4] == w[4] as u8,
{
    if word_at(s, i, w) {
        assert(s[i + 0] == w[0] as u8);
        if w.len() >= 2 {
            assert(s[i + 1] == w[1] as u8);
        }
        if w.len() >= 3 {
            assert(s[i + 2] == w[2] as u8);
        }
        if w.len() >= 4 {
            assert(s[i + 3] == w[3] as u8);
        }
        if w.len() >= 5 {
            assert(s[i + 4] == w[4] as u8);
        }
    }
}

/// The value of the first digit token of `line`, and -1 without one.
pub fn first_token(line: &Vec<u8>) -> (r: i32)
    ensures
        r == first_token_from(line@, 0),
{
    let n: usize = line.len();
    let mut i: usize = 0;
    while i < n
        invariant
            n == line@.len(),
            0 <= i <= n,
            first_token_from(line@, 0) == first_token_from(line@, i as int),
        decreases n - i,
    {
        let t = token_at_index(line, i);
        if t >= 0 {
            return t;
        }
        i = i + 1;
    }
    -1
}

/// The value of the last digit token of `line`, and -1 without one.
pub fn last_token(line: &Vec<u8>) -> (r: i32)
    ensures
        r == last_token_until(line@, line@.len() - 1),
{
    let n: usize = line.len();
    let mut i: usize = n;
    while i > 0
        invariant
            n == line@.len(),
            0 <= i <= n,
            last_token_until(line@, n - 1) == last_token_until(line@, i - 1),
        decreases i,
    {
        i = i - 1;
        let t = token_at_index(line, i);
        if t >= 0 {
            return t;
        }
    }
    -1
}

proof fn lemma_forward_scan_bounds(s: Seq<u8>, i: int)
    ensures
        -1 <= first_digit_from(s, i) <= 9,
        -1 <= first_token_from(s, i) <= 9,
    decreases s.len() - i,
{
    if 0 <= i < s.len() {
        lemma_forward_scan_bounds(s, i + 1);
    }
}

proof fn lemma_backward_scan_bounds(s: Seq<u8>, i: int)
    ensures
        -1 <= last_digit_until(s, i) <= 9,
        -1 <= last_token_until(s, i) <= 9,
    decreases i + 1,
{
    if 0 <= i < s.len() {
        lemma_backward_scan_bounds(s, i - 1);
    }
}

proof fn lemma_digit_total_take_le(lines: Seq<Vec<u8>>, k: int)
    requires
        0 <= k <= lines.len(),
        forall|j: int| 0 <= j < lines.len() ==> digit_value((#[trigger] lines[j])@) >= 0,
    ensures
        digit_total(lines.take(k)) <= digit_total(lines),
    decreases lines.len() - k,
{
    if k == lines.len() {
        assert(lines.take(k) =~= lines);
    } else {
        lemma_digit_total_take_le(lines, k + 1);
        assert(lines.take(k + 1).drop_last() =~= lines.take(k));
        assert(lines.take(k + 1).last() == lines[k]);
    }
}

proof fn lemma_token_total_take_le(lines: Seq<Vec<u8>>, k: int)
    requires
        0 <= k <= lines.len(),
        forall|j: int| 0 <= j < lines.len() ==> token_value((#[trigger] lines[j])@) >= 0,
    ensures
        token_total(lines.take(k)) <= token_total(lines),
    decreases lines.len() - k,
{
    if k == lines.len() {
        assert(lines.take(k) =~= lines);
    } else {
        lemma_token_total_take_le(lines, k + 1);
        assert(lines.take(k + 1).drop_last() =~= lines.take(k));
        assert(lines.take(k + 1).last() == lines[k]);
    }
}

/// Sums the calibration values read from digits alone, over lines that
/// each hold at least one digit.
pub fn first_star(lines: &Vec<Vec<u8>>) -> (r: i32)
    requires
        forall|k: int|
            0 <= k < lines@.len() ==> first_digit_from((#[trigger] lines@[k])@, 0) >= 0,
        forall|k: int|
            0 <= k < lines@.len() ==> last_digit_until(
                (#[trigger] lines@[k])@,
                lines@[k]@.len() - 1,
            ) >= 0,
        digit_total(lines@) <= i32::MAX,
    ensures
        r == digit_total(lines@),
{
    let n: usize = lines.len();
    let mut acc: i32 = 0;
    let mut i: usize = 0;
    proof {
        assert(lines@.take(0) =~= Seq::<Vec<u8>>::empty());
    }
    while i < n
        invariant
            n == lines@.len(),
            forall|k: int|
                0 <= k < lines@.len() ==> first_digit_from((#[trigger] lines@[k])@, 0) >= 0,
            forall|k: int|
                0 <= k < lines@.len() ==> last_digit_until(
                    (#[trigger] lines@[k])@,
                    lines@[k]@.len() - 1,
                ) >= 0,
            digit_total(lines@) <= i32::MAX,
            0 <= i <= n,
            acc == digit_total(lines@.take(i as int)),
            acc >= 0,
        decreases n - i,
    {
        let a = first_digit(&lines[i]);
        let b = last_digit(&lines[i]);
        proof {
            lemma_forward_scan_bounds(lines@[i as int]@, 0);
            lemma_backward_scan_bounds(lines@[i as int]@, lines@[i as int]@.len() - 1);
            assert(lines@.take(i + 1).drop_last() =~= lines@.take(i as int));
            assert(lines@.take(i + 1).last() == lines@[i as int]);
            assert forall|j: int|
                0 <= j < lines@.len() implies digit_value((#[trigger] lines@[j])@) >= 0 by {
                lemma_forward_scan_bounds(lines@[j]@, 0);
                lemma_backward_scan_bounds(lines@[j]@, lines@[j]@.len() - 1);
            }
            lemma_digit_total_take_le(lines@, i + 1);
        }
        acc = acc + (10 * a + b);
        i = i + 1;
    }
    proof {
        assert(lines@.take(n as int) =~= lines@);
    }
    acc
}

/// Sums the calibration values read from digits and spelled-out digits,
/// over lines that each hold at least one digit token.
pub fn second_star(lines: &Vec<Vec<u8>>) -> (r: i32)
    requires
        forall|k: int|
            0 <= k < lines@.len() ==> first_token_from((#[trigger] lines@[k])@, 0) >= 0,
        forall|k: int|
            0 <= k < lines@.len() ==> last_token_until(
                (#[trigger] lines@[k])@,
                lines@[k]@.len() - 1,
            ) >= 0,
        token_total(lines@) <= i32::MAX,
    ensures
        r == token_total(lines@),
{
    let n: usize = lines.len();
    let mut acc: i32 = 0;
    let mut i: usize = 0;
    proof {
        assert(lines@.take(0) =~= Seq::<Vec<u8>>::empty());
    }
    while i < n
        invariant
            n == lines@.len(),
            forall|k: int|
                0 <= k < lines@.len() ==> first_token_from((#[trigger] lines@[k])@, 0) >= 0,
            forall|k: int|
                0 <= k < lines@.len() ==> last_token_until(
                    (#[trigger] lines@[k])@,
                    lines@[k]@.len() - 1,
                ) >= 0,
            token_total(lines@) <= i32::MAX,
            0 <= i <= n,
            acc == token_total(lines@.take(i as int)),
            acc >= 0,
        decreases n - i,
    {
        let a = first_token(&lines[i]);
        let b = last_token(&lines[i]);
        proof {
            lemma_forward_scan_bounds(lines@[i as int]@, 0);
            lemma_backward_scan_bounds(lines@[i as int]@, lines@[i as int]@.len() - 1);
            assert(lines@.take(i + 1).drop_last() =~= lines@.take(i as int));
            assert(lines@.take(i + 1).last() == lines@[i as int]);
            assert forall|j: int|
                0 <= j < lines@.len() implies token_value((#[trigger] lines@[j])@) >= 0 by {
                lemma_forward_scan_bounds(lines@[j]@, 0);
                lemma_backward_scan_bounds(lines@[j]@, lines@[j]@.len() - 1);
            }
            lemma_token_total_take_le(lines@, i + 1);
        }
        acc = acc + (10 * a + b);
        i = i + 1;
    }
    proof {
        assert(lines@.take(n as int) =~= lines@);
    }
    acc
}

} // verus!
