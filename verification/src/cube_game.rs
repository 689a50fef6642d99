//! Cube-drawing games.
//!
//! Each game is a numbered sequence of rounds; a round reports how many red,
//! green and blue cubes were shown. The first answer sums the ids of the
//! games that a fixed bag could have produced; the second sums each game's
//! power, the product of the fewest cubes of each colour that make the game
//! possible.

use vstd::prelude::*;

verus! {

/// How many cubes of each colour one round showed.
#[derive(Clone, Copy, Debug, PartialEq, Eq, Structural)]
pub struct CubeCount {
    pub red_count: u32,
    pub green_count: u32,
    pub blue_count: u32,
}

/// One game: an id and the rounds that were played.
#[derive(Debug)]
pub struct Game {
    pub game_id: u32,
    pub rounds: Vec<CubeCount>,
}

impl CubeCount {
    /// Whether a bag with `q` cubes of each colour could show this round.
    pub open spec fn within(self, q: CubeCount) -> bool {
        self.red_count <= q.red_count && self.green_count <= q.green_count && self.blue_count
            <= q.blue_count
    }
}

/// The most red cubes any round of `rounds` showed.
pub open spec fn max_red(rounds: Seq<CubeCount>) -> int
    decreases rounds.len(),
{
    if rounds.len() == 0 {
        0
    } else if rounds.last().red_count > max_red(rounds.drop_last()) {
        rounds.last().red_count as int
    } else {
        max_red(rounds.drop_last())
    }
}

/// The most green cubes any round of `rounds` showed.
pub open spec fn max_green(rounds: Seq<CubeCount>) -> int
    decreases rounds.len(),
{
    if rounds.len() == 0 {
        0
    } else if rounds.last().green_count > max_green(rounds.drop_last()) {
        rounds.last().green_count as int
    } else {
        max_green(rounds.drop_last())
    }
}

/// The most blue cubes any round of `rounds` showed.
pub open spec fn max_blue(rounds: Seq<CubeCount>) -> int
    decreases rounds.len(),
{
    if rounds.len() == 0 {
        0
    } else if rounds.last().blue_count > max_blue(rounds.drop_last()) {
        rounds.last().blue_count as int
    } else {
        max_blue(rounds.drop_last())
    }
}

impl Game {
    /// Whether every round of the game fits within the bag `q`.
    pub open spec fn possible_with(self, q: CubeCount) -> bool {
        forall|i: int| 0 <= i < self.rounds@.len() ==> (#[trigger] self.rounds@[i]).within(q)
    }

    /// The game's power: the product of the fewest cubes of each colour that
    /// make every round possible.
    pub open spec fn power(self) -> int {
        max_red(self.rounds@) * max_green(self.rounds@) * max_blue(self.rounds@)
    }

    /// Whether a bag with `query` cubes of each colour could have produced
    /// every round of this game.
    pub fn query(&self, query: &CubeCount) -> (r: bool)
        ensures
            r == self.possible_with(*query),
    {
        let n: usize = self.rounds.len();
        let mut i: usize = 0;
        while i < n
            invariant
                n == self.rounds@.len(),
                0 <= i <= n,
                forall|j: int| 0 <= j < i ==> (#[trigger] self.rounds@[j]).within(*query),
            decreases n - i,
        {
            let round = self.rounds[i];
            if !(round.red_count <= query.red_count && round.green_count <= query.green_count
                && round.blue_count <= query.blue_count) {
                assert(!self.rounds@[i as int].within(*query));
                return false;
            }
            i = i + 1;
        }
        true
    }

    /// The fewest cubes of each colour that make every round possible.
    pub fn fewest_cubes(&self) -> (m: CubeCount)
        ensures
            m.red_count == max_red(self.rounds@),
            m.green_count == max_green(self.rounds@),
            m.blue_count == max_blue(self.rounds@),
    {
        let n: usize = self.rounds.len();
        let mut m = CubeCount { red_count: 0, green_count: 0, blue_count: 0 };
        let mut i: usize = 0;
        proof {
            assert(self.rounds@.take(0) =~= Seq::<CubeCount>::empty());
        }
        while i < n
            invariant
                n == self.rounds@.len(),
                0 <= i <= n,
                m.red_count == max_red(self.rounds@.take(i as int)),
                m.green_count == max_green(self.rounds@.take(i as int)),
                m.blue_count == max_blue(self.rounds@.take(i as int)),
            decreases n - i,
        {
            let round = self.rounds[i];
            proof {
                assert(self.rounds@.take(i + 1).drop_last() =~= self.rounds@.take(i as int));
                assert(self.rounds@.take(i + 1).last() == self.rounds@[i as int]);
            }
            if round.red_count > m.red_count {
                m.red_count = round.red_count;
            }
            if round.green_count > m.green_count {
                m.green_count = round.green_count;
            }
            if round.blue_count > m.blue_count {
                m.blue_count = round.blue_count;
            }
            i = i + 1;
        }
        proof {
            assert(self.rounds@.take(n as int) =~= self.rounds@);
        }
        m
    }
}

/// The sum of the ids of the games of `games` that a bag `q` could have
/// produced.
pub open spec fn sum_possible_ids(games: Seq<Game>, q: CubeCount) -> int
    decreases games.len(),
{
    if games.len() == 0 {
        0
    } else {
        sum_possible_ids(games.drop_last(), q) + if games.last().possible_with(q) {
            games.last().game_id as int
        } else {
            0
        }
    }
}

/// The sum of the powers of the games of `games`.
pub open spec fn total_power(games: Seq<Game>) -> int
    decreases games.len(),
{
    if games.len() == 0 {
        0
    } else {
        total_power(games.drop_last()) + games.last().power()
    }
}

proof fn lemma_sum_possible_ids_take_le(games: Seq<Game>, q: CubeCount, k: int)
    requires
        0 <= k <= games.len(),
    ensures
        sum_possible_ids(games.take(k), q) <= sum_possible_ids(games, q),
    decreases games.len() - k,
{
    if k == games.len() {
        assert(games.take(k) =~= games);
    } else {
        lemma_sum_possible_ids_take_le(games, q, k + 1);
        assert(games.take(k + 1).drop_last() =~= games.take(k));
        assert(games.take(k + 1).last() == games[k]);
    }
}

proof fn lemma_power_nonneg(g: Game)
    ensures
        g.power() >= 0,
{
    let r = max_red(g.rounds@);
    let gr = max_green(g.rounds@);
    let b = max_blue(g.rounds@);
    lemma_max_nonneg(g.rounds@);
    assert(r * gr * b >= 0) by (nonlinear_arith)
        requires
            r >= 0,
            gr >= 0,
            b >= 0,
    ;
}

proof fn lemma_max_nonneg(rounds: Seq<CubeCount>)
    ensures
        max_red(rounds) >= 0,
        max_green(rounds) >= 0,
        max_blue(rounds) >= 0,
    decreases rounds.len(),
{
    if rounds.len() > 0 {
        lemma_max_nonneg(rounds.drop_last());
    }
}

proof fn lemma_total_power_take_le(games: Seq<Game>, k: int)
    requires
        0 <= k <= games.len(),
    ensures
        total_power(games.take(k)) <= total_power(games),
    decreases games.len() - k,
{
    if k == games.len() {
        assert(games.take(k) =~= games);
    } else {
        lemma_total_power_take_le(games, k + 1);
        assert(games.take(k + 1).drop_last() =~= games.take(k));
        assert(games.take(k + 1).last() == games[k]);
        lemma_power_nonneg(games[k]);
    }
}

/// The sum of the ids of the games that a bag of 12 red, 13 green and 14
/// blue cubes could have produced.
pub fn first_star(games: &Vec<Game>) -> (r: u32)
    requires
        sum_possible_ids(
            games@,
            (CubeCount { red_count: 12, green_count: 13, blue_count: 14 }),
        ) <= u32::MAX,
    ensures
        r == sum_possible_ids(
            games@,
            (CubeCount { red_count: 12, green_count: 13, blue_count: 14 }),
        ),
{
    let query = CubeCount { red_count: 12, green_count: 13, blue_count: 14 };
    let n: usize = games.len();
    let mut acc: u32 = 0;
    let mut i: usize = 0;
    proof {
        assert(games@.take(0) =~= Seq::<Game>::empty());
    }
    while i < n
        invariant
            n == games@.len(),
            query == (CubeCount { red_count: 12, green_count: 13, blue_count: 14 }),
            sum_possible_ids(games@, query) <= u32::MAX,
            0 <= i <= n,
            acc == sum_possible_ids(games@.take(i as int), query),
        decreases n - i,
    {
        proof {
            assert(games@.take(i + 1).drop_last() =~= games@.take(i as int));
            assert(games@.take(i + 1).last() == games@[i as int]);
            lemma_sum_possible_ids_take_le(games@, query, i + 1);
        }
        if games[i].query(&query) {
            acc = acc + games[i].game_id;
        }
        i = i + 1;
    }
    proof {
        assert(games@.take(n as int) =~= games@);
    }
    acc
}

/// The sum of the powers of all games.
pub fn second_star(games: &Vec<Game>) -> (r: u32)
    requires
        forall|i: int|
            0 <= i < games@.len() ==> max_red((#[trigger] games@[i]).rounds@) * max_green(
                games@[i].rounds@,
            ) <= u32::MAX && games@[i].power() <= u32::MAX,
        total_power(games@) <= u32::MAX,
    ensures
        r == total_power(games@),
{
    let n: usize = games.len();
    let mut acc: u32 = 0;
    let mut i: usize = 0;
    proof {
        assert(games@.take(0) =~= Seq::<Game>::empty());
    }
    while i < n
        invariant
            n == games@.len(),
            forall|j: int|
                0 <= j < games@.len() ==> max_red((#[trigger] games@[j]).rounds@) * max_green(
                    games@[j].rounds@,
                ) <= u32::MAX && games@[j].power() <= u32::MAX,
            total_power(games@) <= u32::MAX,
            0 <= i <= n,
            acc == total_power(games@.take(i as int)),
        decreases n - i,
    {
        let m = games[i].fewest_cubes();
        proof {
            lemma_max_nonneg(games@[i as int].rounds@);
            assert(games@.take(i + 1).drop_last() =~= games@.take(i as int));
            assert(games@.take(i + 1).last() == games@[i as int]);
            lemma_total_power_take_le(games@, i + 1);
            lemma_power_nonneg(games@[i as int]);
        }
        let p: u32 = m.red_count * m.green_count;
        let p: u32 = p * m.blue_count;
        assert(p == games@[i as int].power());
        acc = acc + p;
        i = i + 1;
    }
    proof {
        assert(games@.take(n as int) =~= games@);
    }
    acc
}

} // verus!
