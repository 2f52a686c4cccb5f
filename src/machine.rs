use crate::move_scores::{
    initial_ranking, initial_weights, moved_down, moved_up, scores_wf, MoveScores, ScoresView,
};
use crate::game_result::{GameResult, WinReason};
use crate::moves::Move;
use crate::tic_tac_toe::{
    blank_cells, blanks_below, key_of, lemma_fill_blank, lemma_key_below, lemma_key_injective, mark_of,
    other, result_spec, Mark, Player, State,
};
use rand::rngs::StdRng;
use rand::{Rng, SeedableRng};
use std::collections::HashMap;
use vstd::prelude::*;

verus! {

/// The weight that each legal move of a new position starts with.
pub const INITIAL_SCORE: u64 = 4;

/// How much of the credit one move passes on to the next, in millionths.
pub const DECAY_PPM: u64 = 1_000_000;

/// One million: the unit of `DECAY_PPM`.
pub const PPM: u64 = 1_000_000;

/// The seed of the machine's random numbers.
pub const RAND_SEED: u64 = 43;

/// The generator of rand's `StdRng`, carried through as an opaque value.
#[verifier::external_type_specification]
#[verifier::external_body]
pub struct ExStdRng(StdRng);

/// Relies on `SeedableRng::seed_from_u64` of rand: a generator seeded from `seed`.
#[verifier::external_body]
fn seeded_rng(seed: u64) -> StdRng {
    StdRng::seed_from_u64(seed)
}

/// Relies on `Rng::gen_range` of rand: a value drawn from `0..n`, which must not be empty.
#[verifier::external_body]
fn draw_below(rng: &mut StdRng, n: u64) -> (r: u64)
    requires
        n > 0,
    ensures
        r < n,
{
    rng.gen_range(0..n)
}

/// Each table entry holds weight only on the blank cells of the position whose key it is under.
pub open spec fn weights_on_blanks(t: Map<u32, ScoresView>) -> bool {
    forall|k: u32, cells: Seq<Mark>, i: int|
        #![trigger t[k].score[i], key_of(cells, 9)]
        t.contains_key(k) && cells.len() == 9 && key_of(cells, 9) == k && 0 <= i < 9
            && t[k].score[i] > 0 ==> cells[i] == Mark::Blank
}

/// The invariant of a machine's table.
pub open spec fn table_wf(t: Map<u32, ScoresView>) -> bool {
    &&& forall|k: u32| #[trigger] t.contains_key(k) ==> scores_wf(t[k])
    &&& weights_on_blanks(t)
}

/// The table after the entry of `pos` was looked up, and made if it was missing.
pub open spec fn table_after_visit(before: Map<u32, ScoresView>, after: Map<u32, ScoresView>, pos: Seq<Mark>) -> bool {
    let k = key_of(pos, 9) as u32;
    &&& after.contains_key(k)
    &&& after == before.insert(k, after[k])
    &&& before.contains_key(k) ==> after[k] == before[k]
    &&& !before.contains_key(k) ==> after[k].score == initial_weights(blank_cells(pos), INITIAL_SCORE)
        && after[k].move_at == initial_ranking(blank_cells(pos))
}

/// The multiplier of the credit for the `j`th move of a player, in millionths: a whole one for
/// the first move, decayed once for each later move.
pub open spec fn multiplier(j: nat) -> nat
    decreases j,
{
    if j == 0 {
        PPM as nat
    } else {
        multiplier((j - 1) as nat) * DECAY_PPM as nat / PPM as nat
    }
}

/// The credit for the `j`th move of a player: its multiplier, rounded to the nearest whole.
pub open spec fn credit(j: nat) -> nat {
    (multiplier(j) + PPM as nat / 2) / PPM as nat
}

/// The decay is none: every move gets a credit of exactly one.
pub proof fn lemma_uniform_credit(j: nat)
    ensures
        multiplier(j) == PPM,
        credit(j) == 1,
    decreases j,
{
    if j > 0 {
        lemma_uniform_credit((j - 1) as nat);
        vstd::arithmetic::div_mod::lemma_div_multiples_vanish(PPM as int, PPM as int);
    }
}

proof fn lemma_decay_bound(x: nat)
    requires
        x <= PPM,
    ensures
        x * DECAY_PPM as nat / PPM as nat <= PPM,
{
    vstd::arithmetic::div_mod::lemma_div_multiples_vanish(x as int, PPM as int);
}

/// Whether some entry of `history` is a move in the position with key `k`.
pub open spec fn played_in(history: Seq<(u32, Move)>, k: u32) -> bool {
    exists|j: int| 0 <= j < history.len() && (#[trigger] history[j]).0 == k
}

/// No two entries of `history` are in the same position.
pub open spec fn distinct_keys(history: Seq<(u32, Move)>) -> bool {
    forall|a: int, b: int|
        0 <= a < b < history.len() ==> (#[trigger] history[a]).0 != (#[trigger] history[b]).0
}

/// `after` is `before` once move `m` got credit `amount`: a rise when `raise` holds, else a fall
/// that stops at 0. A rise that would overflow the sum of the weights is left out.
pub open spec fn credited(before: ScoresView, after: ScoresView, m: nat, amount: nat, raise: bool) -> bool {
    if raise && before.sum + amount > u64::MAX {
        after == before
    } else if raise {
        &&& after.score == before.score.update(m as int, (before.score[m as int] + amount) as u64)
        &&& after.sum == before.sum + amount
        &&& moved_up(before, after, m)
    } else {
        let w = if amount < before.score[m as int] { before.score[m as int] - amount } else { 0 };
        &&& after.score == before.score.update(m as int, w as u64)
        &&& after.sum == before.sum - before.score[m as int] + w
        &&& moved_down(before, after, m)
    }
}

/// A fall takes from a move no more than its weight: what is left is the weight less the credit,
/// or 0 when the credit is larger, and the sum falls by what was taken.
pub proof fn lemma_fall_stops_at_zero(before: ScoresView, after: ScoresView, m: nat, amount: nat)
    requires
        m < 9,
        before.score.len() == 9,
        credited(before, after, m, amount, false),
    ensures
        after.score[m as int] == before.score[m as int] - if amount < before.score[m as int] {
            amount as int
        } else {
            before.score[m as int] as int
        },
        after.score[m as int] >= 0,
        after.sum == before.sum - (before.score[m as int] - after.score[m as int]),
{
}

/// `after` is the table `before` once each move of `history`, no two of them in the same
/// position, got its credit, a rise when `raise` holds and a fall otherwise: entries of positions
/// not in `history` are kept, and the entry of the `j`th move is credited `credit(j)`.
pub open spec fn credit_applied(
    before: Map<u32, ScoresView>,
    after: Map<u32, ScoresView>,
    history: Seq<(u32, Move)>,
    raise: bool,
) -> bool {
    &&& after.dom() == before.dom()
    &&& forall|k: u32|
        #![trigger after[k]]
        before.contains_key(k) && !played_in(history, k) ==> after[k] == before[k]
    &&& forall|j: int|
        0 <= j < history.len() ==> #[trigger] after.contains_key(history[j].0) && credited(
            before[history[j].0],
            after[history[j].0],
            history[j].1@,
            credit(j as nat),
            raise,
        )
}

/// The moves of `p`, out of the two players' moves.
pub open spec fn moves_of(p: Player, crosses: Seq<(u32, Move)>, naughts: Seq<(u32, Move)>) -> Seq<(u32, Move)> {
    match p {
        Player::Crosses => crosses,
        Player::Naughts => naughts,
    }
}

/// `after` is the table `before` once a game won by `winner` was credited: each move of the
/// winner rose, then each move of the loser fell.
pub open spec fn game_credited(
    before: Map<u32, ScoresView>,
    after: Map<u32, ScoresView>,
    winner: Player,
    crosses: Seq<(u32, Move)>,
    naughts: Seq<(u32, Move)>,
) -> bool {
    exists|mid: Map<u32, ScoresView>|
        #![trigger credit_applied(before, mid, moves_of(winner, crosses, naughts), true)]
        credit_applied(before, mid, moves_of(winner, crosses, naughts), true) && credit_applied(
            mid,
            after,
            moves_of(other(winner), crosses, naughts),
            false,
        )
}

/// Each move of `history` has weight in the entry of its position in `t`.
pub open spec fn moves_weighted(t: Map<u32, ScoresView>, history: Seq<(u32, Move)>) -> bool {
    forall|j: int|
        0 <= j < history.len() ==> t.contains_key(#[trigger] history[j].0) && history[j].1@ < 9
            && t[history[j].0].score[history[j].1@ as int] > 0
}

/// Every weight that `before` holds above 0 is above 0 in `after` too.
pub open spec fn weights_kept(before: Map<u32, ScoresView>, after: Map<u32, ScoresView>) -> bool {
    forall|k: u32, i: int|
        #![trigger after[k].score[i]]
        before.contains_key(k) && 0 <= i < 9 && before[k].score[i] > 0 ==> after[k].score[i] > 0
}

/// `after` is `before` with entries added and none of its own changed.
pub open spec fn only_added(before: Map<u32, ScoresView>, after: Map<u32, ScoresView>) -> bool {
    &&& before.dom().subset_of(after.dom())
    &&& forall|k: u32| #[trigger] before.contains_key(k) ==> after[k] == before[k]
}

/// The player to make the `i`th move of a game: crosses first, then in turn.
pub open spec fn player_at(i: int) -> Player {
    if i % 2 == 0 {
        Player::Crosses
    } else {
        Player::Naughts
    }
}

/// The board with every cell blank.
pub open spec fn empty_board() -> Seq<Mark> {
    Seq::new(9, |i: int| Mark::Blank)
}

/// The key under which the table keeps the entry of position `cells`.
pub open spec fn key_at(cells: Seq<Mark>) -> u32 {
    key_of(cells, 9) as u32
}

/// A game from the empty board: `positions[i]` is the board before move `moves[i]`, made by
/// `player_at(i)` on a blank cell, and no move but the last ends the game.
pub open spec fn game_line(positions: Seq<Seq<Mark>>, moves: Seq<nat>) -> bool {
    &&& positions.len() == moves.len() + 1
    &&& positions[0] == empty_board()
    &&& forall|i: int| 0 <= i < positions.len() ==> (#[trigger] positions[i]).len() == 9
    &&& forall|i: int|
        0 <= i < moves.len() ==> {
            &&& #[trigger] moves[i] < 9
            &&& positions[i][moves[i] as int] == Mark::Blank
            &&& positions[i + 1] == positions[i].update(moves[i] as int, mark_of(player_at(i)))
            &&& i + 1 < moves.len() ==> result_spec(positions[i + 1], player_at(i)) is None
        }
}

/// `history` holds the moves of the game whose numbers are `parity` modulo 2, in order, each
/// with the key of the position it was made in.
pub open spec fn history_of(
    positions: Seq<Seq<Mark>>,
    moves: Seq<nat>,
    history: Seq<(u32, Move)>,
    parity: int,
) -> bool {
    &&& history.len() == (moves.len() + 1 - parity) / 2
    &&& forall|j: int|
        0 <= j < history.len() ==> (#[trigger] history[j]).0 == key_at(positions[2 * j + parity])
            && history[j].1@ == moves[2 * j + parity]
}

/// `visited` is `before` with an entry for each of the first `v` positions: the entry `before`
/// had, else the position's initial weights; and no other entry is added.
pub open spec fn visits(
    before: Map<u32, ScoresView>,
    visited: Map<u32, ScoresView>,
    positions: Seq<Seq<Mark>>,
    v: int,
) -> bool {
    &&& only_added(before, visited)
    &&& forall|i: int|
        0 <= i < v ==> #[trigger] visited.contains_key(key_at(positions[i])) && (!before.contains_key(
            key_at(positions[i]),
        ) ==> visited[key_at(positions[i])].score == initial_weights(
            blank_cells(positions[i]),
            INITIAL_SCORE,
        ) && visited[key_at(positions[i])].move_at == initial_ranking(blank_cells(positions[i])))
    &&& forall|k: u32|
        #[trigger] visited.contains_key(k) && !before.contains_key(k) ==> exists|i: int|
            0 <= i < v && key_at(#[trigger] positions[i]) == k
}

/// The game of moves `moves` through `positions` was played on table `before`, which it left as
/// `visited`, and it ended with `r`: either its last move ended it with `r`, or the player to move
/// had no move of any weight and resigned. `crosses` and `naughts` are each player's moves.
pub open spec fn game_played(
    before: Map<u32, ScoresView>,
    visited: Map<u32, ScoresView>,
    r: GameResult,
    positions: Seq<Seq<Mark>>,
    moves: Seq<nat>,
    crosses: Seq<(u32, Move)>,
    naughts: Seq<(u32, Move)>,
) -> bool {
    let n = moves.len() as int;
    let last = positions[n];
    &&& game_line(positions, moves)
    &&& history_of(positions, moves, crosses, 0)
    &&& history_of(positions, moves, naughts, 1)
    &&& forall|i: int|
        0 <= i < n ==> visited[key_at(#[trigger] positions[i])].score[moves[i] as int] > 0
    &&& if n > 0 && result_spec(last, player_at(n - 1)) is Some {
        &&& r == result_spec(last, player_at(n - 1))->0
        &&& visits(before, visited, positions, n)
    } else {
        &&& r == GameResult::Win { winner: other(player_at(n)), reason: WinReason::Resignation }
        &&& visits(before, visited, positions, n + 1)
        &&& visited[key_at(last)].sum == 0
    }
}

/// A training match was played on table `before` and credited, leaving `after`: a draw changes
/// no weight, a win credits the winner's and the loser's moves.
pub open spec fn match_played(
    before: Map<u32, ScoresView>,
    after: Map<u32, ScoresView>,
    r: GameResult,
    visited: Map<u32, ScoresView>,
    positions: Seq<Seq<Mark>>,
    moves: Seq<nat>,
    crosses: Seq<(u32, Move)>,
    naughts: Seq<(u32, Move)>,
) -> bool {
    &&& game_played(before, visited, r, positions, moves, crosses, naughts)
    &&& r == GameResult::Draw ==> after == visited
    &&& r matches GameResult::Win { winner, reason: _ } ==> game_credited(
        visited,
        after,
        winner,
        crosses,
        naughts,
    )
}

/// The positions of a game have ever fewer blanks, so a player's moves are in distinct positions.
proof fn lemma_history_distinct(
    positions: Seq<Seq<Mark>>,
    moves: Seq<nat>,
    history: Seq<(u32, Move)>,
    parity: int,
)
    requires
        0 <= parity <= 1,
        positions.len() == moves.len() + 1,
        forall|i: int|
            0 <= i < positions.len() ==> (#[trigger] positions[i]).len() == 9 && blanks_below(
                positions[i],
                9,
            ) == 9 - i,
        history_of(positions, moves, history, parity),
    ensures
        distinct_keys(history),
{
    assert forall|a: int, b: int| 0 <= a < b < history.len() implies (#[trigger] history[a]).0
        != (#[trigger] history[b]).0 by {
        let pa = positions[2 * a + parity];
        let pb = positions[2 * b + parity];
        if history[a].0 == history[b].0 {
            lemma_key_below(pa);
            lemma_key_below(pb);
            lemma_key_injective(pa, pb, 9);
            assert(pa.take(9) =~= pa);
            assert(pb.take(9) =~= pb);
        }
    }
}

/// Visiting one more position of a game keeps the table a record of the positions visited.
proof fn lemma_visit_step(
    t0: Map<u32, ScoresView>,
    t1: Map<u32, ScoresView>,
    t2: Map<u32, ScoresView>,
    positions: Seq<Seq<Mark>>,
    n: int,
)
    requires
        0 <= n < positions.len(),
        forall|i: int| 0 <= i < positions.len() ==> (#[trigger] positions[i]).len() == 9,
        visits(t0, t1, positions, n),
        table_after_visit(t1, t2, positions[n]),
    ensures
        visits(t0, t2, positions, n + 1),
        forall|k: u32| #[trigger] t1.contains_key(k) ==> t2.contains_key(k) && t2[k] == t1[k],
{
    let kn = key_at(positions[n]);
    assert forall|k: u32| #[trigger] t1.contains_key(k) implies t2.contains_key(k) && t2[k]
        == t1[k] by {
        if k == kn {
        } else {
            assert(t2[k] == t1.insert(kn, t2[kn])[k]);
        }
    }
    assert forall|i: int| 0 <= i < n + 1 implies #[trigger] t2.contains_key(key_at(positions[i]))
        && (!t0.contains_key(key_at(positions[i])) ==> t2[key_at(positions[i])].score
        == initial_weights(blank_cells(positions[i]), INITIAL_SCORE) && t2[key_at(
        positions[i],
    )].move_at == initial_ranking(blank_cells(positions[i]))) by {
        if i == n && t1.contains_key(kn) && !t0.contains_key(kn) {
            let j = choose|j: int| 0 <= j < n && key_at(#[trigger] positions[j]) == kn;
            lemma_key_below(positions[j]);
            lemma_key_below(positions[n]);
            lemma_key_injective(positions[j], positions[n], 9);
            assert(positions[j].take(9) =~= positions[j]);
            assert(positions[n].take(9) =~= positions[n]);
        } else if i < n {
            assert(t1.contains_key(key_at(positions[i])));
        }
    }
    assert forall|k: u32| #[trigger] t2.contains_key(k) && !t0.contains_key(k) implies exists|i: int|
        0 <= i < n + 1 && key_at(#[trigger] positions[i]) == k by {
        if t1.contains_key(k) {
            let j = choose|j: int| 0 <= j < n && key_at(#[trigger] positions[j]) == k;
            assert(key_at(positions[j]) == k);
        } else {
            assert(k == kn);
            assert(key_at(positions[n]) == k);
        }
    }
    assert forall|k: u32| #[trigger] t0.contains_key(k) implies t2[k] == t0[k] by {
        assert(t1.contains_key(k));
    }
}

/// A longer record of a game keeps what its first positions say.
proof fn lemma_visits_extend(
    before: Map<u32, ScoresView>,
    visited: Map<u32, ScoresView>,
    positions: Seq<Seq<Mark>>,
    x: Seq<Mark>,
    v: int,
)
    requires
        0 <= v <= positions.len(),
        visits(before, visited, positions, v),
    ensures
        visits(before, visited, positions.push(x), v),
{
    let p2 = positions.push(x);
    assert forall|i: int| 0 <= i < v implies #[trigger] p2[i] == positions[i] by {}
    assert forall|i: int| 0 <= i < v implies #[trigger] visited.contains_key(key_at(p2[i])) && (
    !before.contains_key(key_at(p2[i])) ==> visited[key_at(p2[i])].score == initial_weights(
        blank_cells(p2[i]),
        INITIAL_SCORE,
    ) && visited[key_at(p2[i])].move_at == initial_ranking(blank_cells(p2[i]))) by {
        assert(p2[i] == positions[i]);
        assert(visited.contains_key(key_at(positions[i])));
    }
    assert forall|k: u32| #[trigger] visited.contains_key(k) && !before.contains_key(k) implies exists|
        i: int,
    | 0 <= i < v && key_at(#[trigger] p2[i]) == k by {
        let j = choose|j: int| 0 <= j < v && key_at(#[trigger] positions[j]) == k;
        assert(p2[j] == positions[j]);
    }
}

/// Recording move `m` in the position `positions.last()` keeps each player's history right.
proof fn lemma_history_extend(
    positions: Seq<Seq<Mark>>,
    moves: Seq<nat>,
    h: Seq<(u32, Move)>,
    h2: Seq<(u32, Move)>,
    x: Seq<Mark>,
    m: Move,
    parity: int,
)
    requires
        0 <= parity <= 1,
        positions.len() == moves.len() + 1,
        history_of(positions, moves, h, parity),
        moves.len() % 2 == parity ==> h2 == h.push((key_at(positions[moves.len() as int]), m)),
        moves.len() % 2 != parity ==> h2 == h,
    ensures
        history_of(positions.push(x), moves.push(m@), h2, parity),
{
    let n = moves.len() as int;
    let p2 = positions.push(x);
    let m2 = moves.push(m@);
    if n % 2 == parity {
        assert((n + 2 - parity) / 2 == (n + 1 - parity) / 2 + 1);
        assert(2 * ((n + 1 - parity) / 2) + parity == n);
    } else {
        assert((n + 2 - parity) / 2 == (n + 1 - parity) / 2);
    }
    assert forall|j: int| 0 <= j < h2.len() implies (#[trigger] h2[j]).0 == key_at(
        p2[2 * j + parity],
    ) && h2[j].1@ == m2[2 * j + parity] by {
        if j < h.len() {
            assert(h2[j] == h[j]);
            assert(2 * j + parity < n + 1);
            assert(p2[2 * j + parity] == positions[2 * j + parity]);
            if 2 * j + parity < n {
                assert(m2[2 * j + parity] == moves[2 * j + parity]);
            }
        }
    }
}

/// Each player's moves of a game were made with weight, in positions the table holds.
proof fn lemma_history_weighted(
    before: Map<u32, ScoresView>,
    visited: Map<u32, ScoresView>,
    r: GameResult,
    positions: Seq<Seq<Mark>>,
    moves: Seq<nat>,
    crosses: Seq<(u32, Move)>,
    naughts: Seq<(u32, Move)>,
)
    requires
        game_played(before, visited, r, positions, moves, crosses, naughts),
    ensures
        moves_weighted(visited, crosses),
        moves_weighted(visited, naughts),
{
    let n = moves.len() as int;
    let v = if n > 0 && result_spec(positions[n], player_at(n - 1)) is Some {
        n
    } else {
        n + 1
    };
    assert(visits(before, visited, positions, v));
    assert(game_line(positions, moves));
    assert forall|j: int| 0 <= j < crosses.len() implies visited.contains_key(
        #[trigger] crosses[j].0,
    ) && crosses[j].1@ < 9 && visited[crosses[j].0].score[crosses[j].1@ as int] > 0 by {
        assert(2 * j < n);
        assert(moves[2 * j] < 9);
        assert(visited.contains_key(key_at(positions[2 * j])));
    }
    assert forall|j: int| 0 <= j < naughts.len() implies visited.contains_key(
        #[trigger] naughts[j].0,
    ) && naughts[j].1@ < 9 && visited[naughts[j].0].score[naughts[j].1@ as int] > 0 by {
        assert(2 * j + 1 < n);
        assert(moves[2 * j + 1] < 9);
        assert(visited.contains_key(key_at(positions[2 * j + 1])));
    }
}

/// The machine playing tic-tac-toe: weights for the moves of each position it has met, and a
/// source of random numbers.
pub struct Machine {
    values: HashMap<u32, MoveScores>,
    rng: StdRng,
}

impl View for Machine {
    type V = Map<u32, ScoresView>;

    closed spec fn view(&self) -> Map<u32, ScoresView> {
        self.values@.map_values(|s: MoveScores| s@)
    }
}

impl Machine {
    /// A machine that has met no position yet.
    pub fn new() -> (r: Machine)
        ensures
            r@ == Map::<u32, ScoresView>::empty(),
            table_wf(r@),
    {
        let r = Machine { values: HashMap::new(), rng: seeded_rng(RAND_SEED) };
        assert(r@ =~= Map::<u32, ScoresView>::empty());
        r
    }

    /// The entries of the table: one per position met, under the position's key.
    pub fn values(&self) -> (r: &HashMap<u32, MoveScores>)
        ensures
            r@.map_values(|s: MoveScores| s@) == self@,
    {
        &self.values
    }

    /// The weights for `pos`, made from its legal moves if `pos` is new.
    pub fn get_move_scores(&mut self, pos: State) -> (r: MoveScores)
        requires
            table_wf(old(self)@),
        ensures
            table_wf(final(self)@),
            table_after_visit(old(self)@, final(self)@, pos@),
            r@ == final(self)@[key_of(pos@, 9) as u32],
    {
        let k = pos.key();
        let ghost t0 = self@;
        let found = self.values.get(&k);
        match found {
            Some(s) => {
                let s = *s;
                proof {
                    assert(self@ =~= t0.insert(k, self@[k]));
                }
                s
            },
            None => {
                let s = MoveScores::initial(&pos, INITIAL_SCORE);
                self.values.insert(k, s);
                proof {
                    assert(self@ =~= t0.insert(k, s@));
                    assert forall|k2: u32, cells: Seq<Mark>, i: int|
                        #![trigger self@[k2].score[i], key_of(cells, 9)]
                        self@.contains_key(k2) && cells.len() == 9 && key_of(cells, 9) == k2 && 0
                            <= i < 9 && self@[k2].score[i] > 0 implies cells[i] == Mark::Blank by {
                        if k2 == k {
                            lemma_key_injective(cells, pos@, 9);
                            assert(cells.take(9) =~= cells);
                            assert(pos@.take(9) =~= pos@);
                        } else {
                            assert(t0.contains_key(k2));
                            assert(self@[k2] == t0[k2]);
                        }
                    }
                }
                s
            },
        }
    }
}

impl Machine {
    /// Picks a move for `pos` at random, each move with chance in proportion to its weight; none
    /// when no move of `pos` has weight.
    pub fn select_move(&mut self, pos: State) -> (r: Option<Move>)
        requires
            table_wf(old(self)@),
        ensures
            table_wf(final(self)@),
            table_after_visit(old(self)@, final(self)@, pos@),
            r is None <==> final(self)@[key_of(pos@, 9) as u32].sum == 0,
            r matches Some(m) ==> {
                &&& m@ < 9
                &&& final(self)@[key_of(pos@, 9) as u32].score[m@ as int] > 0
                &&& pos@[m@ as int] == Mark::Blank
            },
    {
        let scores = self.get_move_scores(pos);
        let total = scores.score_sum();
        if total == 0 {
            return None;
        }
        let x = draw_below(&mut self.rng, total);
        let m = scores.move_for_draw(x);
        proof {
            pos.lemma_len();
            let k = key_of(pos@, 9) as u32;
            assert(self@[k].score[m@ as int] > 0);
            assert(key_of(pos@, 9) == k);
            assert(pos@[m@ as int] == Mark::Blank);
        }
        Some(m)
    }
}

impl Machine {
    /// Credits the moves of `history`, each a position's key and the move played there, in the
    /// order they were played: the `j`th move's weight rises by `credit(j)` when `raise` holds,
    /// else falls by it. A rise that would overflow the sum of the weights is left out.
    fn apply_credit(&mut self, history: &Vec<(u32, Move)>, raise: bool)
        requires
            table_wf(old(self)@),
            moves_weighted(old(self)@, history@),
            distinct_keys(history@),
        ensures
            table_wf(final(self)@),
            credit_applied(old(self)@, final(self)@, history@, raise),
            raise ==> weights_kept(old(self)@, final(self)@),
    {
        let ghost t0 = self@;
        let mut k_ppm: u64 = PPM;
        for j in 0..history.len()
            invariant
                table_wf(self@),
                moves_weighted(t0, history@),
                distinct_keys(history@),
                self@.dom() == t0.dom(),
                forall|k: u32|
                    #![trigger self@[k]]
                    t0.contains_key(k) && !played_in(history@, k) ==> self@[k] == t0[k],
                k_ppm == multiplier(j as nat),
                k_ppm <= PPM,
                forall|i: int|
                    0 <= i < j ==> #[trigger] self@.contains_key(history@[i].0) && credited(
                        t0[history@[i].0],
                        self@[history@[i].0],
                        history@[i].1@,
                        credit(i as nat),
                        raise,
                    ),
                forall|i: int|
                    j <= i < history@.len() ==> #[trigger] self@[history@[i].0] == t0[history@[i].0],
                raise ==> weights_kept(t0, self@),
        {
            let (key, m) = history[j];
            let amount = (k_ppm + PPM / 2) / PPM;
            let ghost t1 = self@;
            proof {
                assert(history@[j as int].0 == key && history@[j as int].1 == m);
                assert(t0.contains_key(key));
                assert(t1[key] == t0[key]);
            }
            let mut s = self.values.remove(&key).unwrap();
            let ghost s0 = s@;
            proof {
                assert(s0 == t1[key]);
            }
            if raise {
                if amount <= u64::MAX - s.score_sum() {
                    s.increase(m, amount);
                }
            } else {
                s.decrease(m, amount);
            }
            proof {
                assert forall|i: int| 0 <= i < 9 && s@.score[i] > 0 implies s0.score[i] > 0 by {
                    if i != m@ {
                        assert(s@.score[i] == s0.score[i]);
                    }
                }
            }
            self.values.insert(key, s);
            proof {
                assert(self@ =~= t1.insert(key, s@));
                assert(credited(t0[key], s@, m@, credit(j as nat), raise));
                assert forall|i: int| 0 <= i < j + 1 implies #[trigger] self@.contains_key(
                    history@[i].0,
                ) && credited(
                    t0[history@[i].0],
                    self@[history@[i].0],
                    history@[i].1@,
                    credit(i as nat),
                    raise,
                ) by {
                    if i < j {
                        assert(history@[i].0 != key);
                        assert(self@[history@[i].0] == t1[history@[i].0]);
                    }
                }
                assert forall|i: int| j + 1 <= i < history@.len() implies #[trigger] self@[
                    history@[i].0
                ] == t0[history@[i].0] by {
                    assert(history@[i].0 != key);
                    assert(self@[history@[i].0] == t1[history@[i].0]);
                }
                assert(played_in(history@, key));
                if raise {
                    assert forall|k2: u32, i: int|
                        #![trigger self@[k2].score[i]]
                        t0.contains_key(k2) && 0 <= i < 9 && t0[k2].score[i] > 0 implies self@[
                            k2
                        ].score[i] > 0 by {
                        if k2 == key {
                            assert(t1[k2].score[i] > 0);
                        }
                    }
                }
                assert forall|k2: u32, cells: Seq<Mark>, i: int|
                    #![trigger self@[k2].score[i], key_of(cells, 9)]
                    self@.contains_key(k2) && cells.len() == 9 && key_of(cells, 9) == k2 && 0 <= i
                        < 9 && self@[k2].score[i] > 0 implies cells[i] == Mark::Blank by {
                    assert(t1.contains_key(k2));
                    if k2 == key {
                        assert(t1[k2].score[i] > 0);
                    }
                }
            }
            proof {
                lemma_decay_bound(k_ppm as nat);
            }
            k_ppm = k_ppm * DECAY_PPM / PPM;
        }
    }
}

impl Machine {
    /// Plays one game of the machine against itself, crosses first, and then credits the moves:
    /// after a win, each move of the winner rises and each move of the loser falls, by the credit
    /// of its place among that player's moves. A player left without a move of any weight
    /// resigns.
    pub fn play_training_match(&mut self) -> (r: GameResult)
        requires
            table_wf(old(self)@),
        ensures
            table_wf(final(self)@),
            exists|
                visited: Map<u32, ScoresView>,
                positions: Seq<Seq<Mark>>,
                moves: Seq<nat>,
                crosses: Seq<(u32, Move)>,
                naughts: Seq<(u32, Move)>,
            |
                #[trigger] match_played(
                    old(self)@,
                    final(self)@,
                    r,
                    visited,
                    positions,
                    moves,
                    crosses,
                    naughts,
                ),
    {
        let ghost t0 = self@;
        let mut pos = State::new();
        let mut crosses: Vec<(u32, Move)> = Vec::new();
        let mut naughts: Vec<(u32, Move)> = Vec::new();
        let mut turn = Player::Crosses;
        let mut result = GameResult::Draw;
        let ghost mut positions: Seq<Seq<Mark>> = seq![pos@];
        let ghost mut moves: Seq<nat> = Seq::empty();
        proof {
            pos.lemma_len();
            assert(pos@ =~= empty_board());
            reveal_with_fuel(blanks_below, 10);
            assert(blanks_below(pos@, 9) == 9);
            assert(t0.dom().subset_of(self@.dom()));
        }
        loop
            invariant_except_break
                table_wf(self@),
                positions.len() == moves.len() + 1,
                positions[0] == empty_board(),
                forall|i: int|
                    0 <= i < positions.len() ==> (#[trigger] positions[i]).len() == 9
                        && blanks_below(positions[i], 9) == 9 - i,
                forall|i: int|
                    0 <= i < moves.len() ==> {
                        &&& #[trigger] moves[i] < 9
                        &&& positions[i][moves[i] as int] == Mark::Blank
                        &&& positions[i + 1] == positions[i].update(
                            moves[i] as int,
                            mark_of(player_at(i)),
                        )
                        &&& result_spec(positions[i + 1], player_at(i)) is None
                    },
                pos@ == positions[moves.len() as int],
                turn == player_at(moves.len() as int),
                history_of(positions, moves, crosses@, 0),
                history_of(positions, moves, naughts@, 1),
                visits(t0, self@, positions, moves.len() as int),
                forall|i: int|
                    0 <= i < moves.len() ==> self@[key_at(#[trigger] positions[i])].score[moves[i] as int]
                        > 0,
            ensures
                table_wf(self@),
                game_played(t0, self@, result, positions, moves, crosses@, naughts@),
                forall|i: int|
                    0 <= i < positions.len() ==> (#[trigger] positions[i]).len() == 9
                        && blanks_below(positions[i], 9) == 9 - i,
            decreases blanks_below(pos@, 9),
        {
            let ghost t1 = self@;
            let ghost n = moves.len() as int;
            let chosen = self.select_move(pos);
            proof {
                lemma_visit_step(t0, t1, self@, positions, n);
                assert forall|i: int| 0 <= i < n implies self@[key_at(
                    #[trigger] positions[i],
                )].score[moves[i] as int] > 0 by {
                    assert(t1.contains_key(key_at(positions[i])));
                }
            }
            match chosen {
                None => {
                    result = GameResult::Win { winner: turn.opponent(), reason: WinReason::Resignation };
                    proof {
                        if n > 0 {
                            assert(result_spec(positions[n], player_at(n - 1)) is None) by {
                                assert(moves[n - 1] < 9);
                            }
                        }
                    }
                    break;
                },
                Some(m) => {
                    let key = pos.key();
                    let ghost hc = crosses@;
                    let ghost hn = naughts@;
                    match turn {
                        Player::Crosses => crosses.push((key, m)),
                        Player::Naughts => naughts.push((key, m)),
                    }
                    let ghost before = pos@;
                    pos.play(m, turn);
                    proof {
                        lemma_fill_blank(before, m@ as int, mark_of(turn), 9);
                        lemma_key_below(before);
                        assert(key_at(before) == key);
                        let old_positions = positions;
                        let old_moves = moves;
                        lemma_visits_extend(t0, self@, old_positions, pos@, n + 1);
                        lemma_history_extend(old_positions, old_moves, hc, crosses@, pos@, m, 0);
                        lemma_history_extend(old_positions, old_moves, hn, naughts@, pos@, m, 1);
                        positions = positions.push(pos@);
                        moves = moves.push(m@);
                        assert forall|i: int| 0 <= i <= n implies positions[i] == old_positions[i] by {}
                    }
                    match pos.result(turn) {
                        Some(res) => {
                            result = res;
                            break;
                        },
                        None => {},
                    }
                    turn = turn.opponent();
                },
            }
        }
        let ghost visited = self@;
        proof {
            lemma_history_distinct(positions, moves, crosses@, 0);
            lemma_history_distinct(positions, moves, naughts@, 1);
            lemma_history_weighted(t0, visited, result, positions, moves, crosses@, naughts@);
        }
        self.assign_credit(result, &crosses, &naughts);
        proof {
            assert(match_played(t0, self@, result, visited, positions, moves, crosses@, naughts@));
        }
        result
    }
}

impl Machine {
    /// Credits the moves of a finished game, `crosses` and `naughts` being each player's moves in
    /// the order played, each with the key of the position it was played in: after a win the
    /// winner's moves rise and the loser's fall; a draw changes nothing.
    pub fn assign_credit(
        &mut self,
        result: GameResult,
        crosses: &Vec<(u32, Move)>,
        naughts: &Vec<(u32, Move)>,
    )
        requires
            table_wf(old(self)@),
            moves_weighted(old(self)@, crosses@),
            moves_weighted(old(self)@, naughts@),
            distinct_keys(crosses@),
            distinct_keys(naughts@),
        ensures
            table_wf(final(self)@),
            result == GameResult::Draw ==> final(self)@ == old(self)@,
            result matches GameResult::Win { winner, reason: _ } ==> game_credited(
                old(self)@,
                final(self)@,
                winner,
                crosses@,
                naughts@,
            ),
    {
        match result {
            GameResult::Win { winner, reason: _ } => {
                let (won, lost) = match winner {
                    Player::Crosses => (crosses, naughts),
                    Player::Naughts => (naughts, crosses),
                };
                let ghost t0 = self@;
                self.apply_credit(won, true);
                let ghost mid = self@;
                proof {
                    assert forall|j: int| 0 <= j < lost@.len() implies mid.contains_key(
                        #[trigger] lost@[j].0,
                    ) && mid[lost@[j].0].score[lost@[j].1@ as int] > 0 by {
                        assert(t0.contains_key(lost@[j].0));
                        assert(t0[lost@[j].0].score[lost@[j].1@ as int] > 0);
                    }
                }
                self.apply_credit(lost, false);
                assert(credit_applied(t0, mid, moves_of(winner, crosses@, naughts@), true));
                assert(credit_applied(
                    mid,
                    self@,
                    moves_of(other(winner), crosses@, naughts@),
                    false,
                ));
            },
            GameResult::Draw => {},
        }
    }
}

} // verus!
