use crate::moves::{members_below, Move};
use crate::tic_tac_toe::{blank_cells, State};
use vstd::prelude::*;

verus! {

/// Weights for the moves of one position, with the moves kept in order of weight.
///
/// Each legal move starts at a positive weight and each other move at 0; the weights then change
/// one at a time, by `increase` and `decrease`.
#[derive(Debug, Clone, Copy)]
pub struct MoveScores {
    /// `score[m]` is the weight of move `m`.
    score: [u64; 9],
    /// `order[m] == i` when `m` has the `i`th highest weight.
    order: [usize; 9],
    /// `move_at[i] == m` when `m` has the `i`th highest weight.
    move_at: [Move; 9],
    /// The sum of the weights.
    score_sum: u64,
}

/// What a `MoveScores` holds, by move index.
pub struct ScoresView {
    pub score: Seq<u64>,
    pub rank_of: Seq<usize>,
    pub move_at: Seq<nat>,
    pub sum: u64,
}

/// The sum of a sequence of weights.
pub open spec fn seq_sum(s: Seq<u64>) -> int
    decreases s.len(),
{
    if s.len() == 0 {
        0
    } else {
        seq_sum(s.drop_last()) + s.last()
    }
}

/// The weights read in rank order.
pub open spec fn ranked_scores(v: ScoresView) -> Seq<u64> {
    Seq::new(9, |r: int| v.score[v.move_at[r] as int])
}

/// `rank_of` and `move_at` are inverse permutations of the nine moves.
pub open spec fn ranks_consistent(v: ScoresView) -> bool {
    &&& v.score.len() == 9
    &&& v.rank_of.len() == 9
    &&& v.move_at.len() == 9
    &&& forall|m: int|
        0 <= m < 9 ==> #[trigger] v.rank_of[m] < 9 && v.move_at[v.rank_of[m] as int] == m
    &&& forall|r: int|
        0 <= r < 9 ==> #[trigger] v.move_at[r] < 9 && v.rank_of[v.move_at[r] as int] == r
}

/// The weights do not increase along the ranks.
pub open spec fn ranks_sorted(v: ScoresView) -> bool {
    forall|a: int, b: int|
        0 <= a < b < 9 ==> #[trigger] v.score[v.move_at[a] as int] >= #[trigger] v.score[
            v.move_at[b] as int
        ]
}

/// The invariant of `MoveScores`.
pub open spec fn scores_wf(v: ScoresView) -> bool {
    &&& ranks_consistent(v)
    &&& ranks_sorted(v)
    &&& v.sum == seq_sum(v.score)
    &&& v.sum == seq_sum(ranked_scores(v))
}

/// The sum of the weights of the ranks below `k`.
pub open spec fn rank_prefix(v: ScoresView, k: int) -> int {
    seq_sum(ranked_scores(v).take(k))
}

proof fn lemma_sum_push(s: Seq<u64>, x: u64)
    ensures
        seq_sum(s.push(x)) == seq_sum(s) + x,
{
    assert(s.push(x).drop_last() =~= s);
}

proof fn lemma_sum_take_next(s: Seq<u64>, k: int)
    requires
        0 <= k < s.len(),
    ensures
        seq_sum(s.take(k + 1)) == seq_sum(s.take(k)) + s[k],
{
    assert(s.take(k + 1).drop_last() =~= s.take(k));
}

proof fn lemma_sum_update(s: Seq<u64>, k: int, x: u64)
    requires
        0 <= k < s.len(),
    ensures
        seq_sum(s.update(k, x)) == seq_sum(s) - s[k] + x,
    decreases s.len(),
{
    let t = s.update(k, x);
    if k == s.len() - 1 {
        assert(t.drop_last() =~= s.drop_last());
    } else {
        lemma_sum_update(s.drop_last(), k, x);
        assert(t.drop_last() =~= s.drop_last().update(k, x));
    }
}

proof fn lemma_sum_swap(s: Seq<u64>, i: int)
    requires
        0 <= i,
        i + 1 < s.len(),
    ensures
        seq_sum(s.update(i, s[i + 1]).update(i + 1, s[i])) == seq_sum(s),
{
    lemma_sum_update(s, i, s[i + 1]);
    lemma_sum_update(s.update(i, s[i + 1]), i + 1, s[i]);
}

proof fn lemma_sum_nonneg(s: Seq<u64>)
    ensures
        seq_sum(s) >= 0,
    decreases s.len(),
{
    if s.len() > 0 {
        lemma_sum_nonneg(s.drop_last());
    }
}

/// What every `MoveScores` keeps, from its creation through any sequence of `increase` and
/// `decrease`, each of which keeps `scores_wf`: the ranks and the moves at them are inverse, the
/// weights do not increase from one rank to the next, and the sum is the exact sum of the weights.
pub proof fn lemma_scores_invariant(v: ScoresView)
    requires
        scores_wf(v),
    ensures
        forall|i: int| 0 <= i < 9 ==> v.rank_of[#[trigger] v.move_at[i] as int] == i,
        forall|m: int| 0 <= m < 9 ==> v.move_at[#[trigger] v.rank_of[m] as int] == m,
        forall|i: int|
            0 < i < 9 ==> v.score[v.move_at[i - 1] as int] >= v.score[#[trigger] v.move_at[i] as int],
        v.sum == seq_sum(v.score),
{
    assert forall|i: int| 0 < i < 9 implies v.score[v.move_at[i - 1] as int] >= v.score[
        #[trigger] v.move_at[i] as int
    ] by {
        assert(v.score[v.move_at[i - 1] as int] >= v.score[v.move_at[i] as int]);
    }
}

impl View for MoveScores {
    type V = ScoresView;

    closed spec fn view(&self) -> ScoresView {
        ScoresView {
            score: self.score@,
            rank_of: self.order@,
            move_at: self.move_at@.map_values(|m: Move| m@),
            sum: self.score_sum,
        }
    }
}

/// The moves that are not in `s`.
pub open spec fn others(s: Set<nat>) -> Set<nat> {
    Set::new(|i: nat| !s.contains(i))
}

/// The starting weights: `w` for each move of `legal`, 0 for the others.
pub open spec fn initial_weights(legal: Set<nat>, w: u64) -> Seq<u64> {
    Seq::new(9, |i: int| if legal.contains(i as nat) { w } else { 0 })
}

/// The starting ranks: the moves of `legal` ascending, then the others ascending.
pub open spec fn initial_ranking(legal: Set<nat>) -> Seq<nat> {
    members_below(legal, 9) + members_below(others(legal), 9)
}

spec fn filled(move_at: Seq<Move>, len: int) -> Seq<nat> {
    Seq::new(len as nat, |r: int| move_at[r]@)
}

spec fn filled_scores(score: Seq<u64>, move_at: Seq<Move>, len: int) -> Seq<u64> {
    Seq::new(len as nat, |r: int| score[move_at[r]@ as int])
}

proof fn lemma_members_split(s: Set<nat>, n: nat)
    ensures
        members_below(s, n).len() + members_below(others(s), n).len() == n,
    decreases n,
{
    if n > 0 {
        lemma_members_split(s, (n - 1) as nat);
    }
}

proof fn lemma_members_mono(s: Set<nat>, a: nat, b: nat)
    requires
        a <= b,
    ensures
        members_below(s, a).len() <= members_below(s, b).len(),
    decreases b - a,
{
    if a < b {
        lemma_members_mono(s, a, (b - 1) as nat);
    }
}

impl MoveScores {
    /// Weights for position `pos`: `initial_score` for each legal move, 0 for the others, ranked
    /// legal moves first, each group by index.
    pub fn initial(pos: &State, initial_score: u64) -> (r: MoveScores)
        requires
            initial_score <= u64::MAX / 9,
        ensures
            scores_wf(r@),
            r@.score == initial_weights(blank_cells(pos@), initial_score),
            r@.move_at == initial_ranking(blank_cells(pos@)),
            r@.sum == initial_score * members_below(blank_cells(pos@), 9).len(),
    {
        let legal = pos.legal_moves();
        let ghost lg = legal@;
        let ghost others_lg = others(lg);
        let mut score = [0u64; 9];
        let mut order = [0usize; 9];
        let mut move_at = [Move::from_usize(0); 9];
        let mut len: usize = 0;
        let mut sum: u64 = 0;
        proof {
            lemma_zero_sum(9);
            assert(score@ =~= Seq::new(9nat, |i: int| 0u64));
            assert(filled(move_at@, 0) =~= members_below(lg, 0));
            assert(filled_scores(score@, move_at@, 0) =~= Seq::<u64>::empty());
        }
        for i in 0..9usize
            invariant
                lg == legal@,
                initial_score <= u64::MAX / 9,
                len <= i,
                len == members_below(lg, i as nat).len(),
                filled(move_at@, len as int) == members_below(lg, i as nat),
                forall|r: int| 0 <= r < len ==> {
                    &&& #[trigger] move_at@[r]@ < i
                    &&& lg.contains(move_at@[r]@)
                    &&& order@[move_at@[r]@ as int] == r
                    &&& score@[move_at@[r]@ as int] == initial_score
                },
                forall|m: int|
                    0 <= m < i && lg.contains(m as nat) ==> #[trigger] order@[m] < len
                        && move_at@[order@[m] as int]@ == m,
                forall|m: int|
                    0 <= m < 9 ==> #[trigger] score@[m] == if m < i && lg.contains(m as nat) {
                        initial_score
                    } else {
                        0
                    },
                sum == seq_sum(score@),
                sum == seq_sum(filled_scores(score@, move_at@, len as int)),
                sum <= i * initial_score,
                sum == len * initial_score,
        {
            let m = Move::from_usize(i);
            if legal.contains(m) {
                proof {
                    lemma_sum_update(score@, i as int, initial_score);
                    assert(sum + initial_score <= (i + 1) * initial_score) by (nonlinear_arith)
                        requires
                            sum <= i * initial_score,
                    ;
                    assert((i + 1) * initial_score <= 9 * initial_score) by (nonlinear_arith)
                        requires
                            i < 9,
                    ;
                    assert((len + 1) * initial_score == len * initial_score + initial_score)
                        by (nonlinear_arith);
                }
                let ghost old_score = score@;
                let ghost old_move_at = move_at@;
                score[i] = initial_score;
                sum = sum + initial_score;
                move_at[len] = m;
                order[i] = len;
                proof {
                    assert(filled_scores(score@, move_at@, len + 1) =~= filled_scores(
                        old_score,
                        old_move_at,
                        len as int,
                    ).push(initial_score));
                    lemma_sum_push(filled_scores(old_score, old_move_at, len as int), initial_score);
                    assert(filled(move_at@, len + 1) =~= filled(old_move_at, len as int).push(
                        i as nat,
                    ));
                }
                len = len + 1;
            } else {
                proof {
                    assert(sum <= (i + 1) * initial_score) by (nonlinear_arith)
                        requires
                            sum <= i * initial_score,
                    ;
                }
            }
        }
        let ghost c = len as nat;
        proof {
            assert(len * initial_score == initial_score * len) by (nonlinear_arith);
            lemma_members_split(lg, 9);
        }
        for i in 0..9usize
            invariant
                lg == legal@,
                others_lg == others(lg),
                lg == blank_cells(pos@),
                sum == initial_score * c,
                c == members_below(lg, 9).len(),
                c + members_below(others_lg, 9).len() == 9,
                len == c + members_below(others_lg, i as nat).len(),
                filled(move_at@, len as int) == members_below(lg, 9) + members_below(
                    others_lg,
                    i as nat,
                ),
                forall|r: int| 0 <= r < len ==> {
                    &&& #[trigger] move_at@[r]@ < 9
                    &&& (lg.contains(move_at@[r]@) || move_at@[r]@ < i)
                    &&& order@[move_at@[r]@ as int] == r
                    &&& score@[move_at@[r]@ as int] == if r < c {
                        initial_score
                    } else {
                        0
                    }
                },
                forall|m: int|
                    0 <= m < 9 && (lg.contains(m as nat) || (m < i && !lg.contains(m as nat)))
                        ==> #[trigger] order@[m] < len && move_at@[order@[m] as int]@ == m,
                forall|m: int|
                    0 <= m < 9 ==> #[trigger] score@[m] == if lg.contains(m as nat) {
                        initial_score
                    } else {
                        0
                    },
                sum == seq_sum(score@),
                sum == seq_sum(filled_scores(score@, move_at@, len as int)),
        {
            let m = Move::from_usize(i);
            if !legal.contains(m) {
                proof {
                    lemma_members_mono(others_lg, (i + 1) as nat, 9);
                }
                let ghost old_move_at = move_at@;
                move_at[len] = m;
                order[i] = len;
                proof {
                    assert(filled_scores(score@, move_at@, len + 1) =~= filled_scores(
                        score@,
                        old_move_at,
                        len as int,
                    ).push(0));
                    lemma_sum_push(filled_scores(score@, old_move_at, len as int), 0);
                    assert(filled(move_at@, len + 1) =~= filled(old_move_at, len as int).push(
                        i as nat,
                    ));
                }
                len = len + 1;
            }
        }
        let r = MoveScores { score, order, move_at, score_sum: sum };
        proof {
            assert(r@.move_at =~= filled(move_at@, 9));
            assert(ranked_scores(r@) =~= filled_scores(score@, move_at@, 9));
            assert(r@.score =~= initial_weights(lg, initial_score));
        }
        r
    }
}

proof fn lemma_zero_sum(k: nat)
    ensures
        seq_sum(Seq::new(k, |i: int| 0u64)) == 0,
    decreases k,
{
    if k > 0 {
        lemma_zero_sum((k - 1) as nat);
        assert(Seq::new(k, |i: int| 0u64).drop_last() =~= Seq::new((k - 1) as nat, |i: int| 0u64));
    }
}

/// `m`, whose weight rose, moved up past exactly the moves above it that now weigh less; the
/// order of the other moves is kept.
pub open spec fn moved_up(before: ScoresView, after: ScoresView, m: nat) -> bool {
    let i = before.rank_of[m as int] as int;
    let r = after.rank_of[m as int] as int;
    let w = after.score[m as int];
    &&& r <= i
    &&& forall|j: int| 0 <= j < r ==> before.score[#[trigger] before.move_at[j] as int] >= w
    &&& forall|j: int| r <= j < i ==> before.score[#[trigger] before.move_at[j] as int] < w
    &&& after.move_at == before.move_at.remove(i).insert(r, m)
}

/// `m`, whose weight fell, moved down past exactly the moves below it that now weigh more; the
/// order of the other moves is kept.
pub open spec fn moved_down(before: ScoresView, after: ScoresView, m: nat) -> bool {
    let i = before.rank_of[m as int] as int;
    let r = after.rank_of[m as int] as int;
    let w = after.score[m as int];
    &&& i <= r
    &&& forall|j: int| i < j <= r ==> before.score[#[trigger] before.move_at[j] as int] > w
    &&& forall|j: int| r < j < 9 ==> before.score[#[trigger] before.move_at[j] as int] <= w
    &&& after.move_at == before.move_at.remove(i).insert(r, m)
}

impl MoveScores {
    /// Adds `amount` to the weight of `m`, a move that has weight, and moves it up the ranks past
    /// the moves that now weigh less.
    pub fn increase(&mut self, m: Move, amount: u64)
        requires
            scores_wf(old(self)@),
            old(self)@.score[m@ as int] > 0,
            old(self)@.sum + amount <= u64::MAX,
        ensures
            scores_wf(final(self)@),
            final(self)@.score == old(self)@.score.update(
                m@ as int,
                (old(self)@.score[m@ as int] + amount) as u64,
            ),
            final(self)@.score[m@ as int] == old(self)@.score[m@ as int] + amount,
            final(self)@.sum == old(self)@.sum + amount,
            moved_up(old(self)@, final(self)@, m@),
    {
        let ghost v0 = self@;
        let k = m.to_usize();
        let i0 = self.order[k];
        proof {
            lemma_sum_update(self.score@, k as int, (self.score[k as int] + amount) as u64);
            lemma_sum_update(ranked_scores(v0), i0 as int, (self.score[k as int] + amount) as u64);
            assert(self.score[k as int] <= self.score_sum) by {
                lemma_sum_update(self.score@, k as int, 0);
                lemma_sum_nonneg(self.score@.update(k as int, 0));
            }
        }
        self.score[k] = self.score[k] + amount;
        self.score_sum = self.score_sum + amount;
        let w = self.score[k];
        proof {
            assert(ranked_scores(self@) =~= ranked_scores(v0).update(i0 as int, w));
            assert(self@.move_at =~= v0.move_at.remove(i0 as int).insert(i0 as int, k as nat));
        }
        let mut i = i0;
        while i > 0
            invariant
                ranks_consistent(self@),
                self@.score == v0.score.update(k as int, w),
                self@.sum == seq_sum(self@.score),
                self@.sum == seq_sum(ranked_scores(self@)),
                scores_wf(v0),
                k < 9,
                k == m@,
                i0 == v0.rank_of[k as int],
                w == self.score[k as int],
                w >= v0.score[k as int],
                i <= i0,
                self.order[k as int] == i,
                self@.move_at == v0.move_at.remove(i0 as int).insert(i as int, k as nat),
                forall|j: int| i <= j < i0 ==> v0.score[#[trigger] v0.move_at[j] as int] < w,
                forall|a: int, b: int|
                    0 <= a < b < 9 && a != i && b != i ==> self@.score[#[trigger] self@.move_at[a] as int]
                        >= self@.score[#[trigger] self@.move_at[b] as int],
                forall|b: int| i < b < 9 ==> w >= self@.score[#[trigger] self@.move_at[b] as int],
            ensures
                i == 0 || self@.score[self@.move_at[i - 1] as int] >= w,
            decreases i,
        {
            let prev = self.move_at[i - 1];
            let p = prev.to_usize();
            if self.score[p] >= w {
                break;
            }
            let ghost before = self@;
            let ghost arr = self.move_at@;
            proof {
                assert(before.rank_of[k as int] == i);
                assert(before.move_at[i as int] == k);
                assert(before.move_at[i - 1] == p);
            }
            self.order[p] = self.order[p] + 1;
            self.order[k] = self.order[k] - 1;
            self.move_at[i] = prev;
            self.move_at[i - 1] = m;
            proof {
                assert(self.move_at@ == arr.update(i as int, prev).update(i - 1, m));
                assert forall|j: int| 0 <= j < 9 implies #[trigger] self@.move_at[j] == (
                if j == i - 1 {
                    k as nat
                } else if j == i {
                    p as nat
                } else {
                    before.move_at[j]
                }) by {
                    assert(self@.move_at[j] == self.move_at@[j]@);
                    assert(before.move_at[j] == arr[j]@);
                }
                assert(self@.move_at =~= before.move_at.update(i as int, p as nat).update(
                    i - 1,
                    k as nat,
                ));
                assert(self@.score == before.score);
                assert(ranked_scores(self@) =~= ranked_scores(before).update(
                    i - 1,
                    ranked_scores(before)[i as int],
                ).update(i as int, ranked_scores(before)[i - 1]));
                lemma_sum_swap(ranked_scores(before), i - 1);
                assert(self@.move_at =~= v0.move_at.remove(i0 as int).insert(i - 1, k as nat));
            }
            i = i - 1;
        }
        proof {
            let v = self@;
            assert(v.score =~= v0.score.update(k as int, w));
            assert(v.move_at[i as int] == k);
            assert forall|j: int| 0 <= j < i implies v.move_at[j] == v0.move_at[j] && v0.move_at[j]
                != k && v0.score[#[trigger] v0.move_at[j] as int] >= w by {
                if j < i - 1 {
                    assert(v.score[v.move_at[j] as int] >= v.score[v.move_at[i - 1] as int]);
                }
            }
            assert forall|a: int, b: int| 0 <= a < b < 9 implies v.score[v.move_at[a] as int]
                >= v.score[v.move_at[b] as int] by {
                if b == i && a < i - 1 {
                    assert(v.score[v.move_at[a] as int] >= v.score[v.move_at[i - 1] as int]);
                }
            }
        }
    }
}

impl MoveScores {
    /// Takes `amount` from the weight of `m`, a move that has weight, but no more than its
    /// weight, and moves it down the ranks past the moves that now weigh more.
    pub fn decrease(&mut self, m: Move, amount: u64)
        requires
            scores_wf(old(self)@),
            old(self)@.score[m@ as int] > 0,
        ensures
            scores_wf(final(self)@),
            final(self)@.score == old(self)@.score.update(
                m@ as int,
                if amount < old(self)@.score[m@ as int] {
                    (old(self)@.score[m@ as int] - amount) as u64
                } else {
                    0
                },
            ),
            final(self)@.sum == old(self)@.sum - old(self)@.score[m@ as int]
                + final(self)@.score[m@ as int],
            moved_down(old(self)@, final(self)@, m@),
    {
        let ghost v0 = self@;
        let k = m.to_usize();
        let i0 = self.order[k];
        let taken = if amount < self.score[k] {
            amount
        } else {
            self.score[k]
        };
        proof {
            lemma_sum_update(self.score@, k as int, (self.score[k as int] - taken) as u64);
            lemma_sum_update(ranked_scores(v0), i0 as int, (self.score[k as int] - taken) as u64);
            lemma_sum_update(self.score@, k as int, 0);
            lemma_sum_nonneg(self.score@.update(k as int, 0));
        }
        self.score[k] = self.score[k] - taken;
        self.score_sum = self.score_sum - taken;
        let w = self.score[k];
        proof {
            assert(ranked_scores(self@) =~= ranked_scores(v0).update(i0 as int, w));
            assert(self@.move_at =~= v0.move_at.remove(i0 as int).insert(i0 as int, k as nat));
        }
        let mut i = i0;
        while i + 1 < 9
            invariant
                ranks_consistent(self@),
                self@.score == v0.score.update(k as int, w),
                self@.sum == seq_sum(self@.score),
                self@.sum == seq_sum(ranked_scores(self@)),
                scores_wf(v0),
                k < 9,
                k == m@,
                i0 == v0.rank_of[k as int],
                w == self.score[k as int],
                w <= v0.score[k as int],
                i0 <= i < 9,
                self.order[k as int] == i,
                self@.move_at == v0.move_at.remove(i0 as int).insert(i as int, k as nat),
                forall|j: int| i0 < j <= i ==> v0.score[#[trigger] v0.move_at[j] as int] > w,
                forall|a: int, b: int|
                    0 <= a < b < 9 && a != i && b != i ==> self@.score[#[trigger] self@.move_at[a] as int]
                        >= self@.score[#[trigger] self@.move_at[b] as int],
                forall|a: int| 0 <= a < i ==> self@.score[#[trigger] self@.move_at[a] as int] >= w,
            ensures
                i + 1 == 9 || self@.score[self@.move_at[i + 1] as int] <= w,
            decreases 9 - i,
        {
            let next = self.move_at[i + 1];
            let p = next.to_usize();
            if self.score[p] <= w {
                break;
            }
            let ghost before = self@;
            let ghost arr = self.move_at@;
            proof {
                assert(before.rank_of[k as int] == i);
                assert(before.move_at[i as int] == k);
                assert(before.move_at[i + 1] == p);
            }
            self.order[p] = self.order[p] - 1;
            self.order[k] = self.order[k] + 1;
            self.move_at[i] = next;
            self.move_at[i + 1] = m;
            proof {
                assert(self.move_at@ == arr.update(i as int, next).update(i + 1, m));
                assert forall|j: int| 0 <= j < 9 implies #[trigger] self@.move_at[j] == (
                if j == i + 1 {
                    k as nat
                } else if j == i {
                    p as nat
                } else {
                    before.move_at[j]
                }) by {
                    assert(self@.move_at[j] == self.move_at@[j]@);
                    assert(before.move_at[j] == arr[j]@);
                }
                assert(self@.move_at =~= before.move_at.update(i as int, p as nat).update(
                    i + 1,
                    k as nat,
                ));
                assert(self@.score == before.score);
                assert(ranked_scores(self@) =~= ranked_scores(before).update(
                    i as int,
                    ranked_scores(before)[i + 1],
                ).update(i + 1, ranked_scores(before)[i as int]));
                lemma_sum_swap(ranked_scores(before), i as int);
                assert(self@.move_at =~= v0.move_at.remove(i0 as int).insert(i + 1, k as nat));
            }
            i = i + 1;
        }
        proof {
            let v = self@;
            assert(v.score =~= v0.score.update(k as int, w));
            assert(v.move_at[i as int] == k);
            assert forall|j: int| i < j < 9 implies v.move_at[j] == v0.move_at[j] && v0.move_at[j]
                != k && v0.score[#[trigger] v0.move_at[j] as int] <= w by {
                if j > i + 1 {
                    assert(v.score[v.move_at[i + 1] as int] >= v.score[v.move_at[j] as int]);
                }
            }
            assert forall|a: int, b: int| 0 <= a < b < 9 implies v.score[v.move_at[a] as int]
                >= v.score[v.move_at[b] as int] by {
                if a == i && b > i + 1 {
                    assert(v.score[v.move_at[i + 1] as int] >= v.score[v.move_at[b] as int]);
                }
            }
        }
    }
}

impl MoveScores {
    /// The move that a draw `x` in `0..sum` picks: walking the ranks from the heaviest, the move
    /// at which the weights walked so far first exceed `x`.
    pub fn move_for_draw(&self, x: u64) -> (r: Move)
        requires
            scores_wf(self@),
            x < self@.sum,
        ensures
            r@ < 9,
            self@.score[r@ as int] > 0,
            rank_prefix(self@, self@.rank_of[r@ as int] as int) <= x,
            x < rank_prefix(self@, self@.rank_of[r@ as int] + 1),
    {
        let ghost v = self@;
        let mut i: usize = 0;
        let mut rest = x;
        proof {
            assert(ranked_scores(v).take(0) =~= Seq::<u64>::empty());
        }
        loop
            invariant
                v == self@,
                scores_wf(v),
                x < v.sum,
                i < 9,
                rest == x - rank_prefix(v, i as int),
            decreases 9 - i,
        {
            let m = self.move_at[i];
            let k = m.to_usize();
            let w = self.score[k];
            proof {
                assert(v.move_at[i as int] == k);
                lemma_sum_take_next(ranked_scores(v), i as int);
            }
            if rest < w {
                return m;
            }
            rest = rest - w;
            i = i + 1;
            if i == 9 {
                proof {
                    assert(ranked_scores(v).take(9) =~= ranked_scores(v));
                }
            }
        }
    }

    /// The weight of each move, by move index.
    pub fn score(&self) -> (r: [u64; 9])
        ensures
            r@ == self@.score,
    {
        self.score
    }

    /// The rank of each move, by move index.
    pub fn order(&self) -> (r: [usize; 9])
        ensures
            r@ == self@.rank_of,
    {
        self.order
    }

    /// The move at each rank, heaviest first.
    pub fn move_at(&self) -> (r: [Move; 9])
        ensures
            r@.map_values(|m: Move| m@) == self@.move_at,
    {
        self.move_at
    }

    /// The sum of the weights.
    pub fn score_sum(&self) -> (r: u64)
        ensures
            r == self@.sum,
    {
        self.score_sum
    }
}

impl MoveScores {
    /// The weight of `m`.
    pub fn weight(&self, m: Move) -> (r: u64)
        ensures
            r == self@.score[m@ as int],
            m@ < 9,
    {
        self.score[m.to_usize()]
    }
}

impl MoveScores {
    /// Recomputes the invariant: the two rank arrays are inverse to each other, the weights do
    /// not increase along the ranks, and the tracked sum is the sum of the weights, read by move
    /// and read by rank.
    pub fn validate(&self) -> (r: bool)
        ensures
            r == scores_wf(self@),
    {
        let ghost v = self@;
        for m in 0..9usize
            invariant
                v == self@,
                forall|j: int|
                    0 <= j < m ==> #[trigger] v.rank_of[j] < 9 && v.move_at[v.rank_of[j] as int]
                        == j,
        {
            let r = self.order[m];
            if r >= 9 || self.move_at[r].to_usize() != m {
                assert(!(v.rank_of[m as int] < 9 && v.move_at[v.rank_of[m as int] as int] == m));
                return false;
            }
        }
        for r in 0..9usize
            invariant
                v == self@,
                forall|j: int|
                    0 <= j < r ==> #[trigger] v.move_at[j] < 9 && v.rank_of[v.move_at[j] as int]
                        == j,
        {
            let m = self.move_at[r].to_usize();
            assert(v.move_at[r as int] == m);
            if self.order[m] != r {
                return false;
            }
        }
        for a in 0..9usize
            invariant
                v == self@,
                forall|i: int, j: int|
                    0 <= i < a && i < j < 9 ==> v.score[v.move_at[i] as int] >= v.score[v.move_at[
                        j
                    ] as int],
        {
            let ma = self.move_at[a].to_usize();
            assert(v.move_at[a as int] == ma);
            let wa = self.score[ma];
            for b in a + 1..9usize
                invariant
                    v == self@,
                    a < 9,
                    a < b,
                    wa == v.score[v.move_at[a as int] as int],
                    forall|i: int, j: int|
                        0 <= i < a && i < j < 9 ==> v.score[v.move_at[i] as int]
                            >= v.score[v.move_at[j] as int],
                    forall|j: int| a < j < b ==> wa >= v.score[v.move_at[j] as int],
            {
                let mb = self.move_at[b].to_usize();
                assert(v.move_at[b as int] == mb);
                if wa < self.score[mb] {
                    assert(!ranks_sorted(v)) by {
                        assert(!(v.score[v.move_at[a as int] as int] >= v.score[v.move_at[
                            b as int
                        ] as int]));
                    }
                    return false;
                }
            }
        }
        let mut by_move: u128 = 0;
        let mut by_rank: u128 = 0;
        proof {
            assert(v.score.take(0) =~= Seq::<u64>::empty());
            assert(ranked_scores(v).take(0) =~= Seq::<u64>::empty());
        }
        for i in 0..9usize
            invariant
                v == self@,
                by_move == seq_sum(v.score.take(i as int)),
                by_rank == seq_sum(ranked_scores(v).take(i as int)),
                by_move <= i * 0xffff_ffff_ffff_ffff,
                by_rank <= i * 0xffff_ffff_ffff_ffff,
        {
            proof {
                lemma_sum_take_next(v.score, i as int);
                lemma_sum_take_next(ranked_scores(v), i as int);
            }
            let mi = self.move_at[i].to_usize();
            assert(v.move_at[i as int] == mi);
            by_move = by_move + self.score[i] as u128;
            by_rank = by_rank + self.score[mi] as u128;
        }
        proof {
            assert(v.score.take(9) =~= v.score);
            assert(ranked_scores(v).take(9) =~= ranked_scores(v));
        }
        by_move == self.score_sum as u128 && by_rank == self.score_sum as u128
    }
}

} // verus!
