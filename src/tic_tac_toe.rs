use crate::game_result::{GameResult, WinReason};
use crate::moves::{Move, MoveSet};
use vstd::prelude::*;

verus! {

/// A mark in a cell of the board.
#[derive(Debug, Clone, Copy, PartialEq, Eq, Hash, Structural)]
pub enum Mark {
    Cross,
    Naught,
    Blank,
}

/// One of the two players.
#[derive(Debug, Clone, Copy, PartialEq, Eq, Hash, Structural)]
pub enum Player {
    Crosses,
    Naughts,
}

/// A position: the nine cells of the board, row by row.
#[derive(Debug, Clone, Copy, PartialEq, Eq, Hash)]
pub struct State([Mark; 9]);

/// The mark that a player puts down.
pub open spec fn mark_of(p: Player) -> Mark {
    match p {
        Player::Crosses => Mark::Cross,
        Player::Naughts => Mark::Naught,
    }
}

pub open spec fn other(p: Player) -> Player {
    match p {
        Player::Crosses => Player::Naughts,
        Player::Naughts => Player::Crosses,
    }
}

/// Whether cells `a`, `b` and `c` of `cells` all hold `p`'s mark.
pub open spec fn line_of(cells: Seq<Mark>, p: Player, a: int, b: int, c: int) -> bool {
    cells[a] == mark_of(p) && cells[b] == mark_of(p) && cells[c] == mark_of(p)
}

pub open spec fn has_row_spec(cells: Seq<Mark>, p: Player) -> bool {
    line_of(cells, p, 0, 1, 2) || line_of(cells, p, 3, 4, 5) || line_of(cells, p, 6, 7, 8)
}

pub open spec fn has_column_spec(cells: Seq<Mark>, p: Player) -> bool {
    line_of(cells, p, 0, 3, 6) || line_of(cells, p, 1, 4, 7) || line_of(cells, p, 2, 5, 8)
}

pub open spec fn has_diagonal_spec(cells: Seq<Mark>, p: Player) -> bool {
    line_of(cells, p, 0, 4, 8) || line_of(cells, p, 2, 4, 6)
}

/// Whether no cell is blank.
pub open spec fn is_full(cells: Seq<Mark>) -> bool {
    forall|i: int| 0 <= i < 9 ==> cells[i] != Mark::Blank
}

/// The blank cells.
pub open spec fn blank_cells(cells: Seq<Mark>) -> Set<nat> {
    Set::new(|i: nat| i < 9 && cells[i as int] == Mark::Blank)
}

/// The result of the game once `p` has moved, if it is over: a line of three in a row or a
/// column first, then on a diagonal, then a full board.
pub open spec fn result_spec(cells: Seq<Mark>, p: Player) -> Option<GameResult> {
    if has_row_spec(cells, p) || has_column_spec(cells, p) {
        Some(GameResult::Win { winner: p, reason: WinReason::RowOrColumn })
    } else if has_diagonal_spec(cells, p) {
        Some(GameResult::Win { winner: p, reason: WinReason::Diagonal })
    } else if is_full(cells) {
        Some(GameResult::Draw)
    } else {
        None
    }
}

impl From<Player> for Mark {
    fn from(p: Player) -> (r: Mark) {
        match p {
            Player::Crosses => Mark::Cross,
            Player::Naughts => Mark::Naught,
        }
    }
}

impl vstd::std_specs::convert::FromSpecImpl<Player> for Mark {
    open spec fn obeys_from_spec() -> bool {
        true
    }

    open spec fn from_spec(p: Player) -> Mark {
        mark_of(p)
    }
}

impl Player {
    /// The other player.
    pub fn opponent(self) -> (r: Player)
        ensures
            r == other(self),
    {
        match self {
            Player::Crosses => Player::Naughts,
            Player::Naughts => Player::Crosses,
        }
    }

    /// The player's mark.
    pub fn mark(self) -> (r: Mark)
        ensures
            r == mark_of(self),
    {
        Mark::from(self)
    }
}

impl View for State {
    type V = Seq<Mark>;

    closed spec fn view(&self) -> Seq<Mark> {
        self.0@
    }
}

impl State {
    /// A position has nine cells, and its key is below `3^9`.
    pub proof fn lemma_len(&self)
        ensures
            self@.len() == 9,
            key_of(self@, 9) < 19683,
    {
        lemma_key_bound(self@, 9);
        reveal_with_fuel(pow3, 10);
    }

    /// An empty board.
    pub fn new() -> (r: State)
        ensures
            r@ == Seq::new(9, |i: int| Mark::Blank),
    {
        let r = State([Mark::Blank; 9]);
        assert(r@ =~= Seq::new(9, |i: int| Mark::Blank));
        r
    }

    /// The mark in the cell of `m`.
    pub fn at(&self, m: Move) -> (r: Mark)
        ensures
            self@.len() == 9,
            r == self@[m@ as int],
    {
        self.0[m.to_usize()]
    }

    fn line(&self, p: Player, a: usize, b: usize, c: usize) -> (r: bool)
        requires
            a < 9,
            b < 9,
            c < 9,
        ensures
            r == line_of(self@, p, a as int, b as int, c as int),
    {
        let k = p.mark();
        self.0[a] == k && self.0[b] == k && self.0[c] == k
    }

    /// Whether `player` has three in a row.
    pub fn has_row(&self, player: Player) -> (r: bool)
        ensures
            r == has_row_spec(self@, player),
    {
        self.line(player, 0, 1, 2) || self.line(player, 3, 4, 5) || self.line(player, 6, 7, 8)
    }

    /// Whether `player` has three in a column.
    pub fn has_column(&self, player: Player) -> (r: bool)
        ensures
            r == has_column_spec(self@, player),
    {
        self.line(player, 0, 3, 6) || self.line(player, 1, 4, 7) || self.line(player, 2, 5, 8)
    }

    /// Whether `player` has three on a diagonal.
    pub fn has_diagonal(&self, player: Player) -> (r: bool)
        ensures
            r == has_diagonal_spec(self@, player),
    {
        self.line(player, 0, 4, 8) || self.line(player, 2, 4, 6)
    }

    /// Whether the board is full.
    pub fn is_draw(&self) -> (r: bool)
        ensures
            r == is_full(self@),
    {
        for i in 0..9usize
            invariant
                forall|j: int| 0 <= j < i ==> self@[j] != Mark::Blank,
        {
            if self.0[i] == Mark::Blank {
                return false;
            }
        }
        true
    }

    /// The blank cells, each a legal move.
    pub fn legal_moves(&self) -> (r: MoveSet)
        ensures
            r@ == blank_cells(self@),
    {
        let mut r = MoveSet::empty();
        for i in 0..9usize
            invariant
                r@ == Set::new(|j: nat| j < i && self@[j as int] == Mark::Blank),
        {
            let m = Move::from_usize(i);
            if self.0[i] == Mark::Blank {
                r = r.add(m);
            }
            assert(r@ =~= Set::new(|j: nat| j < i + 1 && self@[j as int] == Mark::Blank));
        }
        assert(r@ =~= blank_cells(self@));
        r
    }

    /// Puts `player`'s mark in the blank cell of `m`.
    pub fn play(&mut self, m: Move, player: Player)
        requires
            old(self)@[m@ as int] == Mark::Blank,
        ensures
            final(self)@ == old(self)@.update(m@ as int, mark_of(player)),
    {
        let i = m.to_usize();
        self.0[i] = player.mark();
    }

    /// The result of the game once `player` has moved, if it is over.
    pub fn result(&self, player: Player) -> (r: Option<GameResult>)
        ensures
            r == result_spec(self@, player),
    {
        if self.has_row(player) || self.has_column(player) {
            Some(GameResult::Win { winner: player, reason: WinReason::RowOrColumn })
        } else if self.has_diagonal(player) {
            Some(GameResult::Win { winner: player, reason: WinReason::Diagonal })
        } else if self.is_draw() {
            Some(GameResult::Draw)
        } else {
            None
        }
    }
}

/// The digit of a mark in a position's key.
pub open spec fn mark_code(m: Mark) -> nat {
    match m {
        Mark::Blank => 0,
        Mark::Cross => 1,
        Mark::Naught => 2,
    }
}

/// The base-3 number whose digits are the codes of the first `n` cells, the first cell most
/// significant.
pub open spec fn key_of(cells: Seq<Mark>, n: nat) -> nat
    decreases n,
{
    if n == 0 {
        0
    } else {
        key_of(cells, (n - 1) as nat) * 3 + mark_code(cells[n - 1])
    }
}

pub open spec fn pow3(n: nat) -> nat
    decreases n,
{
    if n == 0 {
        1
    } else {
        pow3((n - 1) as nat) * 3
    }
}

proof fn lemma_key_bound(cells: Seq<Mark>, n: nat)
    ensures
        key_of(cells, n) < pow3(n),
    decreases n,
{
    if n > 0 {
        lemma_key_bound(cells, (n - 1) as nat);
    }
}

/// The key of a position is below `3^9`.
pub proof fn lemma_key_below(cells: Seq<Mark>)
    ensures
        key_of(cells, 9) < 19683,
{
    lemma_key_bound(cells, 9);
    reveal_with_fuel(pow3, 10);
}

/// Two positions with the same key are the same position.
pub proof fn lemma_key_injective(a: Seq<Mark>, b: Seq<Mark>, n: nat)
    requires
        n <= a.len(),
        n <= b.len(),
        key_of(a, n) == key_of(b, n),
    ensures
        a.take(n as int) == b.take(n as int),
    decreases n,
{
    if n > 0 {
        let x = key_of(a, (n - 1) as nat);
        let y = key_of(b, (n - 1) as nat);
        let c = mark_code(a[n - 1]);
        let d = mark_code(b[n - 1]);
        assert(x == y && c == d) by (nonlinear_arith)
            requires
                x * 3 + c == y * 3 + d,
                c < 3,
                d < 3,
        ;
        lemma_key_injective(a, b, (n - 1) as nat);
        assert(a[n - 1] == b[n - 1]);
        assert(a.take(n as int) =~= a.take(n - 1).push(a[n - 1]));
        assert(b.take(n as int) =~= b.take(n - 1).push(b[n - 1]));
    } else {
        assert(a.take(0) =~= b.take(0));
    }
}

impl State {
    /// A number that names the position: distinct positions have distinct keys.
    pub fn key(&self) -> (r: u32)
        ensures
            r == key_of(self@, 9),
            self@.len() == 9,
    {
        let mut acc: u32 = 0;
        for i in 0..9usize
            invariant
                acc == key_of(self@, i as nat),
        {
            proof {
                lemma_key_bound(self@, i as nat);
                assert(pow3(i as nat) <= pow3(8)) by {
                    lemma_pow3_mono(i as nat, 8);
                }
                reveal_with_fuel(pow3, 9);
                assert(pow3(8) == 6561);
            }
            let c: u32 = match self.0[i] {
                Mark::Blank => 0,
                Mark::Cross => 1,
                Mark::Naught => 2,
            };
            acc = acc * 3 + c;
        }
        acc
    }
}

proof fn lemma_pow3_mono(a: nat, b: nat)
    requires
        a <= b,
    ensures
        pow3(a) <= pow3(b),
    decreases b - a,
{
    if a < b {
        lemma_pow3_mono(a, (b - 1) as nat);
    }
}

/// The number of blank cells among the first `n`.
pub open spec fn blanks_below(cells: Seq<Mark>, n: nat) -> nat
    decreases n,
{
    if n == 0 {
        0
    } else {
        blanks_below(cells, (n - 1) as nat) + if cells[n - 1] == Mark::Blank {
            1nat
        } else {
            0nat
        }
    }
}

/// Filling a blank cell leaves one blank fewer.
pub proof fn lemma_fill_blank(cells: Seq<Mark>, k: int, mark: Mark, n: nat)
    requires
        0 <= k < cells.len(),
        n <= cells.len(),
        cells[k] == Mark::Blank,
        mark != Mark::Blank,
    ensures
        blanks_below(cells.update(k, mark), n) == blanks_below(cells, n) - if k < n {
            1int
        } else {
            0int
        },
    decreases n,
{
    if n > 0 {
        lemma_fill_blank(cells, k, mark, (n - 1) as nat);
    }
}

} // verus!
