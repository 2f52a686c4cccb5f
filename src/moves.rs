use vstd::prelude::*;
use vstd::std_specs::iter::IteratorSpec;

verus! {

/// A move: the index of a cell of the board, in `0..9`, row by row.
#[derive(Debug, Clone, Copy, PartialEq, Eq, Hash, Structural)]
pub struct Move(pub(crate) usize);

/// A set of moves, one bit per cell.
#[derive(Debug, Clone, Copy, PartialEq, Eq, Hash, Structural)]
pub struct MoveSet(pub(crate) u16);

/// Why a text could not be read as a move.
#[derive(Debug, Clone, Copy, PartialEq, Eq, Hash, Structural)]
pub enum ParseError {
    /// The text is empty.
    Empty,
    /// The first character is not one of `a`, `b`, `c`.
    LetterOutOfRange,
    /// What follows the letter is not a decimal number.
    ColumnNotNumeric,
    /// The column number is not in `1..=3`.
    ColumnOutOfRange,
}

impl View for Move {
    type V = nat;

    closed spec fn view(&self) -> nat {
        self.0 as nat
    }
}

/// The letter that names row `r` of the board.
pub open spec fn row_letter(r: nat) -> char {
    if r == 0 {
        'a'
    } else if r == 1 {
        'b'
    } else {
        'c'
    }
}

/// The digit that names column `c` of the board.
pub open spec fn column_digit(c: nat) -> char {
    if c == 0 {
        '1'
    } else if c == 1 {
        '2'
    } else {
        '3'
    }
}

/// The text of the move with index `i`: its row letter, then its column digit.
pub open spec fn move_text(i: nat) -> Seq<char> {
    seq![row_letter(i / 3), column_digit(i % 3)]
}

pub open spec fn is_digit(c: char) -> bool {
    '0' <= c && c <= '9'
}

/// Whether `s` is a non-empty string of decimal digits.
pub open spec fn is_numeral(s: Seq<char>) -> bool {
    s.len() > 0 && forall|i: int| 0 <= i < s.len() ==> is_digit(#[trigger] s[i])
}

/// How a text reads as a move: exactly a row letter `a` to `c` and a column digit `1` to `3`,
/// giving the index of the move; else the first fault found.
pub open spec fn parse_move(s: Seq<char>) -> Result<nat, ParseError> {
    if s.len() == 0 {
        Err(ParseError::Empty)
    } else if !('a' <= s[0] && s[0] <= 'c') {
        Err(ParseError::LetterOutOfRange)
    } else if !is_numeral(s.drop_first()) {
        Err(ParseError::ColumnNotNumeric)
    } else if !(s.len() == 2 && '1' <= s[1] && s[1] <= '3') {
        Err(ParseError::ColumnOutOfRange)
    } else {
        Ok((3 * (s[0] as u32 - 'a' as u32) + (s[1] as u32 - '1' as u32)) as nat)
    }
}

/// The members of `s` below `n`, ascending.
pub open spec fn members_below(s: Set<nat>, n: nat) -> Seq<nat>
    decreases n,
{
    if n == 0 {
        Seq::empty()
    } else if s.contains((n - 1) as nat) {
        members_below(s, (n - 1) as nat).push((n - 1) as nat)
    } else {
        members_below(s, (n - 1) as nat)
    }
}

/// Whether bit `i` of `bits` is set.
pub open spec fn bit_at(bits: u16, i: u16) -> bool {
    (bits >> i) & 1u16 == 1u16
}

proof fn lemma_bit_test(x: u16, k: u16)
    requires
        k < 16,
    ensures
        (x & (1u16 << k) != 0u16) == bit_at(x, k),
{
    assert((x & (1u16 << k) != 0u16) == ((x >> k) & 1u16 == 1u16)) by (bit_vector)
        requires
            k < 16,
    ;
}

proof fn lemma_bit_set(x: u16, k: u16, i: u16)
    requires
        k < 16,
        i < 16,
    ensures
        bit_at(x | (1u16 << k), i) == (bit_at(x, i) || i == k),
{
    assert((((x | (1u16 << k)) >> i) & 1u16 == 1u16) == (((x >> i) & 1u16 == 1u16) || i == k))
        by (bit_vector)
        requires
            k < 16,
            i < 16,
    ;
}

proof fn lemma_bit_clear(x: u16, k: u16, i: u16)
    requires
        k < 16,
        i < 16,
    ensures
        bit_at(x & !(1u16 << k), i) == (bit_at(x, i) && i != k),
{
    assert((((x & !(1u16 << k)) >> i) & 1u16 == 1u16) == (((x >> i) & 1u16 == 1u16) && i != k))
        by (bit_vector)
        requires
            k < 16,
            i < 16,
    ;
}

proof fn lemma_bits_none(i: u16)
    requires
        i < 16,
    ensures
        !bit_at(0u16, i),
        bit_at(0x1ffu16, i) == (i < 9),
{
    assert(((0u16 >> i) & 1u16 != 1u16) && ((((0x1ffu16 >> i) & 1u16) == 1u16) == (i < 9)))
        by (bit_vector)
        requires
            i < 16,
    ;
}

impl Move {
    /// The number of moves, one per cell.
    pub const N: usize = 9;

    #[verifier::type_invariant]
    spec fn inv(self) -> bool {
        self.0 < 9
    }

    /// Every move, ordered by index.
    pub fn all() -> (r: Vec<Move>)
        ensures
            r@.len() == 9,
            forall|i: int| 0 <= i < 9 ==> (#[trigger] r@[i])@ == i,
    {
        let mut r: Vec<Move> = Vec::new();
        for i in 0..9usize
            invariant
                r@.len() == i,
                forall|j: int| 0 <= j < i ==> (#[trigger] r@[j])@ == j,
        {
            r.push(Move(i));
        }
        r
    }

    pub fn to_usize(&self) -> (r: usize)
        ensures
            r == self@,
            r < 9,
    {
        proof {
            use_type_invariant(self);
        }
        self.0
    }

    pub fn from_usize(i: usize) -> (r: Move)
        requires
            i < 9,
        ensures
            r@ == i,
    {
        Move(i)
    }

    /// The set that holds this move alone.
    pub fn to_move_set(self) -> (r: MoveSet)
        ensures
            r@ == Set::<nat>::empty().insert(self@),
    {
        let set = MoveSet::empty();
        set.add(self)
    }

    /// The move's text: its row letter (`a` to `c`), then its column digit (`1` to `3`).
    pub fn to_text(&self) -> (r: String)
        ensures
            r@ == move_text(self@),
    {
        let i = self.to_usize();
        let t = if i == 0 {
            "a1"
        } else if i == 1 {
            "a2"
        } else if i == 2 {
            "a3"
        } else if i == 3 {
            "b1"
        } else if i == 4 {
            "b2"
        } else if i == 5 {
            "b3"
        } else if i == 6 {
            "c1"
        } else if i == 7 {
            "c2"
        } else {
            "c3"
        };
        proof {
            reveal_strlit("a1");
            reveal_strlit("a2");
            reveal_strlit("a3");
            reveal_strlit("b1");
            reveal_strlit("b2");
            reveal_strlit("b3");
            reveal_strlit("c1");
            reveal_strlit("c2");
            reveal_strlit("c3");
            assert(t@ =~= move_text(i as nat));
        }
        t.to_owned()
    }
}

impl View for MoveSet {
    type V = Set<nat>;

    closed spec fn view(&self) -> Set<nat> {
        Set::new(|i: nat| i < 9 && bit_at(self.0, i as u16))
    }
}

impl MoveSet {
    /// The set with no move.
    pub fn empty() -> (r: MoveSet)
        ensures
            r@ == Set::<nat>::empty(),
    {
        let r = MoveSet(0);
        assert forall|i: nat| !r@.contains(i) by {
            if i < 9 {
                lemma_bits_none(i as u16);
            }
        }
        assert(r@ =~= Set::<nat>::empty());
        r
    }

    /// The set of every move.
    pub fn all() -> (r: MoveSet)
        ensures
            r@ == Set::new(|i: nat| i < 9),
    {
        let r = MoveSet(0x1ff);
        assert forall|i: nat| r@.contains(i) == (i < 9) by {
            if i < 9 {
                lemma_bits_none(i as u16);
            }
        }
        assert(r@ =~= Set::new(|i: nat| i < 9));
        r
    }

    /// The moves for which `f` holds.
    pub fn from_fn(f: impl Fn(Move) -> bool) -> (r: MoveSet)
        requires
            forall|m: Move| #[trigger] f.requires((m,)),
        ensures
            forall|i: nat| #[trigger] r@.contains(i) ==> i < 9,
            forall|m: Move| #[trigger] r@.contains(m@) ==> f.ensures((m,), true),
            forall|m: Move| m@ < 9 && !(#[trigger] r@.contains(m@)) ==> f.ensures((m,), false),
    {
        Self::all().filter(f)
    }

    pub fn contains(self, m: Move) -> (r: bool)
        ensures
            r == self@.contains(m@),
    {
        let k = m.to_usize();
        proof {
            lemma_bit_test(self.0, k as u16);
        }
        self.0 & (1u16 << (k as u16)) != 0
    }

    /// The set with `m` added.
    pub fn add(self, m: Move) -> (r: MoveSet)
        ensures
            r@ == self@.insert(m@),
    {
        let k = m.to_usize();
        let r = MoveSet(self.0 | (1u16 << (k as u16)));
        assert forall|i: nat| r@.contains(i) == self@.insert(m@).contains(i) by {
            if i < 9 {
                lemma_bit_set(self.0, k as u16, i as u16);
            }
        }
        assert(r@ =~= self@.insert(m@));
        r
    }

    /// The set with `m` taken out.
    pub fn remove(self, m: Move) -> (r: MoveSet)
        ensures
            r@ == self@.remove(m@),
    {
        let k = m.to_usize();
        let r = MoveSet(self.0 & !(1u16 << (k as u16)));
        assert forall|i: nat| r@.contains(i) == self@.remove(m@).contains(i) by {
            if i < 9 {
                lemma_bit_clear(self.0, k as u16, i as u16);
            }
        }
        assert(r@ =~= self@.remove(m@));
        r
    }

    /// The moves of the set, ascending.
    pub fn iter(self) -> (r: Vec<Move>)
        ensures
            r@.map_values(|m: Move| m@) == members_below(self@, 9),
    {
        let mut r: Vec<Move> = Vec::new();
        for i in 0..9usize
            invariant
                r@.map_values(|m: Move| m@) == members_below(self@, i as nat),
        {
            let m = Move(i);
            let ghost before = r@;
            if self.contains(m) {
                r.push(m);
                assert(r@.map_values(|m: Move| m@) =~= before.map_values(|m: Move| m@).push(
                    i as nat,
                ));
            }
        }
        r
    }

    /// The moves of the set for which `f` holds.
    pub fn filter(self, f: impl Fn(Move) -> bool) -> (r: MoveSet)
        requires
            forall|m: Move| #[trigger] f.requires((m,)),
        ensures
            r@.subset_of(self@),
            forall|m: Move| #[trigger] r@.contains(m@) ==> f.ensures((m,), true),
            forall|m: Move| self@.contains(m@) && !(#[trigger] r@.contains(m@)) ==> f.ensures(
                (m,),
                false,
            ),
    {
        let mut r = self;
        for i in 0..9usize
            invariant
                forall|m: Move| #[trigger] f.requires((m,)),
                r@.subset_of(self@),
                forall|m: Move| #[trigger] r@.contains(m@) && m@ < i ==> f.ensures((m,), true),
                forall|m: Move|
                    self@.contains(m@) && !(#[trigger] r@.contains(m@)) ==> m@ < i && f.ensures(
                        (m,),
                        false,
                    ),
                forall|j: nat| i <= j ==> (#[trigger] r@.contains(j) == self@.contains(j)),
        {
            let m = Move(i);
            if r.contains(m) && !f(m) {
                r = r.remove(m);
            }
        }
        r
    }
}

/// The characters of `s`, in order.
fn chars_of(s: &str) -> (r: Vec<char>)
    ensures
        r@ == s@,
{
    let mut v: Vec<char> = Vec::new();
    let mut it = s.chars();
    loop
        invariant
            v@ + it.remaining() == s@,
            it.decrease() is Some,
        ensures
            v@ == s@,
        decreases it.decrease()->0,
    {
        match it.next() {
            Some(c) => {
                v.push(c);
            },
            None => {
                assert(v@ + it.remaining() =~= v@);
                break;
            },
        }
    }
    v
}

impl Move {
    /// Reads a move from its text: a row letter, then a column digit, and nothing more.
    pub fn from_text(s: &str) -> (r: Result<Move, ParseError>)
        ensures
            match parse_move(s@) {
                Ok(i) => r is Ok && r->Ok_0@ == i,
                Err(e) => r == Err::<Move, ParseError>(e),
            },
    {
        let cs = chars_of(s);
        if cs.len() == 0 {
            return Err(ParseError::Empty);
        }
        let letter = cs[0];
        if !('a' <= letter && letter <= 'c') {
            return Err(ParseError::LetterOutOfRange);
        }
        let ghost rest = s@.drop_first();
        if cs.len() == 1 {
            return Err(ParseError::ColumnNotNumeric);
        }
        let mut i: usize = 1;
        while i < cs.len()
            invariant
                cs@ == s@,
                rest == s@.drop_first(),
                'a' <= s@[0] && s@[0] <= 'c',
                1 <= i <= cs.len(),
                forall|j: int| 0 <= j < i - 1 ==> is_digit(#[trigger] rest[j]),
            decreases cs.len() - i,
        {
            let c = cs[i];
            if !('0' <= c && c <= '9') {
                assert(!is_digit(rest[i - 1]));
                assert(!is_numeral(rest));
                return Err(ParseError::ColumnNotNumeric);
            }
            i = i + 1;
        }
        assert(is_numeral(rest));
        let digit = cs[1];
        if !(cs.len() == 2 && '1' <= digit && digit <= '3') {
            return Err(ParseError::ColumnOutOfRange);
        }
        let row = (letter as u32 - 'a' as u32) as usize;
        let col = (digit as u32 - '1' as u32) as usize;
        Ok(Move(row * 3 + col))
    }
}

/// Reading the text of a move gives back that move.
pub proof fn lemma_text_round_trip(i: nat)
    requires
        i < 9,
    ensures
        parse_move(move_text(i)) == Ok::<nat, ParseError>(i),
{
    let t = move_text(i);
    assert(t.drop_first() =~= seq![column_digit(i % 3)]);
    assert(is_numeral(t.drop_first()));
}

impl std::str::FromStr for Move {
    type Err = ParseError;

    fn from_str(s: &str) -> Result<Move, ParseError> {
        Move::from_text(s)
    }
}

} // verus!
