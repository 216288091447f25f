//! A dial with the positions 0 to 99 that is turned left and right, and a
//! count of how often a turn ends on 0.

use crate::text::{
    chars_of, is_unsigned, lines, lines_of, parse_unsigned, pieces_of, unsigned_value,
};
use vstd::arithmetic::div_mod::{
    lemma_add_mod_noop_right, lemma_mod_add_multiples_vanish, lemma_sub_mod_noop_right,
};
use vstd::prelude::*;

verus! {

/// The way a dial is turned.
#[derive(Debug, PartialEq, Eq, Clone, Copy, Structural)]
pub enum Direction {
    Left,
    Right,
}

/// One turn of the dial.
#[derive(Debug, PartialEq, Eq, Clone, Copy, Structural)]
pub struct Move {
    pub direction: Direction,
    pub distance: u16,
}

/// The dial: where it points and how often a turn has ended on 0.
#[derive(Debug, PartialEq, Eq, Clone, Copy, Structural)]
pub struct Lock {
    pub pos: u8,
    pub zeroed: u64,
}

impl Move {
    /// A turn of `distance` clicks in `direction`.
    pub fn new(direction: Direction, distance: u16) -> (m: Self)
        ensures
            m == (Move { direction, distance }),
    {
        Self { direction, distance }
    }

    /// What a line of text says: `L` or `R` for the direction, then the
    /// distance as an unsigned number of 16 bits.
    pub open spec fn written_in(text: Seq<char>) -> Option<Move> {
        if text.len() >= 1 && (text[0] == 'L' || text[0] == 'R') && is_unsigned(
            text.skip(1),
            u16::MAX as int,
        ) {
            Some(
                Move {
                    direction: if text[0] == 'L' {
                        Direction::Left
                    } else {
                        Direction::Right
                    },
                    distance: unsigned_value(text.skip(1)) as u16,
                },
            )
        } else {
            None
        }
    }

    /// Reads a turn from a line such as `L68`, if the line is a turn.
    pub fn try_read(line: &str) -> (m: Option<Self>)
        ensures
            m == Self::written_in(line@),
    {
        let chars = chars_of(line);
        Self::read_chars(&chars)
    }

    /// Reads a turn from the characters of a line, if they are a turn.
    pub fn read_chars(chars: &Vec<char>) -> (m: Option<Self>)
        ensures
            m == Self::written_in(chars@),
    {
        if chars.len() == 0 {
            return None;
        }
        let direction = if chars[0] == 'L' {
            Direction::Left
        } else if chars[0] == 'R' {
            Direction::Right
        } else {
            return None;
        };
        assert(chars@.subrange(1, chars@.len() as int) =~= chars@.skip(1));
        match parse_unsigned(chars, 1, chars.len(), 0xffff) {
            Some(distance) => Some(Self { direction, distance: distance as u16 }),
            None => None,
        }
    }

    /// Where a dial at `pos` points after this turn: right adds the distance,
    /// left takes it away, and the dial wraps round at 100.
    pub open spec fn turned(self, pos: int) -> int {
        match self.direction {
            Direction::Right => (pos + self.distance) % 100,
            Direction::Left => (pos - self.distance) % 100,
        }
    }
}

impl Default for Lock {
    fn default() -> (lock: Self)
        ensures
            lock == (Lock { pos: 50, zeroed: 0 }),
    {
        Self::new()
    }
}

impl Lock {
    /// The dial points at one of its hundred positions.
    pub open spec fn wf(self) -> bool {
        self.pos < 100
    }

    /// The dial after one turn; a turn that ends on 0 is counted.
    pub open spec fn after(self, m: Move) -> Lock {
        let pos = m.turned(self.pos as int);
        Lock {
            pos: pos as u8,
            zeroed: if pos == 0 {
                (self.zeroed + 1) as u64
            } else {
                self.zeroed
            },
        }
    }

    /// The dial after the turns in `moves`, one after the other.
    pub open spec fn after_all(self, moves: Seq<Move>) -> Lock
        decreases moves.len(),
    {
        if moves.len() == 0 {
            self
        } else {
            self.after_all(moves.drop_last()).after(moves.last())
        }
    }

    /// A dial that points at 50 and has not yet ended a turn on 0.
    pub fn new() -> (lock: Self)
        ensures
            lock == (Lock { pos: 50, zeroed: 0 }),
            lock.wf(),
    {
        Self { pos: 50, zeroed: 0 }
    }

    /// Turns the dial once.
    pub fn apply(&mut self, m: &Move)
        requires
            old(self).wf(),
            old(self).zeroed < u64::MAX,
        ensures
            *final(self) == old(self).after(*m),
            final(self).wf(),
            final(self).zeroed <= old(self).zeroed + 1,
    {
        let d: u8 = (m.distance % 100) as u8;
        let d = match m.direction {
            Direction::Right => d,
            Direction::Left => 100 - d,
        };
        let new_pos = (self.pos + d) % 100;
        proof {
            let pos = self.pos as int;
            let distance = m.distance as int;
            match m.direction {
                Direction::Right => {
                    lemma_add_mod_noop_right(pos, distance, 100);
                },
                Direction::Left => {
                    lemma_sub_mod_noop_right(pos, distance, 100);
                    lemma_mod_add_multiples_vanish(pos - distance % 100, 100);
                },
            }
            assert(new_pos == m.turned(pos));
        }
        if new_pos == 0 {
            self.zeroed += 1;
        }
        self.pos = new_pos
    }

    /// Turns the dial once for each of `moves`, in their order.
    pub fn apply_multi(&mut self, moves: Vec<Move>)
        requires
            old(self).wf(),
            old(self).zeroed + moves@.len() <= u64::MAX,
        ensures
            *final(self) == old(self).after_all(moves@),
            final(self).wf(),
    {
        let ghost start = *self;
        let mut i: usize = 0;
        assert(moves@.take(0) =~= Seq::<Move>::empty());
        while i < moves.len()
            invariant
                i <= moves@.len(),
                start.zeroed + moves@.len() <= u64::MAX,
                self.wf(),
                self.zeroed <= start.zeroed + i,
                *self == start.after_all(moves@.take(i as int)),
            decreases moves@.len() - i,
        {
            self.apply(&moves[i]);
            proof {
                assert(moves@.take(i + 1).drop_last() =~= moves@.take(i as int));
                assert(moves@.take(i + 1).last() == moves@[i as int]);
            }
            i = i + 1;
        }
        assert(moves@.take(moves@.len() as int) =~= moves@);
    }
}

/// Every line is a turn.
pub open spec fn all_lines_are_moves(text: Seq<char>) -> bool {
    forall|i: int| 0 <= i < lines_of(text).len() ==> Move::written_in(#[trigger] lines_of(text)[i]) is Some
}

/// The turns that the lines of the text say.
pub open spec fn moves_in(text: Seq<char>) -> Seq<Move> {
    Seq::new(lines_of(text).len(), |i: int| Move::written_in(lines_of(text)[i])->0)
}

/// How often a new dial ends on 0 while it makes the turns that the lines
/// of the text say, a turn for each line: none where a line is no turn.
pub fn password(input: &str) -> (count: Option<u64>)
    ensures
        count is Some <==> all_lines_are_moves(input@),
        count is Some ==> count->0 == (Lock { pos: 50, zeroed: 0 }).after_all(
            moves_in(input@),
        ).zeroed,
{
    let chars = chars_of(input);
    let rows = lines(&chars);
    let mut moves: Vec<Move> = Vec::new();
    let mut i: usize = 0;
    while i < rows.len()
        invariant
            i <= rows@.len(),
            pieces_of(rows@) == lines_of(input@),
            moves@.len() == i,
            forall|k: int| 0 <= k < i ==> Move::written_in(#[trigger] lines_of(input@)[k]) is Some,
            forall|k: int| 0 <= k < i ==> #[trigger] moves@[k] == Move::written_in(lines_of(input@)[k])->0,
        decreases rows@.len() - i,
    {
        proof {
            assert(pieces_of(rows@)[i as int] == rows@[i as int]@);
        }
        match Move::read_chars(&rows[i]) {
            Some(m) => {
                moves.push(m);
            },
            None => {
                return None;
            },
        }
        i = i + 1;
    }
    assert(moves@ =~= moves_in(input@));
    let mut lock = Lock::new();
    lock.apply_multi(moves);
    Some(lock.zeroed)
}

} // verus!
