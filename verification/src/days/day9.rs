//! Red tiles on a floor, and the largest rectangle that has two of them as
//! opposite corners.

use crate::text::{
    chars_of, is_unsigned, lines, lines_of, parse_unsigned, pieces_of, split, split_on,
    unsigned_value,
};
use vstd::prelude::*;

verus! {

/// A place on the floor.
#[derive(Debug, PartialEq, Eq, Clone, Copy, Structural)]
pub struct Position {
    pub x: usize,
    pub y: usize,
}

/// The distance between two coordinates.
pub open spec fn gap(a: usize, b: usize) -> int {
    if a > b {
        a - b
    } else {
        b - a
    }
}

impl Position {
    /// What a line of text says: two unsigned numbers with one comma between
    /// them, and nothing else.
    pub open spec fn written_in(text: Seq<char>) -> Option<Position> {
        let fields = split_on(text, ',');
        if fields.len() == 2 && is_unsigned(fields[0], usize::MAX as int) && is_unsigned(
            fields[1],
            usize::MAX as int,
        ) {
            Some(
                Position {
                    x: unsigned_value(fields[0]) as usize,
                    y: unsigned_value(fields[1]) as usize,
                },
            )
        } else {
            None
        }
    }

    /// Reads a position from characters of the form `x,y`, if they have it.
    pub fn read_chars(chars: &Vec<char>) -> (p: Option<Self>)
        ensures
            p == Self::written_in(chars@),
    {
        let fields = split(chars, ',');
        if fields.len() != 2 {
            return None;
        }
        proof {
            assert(pieces_of(fields@)[0] == fields@[0]@);
            assert(pieces_of(fields@)[1] == fields@[1]@);
            assert(fields@[0]@.subrange(0, fields@[0]@.len() as int) =~= fields@[0]@);
            assert(fields@[1]@.subrange(0, fields@[1]@.len() as int) =~= fields@[1]@);
        }
        let x = parse_unsigned(&fields[0], 0, fields[0].len(), usize::MAX as u64);
        let y = parse_unsigned(&fields[1], 0, fields[1].len(), usize::MAX as u64);
        match (x, y) {
            (Some(x), Some(y)) => Some(Self { x: x as usize, y: y as usize }),
            _ => None,
        }
    }

    /// Reads a position from text of the form `x,y`, if it has that form.
    pub fn try_read(pos: &str) -> (p: Option<Self>)
        ensures
            p == Self::written_in(pos@),
    {
        let chars = chars_of(pos);
        Self::read_chars(&chars)
    }

    /// Reads a position from text of the form `x,y`.
    pub fn read(pos: &str) -> (p: Self)
        requires
            Self::written_in(pos@) is Some,
        ensures
            p == Self::written_in(pos@)->0,
    {
        Self::try_read(pos).unwrap()
    }

    /// The number of tiles in the rectangle with the corners `self` and
    /// `another`, both corners included.
    pub open spec fn area_with(self, another: Position) -> int {
        (gap(self.x, another.x) + 1) * (gap(self.y, another.y) + 1)
    }
}

/// A red tile at a place.
#[derive(Debug, PartialEq, Eq, Clone, Copy, Structural)]
pub struct Red {
    pub pos: Position,
}

impl Red {
    /// Reads a red tile from text of the form `x,y`.
    pub fn read(pos: &str) -> (red: Self)
        requires
            Position::written_in(pos@) is Some,
        ensures
            red.pos == Position::written_in(pos@)->0,
    {
        Self { pos: Position::read(pos) }
    }
}

/// The red tiles of a floor.
#[derive(Debug, PartialEq)]
pub struct Tiles {
    pub tiles: Vec<Red>,
}

/// Every line of the text is a position.
pub open spec fn all_lines_are_positions(text: Seq<char>) -> bool {
    forall|i: int|
        0 <= i < lines_of(text).len() ==> Position::written_in(#[trigger] lines_of(text)[i]) is Some
}

/// `largest` is the largest area that two of the tiles span: zero where
/// there are fewer than two tiles.
pub open spec fn is_largest_area(tiles: Seq<Red>, largest: int) -> bool {
    &&& forall|i: int, j: int|
        0 <= i < j < tiles.len() ==> #[trigger] tiles[i].pos.area_with(#[trigger] tiles[j].pos)
            <= largest
    &&& if tiles.len() < 2 {
        largest == 0
    } else {
        exists|i: int, j: int|
            0 <= i < j < tiles.len() && #[trigger] tiles[i].pos.area_with(#[trigger] tiles[j].pos)
                == largest
    }
}

/// The area of every pair of tiles fits in 64 bits.
pub open spec fn areas_fit(tiles: Seq<Red>) -> bool {
    forall|i: int, j: int|
        0 <= i < j < tiles.len() ==> #[trigger] tiles[i].pos.area_with(#[trigger] tiles[j].pos)
            <= u64::MAX
}

impl Tiles {
    /// These tiles, as they are.
    pub fn new(tiles: Vec<Red>) -> (made: Self)
        ensures
            made.tiles == tiles,
    {
        Self { tiles }
    }

    /// Reads one red tile from each line of the text.
    pub fn read(tiles: &str) -> (made: Self)
        requires
            all_lines_are_positions(tiles@),
        ensures
            made.tiles@.len() == lines_of(tiles@).len(),
            forall|i: int|
                0 <= i < made.tiles@.len() ==> (#[trigger] made.tiles@[i]).pos
                    == Position::written_in(lines_of(tiles@)[i])->0,
    {
        let chars = chars_of(tiles);
        let rows = lines(&chars);
        let mut made: Vec<Red> = Vec::new();
        let mut i: usize = 0;
        while i < rows.len()
            invariant
                i <= rows@.len(),
                pieces_of(rows@) == lines_of(tiles@),
                all_lines_are_positions(tiles@),
                made@.len() == i,
                forall|k: int|
                    0 <= k < i ==> (#[trigger] made@[k]).pos == Position::written_in(
                        lines_of(tiles@)[k],
                    )->0,
            decreases rows@.len() - i,
        {
            proof {
                assert(pieces_of(rows@)[i as int] == rows@[i as int]@);
                assert(Position::written_in(lines_of(tiles@)[i as int]) is Some);
            }
            let pos = Position::read_chars(&rows[i]).unwrap();
            made.push(Red { pos });
            i = i + 1;
        }
        Self { tiles: made }
    }

    /// Reads one red tile from each line of the text, if every line is a
    /// position.
    pub fn try_read(tiles: &str) -> (made: Option<Self>)
        ensures
            made is Some <==> all_lines_are_positions(tiles@),
            made is Some ==> made->0.tiles@.len() == lines_of(tiles@).len() && forall|i: int|
                0 <= i < made->0.tiles@.len() ==> (#[trigger] made->0.tiles@[i]).pos
                    == Position::written_in(lines_of(tiles@)[i])->0,
    {
        let chars = chars_of(tiles);
        let rows = lines(&chars);
        let mut made: Vec<Red> = Vec::new();
        let mut i: usize = 0;
        while i < rows.len()
            invariant
                i <= rows@.len(),
                pieces_of(rows@) == lines_of(tiles@),
                made@.len() == i,
                forall|k: int|
                    0 <= k < i ==> Position::written_in(#[trigger] lines_of(tiles@)[k]) is Some,
                forall|k: int|
                    0 <= k < i ==> (#[trigger] made@[k]).pos == Position::written_in(
                        lines_of(tiles@)[k],
                    )->0,
            decreases rows@.len() - i,
        {
            proof {
                assert(pieces_of(rows@)[i as int] == rows@[i as int]@);
            }
            match Position::read_chars(&rows[i]) {
                Some(pos) => {
                    made.push(Red { pos });
                },
                None => {
                    assert(Position::written_in(lines_of(tiles@)[i as int]) is None);
                    return None;
                },
            }
            i = i + 1;
        }
        Some(Self { tiles: made })
    }

    /// Whether the area of every pair of tiles fits in 64 bits, which is
    /// what `largest_rect` asks of them.
    pub fn areas_fit(&self) -> (fit: bool)
        ensures
            fit == areas_fit(self.tiles@),
    {
        let n = self.tiles.len();
        let mut i: usize = 0;
        while i < n
            invariant
                i <= n,
                n == self.tiles@.len(),
                forall|a: int, b: int|
                    0 <= a < i && a < b < n ==> #[trigger] self.tiles@[a].pos.area_with(
                        #[trigger] self.tiles@[b].pos,
                    ) <= u64::MAX,
            decreases n - i,
        {
            let t = self.tiles[i].pos;
            let mut j: usize = i + 1;
            while j < n
                invariant
                    i < j <= n,
                    n == self.tiles@.len(),
                    t == self.tiles@[i as int].pos,
                    forall|b: int|
                        i < b < j ==> self.tiles@[i as int].pos.area_with(
                            #[trigger] self.tiles@[b].pos,
                        ) <= u64::MAX,
                decreases n - j,
            {
                let u = self.tiles[j].pos;
                let dx = if t.x > u.x {
                    (t.x - u.x) as u64
                } else {
                    (u.x - t.x) as u64
                };
                let dy = if t.y > u.y {
                    (t.y - u.y) as u64
                } else {
                    (u.y - t.y) as u64
                };
                proof {
                    let area = self.tiles@[i as int].pos.area_with(self.tiles@[j as int].pos);
                    assert(area == (dx + 1) * (dy + 1));
                    assert(dx + 1 <= (dx + 1) * (dy + 1) && dy + 1 <= (dx + 1) * (dy + 1)) by (nonlinear_arith)
                        requires
                            dx >= 0,
                            dy >= 0,
                    ;
                }
                if dx == 0xffff_ffff_ffff_ffff || dy == 0xffff_ffff_ffff_ffff {
                    return false;
                }
                if (dx + 1).checked_mul(dy + 1).is_none() {
                    return false;
                }
                j = j + 1;
            }
            i = i + 1;
        }
        true
    }

    /// The largest area that two of the tiles span as opposite corners of a
    /// rectangle.
    pub fn largest_rect(&self) -> (largest: u64)
        requires
            areas_fit(self.tiles@),
        ensures
            is_largest_area(self.tiles@, largest as int),
    {
        let n = self.tiles.len();
        let mut result: u64 = 0;
        let ghost mut best: (int, int) = (0, 0);
        let mut i: usize = 0;
        while i < n
            invariant
                i <= n,
                n == self.tiles@.len(),
                areas_fit(self.tiles@),
                forall|a: int, b: int|
                    0 <= a < i && a < b < n ==> #[trigger] self.tiles@[a].pos.area_with(
                        #[trigger] self.tiles@[b].pos,
                    ) <= result,
                result == 0 || (0 <= best.0 < best.1 < n && self.tiles@[best.0].pos.area_with(
                    self.tiles@[best.1].pos,
                ) == result),
                result == 0 ==> i == 0 || n < 2,
            decreases n - i,
        {
            let t = self.tiles[i].pos;
            let mut j: usize = i + 1;
            while j < n
                invariant
                    i < j <= n,
                    n == self.tiles@.len(),
                    t == self.tiles@[i as int].pos,
                    areas_fit(self.tiles@),
                    forall|a: int, b: int|
                        0 <= a < i && a < b < n ==> #[trigger] self.tiles@[a].pos.area_with(
                            #[trigger] self.tiles@[b].pos,
                        ) <= result,
                    forall|b: int|
                        i < b < j ==> self.tiles@[i as int].pos.area_with(
                            #[trigger] self.tiles@[b].pos,
                        ) <= result,
                    result == 0 || (0 <= best.0 < best.1 < n && self.tiles@[best.0].pos.area_with(
                        self.tiles@[best.1].pos,
                    ) == result),
                    result == 0 ==> j == i + 1 && i == 0,
                decreases n - j,
            {
                let u = self.tiles[j].pos;
                let dx = if t.x > u.x {
                    (t.x - u.x) as u64
                } else {
                    (u.x - t.x) as u64
                };
                let dy = if t.y > u.y {
                    (t.y - u.y) as u64
                } else {
                    (u.y - t.y) as u64
                };
                proof {
                    let area = self.tiles@[i as int].pos.area_with(self.tiles@[j as int].pos);
                    assert(area <= u64::MAX);
                    assert(area == (dx + 1) * (dy + 1));
                    assert(dx + 1 <= (dx + 1) * (dy + 1) && dy + 1 <= (dx + 1) * (dy + 1)
                        && (dx + 1) * (dy + 1) >= 1) by (nonlinear_arith)
                        requires
                            dx >= 0,
                            dy >= 0,
                    ;
                }
                let area = (dx + 1) * (dy + 1);
                if area > result {
                    result = area;
                    proof {
                        best = (i as int, j as int);
                    }
                }
                j = j + 1;
            }
            i = i + 1;
        }
        result
    }
}

/// The red tiles that the lines of the text say, a tile for each line.
pub open spec fn tiles_in(text: Seq<char>) -> Seq<Red> {
    Seq::new(
        lines_of(text).len(),
        |i: int| Red { pos: Position::written_in(lines_of(text)[i])->0 },
    )
}

/// The largest area that two of the red tiles of the text span, a tile for
/// each line: no area where a line is no position or an area does not fit
/// in 64 bits.
pub fn largest_rect_in(input: &str) -> (largest: Option<u64>)
    ensures
        largest is Some <==> all_lines_are_positions(input@) && areas_fit(tiles_in(input@)),
        largest is Some ==> is_largest_area(tiles_in(input@), largest->0 as int),
{
    match Tiles::try_read(input) {
        Some(tiles) => {
            assert(tiles.tiles@ =~= tiles_in(input@));
            if tiles.areas_fit() {
                let largest = tiles.largest_rect();
                Some(largest)
            } else {
                None
            }
        },
        None => None,
    }
}

} // verus!
