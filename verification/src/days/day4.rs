//! A floor of rolls of paper. A roll can be taken away if fewer than four of
//! the eight places around it hold a roll.

use crate::text::{chars_of, pieces_of, split, split_on};
use vstd::prelude::*;

verus! {

/// A place on the floor: `x` counts from the left, `y` from the top.
#[derive(Debug, PartialEq, Eq, Clone, Copy, Structural)]
pub struct Position {
    pub x: usize,
    pub y: usize,
}

/// What lies at a place: nothing, or a roll of paper.
#[derive(Debug, PartialEq, Eq, Clone, Copy, Structural)]
pub enum Tile {
    Space,
    Paper,
}

/// The eight ways from a place to a place next to it.
#[derive(Debug, PartialEq, Eq, Clone, Copy, Structural)]
pub enum Direction {
    Above,
    Left,
    Below,
    Right,
    TopLeft,
    TopRight,
    BottomLeft,
    BottomRight,
}

impl Direction {
    /// The eight directions, in the order in which a place is looked round.
    pub open spec fn all() -> Seq<Direction> {
        seq![
            Direction::Above,
            Direction::Left,
            Direction::Below,
            Direction::Right,
            Direction::TopLeft,
            Direction::TopRight,
            Direction::BottomLeft,
            Direction::BottomRight,
        ]
    }

    /// The step along `x`: one to the left is `-1`, one to the right `1`.
    pub open spec fn dx(self) -> int {
        match self {
            Direction::Left | Direction::TopLeft | Direction::BottomLeft => -1,
            Direction::Right | Direction::TopRight | Direction::BottomRight => 1,
            _ => 0,
        }
    }

    /// The step along `y`: one up is `-1`, one down `1`.
    pub open spec fn dy(self) -> int {
        match self {
            Direction::Above | Direction::TopLeft | Direction::TopRight => -1,
            Direction::Below | Direction::BottomLeft | Direction::BottomRight => 1,
            _ => 0,
        }
    }

    /// The eight directions, in the order in which a place is looked round.
    pub fn iterator() -> (all: Vec<Direction>)
        ensures
            all@ == Self::all(),
    {
        let mut all: Vec<Direction> = Vec::new();
        all.push(Direction::Above);
        all.push(Direction::Left);
        all.push(Direction::Below);
        all.push(Direction::Right);
        all.push(Direction::TopLeft);
        all.push(Direction::TopRight);
        all.push(Direction::BottomLeft);
        all.push(Direction::BottomRight);
        assert(all@ =~= Self::all());
        all
    }
}

impl Tile {
    /// The character stands for a tile.
    pub open spec fn is_tile(c: char) -> bool {
        c == '.' || c == '@'
    }

    /// The tile that the character stands for.
    pub open spec fn of_char(c: char) -> Tile {
        if c == '@' {
            Tile::Paper
        } else {
            Tile::Space
        }
    }

    /// The tile that `.` or `@` stands for.
    pub fn from_char(c: char) -> (tile: Self)
        requires
            Self::is_tile(c),
        ensures
            tile == Self::of_char(c),
    {
        if c == '@' {
            Self::Paper
        } else {
            Self::Space
        }
    }
}

impl Position {
    /// The place at `x`, `y`.
    pub fn new(x: usize, y: usize) -> (p: Self)
        ensures
            p == (Position { x, y }),
    {
        Self { x, y }
    }

    /// The place one step in the direction `d`, unless that step leaves the
    /// floor, whose largest coordinates are `max_x` and `max_y`.
    pub open spec fn looked(self, d: Direction, max_x: usize, max_y: usize) -> Option<Position> {
        if (d.dy() < 0 && self.y < 1) || (d.dy() > 0 && self.y >= max_y) || (d.dx() < 0 && self.x
            < 1) || (d.dx() > 0 && self.x >= max_x) {
            None
        } else {
            Some(Position { x: (self.x + d.dx()) as usize, y: (self.y + d.dy()) as usize })
        }
    }

    /// The place one step in `direction`, if that step stays on the floor.
    pub fn look(&self, direction: &Direction, max_x: usize, max_y: usize) -> (seen: Option<Self>)
        ensures
            seen == self.looked(*direction, max_x, max_y),
    {
        let x = self.x;
        let y = self.y;
        match direction {
            Direction::Above => {
                if self.y < 1 {
                    return None;
                }
                Some(Self { x, y: y - 1 })
            },
            Direction::Below => {
                if self.y >= max_y {
                    return None;
                }
                Some(Self { x, y: y + 1 })
            },
            Direction::Left => {
                if self.x < 1 {
                    return None;
                }
                Some(Self { x: x - 1, y })
            },
            Direction::Right => {
                if self.x >= max_x {
                    return None;
                }
                Some(Self { x: x + 1, y })
            },
            Direction::TopLeft => {
                if self.y < 1 || self.x < 1 {
                    return None;
                }
                Some(Self { x: x - 1, y: y - 1 })
            },
            Direction::TopRight => {
                if self.y < 1 || self.x >= max_x {
                    return None;
                }
                Some(Self { x: x + 1, y: y - 1 })
            },
            Direction::BottomLeft => {
                if self.x < 1 || self.y >= max_y {
                    return None;
                }
                Some(Self { x: x - 1, y: y + 1 })
            },
            Direction::BottomRight => {
                if self.y >= max_y || self.x >= max_x {
                    return None;
                }
                Some(Self { x: x + 1, y: y + 1 })
            },
        }
    }
}

/// The rows as sequences of tiles.
pub open spec fn tiles_of(grid: Seq<Vec<Tile>>) -> Seq<Seq<Tile>> {
    Seq::new(grid.len(), |y: int| grid[y]@)
}

/// The floor is a rectangle of at least one tile, and the number of its
/// tiles fits in a machine word.
pub open spec fn is_floor(t: Seq<Seq<Tile>>) -> bool {
    &&& t.len() >= 1
    &&& t[0].len() >= 1
    &&& forall|y: int| 0 <= y < t.len() ==> (#[trigger] t[y]).len() == t[0].len()
    &&& t.len() * t[0].len() <= usize::MAX
}

/// A roll of paper lies at the place, if there is such a place.
pub open spec fn paper_at(t: Seq<Seq<Tile>>, p: Option<Position>) -> bool {
    p is Some && t[p->0.y as int][p->0.x as int] == Tile::Paper
}

/// How many of the places in the first `k` directions round `pos` hold a
/// roll of paper.
pub open spec fn papers_around(t: Seq<Seq<Tile>>, pos: Position, k: int) -> nat
    decreases k,
{
    if k <= 0 {
        0
    } else {
        papers_around(t, pos, k - 1) + if paper_at(
            t,
            pos.looked(Direction::all()[k - 1], (t[0].len() - 1) as usize, (t.len() - 1) as usize),
        ) {
            1nat
        } else {
            0nat
        }
    }
}

/// A roll lies at `(x, y)` and fewer than four rolls lie round it.
pub open spec fn removable(t: Seq<Seq<Tile>>, x: int, y: int) -> bool {
    t[y][x] == Tile::Paper && papers_around(t, Position { x: x as usize, y: y as usize }, 8) < 4
}

/// How many of the first `upto` tiles of row `y` are removable rolls.
pub open spec fn removable_in_row(t: Seq<Seq<Tile>>, y: int, upto: int) -> nat
    decreases upto,
{
    if upto <= 0 {
        0
    } else {
        removable_in_row(t, y, upto - 1) + if removable(t, upto - 1, y) {
            1nat
        } else {
            0nat
        }
    }
}

/// How many tiles of the first `upto` rows are removable rolls.
pub open spec fn removable_in_rows(t: Seq<Seq<Tile>>, upto: int) -> nat
    decreases upto,
{
    if upto <= 0 {
        0
    } else {
        removable_in_rows(t, upto - 1) + removable_in_row(t, upto - 1, t[upto - 1].len() as int)
    }
}

/// How many rolls of the floor are removable.
pub open spec fn removable_count(t: Seq<Seq<Tile>>) -> nat {
    removable_in_rows(t, t.len() as int)
}

/// How many of the first `upto` tiles of row `y` are rolls.
pub open spec fn papers_in_row(t: Seq<Seq<Tile>>, y: int, upto: int) -> nat
    decreases upto,
{
    if upto <= 0 {
        0
    } else {
        papers_in_row(t, y, upto - 1) + if t[y][upto - 1] == Tile::Paper {
            1nat
        } else {
            0nat
        }
    }
}

/// How many tiles of the first `upto` rows are rolls.
pub open spec fn papers_in_rows(t: Seq<Seq<Tile>>, upto: int) -> nat
    decreases upto,
{
    if upto <= 0 {
        0
    } else {
        papers_in_rows(t, upto - 1) + papers_in_row(t, upto - 1, t[upto - 1].len() as int)
    }
}

/// How many rolls lie on the floor.
pub open spec fn paper_count(t: Seq<Seq<Tile>>) -> nat {
    papers_in_rows(t, t.len() as int)
}

/// The floor after every removable roll was taken away at once.
pub open spec fn stepped(t: Seq<Seq<Tile>>) -> Seq<Seq<Tile>> {
    Seq::new(
        t.len(),
        |y: int|
            Seq::new(
                t[y].len(),
                |x: int|
                    if removable(t, x, y) {
                        Tile::Space
                    } else {
                        t[y][x]
                    },
            ),
    )
}

proof fn lemma_step_in_row(t: Seq<Seq<Tile>>, y: int, upto: int)
    requires
        0 <= y < t.len(),
        0 <= upto <= t[y].len(),
    ensures
        papers_in_row(stepped(t), y, upto) + removable_in_row(t, y, upto) == papers_in_row(
            t,
            y,
            upto,
        ),
        papers_in_row(t, y, upto) <= upto,
    decreases upto,
{
    if upto > 0 {
        lemma_step_in_row(t, y, upto - 1);
        assert(stepped(t)[y][upto - 1] == if removable(t, upto - 1, y) {
            Tile::Space
        } else {
            t[y][upto - 1]
        });
    }
}

proof fn lemma_step_in_rows(t: Seq<Seq<Tile>>, upto: int)
    requires
        0 <= upto <= t.len(),
    ensures
        papers_in_rows(stepped(t), upto) + removable_in_rows(t, upto) == papers_in_rows(t, upto),
    decreases upto,
{
    if upto > 0 {
        lemma_step_in_rows(t, upto - 1);
        lemma_step_in_row(t, upto - 1, t[upto - 1].len() as int);
        assert(stepped(t)[upto - 1].len() == t[upto - 1].len());
    }
}

/// A step takes away exactly the removable rolls.
pub proof fn lemma_step_takes_the_removable(t: Seq<Seq<Tile>>)
    ensures
        paper_count(stepped(t)) + removable_count(t) == paper_count(t),
        stepped(t).len() == t.len(),
        is_floor(t) ==> is_floor(stepped(t)),
{
    lemma_step_in_rows(t, t.len() as int);
    if is_floor(t) {
        assert(stepped(t)[0].len() == t[0].len());
        assert forall|y: int| 0 <= y < stepped(t).len() implies (#[trigger] stepped(t)[y]).len()
            == stepped(t)[0].len() by {
            assert(t[y].len() == t[0].len());
        }
    }
}

/// The floor after steps were made until a step took nothing away.
pub open spec fn settled(t: Seq<Seq<Tile>>) -> Seq<Seq<Tile>>
    decreases paper_count(t),
    via settled_decreases
{
    if removable_count(t) == 0 {
        t
    } else {
        settled(stepped(t))
    }
}

#[via_fn]
proof fn settled_decreases(t: Seq<Seq<Tile>>) {
    lemma_step_takes_the_removable(t);
}

/// How many rolls are taken away until a step takes nothing away.
pub open spec fn taken_until_settled(t: Seq<Seq<Tile>>) -> nat
    decreases paper_count(t),
    via taken_until_settled_decreases
{
    if removable_count(t) == 0 {
        0
    } else {
        removable_count(t) + taken_until_settled(stepped(t))
    }
}

#[via_fn]
proof fn taken_until_settled_decreases(t: Seq<Seq<Tile>>) {
    lemma_step_takes_the_removable(t);
}

proof fn lemma_counts_fit_in_rows(t: Seq<Seq<Tile>>, upto: int)
    requires
        is_floor(t),
        0 <= upto <= t.len(),
    ensures
        papers_in_rows(t, upto) <= upto * t[0].len(),
        removable_in_rows(t, upto) <= papers_in_rows(t, upto),
    decreases upto,
{
    if upto > 0 {
        lemma_counts_fit_in_rows(t, upto - 1);
        lemma_step_in_row(t, upto - 1, t[upto - 1].len() as int);
        assert(t[upto - 1].len() == t[0].len());
        assert((upto - 1) * t[0].len() + t[0].len() == upto * t[0].len()) by (nonlinear_arith);
    }
}

/// No more rolls lie on a floor than it has tiles, and no more are
/// removable than lie on it.
pub proof fn lemma_counts_fit(t: Seq<Seq<Tile>>)
    requires
        is_floor(t),
    ensures
        removable_count(t) <= paper_count(t) <= usize::MAX,
{
    lemma_counts_fit_in_rows(t, t.len() as int);
}

/// The text without the line feeds at its end.
pub open spec fn without_final_feeds(text: Seq<char>) -> Seq<char>
    decreases text.len(),
{
    if text.len() > 0 && text.last() == '\n' {
        without_final_feeds(text.drop_last())
    } else {
        text
    }
}

/// The rows of tiles that the text draws, a row for each line.
pub open spec fn drawn_in(text: Seq<char>) -> Seq<Seq<Tile>> {
    let rows = split_on(without_final_feeds(text), '\n');
    Seq::new(rows.len(), |y: int| Seq::new(rows[y].len(), |x: int| Tile::of_char(rows[y][x])))
}

/// The text holds nothing but tiles and line feeds.
pub open spec fn is_drawing(text: Seq<char>) -> bool {
    forall|i: int| 0 <= i < text.len() ==> Tile::is_tile(#[trigger] text[i]) || text[i] == '\n'
}

proof fn lemma_pieces_hold_no_separator(s: Seq<char>, sep: char)
    ensures
        forall|y: int, x: int|
            0 <= y < split_on(s, sep).len() && 0 <= x < split_on(s, sep)[y].len() ==> s.contains(
                #[trigger] split_on(s, sep)[y][x],
            ) && split_on(s, sep)[y][x] != sep,
    decreases s.len(),
{
    if s.len() > 0 {
        let before = split_on(s.drop_last(), sep);
        let now = split_on(s, sep);
        lemma_pieces_hold_no_separator(s.drop_last(), sep);
        crate::text::lemma_split_on_is_not_empty(s.drop_last(), sep);
        assert forall|y: int, x: int| 0 <= y < now.len() && 0 <= x < now[y].len() implies s.contains(
            #[trigger] now[y][x],
        ) && now[y][x] != sep by {
            if s.last() != sep && y == now.len() - 1 && x == now[y].len() - 1 {
                assert(now[y][x] == s[s.len() - 1]);
            } else {
                assert(now[y][x] == before[y][x]);
                assert(s.drop_last().contains(before[y][x]));
                let w = choose|w: int| 0 <= w < s.drop_last().len() && s.drop_last()[w] == before[y][x];
                assert(s[w] == before[y][x]);
            }
        }
    }
}

proof fn lemma_without_final_feeds(text: Seq<char>)
    ensures
        without_final_feeds(text).len() <= text.len(),
        without_final_feeds(text) == text.take(without_final_feeds(text).len() as int),
        without_final_feeds(text).len() > 0 ==> without_final_feeds(text).last() != '\n',
    decreases text.len(),
{
    if text.len() > 0 && text.last() == '\n' {
        lemma_without_final_feeds(text.drop_last());
        let n = without_final_feeds(text).len() as int;
        assert(text.drop_last().take(n) =~= text.take(n));
    } else {
        assert(text.take(text.len() as int) =~= text);
    }
}

/// A floor: its tiles row by row.
#[derive(Debug, PartialEq)]
pub struct Grid {
    pub grid: Vec<Vec<Tile>>,
}

impl View for Grid {
    type V = Seq<Seq<Tile>>;

    open spec fn view(&self) -> Seq<Seq<Tile>> {
        tiles_of(self.grid@)
    }
}

impl Grid {
    /// Reads the floor from a drawing, a line for each row; line feeds at
    /// the end of the drawing count for nothing.
    pub fn new(grid_str: &str) -> (grid: Self)
        requires
            is_drawing(grid_str@),
        ensures
            grid@ == drawn_in(grid_str@),
    {
        let mut chars = chars_of(grid_str);
        let mut end: usize = chars.len();
        proof {
            lemma_without_final_feeds(grid_str@);
            assert(chars@.take(end as int) =~= chars@);
        }
        while end > 0 && chars[end - 1] == '\n'
            invariant
                end <= chars@.len(),
                chars@ == grid_str@,
                without_final_feeds(chars@.take(end as int)) == without_final_feeds(grid_str@),
            decreases end,
        {
            assert(chars@.take(end as int).drop_last() =~= chars@.take(end - 1));
            end = end - 1;
        }
        proof {
            assert(chars@.take(chars@.len() as int) =~= chars@);
            if end > 0 {
                assert(chars@.take(end as int).last() == chars@[end - 1]);
            }
            assert(without_final_feeds(chars@.take(end as int)) == chars@.take(end as int));
        }
        chars.truncate(end);
        assert(chars@ =~= without_final_feeds(grid_str@));
        let rows = split(&chars, '\n');
        proof {
            lemma_pieces_hold_no_separator(chars@, '\n');
        }
        let mut grid: Vec<Vec<Tile>> = Vec::new();
        let mut y: usize = 0;
        while y < rows.len()
            invariant
                y <= rows@.len(),
                is_drawing(grid_str@),
                chars@ == without_final_feeds(grid_str@),
                chars@ == grid_str@.take(chars@.len() as int),
                chars@.len() <= grid_str@.len(),
                pieces_of(rows@) == split_on(chars@, '\n'),
                forall|r: int, c: int|
                    0 <= r < split_on(chars@, '\n').len() && 0 <= c < split_on(chars@, '\n')[r].len()
                        ==> chars@.contains(#[trigger] split_on(chars@, '\n')[r][c]) && split_on(
                        chars@,
                        '\n',
                    )[r][c] != '\n',
                tiles_of(grid@) == drawn_in(grid_str@).take(y as int),
            decreases rows@.len() - y,
        {
            let mut row: Vec<Tile> = Vec::new();
            let mut x: usize = 0;
            proof {
                assert(pieces_of(rows@)[y as int] == rows@[y as int]@);
            }
            while x < rows[y].len()
                invariant
                    y < rows@.len(),
                    x <= rows@[y as int]@.len(),
                    is_drawing(grid_str@),
                    chars@ == grid_str@.take(chars@.len() as int),
                    chars@.len() <= grid_str@.len(),
                    pieces_of(rows@) == split_on(chars@, '\n'),
                    pieces_of(rows@)[y as int] == rows@[y as int]@,
                    forall|r: int, c: int|
                        0 <= r < split_on(chars@, '\n').len() && 0 <= c < split_on(
                            chars@,
                            '\n',
                        )[r].len() ==> chars@.contains(#[trigger] split_on(chars@, '\n')[r][c])
                            && split_on(chars@, '\n')[r][c] != '\n',
                    row@ == drawn_in(grid_str@)[y as int].take(x as int),
                    chars@ == without_final_feeds(grid_str@),
                decreases rows@[y as int]@.len() - x,
            {
                let c = rows[y][x];
                proof {
                    let piece = split_on(chars@, '\n')[y as int][x as int];
                    assert(piece == c);
                    assert(chars@.contains(piece));
                    let w = choose|w: int| 0 <= w < chars@.len() && chars@[w] == piece;
                    assert(grid_str@[w] == c);
                    assert(Tile::is_tile(grid_str@[w]) || grid_str@[w] == '\n');
                }
                row.push(Tile::from_char(c));
                assert(drawn_in(grid_str@)[y as int].take(x + 1) =~= drawn_in(grid_str@)[y as int].take(
                    x as int,
                ).push(Tile::of_char(c)));
                x = x + 1;
            }
            assert(row@ =~= drawn_in(grid_str@)[y as int]);
            grid.push(row);
            assert(tiles_of(grid@) =~= drawn_in(grid_str@).take(y as int).push(
                drawn_in(grid_str@)[y as int],
            ));
            assert(drawn_in(grid_str@).take(y + 1) =~= drawn_in(grid_str@).take(y as int).push(
                drawn_in(grid_str@)[y as int],
            ));
            y = y + 1;
        }
        assert(tiles_of(grid@) =~= drawn_in(grid_str@));
        Self { grid }
    }

    /// Reads the floor from a drawing, if the text holds nothing but tiles
    /// and line feeds.
    pub fn try_new(grid_str: &str) -> (grid: Option<Self>)
        ensures
            grid is Some <==> is_drawing(grid_str@),
            grid is Some ==> grid->0@ == drawn_in(grid_str@),
    {
        let chars = chars_of(grid_str);
        let mut i: usize = 0;
        while i < chars.len()
            invariant
                i <= chars@.len(),
                chars@ == grid_str@,
                forall|k: int|
                    0 <= k < i ==> Tile::is_tile(#[trigger] grid_str@[k]) || grid_str@[k] == '\n',
            decreases chars@.len() - i,
        {
            let c = chars[i];
            if !(c == '.' || c == '@' || c == '\n') {
                assert(!(Tile::is_tile(grid_str@[i as int]) || grid_str@[i as int] == '\n'));
                return None;
            }
            i = i + 1;
        }
        Some(Self::new(grid_str))
    }

    /// Whether the grid is a floor: a rectangle of at least one tile with no
    /// more tiles than fit in a machine word.
    pub fn is_floor(&self) -> (floor: bool)
        ensures
            floor == is_floor(self@),
    {
        let height = self.grid.len();
        if height < 1 {
            return false;
        }
        proof {
            assert(self@[0] == self.grid@[0]@);
        }
        let width = self.grid[0].len();
        if width < 1 {
            return false;
        }
        let mut y: usize = 0;
        while y < height
            invariant
                y <= height,
                height == self@.len(),
                width == self@[0].len(),
                forall|r: int| 0 <= r < y ==> (#[trigger] self@[r]).len() == width,
            decreases height - y,
        {
            proof {
                assert(self@[y as int] == self.grid@[y as int]@);
            }
            if self.grid[y].len() != width {
                return false;
            }
            y = y + 1;
        }
        height.checked_mul(width).is_some()
    }

    /// How many rolls lie round `pos`.
    fn papers_near(&self, pos: &Position) -> (near: usize)
        requires
            is_floor(self@),
            pos.y < self@.len(),
            pos.x < self@[0].len(),
        ensures
            near == papers_around(self@, *pos, 8),
            near <= 8,
    {
        let max_y = self.grid.len() - 1;
        proof {
            assert(self@[0] == self.grid@[0]@);
        }
        let max_x = self.grid[0].len() - 1;
        let directions = Direction::iterator();
        let mut near: usize = 0;
        let mut k: usize = 0;
        while k < directions.len()
            invariant
                k <= 8,
                directions@ == Direction::all(),
                is_floor(self@),
                max_y == self@.len() - 1,
                max_x == self@[0].len() - 1,
                pos.y <= max_y,
                pos.x <= max_x,
                near == papers_around(self@, *pos, k as int),
                near <= k,
            decreases 8 - k,
        {
            let seen = pos.look(&directions[k], max_x, max_y);
            if let Some(p) = seen {
                proof {
                    assert(p.y <= max_y && p.x <= max_x);
                    assert(self@[p.y as int] == self.grid@[p.y as int]@);
                    assert(self@[p.y as int].len() == self@[0].len());
                }
                if self.grid[p.y][p.x] == Tile::Paper {
                    near = near + 1;
                }
            }
            k = k + 1;
        }
        near
    }

    /// How many rolls can be taken away: those with fewer than four rolls
    /// round them.
    pub fn score(&self) -> (score: u64)
        requires
            is_floor(self@),
        ensures
            score == removable_count(self@),
    {
        let height = self.grid.len();
        let mut score: u64 = 0;
        let mut y: usize = 0;
        proof {
            lemma_counts_fit(self@);
        }
        while y < height
            invariant
                y <= height,
                height == self@.len(),
                is_floor(self@),
                removable_count(self@) <= usize::MAX,
                score == removable_in_rows(self@, y as int),
            decreases height - y,
        {
            proof {
                assert(self@[y as int] == self.grid@[y as int]@);
                assert(self@[y as int].len() == self@[0].len());
                lemma_removable_grows(self@, y + 1);
            }
            let width = self.grid[y].len();
            let mut in_row: u64 = 0;
            let mut x: usize = 0;
            while x < width
                invariant
                    x <= width,
                    y < height,
                    height == self@.len(),
                    width == self@[y as int].len(),
                    width == self@[0].len(),
                    self@[y as int] == self.grid@[y as int]@,
                    is_floor(self@),
                    in_row == removable_in_row(self@, y as int, x as int),
                    in_row <= x,
                decreases width - x,
            {
                if self.grid[y][x] == Tile::Paper {
                    let pos = Position::new(x, y);
                    if self.papers_near(&pos) < 4 {
                        in_row = in_row + 1;
                    }
                }
                x = x + 1;
            }
            score = score + in_row;
            y = y + 1;
        }
        score
    }

    /// Takes away every roll that can be taken away, all at once, and says
    /// how many that were.
    pub fn step(&mut self) -> (taken: usize)
        requires
            is_floor(old(self)@),
        ensures
            final(self)@ == stepped(old(self)@),
            taken == removable_count(old(self)@),
            is_floor(final(self)@),
    {
        let height = self.grid.len();
        let ghost before = self@;
        let mut after: Vec<Vec<Tile>> = Vec::new();
        let mut taken: usize = 0;
        let mut y: usize = 0;
        proof {
            lemma_counts_fit(self@);
            lemma_step_takes_the_removable(self@);
        }
        while y < height
            invariant
                y <= height,
                height == before.len(),
                self@ == before,
                is_floor(before),
                removable_count(before) <= usize::MAX,
                taken == removable_in_rows(before, y as int),
                tiles_of(after@) == stepped(before).take(y as int),
            decreases height - y,
        {
            proof {
                assert(self@[y as int] == self.grid@[y as int]@);
                assert(self@[y as int].len() == self@[0].len());
                lemma_removable_grows(self@, y + 1);
            }
            let width = self.grid[y].len();
            let mut row: Vec<Tile> = Vec::new();
            let mut in_row: usize = 0;
            let mut x: usize = 0;
            while x < width
                invariant
                    x <= width,
                    y < height,
                    height == before.len(),
                    self@ == before,
                    width == before[y as int].len(),
                    width == before[0].len(),
                    before[y as int] == self.grid@[y as int]@,
                    is_floor(before),
                    in_row == removable_in_row(before, y as int, x as int),
                    in_row <= x,
                    row@ == stepped(before)[y as int].take(x as int),
                decreases width - x,
            {
                let tile = self.grid[y][x];
                let mut left = tile;
                if tile == Tile::Paper {
                    let pos = Position::new(x, y);
                    if self.papers_near(&pos) < 4 {
                        in_row = in_row + 1;
                        left = Tile::Space;
                    }
                }
                row.push(left);
                assert(stepped(before)[y as int].take(x + 1) =~= stepped(before)[y as int].take(
                    x as int,
                ).push(left));
                x = x + 1;
            }
            assert(row@ =~= stepped(before)[y as int]);
            after.push(row);
            assert(tiles_of(after@) =~= stepped(before).take(y as int).push(
                stepped(before)[y as int],
            ));
            assert(stepped(before).take(y + 1) =~= stepped(before).take(y as int).push(
                stepped(before)[y as int],
            ));
            taken = taken + in_row;
            y = y + 1;
        }
        assert(tiles_of(after@) =~= stepped(before));
        self.grid = after;
        taken
    }

    /// Takes rolls away step by step until a step takes none, and says how
    /// many were taken in all.
    pub fn step_until(&mut self) -> (taken: usize)
        requires
            is_floor(old(self)@),
        ensures
            final(self)@ == settled(old(self)@),
            taken == taken_until_settled(old(self)@),
            is_floor(final(self)@),
    {
        let ghost start = self@;
        let mut n: usize = 1;
        let mut score: usize = 0;
        proof {
            lemma_counts_fit(start);
        }
        while n != 0
            invariant
                start == old(self)@,
                is_floor(self@),
                paper_count(start) <= usize::MAX,
                score + paper_count(self@) <= paper_count(start),
                n == 0 ==> removable_count(self@) == 0,
                settled(self@) == settled(start),
                score + taken_until_settled(self@) == taken_until_settled(start),
            decreases paper_count(self@), if n != 0 { 1int } else { 0int },
        {
            let ghost before = self@;
            proof {
                lemma_step_takes_the_removable(before);
                lemma_counts_fit(before);
            }
            let new_n = self.step();
            n = new_n;
            score += n;
            proof {
                if new_n == 0 {
                    assert(self@ =~= before) by {
                        lemma_nothing_removable(before);
                    }
                }
            }
        }
        score
    }
}

/// How many rolls are taken from the floor that the text draws until a step
/// takes none: no number where the text is no drawing or draws no floor.
pub fn taken_in_all(input: &str) -> (taken: Option<usize>)
    ensures
        taken is Some <==> is_drawing(input@) && is_floor(drawn_in(input@)),
        taken is Some ==> taken->0 == taken_until_settled(drawn_in(input@)),
{
    match Grid::try_new(input) {
        Some(grid) => {
            let mut grid = grid;
            if grid.is_floor() {
                Some(grid.step_until())
            } else {
                None
            }
        },
        None => None,
    }
}

/// The count of removable rolls in the first rows is no more than the count
/// in all rows.
pub proof fn lemma_removable_grows(t: Seq<Seq<Tile>>, upto: int)
    requires
        0 <= upto <= t.len(),
    ensures
        removable_in_rows(t, upto) <= removable_count(t),
    decreases t.len() - upto,
{
    if upto < t.len() {
        lemma_removable_grows(t, upto + 1);
    }
}

proof fn lemma_none_in_row(t: Seq<Seq<Tile>>, y: int, upto: int)
    requires
        0 <= upto,
        removable_in_row(t, y, upto) == 0,
    ensures
        forall|x: int| 0 <= x < upto ==> !#[trigger] removable(t, x, y),
    decreases upto,
{
    if upto > 0 {
        lemma_none_in_row(t, y, upto - 1);
    }
}

proof fn lemma_none_in_rows(t: Seq<Seq<Tile>>, upto: int)
    requires
        0 <= upto <= t.len(),
        removable_in_rows(t, upto) == 0,
    ensures
        forall|y: int, x: int| 0 <= y < upto && 0 <= x < t[y].len() ==> !#[trigger] removable(t, x, y),
    decreases upto,
{
    if upto > 0 {
        lemma_none_in_rows(t, upto - 1);
        lemma_none_in_row(t, upto - 1, t[upto - 1].len() as int);
    }
}

/// A step on a floor without removable rolls changes nothing.
pub proof fn lemma_nothing_removable(t: Seq<Seq<Tile>>)
    requires
        removable_count(t) == 0,
    ensures
        stepped(t) == t,
{
    lemma_none_in_rows(t, t.len() as int);
    assert forall|y: int| 0 <= y < t.len() implies #[trigger] stepped(t)[y] == t[y] by {
        assert forall|x: int| 0 <= x < t[y].len() implies #[trigger] stepped(t)[y][x] == t[y][x] by {
            assert(!removable(t, x, y));
        }
        assert(stepped(t)[y] =~= t[y]);
    }
    assert(stepped(t) =~= t);
}

} // verus!
