//! A beam of light falls through a grid row by row. Where it meets a
//! splitter it goes on to the left and to the right of it. A grid can be
//! stepped as one picture of all beams, or as timelines, in each of which
//! the beam takes one of the two ways.

use crate::text::{chars_of, lines, lines_of, pieces_of};
use vstd::prelude::*;

verus! {

/// What stands in a cell: the start of the beam, nothing, light that has
/// passed, the point of a beam, or a splitter.
#[derive(Debug, PartialEq, Clone, Copy, Hash, Eq, Structural)]
pub enum Tile {
    Start,
    Space,
    Light,
    Point,
    Splitter,
}

impl Tile {
    /// The character stands for a tile.
    pub open spec fn is_tile(c: char) -> bool {
        c == 'S' || c == '.' || c == '|' || c == 'v' || c == '^'
    }

    /// The tile that the character stands for.
    pub open spec fn of_char(c: char) -> Tile {
        if c == 'S' {
            Tile::Start
        } else if c == '|' {
            Tile::Light
        } else if c == 'v' {
            Tile::Point
        } else if c == '^' {
            Tile::Splitter
        } else {
            Tile::Space
        }
    }

    /// The character that stands for the tile.
    pub open spec fn as_char(self) -> char {
        match self {
            Tile::Start => 'S',
            Tile::Space => '.',
            Tile::Light => '|',
            Tile::Point => 'v',
            Tile::Splitter => '^',
        }
    }

    /// The tile that one of the characters `S . | v ^` stands for.
    pub fn from_char(c: &char) -> (tile: Self)
        requires
            Self::is_tile(*c),
        ensures
            tile == Self::of_char(*c),
    {
        let c = *c;
        if c == 'S' {
            Self::Start
        } else if c == '|' {
            Self::Light
        } else if c == 'v' {
            Self::Point
        } else if c == '^' {
            Self::Splitter
        } else {
            Self::Space
        }
    }

    /// The character that stands for the tile.
    pub fn to_char(&self) -> (c: char)
        ensures
            c == self.as_char(),
            Self::is_tile(c),
            Self::of_char(c) == *self,
    {
        match self {
            Self::Start => 'S',
            Self::Space => '.',
            Self::Light => '|',
            Self::Point => 'v',
            Self::Splitter => '^',
        }
    }
}

/// The row under the cursor and the row below it while the cells of the
/// upper row are passed from left to right, with the count of splits and,
/// for timelines, the place of the last splitter that was met.
pub struct Beam {
    pub current: Seq<Tile>,
    pub next: Seq<Tile>,
    pub splits: nat,
    pub fork: Option<int>,
}

impl Beam {
    /// Cell `i` of the upper row can be passed: no light stands in it; under
    /// a start there is space; under a point there is space, a point or a
    /// splitter, and a splitter has a cell on either side and can still be
    /// counted.
    pub open spec fn can_pass(self, i: int) -> bool {
        match self.current[i] {
            Tile::Space | Tile::Splitter => true,
            Tile::Light => false,
            Tile::Start => i < self.next.len() && self.next[i] == Tile::Space,
            Tile::Point => i < self.next.len() && match self.next[i] {
                Tile::Space | Tile::Point => true,
                Tile::Splitter => 1 <= i && i + 1 < self.next.len() && self.splits < u16::MAX,
                _ => false,
            },
        }
    }

    /// Cell `i` of the upper row can be passed in a timeline: as in a picture
    /// of all beams, but a splitter need not be counted.
    pub open spec fn can_branch(self, i: int) -> bool {
        match self.current[i] {
            Tile::Space | Tile::Splitter => true,
            Tile::Light => false,
            Tile::Start => i < self.next.len() && self.next[i] == Tile::Space,
            Tile::Point => i < self.next.len() && match self.next[i] {
                Tile::Space | Tile::Point => true,
                Tile::Splitter => 1 <= i && i + 1 < self.next.len(),
                _ => false,
            },
        }
    }

    /// The rows after cell `i` was passed in a picture of all beams: a start
    /// puts a point under itself; a point becomes light and goes on under
    /// itself, or on both sides of a splitter, which is counted.
    pub open spec fn passed(self, i: int) -> Beam {
        match self.current[i] {
            Tile::Start => Beam {
                current: self.current,
                next: self.next.update(i, Tile::Point),
                splits: self.splits,
                fork: self.fork,
            },
            Tile::Point => match self.next[i] {
                Tile::Space => Beam {
                    current: self.current.update(i, Tile::Light),
                    next: self.next.update(i, Tile::Point),
                    splits: self.splits,
                    fork: self.fork,
                },
                Tile::Splitter => Beam {
                    current: self.current.update(i, Tile::Light),
                    next: self.next.update(i - 1, Tile::Point).update(i + 1, Tile::Point),
                    splits: self.splits + 1,
                    fork: Some(i),
                },
                _ => Beam {
                    current: self.current.update(i, Tile::Light),
                    next: self.next,
                    splits: self.splits,
                    fork: self.fork,
                },
            },
            _ => self,
        }
    }

    /// The rows after cell `i` was passed in a timeline: as in a picture of
    /// all beams, but at a splitter the beam goes to the left only, the
    /// splitter is remembered and nothing is counted.
    pub open spec fn branched(self, i: int) -> Beam {
        if self.current[i] == Tile::Point && self.next[i] == Tile::Splitter {
            Beam {
                current: self.current.update(i, Tile::Light),
                next: self.next.update(i - 1, Tile::Point),
                splits: self.splits,
                fork: Some(i),
            }
        } else {
            self.passed(i)
        }
    }

    /// The rows after the first `k` cells were passed in a picture of all
    /// beams.
    pub open spec fn passed_all(self, k: int) -> Beam
        decreases k,
    {
        if k <= 0 {
            self
        } else {
            self.passed_all(k - 1).passed(k - 1)
        }
    }

    /// Each of the first `k` cells can be passed in its turn in a picture of
    /// all beams.
    pub open spec fn can_pass_all(self, k: int) -> bool
        decreases k,
    {
        if k <= 0 {
            true
        } else {
            self.can_pass_all(k - 1) && self.passed_all(k - 1).can_pass(k - 1)
        }
    }

    /// The rows after the first `k` cells were passed in a timeline.
    pub open spec fn branched_all(self, k: int) -> Beam
        decreases k,
    {
        if k <= 0 {
            self
        } else {
            self.branched_all(k - 1).branched(k - 1)
        }
    }

    /// Each of the first `k` cells can be passed in its turn in a timeline.
    pub open spec fn can_branch_all(self, k: int) -> bool
        decreases k,
    {
        if k <= 0 {
            true
        } else {
            self.can_branch_all(k - 1) && self.branched_all(k - 1).can_branch(k - 1)
        }
    }
}

proof fn lemma_passed_all_keeps_lengths(b: Beam, k: int)
    requires
        0 <= k <= b.current.len(),
        b.can_pass_all(k),
    ensures
        b.passed_all(k).current.len() == b.current.len(),
        b.passed_all(k).next.len() == b.next.len(),
        forall|i: int| k <= i < b.current.len() ==> b.passed_all(k).current[i] == b.current[i],
    decreases k,
{
    if k > 0 {
        lemma_passed_all_keeps_lengths(b, k - 1);
    }
}

proof fn lemma_branched_all_keeps_lengths(b: Beam, k: int)
    requires
        0 <= k <= b.current.len(),
        b.can_branch_all(k),
    ensures
        b.branched_all(k).current.len() == b.current.len(),
        b.branched_all(k).next.len() == b.next.len(),
        b.branched_all(k).splits == b.splits,
        forall|i: int| k <= i < b.current.len() ==> b.branched_all(k).current[i] == b.current[i],
        b.branched_all(k).fork is Some ==> b.fork is Some || 0 <= b.branched_all(k).fork->0 < k
            && b.branched_all(k).fork->0 + 1 < b.next.len(),
    decreases k,
{
    if k > 0 {
        lemma_branched_all_keeps_lengths(b, k - 1);
    }
}

proof fn lemma_can_pass_prefix(b: Beam, k: int, n: int)
    requires
        0 <= k <= n,
        b.can_pass_all(n),
    ensures
        b.can_pass_all(k),
    decreases n - k,
{
    if k < n {
        lemma_can_pass_prefix(b, k + 1, n);
    }
}

proof fn lemma_can_branch_prefix(b: Beam, k: int, n: int)
    requires
        0 <= k <= n,
        b.can_branch_all(n),
    ensures
        b.can_branch_all(k),
    decreases n - k,
{
    if k < n {
        lemma_can_branch_prefix(b, k + 1, n);
    }
}

/// A grid as a value.
pub struct GridView {
    pub rows: Seq<Seq<Tile>>,
    pub cursor: usize,
    pub splits: u16,
    pub timelines: u64,
}

impl GridView {
    /// The row under the cursor and the row below it, before any cell is
    /// passed.
    pub open spec fn beam(self) -> Beam {
        Beam {
            current: self.rows[self.cursor as int],
            next: self.rows[self.cursor + 1],
            splits: self.splits as nat,
            fork: None,
        }
    }

    /// The row under the cursor.
    pub open spec fn cursor_row(self) -> Seq<Tile> {
        self.rows[self.cursor as int]
    }

    /// A row lies below the cursor and every cell of the row under the
    /// cursor can be passed in a picture of all beams.
    pub open spec fn can_step(self) -> bool {
        self.cursor + 1 < self.rows.len() && self.beam().can_pass_all(
            self.cursor_row().len() as int,
        )
    }

    /// The grid after the beams went one row down in a picture of all
    /// beams.
    pub open spec fn stepped(self) -> GridView {
        let after = self.beam().passed_all(self.cursor_row().len() as int);
        GridView {
            rows: self.rows.update(self.cursor as int, after.current).update(
                self.cursor + 1,
                after.next,
            ),
            cursor: (self.cursor + 1) as usize,
            splits: after.splits as u16,
            timelines: self.timelines,
        }
    }

    /// `n` steps can be made one after the other.
    pub open spec fn can_step_times(self, n: nat) -> bool
        decreases n,
    {
        n == 0 || (self.can_step() && self.stepped().can_step_times((n - 1) as nat))
    }

    /// The grid after as many steps as can be made, but no more than
    /// `limit`.
    pub open spec fn stepped_while(self, limit: nat) -> GridView
        decreases limit,
    {
        if limit == 0 || !self.can_step() {
            self
        } else {
            self.stepped().stepped_while((limit - 1) as nat)
        }
    }

    /// The grid after `n` steps.
    pub open spec fn stepped_times(self, n: nat) -> GridView
        decreases n,
    {
        if n == 0 {
            self
        } else {
            self.stepped().stepped_times((n - 1) as nat)
        }
    }

    /// A row lies below the cursor and every cell of the row under the
    /// cursor can be passed in a timeline.
    pub open spec fn can_branch(self) -> bool {
        self.cursor + 1 < self.rows.len() && self.beam().can_branch_all(
            self.cursor_row().len() as int,
        )
    }

    /// The timelines that follow from this one when the beam goes one row
    /// down. The first is the grid in which the beam went straight on or to
    /// the left of a splitter. Where the beam met a splitter there is a
    /// second: the grid as it was, with the beam to the right of the last
    /// splitter met.
    pub open spec fn branches(self) -> Seq<GridView> {
        let after = self.beam().branched_all(self.cursor_row().len() as int);
        let main = GridView {
            rows: self.rows.update(self.cursor as int, after.current).update(
                self.cursor + 1,
                after.next,
            ),
            cursor: (self.cursor + 1) as usize,
            splits: self.splits,
            timelines: self.timelines,
        };
        if after.fork is Some {
            seq![
                main,
                GridView {
                    rows: self.rows.update(
                        self.cursor + 1,
                        self.rows[self.cursor + 1].update(after.fork->0 + 1, Tile::Point),
                    ),
                    cursor: (self.cursor + 1) as usize,
                    splits: self.splits,
                    timelines: self.timelines,
                },
            ]
        } else {
            seq![main]
        }
    }
}

/// The rows as sequences of tiles.
pub open spec fn tiles_of(grid: Seq<Vec<Tile>>) -> Seq<Seq<Tile>> {
    Seq::new(grid.len(), |y: int| grid[y]@)
}

/// The rows of characters as sequences of characters.
pub open spec fn chars_in(grid: Seq<Vec<char>>) -> Seq<Seq<char>> {
    Seq::new(grid.len(), |y: int| grid[y]@)
}

/// Every character of every row stands for a tile.
pub open spec fn all_tiles(rows: Seq<Seq<char>>) -> bool {
    forall|y: int, x: int|
        0 <= y < rows.len() && 0 <= x < rows[y].len() ==> Tile::is_tile(#[trigger] rows[y][x])
}

/// The rows of tiles that the rows of characters stand for.
pub open spec fn drawn(rows: Seq<Seq<char>>) -> Seq<Seq<Tile>> {
    Seq::new(rows.len(), |y: int| Seq::new(rows[y].len(), |x: int| Tile::of_char(rows[y][x])))
}

/// The cells row by row, the row that the beams have reached, the count of
/// splits, and for how many timelines the grid stands.
#[derive(Debug, PartialEq)]
pub struct Grid {
    pub grid: Vec<Vec<Tile>>,
    pub cursor: usize,
    pub splits: u16,
    pub timelines: u64,
}

impl View for Grid {
    type V = GridView;

    open spec fn view(&self) -> GridView {
        GridView {
            rows: tiles_of(self.grid@),
            cursor: self.cursor,
            splits: self.splits,
            timelines: self.timelines,
        }
    }
}

fn copy_of_row(row: &Vec<Tile>) -> (copy: Vec<Tile>)
    ensures
        copy@ == row@,
{
    let mut copy: Vec<Tile> = Vec::new();
    let mut i: usize = 0;
    while i < row.len()
        invariant
            i <= row@.len(),
            copy@ == row@.take(i as int),
        decreases row@.len() - i,
    {
        copy.push(row[i]);
        assert(row@.take(i + 1) =~= row@.take(i as int).push(row@[i as int]));
        i = i + 1;
    }
    assert(row@.take(row@.len() as int) =~= row@);
    copy
}

fn same_row(a: &Vec<Tile>, b: &Vec<Tile>) -> (same: bool)
    ensures
        same == (a@ == b@),
{
    if a.len() != b.len() {
        return false;
    }
    let mut i: usize = 0;
    while i < a.len()
        invariant
            i <= a@.len(),
            a@.len() == b@.len(),
            forall|k: int| 0 <= k < i ==> a@[k] == b@[k],
        decreases a@.len() - i,
    {
        if a[i] != b[i] {
            return false;
        }
        i = i + 1;
    }
    assert(a@ =~= b@);
    true
}

impl Clone for Grid {
    fn clone(&self) -> (copy: Self)
        ensures
            copy@ == self@,
    {
        let mut grid: Vec<Vec<Tile>> = Vec::new();
        let mut y: usize = 0;
        while y < self.grid.len()
            invariant
                y <= self.grid@.len(),
                tiles_of(grid@) == tiles_of(self.grid@).take(y as int),
            decreases self.grid@.len() - y,
        {
            let row = copy_of_row(&self.grid[y]);
            grid.push(row);
            assert(tiles_of(grid@) =~= tiles_of(self.grid@).take(y as int).push(
                self.grid@[y as int]@,
            ));
            assert(tiles_of(self.grid@).take(y + 1) =~= tiles_of(self.grid@).take(y as int).push(
                self.grid@[y as int]@,
            ));
            y = y + 1;
        }
        assert(tiles_of(grid@) =~= tiles_of(self.grid@));
        Grid { grid, cursor: self.cursor, splits: self.splits, timelines: self.timelines }
    }
}

impl Grid {
    /// A grid from rows of characters, with the cursor on the first row, no
    /// split counted and one timeline.
    pub fn new(char_grid: Vec<Vec<char>>) -> (grid: Self)
        requires
            all_tiles(chars_in(char_grid@)),
        ensures
            grid@ == (GridView {
                rows: drawn(chars_in(char_grid@)),
                cursor: 0,
                splits: 0,
                timelines: 1,
            }),
    {
        let ghost rows = chars_in(char_grid@);
        let mut grid: Vec<Vec<Tile>> = Vec::new();
        let mut y: usize = 0;
        while y < char_grid.len()
            invariant
                y <= char_grid@.len(),
                rows == chars_in(char_grid@),
                all_tiles(rows),
                tiles_of(grid@) == drawn(rows).take(y as int),
            decreases char_grid@.len() - y,
        {
            let mut row: Vec<Tile> = Vec::new();
            let mut x: usize = 0;
            proof {
                assert(rows[y as int] == char_grid@[y as int]@);
            }
            while x < char_grid[y].len()
                invariant
                    y < char_grid@.len(),
                    x <= char_grid@[y as int]@.len(),
                    rows == chars_in(char_grid@),
                    rows[y as int] == char_grid@[y as int]@,
                    all_tiles(rows),
                    row@ == drawn(rows)[y as int].take(x as int),
                decreases char_grid@[y as int]@.len() - x,
            {
                assert(Tile::is_tile(rows[y as int][x as int]));
                let tile = Tile::from_char(&char_grid[y][x]);
                row.push(tile);
                assert(drawn(rows)[y as int].take(x + 1) =~= drawn(rows)[y as int].take(
                    x as int,
                ).push(tile));
                x = x + 1;
            }
            assert(row@ =~= drawn(rows)[y as int]);
            grid.push(row);
            assert(tiles_of(grid@) =~= drawn(rows).take(y as int).push(drawn(rows)[y as int]));
            assert(drawn(rows).take(y + 1) =~= drawn(rows).take(y as int).push(
                drawn(rows)[y as int],
            ));
            y = y + 1;
        }
        assert(tiles_of(grid@) =~= drawn(rows));
        Self { grid, cursor: 0, splits: 0, timelines: 1 }
    }

    /// A grid from rows of characters, if every character stands for a tile.
    pub fn try_new(char_grid: Vec<Vec<char>>) -> (grid: Option<Self>)
        ensures
            grid is Some <==> all_tiles(chars_in(char_grid@)),
            grid is Some ==> grid->0@ == (GridView {
                rows: drawn(chars_in(char_grid@)),
                cursor: 0,
                splits: 0,
                timelines: 1,
            }),
    {
        let ghost rows = chars_in(char_grid@);
        let mut y: usize = 0;
        while y < char_grid.len()
            invariant
                y <= char_grid@.len(),
                rows == chars_in(char_grid@),
                forall|r: int, c: int|
                    0 <= r < y && 0 <= c < rows[r].len() ==> Tile::is_tile(#[trigger] rows[r][c]),
            decreases char_grid@.len() - y,
        {
            let mut x: usize = 0;
            proof {
                assert(rows[y as int] == char_grid@[y as int]@);
            }
            while x < char_grid[y].len()
                invariant
                    y < char_grid@.len(),
                    x <= char_grid@[y as int]@.len(),
                    rows == chars_in(char_grid@),
                    rows[y as int] == char_grid@[y as int]@,
                    forall|c: int| 0 <= c < x ==> Tile::is_tile(#[trigger] rows[y as int][c]),
                decreases char_grid@[y as int]@.len() - x,
            {
                let c = char_grid[y][x];
                if !(c == 'S' || c == '.' || c == '|' || c == 'v' || c == '^') {
                    assert(!Tile::is_tile(rows[y as int][x as int]));
                    return None;
                }
                x = x + 1;
            }
            y = y + 1;
        }
        Some(Self::new(char_grid))
    }

    /// A grid from a drawing, a line for each row, if every character of
    /// every line stands for a tile.
    pub fn try_read(input: &str) -> (grid: Option<Self>)
        ensures
            grid is Some <==> all_tiles(lines_of(input@)),
            grid is Some ==> grid->0@ == (GridView {
                rows: drawn(lines_of(input@)),
                cursor: 0,
                splits: 0,
                timelines: 1,
            }),
    {
        let chars = chars_of(input);
        let rows = lines(&chars);
        assert(chars_in(rows@) =~= pieces_of(rows@));
        Self::try_new(rows)
    }

    /// A grid from a drawing, a line for each row.
    pub fn read(input: &str) -> (grid: Self)
        requires
            all_tiles(lines_of(input@)),
        ensures
            grid@ == (GridView {
                rows: drawn(lines_of(input@)),
                cursor: 0,
                splits: 0,
                timelines: 1,
            }),
    {
        let chars = chars_of(input);
        let rows = lines(&chars);
        assert(chars_in(rows@) =~= pieces_of(rows@));
        Self::new(rows)
    }

    /// The beams go one row down in a picture of all beams, if they can:
    /// otherwise the grid stays as it is.
    pub fn try_step(&mut self) -> (done: bool)
        ensures
            done <==> old(self)@.can_step(),
            done ==> final(self)@ == old(self)@.stepped(),
            !done ==> final(self)@ == old(self)@,
    {
        let ghost before = self@;
        let ghost start = before.beam();
        let height = self.grid.len();
        assert(before.rows.len() == height);
        if height < 2 || self.cursor > height - 2 {
            return false;
        }
        proof {
            assert(before.rows[self.cursor as int] == self.grid@[self.cursor as int]@);
            assert(before.rows[self.cursor + 1] == self.grid@[self.cursor + 1]@);
        }
        let mut current = copy_of_row(&self.grid[self.cursor]);
        let mut next = copy_of_row(&self.grid[self.cursor + 1]);
        let width = current.len();
        let mut splits = self.splits;
        let ghost mut fork: Option<int> = None;
        let mut i: usize = 0;
        while i < width
            invariant
                i <= width,
                self@ == before,
                before == old(self)@,
                start == before.beam(),
                before.cursor + 1 < before.rows.len(),
                width == before.cursor_row().len(),
                width == start.current.len(),
                start.can_pass_all(i as int),
                (Beam { current: current@, next: next@, splits: splits as nat, fork }) == start.passed_all(
                    i as int,
                ),
            decreases width - i,
        {
            proof {
                lemma_passed_all_keeps_lengths(start, i as int);
                if start.can_pass_all(width as int) {
                    lemma_can_pass_prefix(start, i + 1, width as int);
                }
            }
            match current[i] {
                Tile::Light => {
                    return false;
                },
                Tile::Point => {
                    if i >= next.len() {
                        return false;
                    }
                    match next[i] {
                        Tile::Space => {
                            current.set(i, Tile::Light);
                            next.set(i, Tile::Point);
                        },
                        Tile::Splitter => {
                            if i < 1 || i + 1 >= next.len() || splits == 0xffff {
                                return false;
                            }
                            splits = splits + 1;
                            current.set(i, Tile::Light);
                            next.set(i - 1, Tile::Point);
                            next.set(i + 1, Tile::Point);
                            proof {
                                fork = Some(i as int);
                            }
                        },
                        Tile::Point => {
                            current.set(i, Tile::Light);
                        },
                        _ => {
                            return false;
                        },
                    }
                },
                Tile::Start => {
                    if i >= next.len() || next[i] != Tile::Space {
                        return false;
                    }
                    next.set(i, Tile::Point);
                },
                _ => {},
            }
            i = i + 1;
        }
        let cursor = self.cursor;
        self.grid.set(cursor, current);
        self.grid.set(cursor + 1, next);
        self.splits = splits;
        self.cursor = cursor + 1;
        proof {
            assert(self@.rows =~= before.stepped().rows);
        }
        true
    }

    /// The beams go one row down in a picture of all beams.
    pub fn step(&mut self) -> (done: Option<()>)
        requires
            old(self)@.can_step(),
        ensures
            final(self)@ == old(self)@.stepped(),
            done is Some,
    {
        self.try_step();
        Some(())
    }

    /// As many steps as the first row is wide, as far as they can be made:
    /// says whether all of them could.
    pub fn try_step_until(&mut self) -> (done: bool)
        ensures
            done <==> old(self)@.rows.len() > 0 && old(self)@.can_step_times(
                old(self)@.rows[0].len(),
            ),
            done ==> final(self)@ == old(self)@.stepped_times(old(self)@.rows[0].len()),
            old(self)@.rows.len() == 0 ==> final(self)@ == old(self)@,
            old(self)@.rows.len() > 0 ==> final(self)@ == old(self)@.stepped_while(
                old(self)@.rows[0].len(),
            ),
    {
        let ghost start = self@;
        if self.grid.len() == 0 {
            assert(start.rows.len() == 0);
            return false;
        }
        proof {
            assert(start.rows[0] == self.grid@[0]@);
        }
        let length = self.grid[0].len();
        let mut made: usize = 0;
        while made < length
            invariant
                made <= length,
                start == old(self)@,
                start.rows.len() > 0,
                length == start.rows[0].len(),
                self@.can_step_times((length - made) as nat) <==> start.can_step_times(length as nat),
                self@.stepped_times((length - made) as nat) == start.stepped_times(length as nat),
                self@.stepped_while((length - made) as nat) == start.stepped_while(length as nat),
            decreases length - made,
        {
            if !self.try_step() {
                return false;
            }
            made = made + 1;
        }
        true
    }

    /// As many steps as the first row is wide.
    pub fn step_until(&mut self)
        requires
            old(self)@.rows.len() > 0,
            old(self)@.can_step_times(old(self)@.rows[0].len()),
        ensures
            final(self)@ == old(self)@.stepped_times(old(self)@.rows[0].len()),
    {
        self.try_step_until();
    }

    /// The timelines that follow from this one when the beam goes one row
    /// down: one, or two where the beam met a splitter.
    pub fn timeline_step(&self) -> (result: Vec<Self>)
        requires
            self@.can_branch(),
        ensures
            views(result@) == self@.branches(),
    {
        self.try_timeline_step().unwrap()
    }

    /// The timelines that follow from this one when the beam goes one row
    /// down, if it can.
    pub fn try_timeline_step(&self) -> (result: Option<Vec<Self>>)
        ensures
            result is Some <==> self@.can_branch(),
            result is Some ==> views(result->0@) == self@.branches(),
    {
        let ghost before = self@;
        let ghost start = before.beam();
        let height = self.grid.len();
        assert(before.rows.len() == height);
        if height < 2 || self.cursor > height - 2 {
            return None;
        }
        proof {
            assert(before.rows[self.cursor as int] == self.grid@[self.cursor as int]@);
            assert(before.rows[self.cursor + 1] == self.grid@[self.cursor + 1]@);
        }
        let mut self_clone = self.clone();
        let mut current = copy_of_row(&self.grid[self.cursor]);
        let mut next = copy_of_row(&self.grid[self.cursor + 1]);
        let width = current.len();
        let mut potential_flag = false;
        let mut fork_at: usize = 0;
        let mut i: usize = 0;
        while i < width
            invariant
                i <= width,
                before == self@,
                start == before.beam(),
                before.cursor + 1 < before.rows.len(),
                width == before.cursor_row().len(),
                width == start.current.len(),
                start.can_branch_all(i as int),
                start.fork is None,
                (Beam {
                    current: current@,
                    next: next@,
                    splits: start.splits,
                    fork: if potential_flag {
                        Some(fork_at as int)
                    } else {
                        None
                    },
                }) == start.branched_all(i as int),
            decreases width - i,
        {
            proof {
                lemma_branched_all_keeps_lengths(start, i as int);
                if start.can_branch_all(width as int) {
                    lemma_can_branch_prefix(start, i + 1, width as int);
                }
            }
            match current[i] {
                Tile::Light => {
                    return None;
                },
                Tile::Point => {
                    if i >= next.len() {
                        return None;
                    }
                    match next[i] {
                        Tile::Space => {
                            current.set(i, Tile::Light);
                            next.set(i, Tile::Point);
                        },
                        Tile::Splitter => {
                            if i < 1 || i + 1 >= next.len() {
                                return None;
                            }
                            current.set(i, Tile::Light);
                            next.set(i - 1, Tile::Point);
                            potential_flag = true;
                            fork_at = i;
                        },
                        Tile::Point => {
                            current.set(i, Tile::Light);
                        },
                        _ => {
                            return None;
                        },
                    }
                },
                Tile::Start => {
                    if i >= next.len() || next[i] != Tile::Space {
                        return None;
                    }
                    next.set(i, Tile::Point);
                },
                _ => {},
            }
            i = i + 1;
        }
        proof {
            lemma_branched_all_keeps_lengths(start, width as int);
        }
        let cursor = self.cursor;
        self_clone.grid.set(cursor, current);
        self_clone.grid.set(cursor + 1, next);
        self_clone.cursor = cursor + 1;
        let mut result: Vec<Self> = Vec::new();
        proof {
            assert(self_clone@.rows =~= before.branches()[0].rows);
        }
        result.push(self_clone);
        if potential_flag {
            let mut potential_clone = self.clone();
            let mut right = copy_of_row(&self.grid[cursor + 1]);
            right.set(fork_at + 1, Tile::Point);
            potential_clone.grid.set(cursor + 1, right);
            potential_clone.cursor = cursor + 1;
            proof {
                assert(potential_clone@.rows =~= before.branches()[1].rows);
            }
            result.push(potential_clone);
        }
        assert(views(result@) =~= before.branches());
        Some(result)
    }
}

/// The values of the grids, in their order.
pub open spec fn views(grids: Seq<Grid>) -> Seq<GridView> {
    Seq::new(grids.len(), |i: int| grids[i]@)
}

/// The index of the first of `grids`, from `from` on, whose row under the
/// cursor is `row`; the number of grids where there is none.
pub open spec fn first_with_row(grids: Seq<GridView>, row: Seq<Tile>, from: int) -> int
    decreases grids.len() - from,
{
    if from >= grids.len() {
        grids.len() as int
    } else if grids[from].cursor_row() == row {
        from
    } else {
        first_with_row(grids, row, from + 1)
    }
}

/// `g` can be gathered into `gathered`: its cursor is on a row, and where
/// a grid with the same row under the cursor is there already, the
/// timelines of the two can be added.
pub open spec fn can_gather(gathered: Seq<GridView>, g: GridView) -> bool {
    let at = first_with_row(gathered, g.cursor_row(), 0);
    g.cursor < g.rows.len() && (at < gathered.len() ==> gathered[at].timelines + g.timelines
        <= u64::MAX)
}

/// `gathered` with `g`: the timelines of `g` go to the first grid that has
/// the same row under the cursor, or `g` itself goes to the back.
pub open spec fn gather(gathered: Seq<GridView>, g: GridView) -> Seq<GridView> {
    let at = first_with_row(gathered, g.cursor_row(), 0);
    if at < gathered.len() {
        gathered.update(
            at,
            GridView {
                rows: gathered[at].rows,
                cursor: gathered[at].cursor,
                splits: gathered[at].splits,
                timelines: (gathered[at].timelines + g.timelines) as u64,
            },
        )
    } else {
        gathered.push(g)
    }
}

/// The first `k` grids gathered: one grid for each row under a cursor, the
/// first that had it, with the timelines of all that had it.
pub open spec fn reduced(grids: Seq<GridView>, k: int) -> Seq<GridView>
    decreases k,
{
    if k <= 0 {
        Seq::empty()
    } else {
        gather(reduced(grids, k - 1), grids[k - 1])
    }
}

/// The first `k` grids can be gathered one after the other.
pub open spec fn can_reduce(grids: Seq<GridView>, k: int) -> bool
    decreases k,
{
    if k <= 0 {
        true
    } else {
        can_reduce(grids, k - 1) && can_gather(reduced(grids, k - 1), grids[k - 1])
    }
}

/// The timelines that follow from the first `k` grids, those of the first
/// grid first.
pub open spec fn all_branches(grids: Seq<GridView>, k: int) -> Seq<GridView>
    decreases k,
{
    if k <= 0 {
        Seq::empty()
    } else {
        all_branches(grids, k - 1) + grids[k - 1].branches()
    }
}

/// Each of the first `k` grids can go one row down as a timeline.
pub open spec fn can_branch_each(grids: Seq<GridView>, k: int) -> bool
    decreases k,
{
    if k <= 0 {
        true
    } else {
        can_branch_each(grids, k - 1) && grids[k - 1].can_branch()
    }
}

/// `n` rounds of a step and a gathering can be made.
pub open spec fn can_run(grids: Seq<GridView>, n: nat) -> bool
    decreases n,
{
    n == 0 || {
        let after = all_branches(grids, grids.len() as int);
        &&& can_branch_each(grids, grids.len() as int)
        &&& can_reduce(after, after.len() as int)
        &&& can_run(reduced(after, after.len() as int), (n - 1) as nat)
    }
}

/// The grids after `n` rounds of a step and a gathering.
pub open spec fn run(grids: Seq<GridView>, n: nat) -> Seq<GridView>
    decreases n,
{
    if n == 0 {
        grids
    } else {
        let after = all_branches(grids, grids.len() as int);
        run(reduced(after, after.len() as int), (n - 1) as nat)
    }
}

/// The grids after as many rounds of a step and a gathering as can be made,
/// but no more than `n`. Where a step can be made and the gathering after it
/// cannot, the grids are those after the step.
pub open spec fn run_while(grids: Seq<GridView>, n: nat) -> Seq<GridView>
    decreases n,
{
    if n == 0 || !can_branch_each(grids, grids.len() as int) {
        grids
    } else {
        let after = all_branches(grids, grids.len() as int);
        if can_reduce(after, after.len() as int) {
            run_while(reduced(after, after.len() as int), (n - 1) as nat)
        } else {
            after
        }
    }
}

proof fn lemma_first_with_row(grids: Seq<GridView>, row: Seq<Tile>, from: int)
    requires
        0 <= from <= grids.len(),
    ensures
        from <= first_with_row(grids, row, from) <= grids.len(),
    decreases grids.len() - from,
{
    if from < grids.len() && grids[from].cursor_row() != row {
        lemma_first_with_row(grids, row, from + 1);
    }
}

proof fn lemma_reduced_has_cursors(grids: Seq<GridView>, k: int)
    requires
        0 <= k <= grids.len(),
        can_reduce(grids, k),
    ensures
        reduced(grids, k).len() <= k,
        forall|i: int|
            0 <= i < reduced(grids, k).len() ==> (#[trigger] reduced(grids, k)[i]).cursor < reduced(
                grids,
                k,
            )[i].rows.len(),
    decreases k,
{
    if k > 0 {
        lemma_reduced_has_cursors(grids, k - 1);
        let gathered = reduced(grids, k - 1);
        lemma_first_with_row(gathered, grids[k - 1].cursor_row(), 0);
    }
}

proof fn lemma_can_branch_each_prefix(grids: Seq<GridView>, k: int, n: int)
    requires
        0 <= k <= n,
        can_branch_each(grids, n),
    ensures
        can_branch_each(grids, k),
    decreases n - k,
{
    if k < n {
        lemma_can_branch_each_prefix(grids, k + 1, n);
    }
}

proof fn lemma_can_reduce_prefix(grids: Seq<GridView>, k: int, n: int)
    requires
        0 <= k <= n,
        can_reduce(grids, n),
    ensures
        can_reduce(grids, k),
    decreases n - k,
{
    if k < n {
        lemma_can_reduce_prefix(grids, k + 1, n);
    }
}

/// The grid that the lines of the text draw, before any step.
pub open spec fn drawn_grid(text: Seq<char>) -> GridView {
    GridView { rows: drawn(lines_of(text)), cursor: 0, splits: 0, timelines: 1 }
}

/// How often the beams of the grid that the text draws are split while they
/// go down as many rows as the first row is wide: no number where a
/// character is no tile or a step cannot be made.
pub fn splits_in(input: &str) -> (splits: Option<u16>)
    ensures
        splits is Some <==> all_tiles(lines_of(input@)) && drawn_grid(input@).rows.len() > 0
            && drawn_grid(input@).can_step_times(drawn_grid(input@).rows[0].len()),
        splits is Some ==> splits->0 == drawn_grid(input@).stepped_times(
            drawn_grid(input@).rows[0].len(),
        ).splits,
{
    match Grid::try_read(input) {
        Some(grid) => {
            let mut grid = grid;
            if grid.try_step_until() {
                Some(grid.splits)
            } else {
                None
            }
        },
        None => None,
    }
}

/// The sum of the timelines of the first `k` grids.
pub open spec fn timelines_sum(grids: Seq<GridView>, k: int) -> nat
    decreases k,
{
    if k <= 0 {
        0
    } else {
        timelines_sum(grids, k - 1) + grids[k - 1].timelines as nat
    }
}

proof fn lemma_timelines_sum_grows(grids: Seq<GridView>, k: int, n: int)
    requires
        0 <= k <= n,
    ensures
        timelines_sum(grids, k) <= timelines_sum(grids, n),
    decreases n - k,
{
    if k < n {
        lemma_timelines_sum_grows(grids, k, n - 1);
    }
}

/// The timelines that the grid of the text has when the beam has gone down
/// through all its rows.
pub open spec fn final_timelines(text: Seq<char>) -> Seq<GridView> {
    run(seq![drawn_grid(text)], (drawn_grid(text).rows.len() - 1) as nat)
}

/// In how many timelines the beam of the grid that the text draws reaches
/// the last row: no number where a character is no tile, the grid has no
/// row, a step or a gathering cannot be made, or the number does not fit in
/// 64 bits.
pub fn timelines_in(input: &str) -> (total: Option<u64>)
    ensures
        total is Some <==> all_tiles(lines_of(input@)) && drawn_grid(input@).rows.len() >= 1
            && can_run(seq![drawn_grid(input@)], (drawn_grid(input@).rows.len() - 1) as nat)
            && timelines_sum(final_timelines(input@), final_timelines(input@).len() as int)
            <= u64::MAX,
        total is Some ==> total->0 == timelines_sum(
            final_timelines(input@),
            final_timelines(input@).len() as int,
        ),
{
    let grid = match Grid::try_read(input) {
        Some(grid) => grid,
        None => {
            return None;
        },
    };
    let mut timelines = Timelines::new(grid);
    if !timelines.try_step_until() {
        return None;
    }
    let ghost grids = views(timelines.grids@);
    assert(grids == final_timelines(input@));
    let mut total: u64 = 0;
    let mut k: usize = 0;
    while k < timelines.grids.len()
        invariant
            k <= timelines.grids@.len(),
            grids == views(timelines.grids@),
            grids == final_timelines(input@),
            total == timelines_sum(grids, k as int),
        decreases timelines.grids@.len() - k,
    {
        proof {
            assert(grids[k as int] == timelines.grids@[k as int]@);
            lemma_timelines_sum_grows(grids, k + 1, grids.len() as int);
        }
        total = match total.checked_add(timelines.grids[k].timelines) {
            Some(total) => total,
            None => {
                return None;
            },
        };
        k = k + 1;
    }
    Some(total)
}

/// The timelines of a grid: the grids that the beam's ways have led to, and
/// the number of rows of the grid they began with.
#[derive(Debug, PartialEq)]
pub struct Timelines {
    pub grids: Vec<Grid>,
    pub l: usize,
}

impl Timelines {
    /// The one timeline in which nothing has happened yet.
    pub fn new(grid: Grid) -> (timelines: Self)
        ensures
            views(timelines.grids@) == seq![grid@],
            timelines.l == grid@.rows.len(),
    {
        let l = grid.grid.len();
        let mut grids: Vec<Grid> = Vec::new();
        let ghost first = grid@;
        grids.push(grid);
        assert(views(grids@) =~= seq![first]);
        Self { grids, l }
    }

    /// Gathers the grids that have the same row under the cursor into one
    /// grid, the first of them, with the timelines of all of them.
    pub fn reduce(&mut self)
        requires
            can_reduce(views(old(self).grids@), old(self).grids@.len() as int),
        ensures
            views(final(self).grids@) == reduced(
                views(old(self).grids@),
                old(self).grids@.len() as int,
            ),
            final(self).l == old(self).l,
    {
        self.try_reduce();
    }

    /// Gathers the grids that have the same row under the cursor into one
    /// grid, the first of them, with the timelines of all of them, if that
    /// can be done: otherwise the timelines stay as they are.
    pub fn try_reduce(&mut self) -> (done: bool)
        ensures
            done <==> can_reduce(views(old(self).grids@), old(self).grids@.len() as int),
            done ==> views(final(self).grids@) == reduced(
                views(old(self).grids@),
                old(self).grids@.len() as int,
            ),
            !done ==> views(final(self).grids@) == views(old(self).grids@),
            final(self).l == old(self).l,
    {
        let ghost all = views(self.grids@);
        let mut gathered: Vec<Grid> = Vec::new();
        let mut k: usize = 0;
        assert(views(gathered@) =~= reduced(all, 0));
        while k < self.grids.len()
            invariant
                k <= self.grids@.len(),
                *self == *old(self),
                all == views(self.grids@),
                can_reduce(all, k as int),
                views(gathered@) == reduced(all, k as int),
            decreases self.grids@.len() - k,
        {
            proof {
                if can_reduce(all, all.len() as int) {
                    lemma_can_reduce_prefix(all, k + 1, all.len() as int);
                }
                lemma_reduced_has_cursors(all, k as int);
                assert(all[k as int] == self.grids@[k as int]@);
                assert(all[k as int].rows.len() == self.grids@[k as int].grid@.len());
            }
            let g = &self.grids[k];
            if g.cursor >= g.grid.len() {
                return false;
            }
            proof {
                assert(all[k as int].cursor_row() == self.grids@[k as int].grid@[self.grids@[k as int].cursor as int]@);
            }
            let row = &g.grid[g.cursor];
            let ghost so_far = views(gathered@);
            let mut at: usize = 0;
            let mut found = false;
            while at < gathered.len() && !found
                invariant
                    at <= gathered@.len(),
                    so_far == views(gathered@),
                    forall|i: int|
                        0 <= i < so_far.len() ==> (#[trigger] so_far[i]).cursor < so_far[i].rows.len(),
                    first_with_row(so_far, row@, at as int) == first_with_row(so_far, row@, 0),
                    found ==> at < gathered@.len() && so_far[at as int].cursor_row() == row@,
                decreases gathered@.len() - at + if found { 0int } else { 1int },
            {
                proof {
                    assert(so_far[at as int] == gathered@[at as int]@);
                    assert(so_far[at as int].cursor < so_far[at as int].rows.len());
                    assert(so_far[at as int].cursor_row() == gathered@[at as int].grid@[gathered@[at as int].cursor as int]@);
                }
                let other = &gathered[at];
                if same_row(&other.grid[other.cursor], row) {
                    found = true;
                } else {
                    at = at + 1;
                }
            }
            if found {
                proof {
                    assert(so_far[at as int] == gathered@[at as int]@);
                }
                let sum = match gathered[at].timelines.checked_add(g.timelines) {
                    Some(sum) => sum,
                    None => {
                        return false;
                    },
                };
                let mut new_grid = gathered.remove(at);
                new_grid.timelines = sum;
                gathered.insert(at, new_grid);
                proof {
                    assert(views(gathered@) =~= gather(so_far, all[k as int]));
                }
            } else {
                let copy = g.clone();
                gathered.push(copy);
                proof {
                    assert(views(gathered@) =~= gather(so_far, all[k as int]));
                }
            }
            k = k + 1;
        }
        self.grids = gathered;
        true
    }

    /// Every timeline goes one row down.
    pub fn step(&mut self)
        requires
            can_branch_each(views(old(self).grids@), old(self).grids@.len() as int),
        ensures
            views(final(self).grids@) == all_branches(
                views(old(self).grids@),
                old(self).grids@.len() as int,
            ),
            final(self).l == old(self).l,
    {
        self.try_step();
    }

    /// Every timeline goes one row down, if every one can: otherwise the
    /// timelines stay as they are.
    pub fn try_step(&mut self) -> (done: bool)
        ensures
            done <==> can_branch_each(views(old(self).grids@), old(self).grids@.len() as int),
            done ==> views(final(self).grids@) == all_branches(
                views(old(self).grids@),
                old(self).grids@.len() as int,
            ),
            !done ==> views(final(self).grids@) == views(old(self).grids@),
            final(self).l == old(self).l,
    {
        let ghost all = views(self.grids@);
        let mut new_grids: Vec<Grid> = Vec::new();
        let mut k: usize = 0;
        assert(views(new_grids@) =~= all_branches(all, 0));
        while k < self.grids.len()
            invariant
                k <= self.grids@.len(),
                *self == *old(self),
                all == views(self.grids@),
                can_branch_each(all, k as int),
                views(new_grids@) == all_branches(all, k as int),
            decreases self.grids@.len() - k,
        {
            proof {
                if can_branch_each(all, all.len() as int) {
                    lemma_can_branch_each_prefix(all, k + 1, all.len() as int);
                }
                assert(all[k as int] == self.grids@[k as int]@);
            }
            let ghost so_far = views(new_grids@);
            let mut branches = match self.grids[k].try_timeline_step() {
                Some(branches) => branches,
                None => {
                    return false;
                },
            };
            let ghost added = views(branches@);
            let second = if branches.len() == 2 {
                branches.pop()
            } else {
                None
            };
            let first = branches.pop();
            proof {
                assert(added.len() == 1 || added.len() == 2);
            }
            match first {
                Some(grid) => {
                    proof {
                        assert(grid@ == added[0]);
                    }
                    new_grids.push(grid);
                },
                None => {},
            }
            match second {
                Some(grid) => {
                    proof {
                        assert(grid@ == added[1]);
                    }
                    new_grids.push(grid);
                },
                None => {},
            }
            proof {
                assert(views(new_grids@) =~= so_far + added);
            }
            k = k + 1;
        }
        self.grids = new_grids;
        true
    }

    /// A step and a gathering for every row of the grid but the last.
    pub fn step_until(&mut self)
        requires
            old(self).l >= 1,
            can_run(views(old(self).grids@), (old(self).l - 1) as nat),
        ensures
            views(final(self).grids@) == run(views(old(self).grids@), (old(self).l - 1) as nat),
            final(self).l == old(self).l,
    {
        self.try_step_until();
    }

    /// A step and a gathering for every row of the grid but the last, as far
    /// as they can be made: says whether all of them could.
    pub fn try_step_until(&mut self) -> (done: bool)
        ensures
            done <==> old(self).l >= 1 && can_run(
                views(old(self).grids@),
                (old(self).l - 1) as nat,
            ),
            done ==> views(final(self).grids@) == run(
                views(old(self).grids@),
                (old(self).l - 1) as nat,
            ),
            final(self).l == old(self).l,
            old(self).l == 0 ==> views(final(self).grids@) == views(old(self).grids@),
            old(self).l >= 1 ==> views(final(self).grids@) == run_while(
                views(old(self).grids@),
                (old(self).l - 1) as nat,
            ),
    {
        let ghost start = views(self.grids@);
        if self.l < 1 {
            return false;
        }
        let rounds = self.l - 1;
        let mut made: usize = 0;
        while made < rounds
            invariant
                made <= rounds,
                rounds == self.l - 1,
                self.l == old(self).l,
                start == views(old(self).grids@),
                can_run(views(self.grids@), (rounds - made) as nat) <==> can_run(start, rounds as nat),
                run(views(self.grids@), (rounds - made) as nat) == run(start, rounds as nat),
                run_while(views(self.grids@), (rounds - made) as nat) == run_while(
                    start,
                    rounds as nat,
                ),
            decreases rounds - made,
        {
            if !self.try_step() {
                return false;
            }
            if !self.try_reduce() {
                return false;
            }
            made = made + 1;
        }
        true
    }
}

} // verus!
