//! Junction boxes in space, wired into circuits shortest connection first.
//!
//! A `Grid` holds the boxes, every pair of boxes as a candidate connection
//! ordered by squared length, and the circuits built so far. Each `evolve`
//! consumes the shortest remaining connection and starts, grows or merges a
//! circuit with it.

pub mod laws;
pub mod model;

use crate::days::day8::laws::lemma_exhausted_grid_is_one_circuit;
use crate::days::day8::model::{
    all_pairs, disjoint, first_touching, has_id, id_set, lemma_first_touching, lemma_grown_wf,
    lemma_id_set_push, lemma_initial_wf, lemma_largest_first_wf, lemma_merged_ids,
    lemma_merged_wf, lemma_pair_has, lemma_pair_wf, lemma_step_wf, lengths, lengths_fit, link,
    longest_first, numbered, pairs_before, row, sizes, CircuitView, GridView,
};
use crate::rank::{arrange, rank_descending};
use crate::text::{
    chars_of, is_unsigned, lines, lines_of, parse_unsigned, pieces_of, split, split_on,
    unsigned_value,
};
use std::collections::HashSet;
use vstd::prelude::*;

verus! {

broadcast use vstd::std_specs::hash::group_hash_axioms;

/// The distance between two coordinates on one axis.
pub open spec fn axis_gap(a: u32, b: u32) -> int {
    if a > b {
        a - b
    } else {
        b - a
    }
}

/// A point in space.
#[derive(PartialEq, Eq, Debug, Clone, Copy, Structural)]
pub struct Position {
    pub x: u32,
    pub y: u32,
    pub z: u32,
}

impl Position {
    /// The sum of the squared distances on the three axes.
    pub open spec fn squared_distance(self, another: Position) -> int {
        axis_gap(self.x, another.x) * axis_gap(self.x, another.x) + axis_gap(self.y, another.y)
            * axis_gap(self.y, another.y) + axis_gap(self.z, another.z) * axis_gap(
            self.z,
            another.z,
        )
    }

    /// The point at `x`, `y`, `z`.
    pub fn new(x: u32, y: u32, z: u32) -> (p: Self)
        ensures
            p == (Position { x, y, z }),
    {
        Self { x, y, z }
    }

    /// What a line of text says: three unsigned numbers of 32 bits with a
    /// comma between one and the next, and nothing else.
    pub open spec fn written_in(text: Seq<char>) -> Option<Position> {
        let fields = split_on(text, ',');
        if fields.len() == 3 && is_unsigned(fields[0], u32::MAX as int) && is_unsigned(
            fields[1],
            u32::MAX as int,
        ) && is_unsigned(fields[2], u32::MAX as int) {
            Some(
                Position {
                    x: unsigned_value(fields[0]) as u32,
                    y: unsigned_value(fields[1]) as u32,
                    z: unsigned_value(fields[2]) as u32,
                },
            )
        } else {
            None
        }
    }

    /// Reads a position from a line of the form `x,y,z`.
    pub fn read(pos_str: &str) -> (read: Result<Self, GridError>)
        ensures
            Self::written_in(pos_str@) is Some ==> read == Ok::<Self, GridError>(
                Self::written_in(pos_str@)->0,
            ),
            Self::written_in(pos_str@) is None ==> read == Err::<Self, GridError>(
                GridError::InvalidPositionString,
            ),
    {
        let chars = chars_of(pos_str);
        Self::read_chars(&chars)
    }

    /// Reads a position from the characters of a line of the form `x,y,z`.
    pub fn read_chars(chars: &Vec<char>) -> (read: Result<Self, GridError>)
        ensures
            Self::written_in(chars@) is Some ==> read == Ok::<Self, GridError>(
                Self::written_in(chars@)->0,
            ),
            Self::written_in(chars@) is None ==> read == Err::<Self, GridError>(
                GridError::InvalidPositionString,
            ),
    {
        let fields = split(chars, ',');
        if fields.len() != 3 {
            return Err(GridError::InvalidPositionString);
        }
        proof {
            assert(pieces_of(fields@)[0] == fields@[0]@);
            assert(pieces_of(fields@)[1] == fields@[1]@);
            assert(pieces_of(fields@)[2] == fields@[2]@);
            assert(fields@[0]@.subrange(0, fields@[0]@.len() as int) =~= fields@[0]@);
            assert(fields@[1]@.subrange(0, fields@[1]@.len() as int) =~= fields@[1]@);
            assert(fields@[2]@.subrange(0, fields@[2]@.len() as int) =~= fields@[2]@);
        }
        let x = parse_unsigned(&fields[0], 0, fields[0].len(), 0xffff_ffff);
        let y = parse_unsigned(&fields[1], 0, fields[1].len(), 0xffff_ffff);
        let z = parse_unsigned(&fields[2], 0, fields[2].len(), 0xffff_ffff);
        match (x, y, z) {
            (Some(x), Some(y), Some(z)) => Ok(Self { x: x as u32, y: y as u32, z: z as u32 }),
            _ => Err(GridError::InvalidPositionString),
        }
    }

    /// Whether the squared distance to `another` fits in 64 bits.
    pub fn distance_fits(&self, another: &Self) -> (fits: bool)
        ensures
            fits == (self.squared_distance(*another) <= u64::MAX),
    {
        let dx = gap(self.x, another.x) as u128;
        let dy = gap(self.y, another.y) as u128;
        let dz = gap(self.z, another.z) as u128;
        assert(0 <= dx * dx <= 0xffff_ffff * 0xffff_ffff) by (nonlinear_arith)
            requires
                0 <= dx <= 0xffff_ffff,
        ;
        assert(0 <= dy * dy <= 0xffff_ffff * 0xffff_ffff) by (nonlinear_arith)
            requires
                0 <= dy <= 0xffff_ffff,
        ;
        assert(0 <= dz * dz <= 0xffff_ffff * 0xffff_ffff) by (nonlinear_arith)
            requires
                0 <= dz <= 0xffff_ffff,
        ;
        dx * dx + dy * dy + dz * dz <= 0xffff_ffff_ffff_ffff
    }

    /// The squared Euclidean distance to `another`. The sum has to fit in 64
    /// bits; each single axis always does.
    pub fn distance_squared(&self, another: &Self) -> (d: u64)
        requires
            self.squared_distance(*another) <= u64::MAX,
        ensures
            d == self.squared_distance(*another),
    {
        let dx = gap(self.x, another.x);
        let dy = gap(self.y, another.y);
        let dz = gap(self.z, another.z);
        assert(0 <= dx * dx <= 0xffff_ffff * 0xffff_ffff) by (nonlinear_arith)
            requires
                0 <= dx <= 0xffff_ffff,
        ;
        assert(0 <= dy * dy <= 0xffff_ffff * 0xffff_ffff) by (nonlinear_arith)
            requires
                0 <= dy <= 0xffff_ffff,
        ;
        assert(0 <= dz * dz <= 0xffff_ffff * 0xffff_ffff) by (nonlinear_arith)
            requires
                0 <= dz <= 0xffff_ffff,
        ;
        let mut sum: u64 = dx * dx;
        sum = sum + dy * dy;
        sum = sum + dz * dz;
        sum
    }
}

fn gap(a: u32, b: u32) -> (d: u64)
    ensures
        d == axis_gap(a, b),
{
    if a > b {
        (a - b) as u64
    } else {
        (b - a) as u64
    }
}

/// A box: a position with an identity.
#[derive(PartialEq, Eq, Debug, Clone, Copy, Structural)]
pub struct JunctionBox {
    pub id: usize,
    pub pos: Position,
}

impl JunctionBox {
    /// The box of this id at this position.
    pub fn new(id: usize, pos: Position) -> (jb: Self)
        ensures
            jb == (JunctionBox { id, pos }),
    {
        Self { id, pos }
    }

    /// The squared Euclidean distance between the two boxes.
    pub fn distance_squared(&self, another: &Self) -> (d: u64)
        requires
            self.pos.squared_distance(another.pos) <= u64::MAX,
        ensures
            d == self.pos.squared_distance(another.pos),
    {
        self.pos.distance_squared(&another.pos)
    }
}

/// An unordered pair of box ids, kept with the smaller id first.
#[derive(Debug, PartialEq, Eq, Hash, Clone, Copy, Structural)]
pub struct Connection {
    pub from: usize,
    pub to: usize,
}

impl Connection {
    /// The key of the pair `a`, `b`, whichever way round it is given.
    pub open spec fn between(a: usize, b: usize) -> Connection {
        if a < b {
            Connection { from: a, to: b }
        } else {
            Connection { from: b, to: a }
        }
    }

    /// The key of the connection between the two boxes, whichever is named
    /// first.
    pub fn new(from: &usize, to: &usize) -> (conn: Self)
        ensures
            conn == Self::between(*from, *to),
    {
        if *from < *to {
            Self { from: *from, to: *to }
        } else {
            Self { from: *to, to: *from }
        }
    }
}

/// A connection is the same key whichever end is named first.
pub proof fn lemma_connection_is_unordered(a: usize, b: usize)
    ensures
        Connection::between(a, b) == Connection::between(b, a),
        Connection::between(a, b).from <= Connection::between(a, b).to,
{
}

/// What can be wrong with the input: a box that is named twice, or a line
/// that is no position.
#[derive(Debug, PartialEq, Eq, Clone, Copy, Structural)]
pub enum GridError {
    DuplicateIDs,
    InvalidPositionString,
}

/// A set of boxes wired together, with the connections that did it.
#[derive(Debug, PartialEq)]
pub struct Circuit {
    boxes: Vec<JunctionBox>,
    connections: Vec<(Connection, u64)>,
    box_set: HashSet<usize>,
}

impl View for Circuit {
    type V = CircuitView;

    closed spec fn view(&self) -> CircuitView {
        CircuitView { boxes: self.boxes@, connections: self.connections@ }
    }
}

impl Clone for Circuit {
    fn clone(&self) -> (copy: Self)
        ensures
            copy@ == self@,
            self.wf() ==> copy.wf(),
    {
        let mut boxes: Vec<JunctionBox> = Vec::new();
        let mut box_set: HashSet<usize> = HashSet::new();
        let mut i: usize = 0;
        while i < self.boxes.len()
            invariant
                i <= self.boxes.len(),
                boxes@ == self.boxes@.take(i as int),
                self.wf() ==> box_set@ == id_set(boxes@) && box_set@.finite() && box_set@.len() == i,
            decreases self.boxes.len() - i,
        {
            let jb = self.boxes[i];
            proof {
                assert(self.boxes@.take(i + 1) =~= self.boxes@.take(i as int).push(jb));
                lemma_id_set_push(boxes@, jb);
                if self.wf() && has_id(boxes@, jb.id) {
                    let w = choose|w: int| 0 <= w < boxes@.len() && #[trigger] boxes@[w].id == jb.id;
                    assert(self.boxes@[w].id == self.boxes@[i as int].id);
                }
            }
            boxes.push(jb);
            box_set.insert(jb.id);
            i = i + 1;
        }
        let mut connections: Vec<(Connection, u64)> = Vec::new();
        let mut e: usize = 0;
        while e < self.connections.len()
            invariant
                e <= self.connections.len(),
                connections@ == self.connections@.take(e as int),
            decreases self.connections.len() - e,
        {
            connections.push(self.connections[e]);
            assert(self.connections@.take(e + 1) =~= self.connections@.take(e as int).push(
                self.connections@[e as int],
            ));
            e = e + 1;
        }
        assert(boxes@ =~= self.boxes@);
        assert(connections@ =~= self.connections@);
        Circuit { boxes, connections, box_set }
    }
}

impl Circuit {
    /// The circuit's value is well formed and its id set holds exactly the ids
    /// of its boxes.
    pub open spec fn wf(&self) -> bool {
        &&& self@.wf()
        &&& self.ids_kept()
    }

    /// The id set holds exactly the ids of the boxes.
    pub closed spec fn ids_kept(&self) -> bool {
        &&& self.box_set@ == self@.ids()
        &&& self.box_set@.finite()
        &&& self.box_set@.len() == self.boxes@.len()
    }

    /// Two boxes become a circuit, unless they are one and the same box.
    pub fn new(abox: JunctionBox, another: JunctionBox) -> (made: Result<Self, GridError>)
        requires
            abox.pos.squared_distance(another.pos) <= u64::MAX,
        ensures
            abox.id == another.id ==> made == Err::<Self, GridError>(GridError::DuplicateIDs),
            abox.id != another.id ==> made is Ok && made->Ok_0@ == CircuitView::pair(abox, another)
                && made->Ok_0.wf(),
    {
        if abox.id == another.id {
            return Err(GridError::DuplicateIDs);
        }
        let mut boxes: Vec<JunctionBox> = Vec::new();
        boxes.push(abox);
        boxes.push(another);
        let mut connections: Vec<(Connection, u64)> = Vec::new();
        connections.push((Connection::new(&abox.id, &another.id), abox.distance_squared(&another)));
        let mut box_set: HashSet<usize> = HashSet::new();
        box_set.insert(abox.id);
        box_set.insert(another.id);
        let made = Self { boxes, connections, box_set };
        proof {
            let v = CircuitView::pair(abox, another);
            assert(made@.boxes =~= v.boxes);
            assert(made@.connections =~= v.connections);
            lemma_pair_wf(abox, another);
            assert forall|id: usize| v.has(id) <==> (id == abox.id || id == another.id) by {
                lemma_pair_has(abox, another, id);
            }
            assert(made.box_set@ =~= v.ids());
        }
        Ok(made)
    }

    /// The far end of `conn` if the circuit holds one of its ends: `to` when
    /// it holds `from`, else `from` when it holds `to`.
    pub fn check_is_in(&self, conn: &Connection) -> (other: Option<usize>)
        requires
            self.wf(),
        ensures
            other == if self@.has(conn.from) {
                Some(conn.to)
            } else if self@.has(conn.to) {
                Some(conn.from)
            } else {
                None
            },
            other is Some <==> self@.touches(*conn),
            other is Some ==> other->0 == self@.far_end(*conn),
    {
        if self.box_set.contains(&conn.from) {
            Some(conn.to)
        } else if self.box_set.contains(&conn.to) {
            Some(conn.from)
        } else {
            None
        }
    }

    /// One more box joins the circuit over `conn`, which runs between the new
    /// box and a box of the circuit.
    pub fn add(&mut self, j: &JunctionBox, conn: &Connection, distance: u64)
        requires
            old(self).wf(),
            !old(self)@.has(j.id),
            conn.from < conn.to,
            conn.from == j.id || conn.to == j.id,
            old(self)@.touches(*conn),
        ensures
            final(self).wf(),
            final(self)@ == old(self)@.grown(*j, *conn, distance),
    {
        proof {
            lemma_grown_wf(self@, *j, *conn, distance);
            lemma_id_set_push(self@.boxes, *j);
        }
        self.boxes.push(*j);
        self.box_set.insert(j.id);
        self.connections.push((*conn, distance));
    }

    /// How many boxes the circuit holds.
    pub fn size(&self) -> (n: usize)
        requires
            self.wf(),
        ensures
            n == self@.boxes.len(),
    {
        self.box_set.len()
    }

    /// The boxes in the order in which they joined.
    pub fn boxes(&self) -> (boxes: &Vec<JunctionBox>)
        ensures
            boxes@ == self@.boxes,
    {
        &self.boxes
    }

    /// The recorded connections in the order in which they were made.
    pub fn connections(&self) -> (connections: &Vec<(Connection, u64)>)
        ensures
            connections@ == self@.connections,
    {
        &self.connections
    }

    /// Whether the box with this id belongs to the circuit.
    pub fn contains(&self, id: usize) -> (found: bool)
        requires
            self.wf(),
        ensures
            found == self@.has(id),
    {
        self.box_set.contains(&id)
    }
}

/// Every line of the text is a position.
pub open spec fn all_lines_are_positions(text: Seq<char>) -> bool {
    forall|i: int|
        0 <= i < lines_of(text).len() ==> Position::written_in(#[trigger] lines_of(text)[i]) is Some
}

/// The positions that the lines of the text say.
pub open spec fn positions_in(text: Seq<char>) -> Seq<Position> {
    Seq::new(lines_of(text).len(), |i: int| Position::written_in(lines_of(text)[i])->0)
}

/// The product of the `x` coordinates of the two boxes whose connection
/// brings all boxes of the text into one circuit, a box for each line. No
/// product where a line is no position, there are fewer than two boxes or a
/// squared distance between two of them does not fit in 64 bits.
pub fn last_connection_product(input: &str) -> (product: Option<u64>)
    ensures
        product is Some <==> all_lines_are_positions(input@) && lines_of(input@).len() >= 2
            && lengths_fit(numbered(positions_in(input@))),
        product is Some ==> product->0 == GridView::initial(positions_in(input@)).x_product(
            GridView::initial(positions_in(input@)).unifying_connection(lines_of(input@).len()),
        ),
{
    let chars = chars_of(input);
    let rows = lines(&chars);
    let mut positions: Vec<Position> = Vec::new();
    let mut i: usize = 0;
    while i < rows.len()
        invariant
            i <= rows@.len(),
            pieces_of(rows@) == lines_of(input@),
            positions@.len() == i,
            forall|k: int|
                0 <= k < i ==> Position::written_in(#[trigger] lines_of(input@)[k]) is Some,
            forall|k: int|
                0 <= k < i ==> #[trigger] positions@[k] == Position::written_in(
                    lines_of(input@)[k],
                )->0,
        decreases rows@.len() - i,
    {
        proof {
            assert(pieces_of(rows@)[i as int] == rows@[i as int]@);
        }
        match Position::read_chars(&rows[i]) {
            Ok(position) => {
                positions.push(position);
            },
            Err(_) => {
                return None;
            },
        }
        i = i + 1;
    }
    assert(positions@ =~= positions_in(input@));
    let n = positions.len();
    if n < 2 {
        return None;
    }
    match Grid::try_new(positions) {
        Some(grid) => {
            let mut grid = grid;
            assert(grid@.distance_stack.len() > 0) by (nonlinear_arith)
                requires
                    2 * grid@.distance_stack.len() == n * (n - 1),
                    n >= 2,
            ;
            assert(grid@.junction_boxes.len() == n);
            Some(grid.score_2(n))
        },
        None => None,
    }
}

/// The values of the circuits, in their order.
pub open spec fn views(circuits: Seq<Circuit>) -> Seq<CircuitView> {
    Seq::new(circuits.len(), |i: int| circuits[i]@)
}

/// The boxes, the circuits wired so far, and the candidate connections that
/// are left, longest first.
#[derive(Debug)]
pub struct Grid {
    circuits: Vec<Circuit>,
    junction_boxes: Vec<JunctionBox>,
    distance_stack: Vec<(Connection, u64)>,
}

impl View for Grid {
    type V = GridView;

    closed spec fn view(&self) -> GridView {
        GridView {
            junction_boxes: self.junction_boxes@,
            circuits: views(self.circuits@),
            distance_stack: self.distance_stack@,
        }
    }
}

impl Grid {
    /// The grid's value meets the grid invariant and every circuit is well
    /// formed.
    pub open spec fn wf(&self) -> bool {
        &&& self@.wf()
        &&& self.circuits_wf()
    }

    /// Every circuit is well formed.
    pub closed spec fn circuits_wf(&self) -> bool {
        forall|k: int| 0 <= k < self.circuits@.len() ==> (#[trigger] self.circuits@[k]).wf()
    }

    /// Numbers the positions from zero and lists every pair of them as a
    /// candidate connection, longest first. No circuit exists yet.
    pub fn new(junction_pos: Vec<Position>) -> (grid: Self)
        requires
            lengths_fit(numbered(junction_pos@)),
        ensures
            grid@ == GridView::initial(junction_pos@),
            grid.wf(),
            2 * grid@.distance_stack.len() == junction_pos@.len() * (junction_pos@.len() - 1),
    {
        let mut junction_boxes: Vec<JunctionBox> = Vec::new();
        let mut i: usize = 0;
        while i < junction_pos.len()
            invariant
                i <= junction_pos.len(),
                junction_boxes@ == numbered(junction_pos@).take(i as int),
            decreases junction_pos.len() - i,
        {
            junction_boxes.push(JunctionBox::new(i, junction_pos[i]));
            assert(numbered(junction_pos@).take(i + 1) =~= numbered(junction_pos@).take(
                i as int,
            ).push(JunctionBox { id: i, pos: junction_pos@[i as int] }));
            i = i + 1;
        }
        assert(junction_boxes@ =~= numbered(junction_pos@));
        let distance_stack = Self::get_distance_stack(junction_boxes.as_slice());
        let circuits: Vec<Circuit> = Vec::new();
        proof {
            lemma_initial_wf(junction_pos@);
            assert(views(circuits@) =~= Seq::<CircuitView>::empty());
        }
        Self { circuits, junction_boxes, distance_stack }
    }

    /// Whether every squared distance between two of the positions fits in
    /// 64 bits, which is what `new` asks of them.
    pub fn can_hold(junction_pos: &Vec<Position>) -> (fit: bool)
        ensures
            fit == lengths_fit(numbered(junction_pos@)),
    {
        let n = junction_pos.len();
        let ghost boxes = numbered(junction_pos@);
        let mut i: usize = 0;
        while i < n
            invariant
                i <= n,
                n == junction_pos@.len(),
                boxes == numbered(junction_pos@),
                forall|a: int, b: int|
                    0 <= a < i && 0 <= b < n ==> #[trigger] boxes[a].pos.squared_distance(
                        #[trigger] boxes[b].pos,
                    ) <= u64::MAX,
            decreases n - i,
        {
            let mut j: usize = 0;
            while j < n
                invariant
                    i < n,
                    j <= n,
                    n == junction_pos@.len(),
                    boxes == numbered(junction_pos@),
                    forall|b: int|
                        0 <= b < j ==> boxes[i as int].pos.squared_distance(
                            #[trigger] boxes[b].pos,
                        ) <= u64::MAX,
                decreases n - j,
            {
                if !junction_pos[i].distance_fits(&junction_pos[j]) {
                    assert(boxes[i as int].pos.squared_distance(boxes[j as int].pos) > u64::MAX);
                    return false;
                }
                j = j + 1;
            }
            i = i + 1;
        }
        true
    }

    /// The grid of these positions, unless a squared distance between two of
    /// them does not fit in 64 bits.
    pub fn try_new(junction_pos: Vec<Position>) -> (grid: Option<Self>)
        ensures
            grid is Some <==> lengths_fit(numbered(junction_pos@)),
            grid is Some ==> grid->0@ == GridView::initial(junction_pos@) && grid->0.wf() && 2
                * grid->0@.distance_stack.len() == junction_pos@.len() * (junction_pos@.len() - 1),
    {
        if Self::can_hold(&junction_pos) {
            Some(Self::new(junction_pos))
        } else {
            None
        }
    }

    /// Every pair of the boxes as a candidate connection with its squared
    /// length, longest first; pairs of one length stay in the order in which
    /// two nested loops over the boxes meet them.
    pub fn get_distance_stack(jbs: &[JunctionBox]) -> (stack: Vec<(Connection, u64)>)
        requires
            lengths_fit(jbs@),
        ensures
            stack@ == longest_first(all_pairs(jbs@)),
            all_pairs(jbs@).len() <= usize::MAX,
    {
        let n = jbs.len();
        let mut pairs: Vec<(Connection, u64)> = Vec::new();
        let mut keys: Vec<u64> = Vec::new();
        let mut i: usize = 0;
        while i < n
            invariant
                i <= n,
                n == jbs@.len(),
                lengths_fit(jbs@),
                pairs@ == pairs_before(jbs@, i as int),
                keys@ == lengths(pairs@),
            decreases n - i,
        {
            let ghost before = pairs@;
            let mut j: usize = i + 1;
            assert(before + row(jbs@, i as int, j as int) =~= before);
            while j < n
                invariant
                    i < j <= n,
                    n == jbs@.len(),
                    lengths_fit(jbs@),
                    pairs@ == before + row(jbs@, i as int, j as int),
                    keys@ == lengths(pairs@),
                decreases n - j,
            {
                let ghost so_far = pairs@;
                let d = jbs[i].distance_squared(&jbs[j]);
                let connection = Connection::new(&jbs[i].id, &jbs[j].id);
                pairs.push((connection, d));
                keys.push(d);
                j = j + 1;
                proof {
                    assert((connection, d) == link(jbs@[i as int], jbs@[j - 1]));
                    assert(pairs@ =~= before + row(jbs@, i as int, j as int));
                    assert(keys@ =~= lengths(pairs@));
                }
            }
            i = i + 1;
        }
        let rank = rank_descending(&keys);
        let mut stack: Vec<(Connection, u64)> = Vec::new();
        let mut p: usize = 0;
        while p < rank.len()
            invariant
                p <= rank.len(),
                rank@.len() == pairs@.len(),
                forall|q: int| 0 <= q < rank@.len() ==> 0 <= #[trigger] rank@[q] < pairs@.len(),
                stack@ == arrange(pairs@, rank@).take(p as int),
            decreases rank.len() - p,
        {
            stack.push(pairs[rank[p]]);
            assert(arrange(pairs@, rank@).take(p + 1) =~= arrange(pairs@, rank@).take(
                p as int,
            ).push(pairs@[rank@[p as int] as int]));
            p = p + 1;
        }
        assert(stack@ =~= arrange(pairs@, rank@));
        stack
    }

    /// The circuit that replaces two circuits when `conn` joins a box of the
    /// one to a box of the other: the boxes of the first, then those of the
    /// second; the connections of both, then `conn`.
    pub fn merge_circuits(first: &Circuit, second: &Circuit, conn: &Connection, d: u64) -> (merged:
        Circuit)
        requires
            first.wf(),
            second.wf(),
            disjoint(first@, second@),
            conn.from < conn.to,
            (first@.has(conn.from) && second@.has(conn.to)) || (first@.has(conn.to)
                && second@.has(conn.from)),
        ensures
            merged@ == first@.merged(second@, *conn, d),
            merged.wf(),
            merged@.ids() == first@.ids().union(second@.ids()),
    {
        let mut merged = first.clone();
        let mut i: usize = 0;
        while i < second.boxes.len()
            invariant
                i <= second.boxes.len(),
                first.wf(),
                second.wf(),
                disjoint(first@, second@),
                merged.boxes@ == first.boxes@ + second.boxes@.take(i as int),
                merged.connections@ == first.connections@,
                merged.box_set@ == id_set(merged.boxes@),
                merged.box_set@.finite(),
                merged.box_set@.len() == merged.boxes@.len(),
            decreases second.boxes.len() - i,
        {
            let jb = second.boxes[i];
            proof {
                lemma_id_set_push(merged.boxes@, jb);
                assert(second@.has(jb.id));
                if has_id(merged.boxes@, jb.id) {
                    let w = choose|w: int|
                        0 <= w < merged.boxes@.len() && #[trigger] merged.boxes@[w].id == jb.id;
                    if w < first.boxes@.len() {
                        assert(first.boxes@[w].id == jb.id);
                        assert(first@.has(jb.id));
                    } else {
                        assert(second.boxes@[w - first.boxes@.len()].id == second.boxes@[i as int].id);
                    }
                }
                assert(first.boxes@ + second.boxes@.take(i + 1) =~= (first.boxes@
                    + second.boxes@.take(i as int)).push(jb));
            }
            merged.boxes.push(jb);
            merged.box_set.insert(jb.id);
            i = i + 1;
        }
        let mut e: usize = 0;
        while e < second.connections.len()
            invariant
                e <= second.connections.len(),
                merged.boxes@ == first.boxes@ + second.boxes@,
                merged.connections@ == first.connections@ + second.connections@.take(e as int),
                merged.box_set@ == id_set(merged.boxes@),
                merged.box_set@.finite(),
                merged.box_set@.len() == merged.boxes@.len(),
            decreases second.connections.len() - e,
        {
            merged.connections.push(second.connections[e]);
            assert(first.connections@ + second.connections@.take(e + 1) =~= (first.connections@
                + second.connections@.take(e as int)).push(second.connections@[e as int]));
            e = e + 1;
        }
        merged.connections.push((*conn, d));
        proof {
            assert(second.connections@.take(second.connections@.len() as int)
                =~= second.connections@);
            assert(merged@.boxes =~= first@.merged(second@, *conn, d).boxes);
            assert(merged@.connections =~= first@.merged(second@, *conn, d).connections);
            lemma_merged_wf(first@, second@, *conn, d);
            lemma_merged_ids(first@, second@, *conn, d);
        }
        merged
    }

    /// The index of the first circuit at or after `start` that holds an end
    /// of `conn`, or the number of circuits.
    fn find_touching(&self, conn: &Connection, start: usize) -> (found: usize)
        requires
            self.wf(),
            start <= self.circuits@.len(),
        ensures
            found == first_touching(self@.circuits, *conn, start as int),
    {
        let mut k: usize = start;
        while k < self.circuits.len()
            invariant
                start <= k <= self.circuits@.len(),
                self.wf(),
                first_touching(self@.circuits, *conn, k as int) == first_touching(
                    self@.circuits,
                    *conn,
                    start as int,
                ),
            decreases self.circuits@.len() - k,
        {
            assert(self@.circuits[k as int] == self.circuits@[k as int]@);
            if self.circuits[k].check_is_in(conn).is_some() {
                return k;
            }
            k = k + 1;
        }
        k
    }

    /// Consumes the shortest candidate connection that is left and returns
    /// it. Its two boxes start a circuit, or one of them joins the circuit of
    /// the other, or their two circuits merge; where both are in one circuit
    /// already, no circuit changes.
    pub fn evolve(&mut self) -> (connection: Connection)
        requires
            old(self).wf(),
            old(self)@.distance_stack.len() > 0,
        ensures
            final(self).wf(),
            final(self)@ == old(self)@.step(),
            connection == old(self)@.next_connection(),
            final(self)@.junction_boxes == old(self)@.junction_boxes,
            final(self)@.distance_stack == old(self)@.distance_stack.drop_last(),
    {
        let ghost before = self@;
        let ghost old_circuits = self.circuits@;
        proof {
            lemma_step_wf(before);
            assert(before.is_candidate(before.distance_stack[before.distance_stack.len() - 1]));
        }
        let first = self.find_touching(&self.distance_stack[self.distance_stack.len() - 1].0, 0);
        let second = if first < self.circuits.len() {
            self.find_touching(
                &self.distance_stack[self.distance_stack.len() - 1].0,
                first + 1,
            )
        } else {
            first
        };
        let (connection, d) = self.distance_stack.pop().unwrap();
        proof {
            lemma_first_touching(before.circuits, connection, 0);
            if first < old_circuits.len() {
                lemma_first_touching(before.circuits, connection, first + 1);
                assert(before.circuits[first as int] == old_circuits[first as int]@);
            }
            if second < old_circuits.len() {
                assert(before.circuits[second as int] == old_circuits[second as int]@);
            }
        }
        if first >= self.circuits.len() {
            let a = self.junction_boxes[connection.from];
            let b = self.junction_boxes[connection.to];
            let fresh = Circuit::new(a, b).unwrap();
            self.circuits.push(fresh);
            proof {
                assert(views(self.circuits@) =~= before.circuits.push(CircuitView::pair(a, b)));
            }
        } else if second >= self.circuits.len() {
            let has_from = self.circuits[first].contains(connection.from);
            let has_to = self.circuits[first].contains(connection.to);
            if !(has_from && has_to) {
                let far = if has_from {
                    connection.to
                } else {
                    connection.from
                };
                let newcomer = self.junction_boxes[far];
                let mut grown = self.circuits.remove(first);
                grown.add(&newcomer, &connection, d);
                self.circuits.insert(first, grown);
                proof {
                    assert(views(self.circuits@) =~= before.circuits.update(
                        first as int,
                        before.circuits[first as int].grown(newcomer, connection, d),
                    ));
                }
            } else {
                proof {
                    assert(views(self.circuits@) =~= before.circuits);
                }
            }
        } else {
            proof {
                assert(disjoint(before.circuits[first as int], before.circuits[second as int]));
            }
            let merged = Self::merge_circuits(
                &self.circuits[first],
                &self.circuits[second],
                &connection,
                d,
            );
            self.circuits.remove(second);
            self.circuits.remove(first);
            self.circuits.push(merged);
            proof {
                assert(views(self.circuits@) =~= before.circuits.remove(second as int).remove(
                    first as int,
                ).push(
                    before.circuits[first as int].merged(
                        before.circuits[second as int],
                        connection,
                        d,
                    ),
                ));
            }
        }
        connection
    }

    /// Runs `n` steps, puts the circuits largest first and returns the
    /// product of the sizes of the three largest, or of all of them where
    /// fewer than three exist.
    pub fn score(&mut self, n: usize) -> (product: u64)
        requires
            old(self).wf(),
            n <= old(self)@.distance_stack.len(),
            old(self)@.steps(n as nat).top_three_product() <= u64::MAX,
        ensures
            final(self).wf(),
            final(self)@ == old(self)@.steps(n as nat).largest_first(),
            product == old(self)@.steps(n as nat).top_three_product(),
    {
        let ghost start = self@;
        let mut done: usize = 0;
        while done < n
            invariant
                done <= n,
                n <= start.distance_stack.len(),
                self.wf(),
                self@ == start.steps(done as nat),
                self@.distance_stack.len() == start.distance_stack.len() - done,
            decreases n - done,
        {
            self.evolve();
            done = done + 1;
        }
        let ghost evolved = self@;
        let mut keys: Vec<u64> = Vec::new();
        let mut k: usize = 0;
        while k < self.circuits.len()
            invariant
                k <= self.circuits@.len(),
                self.wf(),
                self@ == evolved,
                keys@ == sizes(evolved.circuits).take(k as int),
            decreases self.circuits@.len() - k,
        {
            let size = self.circuits[k].size();
            keys.push(size as u64);
            proof {
                assert(evolved.circuits[k as int] == self.circuits@[k as int]@);
                assert(sizes(evolved.circuits).take(k + 1) =~= sizes(evolved.circuits).take(
                    k as int,
                ).push(size as u64));
            }
            k = k + 1;
        }
        assert(keys@ =~= sizes(evolved.circuits));
        let rank = rank_descending(&keys);
        let mut ranked: Vec<Circuit> = Vec::new();
        let mut p: usize = 0;
        while p < rank.len()
            invariant
                p <= rank.len(),
                self.wf(),
                self@ == evolved,
                rank@.len() == self.circuits@.len(),
                forall|q: int|
                    0 <= q < rank@.len() ==> 0 <= #[trigger] rank@[q] < self.circuits@.len(),
                views(ranked@) == arrange(evolved.circuits, rank@).take(p as int),
                forall|q: int| 0 <= q < ranked@.len() ==> (#[trigger] ranked@[q]).wf(),
            decreases rank.len() - p,
        {
            let copy = self.circuits[rank[p]].clone();
            ranked.push(copy);
            proof {
                assert(evolved.circuits[rank@[p as int] as int] == self.circuits@[rank@[p as int] as int]@);
                assert(views(ranked@) =~= arrange(evolved.circuits, rank@).take(p as int).push(
                    copy@,
                ));
                assert(arrange(evolved.circuits, rank@).take(p + 1) =~= arrange(
                    evolved.circuits,
                    rank@,
                ).take(p as int).push(evolved.circuits[rank@[p as int] as int]));
            }
            p = p + 1;
        }
        proof {
            assert(views(ranked@) =~= arrange(evolved.circuits, rank@));
            lemma_largest_first_wf(evolved);
        }
        self.circuits = ranked;
        let count = self.circuits.len();
        if count == 0 {
            1
        } else if count == 1 {
            self.circuits[0].size() as u64
        } else if count == 2 {
            let s0 = self.circuits[0].size() as u64;
            let s1 = self.circuits[1].size() as u64;
            proof {
                assert(self@.circuits[0] == self.circuits@[0]@);
                assert(self@.circuits[1] == self.circuits@[1]@);
            }
            s0 * s1
        } else {
            let s0 = self.circuits[0].size() as u64;
            let s1 = self.circuits[1].size() as u64;
            let s2 = self.circuits[2].size() as u64;
            proof {
                assert(self@.circuits[0] == self.circuits@[0]@);
                assert(self@.circuits[1] == self.circuits@[1]@);
                assert(self@.circuits[2] == self.circuits@[2]@);
                assert(self@.circuits[2].wf());
                assert(s0 * s1 <= s0 * s1 * s2) by (nonlinear_arith)
                    requires
                        s2 >= 1,
                        s0 >= 0,
                        s1 >= 0,
                ;
            }
            s0 * s1 * s2
        }
    }

    /// Runs steps until one circuit is left that holds at least `total_size`
    /// boxes, and returns the product of the `x` coordinates of the two boxes
    /// of the connection that brought this about.
    pub fn score_2(&mut self, total_size: usize) -> (product: u64)
        requires
            old(self).wf(),
            old(self)@.distance_stack.len() > 0,
            old(self)@.junction_boxes.len() >= 2,
            total_size <= old(self)@.junction_boxes.len(),
        ensures
            final(self).wf(),
            final(self)@ == old(self)@.unified_grid(total_size as nat),
            final(self)@.unified(total_size as nat),
            product == old(self)@.x_product(
                old(self)@.unifying_connection(total_size as nat),
            ),
    {
        let ghost start = self@;
        loop
            invariant
                start == old(self)@,
                self.wf(),
                self@.distance_stack.len() > 0,
                self@.junction_boxes == start.junction_boxes,
                start.junction_boxes.len() >= 2,
                total_size <= start.junction_boxes.len(),
                self@.unified_grid(total_size as nat) == start.unified_grid(total_size as nat),
                self@.unifying_connection(total_size as nat) == start.unifying_connection(
                    total_size as nat,
                ),
            decreases self@.distance_stack.len(),
        {
            let ghost before = self@;
            proof {
                assert(before.is_candidate(before.distance_stack[before.distance_stack.len() - 1]));
            }
            let popped = self.evolve();
            let first = self.junction_boxes[popped.from];
            let second = self.junction_boxes[popped.to];
            let l = self.circuits.len();
            proof {
                if l == 1 {
                    assert(self@.circuits[0] == self.circuits@[0]@);
                }
            }
            if l == 1 && self.circuits[0].size() >= total_size {
                assert(first.pos.x * second.pos.x <= 0xffff_ffff * 0xffff_ffff) by (nonlinear_arith)
                    requires
                        0 <= first.pos.x <= 0xffff_ffff,
                        0 <= second.pos.x <= 0xffff_ffff,
                ;
                proof {
                    assert(self@.unified(total_size as nat));
                    assert(before.unified_grid(total_size as nat) == self@);
                    assert(before.unifying_connection(total_size as nat) == popped);
                }
                return first.pos.x as u64 * second.pos.x as u64;
            }
            proof {
                assert(!self@.unified(total_size as nat));
                assert(before.unified_grid(total_size as nat) == self@.unified_grid(
                    total_size as nat,
                ));
                assert(before.unifying_connection(total_size as nat) == self@.unifying_connection(
                    total_size as nat,
                ));
                if self@.distance_stack.len() == 0 {
                    lemma_exhausted_grid_is_one_circuit(self@);
                }
            }
        }
    }

    /// How many candidate connections are left.
    pub fn remaining(&self) -> (n: usize)
        ensures
            n == self@.distance_stack.len(),
    {
        self.distance_stack.len()
    }

    /// The circuits wired so far.
    pub fn circuits(&self) -> (circuits: &Vec<Circuit>)
        ensures
            views(circuits@) == self@.circuits,
            self.wf() ==> forall|k: int|
                0 <= k < circuits@.len() ==> (#[trigger] circuits@[k]).wf(),
    {
        &self.circuits
    }

    /// The boxes, by id.
    pub fn junction_boxes(&self) -> (boxes: &Vec<JunctionBox>)
        ensures
            boxes@ == self@.junction_boxes,
    {
        &self.junction_boxes
    }

    /// The candidate connections that are left, longest first.
    pub fn distance_stack(&self) -> (stack: &Vec<(Connection, u64)>)
        ensures
            stack@ == self@.distance_stack,
    {
        &self.distance_stack
    }
}

} // verus!
