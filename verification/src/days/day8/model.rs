//! The mathematical model of the wiring grid: what a circuit and a grid are,
//! and what one step of the wiring does to them.

use crate::days::day8::{Connection, JunctionBox, Position};
use crate::rank::{arrange, descending_rank, lemma_descending_rank, precedes};
use vstd::prelude::*;

verus! {

/// The candidate edge between two boxes: its key and its squared length.
pub open spec fn link(a: JunctionBox, b: JunctionBox) -> (Connection, u64) {
    (Connection::between(a.id, b.id), a.pos.squared_distance(b.pos) as u64)
}

/// Whether one of `boxes` has this id.
pub open spec fn has_id(boxes: Seq<JunctionBox>, id: usize) -> bool {
    exists|i: int| 0 <= i < boxes.len() && #[trigger] boxes[i].id == id
}

/// The ids of `boxes`.
pub open spec fn id_set(boxes: Seq<JunctionBox>) -> Set<usize> {
    Set::new(|id: usize| has_id(boxes, id))
}

/// A box more adds its id and no other.
pub proof fn lemma_has_id_push(boxes: Seq<JunctionBox>, j: JunctionBox, id: usize)
    ensures
        has_id(boxes.push(j), id) <==> (has_id(boxes, id) || id == j.id),
{
    let more = boxes.push(j);
    if has_id(boxes, id) {
        let i = choose|i: int| 0 <= i < boxes.len() && #[trigger] boxes[i].id == id;
        assert(more[i].id == id);
    }
    if id == j.id {
        assert(more[boxes.len() as int].id == id);
    }
    if has_id(more, id) {
        let i = choose|i: int| 0 <= i < more.len() && #[trigger] more[i].id == id;
        if i < boxes.len() {
            assert(boxes[i].id == id);
        }
    }
}

/// A box more adds its id to the set of ids.
pub proof fn lemma_id_set_push(boxes: Seq<JunctionBox>, j: JunctionBox)
    ensures
        id_set(boxes.push(j)) == id_set(boxes).insert(j.id),
{
    assert forall|id: usize| id_set(boxes.push(j)).contains(id) == id_set(boxes).insert(
        j.id,
    ).contains(id) by {
        lemma_has_id_push(boxes, j, id);
    }
    assert(id_set(boxes.push(j)) =~= id_set(boxes).insert(j.id));
}

/// A circuit as a value: its boxes in the order in which they joined, and the
/// connections that were used to build it, each with its squared length.
pub struct CircuitView {
    pub boxes: Seq<JunctionBox>,
    pub connections: Seq<(Connection, u64)>,
}

impl CircuitView {
    /// Whether the box with this id belongs to the circuit.
    pub open spec fn has(self, id: usize) -> bool {
        has_id(self.boxes, id)
    }

    /// The ids of the circuit's boxes.
    pub open spec fn ids(self) -> Set<usize> {
        id_set(self.boxes)
    }

    /// Whether at least one end of `conn` belongs to the circuit.
    pub open spec fn touches(self, conn: Connection) -> bool {
        self.has(conn.from) || self.has(conn.to)
    }

    /// The end of `conn` that a touching circuit is not known by: `to` when
    /// `from` is a member, `from` otherwise.
    pub open spec fn far_end(self, conn: Connection) -> usize {
        if self.has(conn.from) {
            conn.to
        } else {
            conn.from
        }
    }

    /// No box twice, at least two boxes, every connection recorded once and
    /// between two members.
    pub open spec fn wf(self) -> bool {
        &&& self.boxes.len() >= 2
        &&& forall|i: int, j: int|
            0 <= i < j < self.boxes.len() ==> #[trigger] self.boxes[i].id
                != #[trigger] self.boxes[j].id
        &&& forall|e: int|
            0 <= e < self.connections.len() ==> {
                let key = #[trigger] self.connections[e].0;
                key.from < key.to && self.has(key.from) && self.has(key.to)
            }
        &&& forall|e: int, f: int|
            0 <= e < f < self.connections.len() ==> #[trigger] self.connections[e].0
                != #[trigger] self.connections[f].0
    }

    /// The circuit that two boxes form when they are first connected.
    pub open spec fn pair(a: JunctionBox, b: JunctionBox) -> CircuitView {
        CircuitView { boxes: seq![a, b], connections: seq![link(a, b)] }
    }

    /// The circuit after one more box joined over `conn`.
    pub open spec fn grown(self, j: JunctionBox, conn: Connection, distance: u64) -> CircuitView {
        CircuitView {
            boxes: self.boxes.push(j),
            connections: self.connections.push((conn, distance)),
        }
    }

    /// The circuit that replaces `self` and `other` when `conn` joins them.
    pub open spec fn merged(self, other: CircuitView, conn: Connection, distance: u64) -> CircuitView {
        CircuitView {
            boxes: self.boxes + other.boxes,
            connections: (self.connections + other.connections).push((conn, distance)),
        }
    }
}

/// A circuit of two boxes holds these two and no other.
pub proof fn lemma_pair_has(a: JunctionBox, b: JunctionBox, id: usize)
    ensures
        CircuitView::pair(a, b).has(id) <==> (id == a.id || id == b.id),
{
    let c = CircuitView::pair(a, b);
    assert(c.boxes[0] == a);
    assert(c.boxes[1] == b);
}

/// Two different boxes form a well-formed circuit.
pub proof fn lemma_pair_wf(a: JunctionBox, b: JunctionBox)
    requires
        a.id != b.id,
    ensures
        CircuitView::pair(a, b).wf(),
{
    let c = CircuitView::pair(a, b);
    assert(c.boxes[0] == a);
    assert(c.boxes[1] == b);
    assert(c.connections[0] == link(a, b));
}

/// A grown circuit holds what it held, and the newcomer.
pub proof fn lemma_grown_has(c: CircuitView, j: JunctionBox, conn: Connection, d: u64, id: usize)
    ensures
        c.grown(j, conn, d).has(id) <==> (c.has(id) || id == j.id),
{
    lemma_has_id_push(c.boxes, j, id);
}

/// A circuit stays well formed when a box that it did not hold joins
/// over a connection between that box and one of its own.
pub proof fn lemma_grown_wf(c: CircuitView, j: JunctionBox, conn: Connection, d: u64)
    requires
        c.wf(),
        !c.has(j.id),
        conn.from < conn.to,
        conn.from == j.id || conn.to == j.id,
        c.has(conn.from) || c.has(conn.to),
    ensures
        c.grown(j, conn, d).wf(),
{
    let g = c.grown(j, conn, d);
    assert forall|p: int, q: int| 0 <= p < q < g.boxes.len() implies #[trigger] g.boxes[p].id
        != #[trigger] g.boxes[q].id by {
        if q == c.boxes.len() {
            assert(c.boxes[p].id != j.id);
        }
    }
    assert forall|e: int| 0 <= e < g.connections.len() implies {
        let key = #[trigger] g.connections[e].0;
        key.from < key.to && g.has(key.from) && g.has(key.to)
    } by {
        let key = g.connections[e].0;
        lemma_grown_has(c, j, conn, d, key.from);
        lemma_grown_has(c, j, conn, d, key.to);
        if e < c.connections.len() {
            assert(c.connections[e].0 == key);
        }
    }
    assert forall|e: int, f: int| 0 <= e < f < g.connections.len() implies #[trigger] g.connections[e].0
        != #[trigger] g.connections[f].0 by {
        if f == c.connections.len() {
            let key = c.connections[e].0;
            assert(c.has(key.from) && c.has(key.to));
        }
    }
}

/// A merged circuit holds what either of the two held.
pub proof fn lemma_merged_has(a: CircuitView, b: CircuitView, conn: Connection, d: u64, id: usize)
    ensures
        a.merged(b, conn, d).has(id) <==> (a.has(id) || b.has(id)),
{
    let m = a.merged(b, conn, d);
    if a.has(id) {
        let i = choose|i: int| 0 <= i < a.boxes.len() && #[trigger] a.boxes[i].id == id;
        assert(m.boxes[i].id == id);
    }
    if b.has(id) {
        let i = choose|i: int| 0 <= i < b.boxes.len() && #[trigger] b.boxes[i].id == id;
        assert(m.boxes[a.boxes.len() + i].id == id);
    }
    if m.has(id) {
        let i = choose|i: int| 0 <= i < m.boxes.len() && #[trigger] m.boxes[i].id == id;
        if i < a.boxes.len() {
            assert(a.boxes[i].id == id);
        } else {
            assert(b.boxes[i - a.boxes.len()].id == id);
        }
    }
}

/// The ids of a merged circuit are the ids of the one together with the ids
/// of the other.
pub proof fn lemma_merged_ids(a: CircuitView, b: CircuitView, conn: Connection, d: u64)
    ensures
        a.merged(b, conn, d).ids() == a.ids().union(b.ids()),
{
    assert forall|id: usize|
        a.merged(b, conn, d).ids().contains(id) == a.ids().union(b.ids()).contains(id) by {
        lemma_merged_has(a, b, conn, d, id);
    }
    assert(a.merged(b, conn, d).ids() =~= a.ids().union(b.ids()));
}

/// Two well-formed circuits that share no box merge into a well-formed
/// circuit over a connection from a box of the one to a box of the other.
pub proof fn lemma_merged_wf(a: CircuitView, b: CircuitView, conn: Connection, d: u64)
    requires
        a.wf(),
        b.wf(),
        forall|id: usize| !(a.has(id) && b.has(id)),
        conn.from < conn.to,
        (a.has(conn.from) && b.has(conn.to)) || (a.has(conn.to) && b.has(conn.from)),
    ensures
        a.merged(b, conn, d).wf(),
{
    let m = a.merged(b, conn, d);
    let na = a.boxes.len() as int;
    let ea = a.connections.len() as int;
    let eb = b.connections.len() as int;
    assert forall|p: int, q: int| 0 <= p < q < m.boxes.len() implies #[trigger] m.boxes[p].id
        != #[trigger] m.boxes[q].id by {
        if p < na && q >= na {
            assert(a.boxes[p].id == m.boxes[p].id);
            assert(b.boxes[q - na].id == m.boxes[q].id);
            assert(a.has(m.boxes[p].id));
            assert(b.has(m.boxes[q].id));
        } else if p < na {
            assert(a.boxes[p].id == m.boxes[p].id);
            assert(a.boxes[q].id == m.boxes[q].id);
        } else {
            assert(b.boxes[p - na].id == m.boxes[p].id);
            assert(b.boxes[q - na].id == m.boxes[q].id);
        }
    }
    assert forall|e: int| 0 <= e < m.connections.len() implies {
        let key = #[trigger] m.connections[e].0;
        key.from < key.to && m.has(key.from) && m.has(key.to)
    } by {
        let key = m.connections[e].0;
        lemma_merged_has(a, b, conn, d, key.from);
        lemma_merged_has(a, b, conn, d, key.to);
        if e < ea {
            assert(a.connections[e].0 == key);
        } else if e < ea + eb {
            assert(b.connections[e - ea].0 == key);
        }
    }
    assert forall|e: int, f: int| 0 <= e < f < m.connections.len() implies #[trigger] m.connections[e].0
        != #[trigger] m.connections[f].0 by {
        let ke = m.connections[e].0;
        let kf = m.connections[f].0;
        if e < ea {
            assert(a.connections[e].0 == ke);
            assert(a.has(ke.from) && a.has(ke.to));
        } else {
            assert(b.connections[e - ea].0 == ke);
            assert(b.has(ke.from) && b.has(ke.to));
        }
        if f < ea {
            assert(a.connections[f].0 == kf);
        } else if f < ea + eb {
            assert(b.connections[f - ea].0 == kf);
            assert(b.has(kf.from) && b.has(kf.to));
        }
    }
}

} // verus!

verus! {

/// No box belongs to both circuits.
pub open spec fn disjoint(c1: CircuitView, c2: CircuitView) -> bool {
    forall|id: usize| !(#[trigger] c1.has(id) && c2.has(id))
}

/// Every box of `small` belongs to `big`.
pub open spec fn extends(big: CircuitView, small: CircuitView) -> bool {
    forall|id: usize| #[trigger] small.has(id) ==> big.has(id)
}

/// One of `circuits` holds every box of `c`.
pub open spec fn lives_on(circuits: Seq<CircuitView>, c: CircuitView) -> bool {
    exists|k: int| 0 <= k < circuits.len() && extends(#[trigger] circuits[k], c)
}

/// The index of the first circuit at or after `start` that holds an end of
/// `conn`; the number of circuits if there is none.
pub open spec fn first_touching(circuits: Seq<CircuitView>, conn: Connection, start: int) -> int
    decreases circuits.len() - start,
{
    if start >= circuits.len() {
        circuits.len() as int
    } else if circuits[start].touches(conn) {
        start
    } else {
        first_touching(circuits, conn, start + 1)
    }
}

/// `first_touching` is the index of a circuit that holds an end of the
/// connection, or the number of circuits, and no circuit from `start` up
/// to it holds one.
pub proof fn lemma_first_touching(circuits: Seq<CircuitView>, conn: Connection, start: int)
    requires
        0 <= start <= circuits.len(),
    ensures
        start <= first_touching(circuits, conn, start) <= circuits.len(),
        forall|k: int|
            start <= k < first_touching(circuits, conn, start) ==> !(#[trigger] circuits[k]).touches(
                conn,
            ),
        first_touching(circuits, conn, start) < circuits.len() ==> circuits[first_touching(
            circuits,
            conn,
            start,
        )].touches(conn),
    decreases circuits.len() - start,
{
    if start < circuits.len() && !circuits[start].touches(conn) {
        lemma_first_touching(circuits, conn, start + 1);
    }
}

/// A grid as a value: the boxes by id, the circuits built so far, and the
/// candidate connections that are left, longest first, so that the shortest
/// is the last.
pub struct GridView {
    pub junction_boxes: Seq<JunctionBox>,
    pub circuits: Seq<CircuitView>,
    pub distance_stack: Seq<(Connection, u64)>,
}

impl GridView {
    /// `b` is the grid's box of that id.
    pub open spec fn is_box(self, b: JunctionBox) -> bool {
        b.id < self.junction_boxes.len() && self.junction_boxes[b.id as int] == b
    }

    /// The squared length of `conn` between the grid's boxes.
    pub open spec fn length_of(self, conn: Connection) -> int {
        self.junction_boxes[conn.from as int].pos.squared_distance(
            self.junction_boxes[conn.to as int].pos,
        )
    }

    /// `e` is a connection between two different boxes of the grid, smaller id
    /// first, with its true squared length.
    pub open spec fn is_candidate(self, e: (Connection, u64)) -> bool {
        &&& e.0.from < e.0.to < self.junction_boxes.len()
        &&& e.1 == self.length_of(e.0)
    }

    /// `conn` is still among the candidates.
    pub open spec fn offers(self, conn: Connection) -> bool {
        exists|i: int|
            0 <= i < self.distance_stack.len() && #[trigger] self.distance_stack[i].0 == conn
    }

    /// Some circuit holds both boxes.
    pub open spec fn joined(self, a: usize, b: usize) -> bool {
        exists|k: int|
            0 <= k < self.circuits.len() && #[trigger] self.circuits[k].has(a)
                && self.circuits[k].has(b)
    }

    /// The pair is either still a candidate or already in one circuit.
    pub open spec fn covered(self, a: usize, b: usize) -> bool {
        self.offers(Connection { from: a, to: b }) || self.joined(a, b)
    }

    /// The grid's invariant: boxes are numbered by position; circuits are well
    /// formed, made of the grid's boxes and share none; the candidates are
    /// true connections, longest first; and every pair of boxes is a
    /// candidate or already wired together.
    pub open spec fn wf(self) -> bool {
        &&& forall|i: int|
            0 <= i < self.junction_boxes.len() ==> (#[trigger] self.junction_boxes[i]).id == i
        &&& forall|k: int| 0 <= k < self.circuits.len() ==> (#[trigger] self.circuits[k]).wf()
        &&& forall|k: int, i: int|
            0 <= k < self.circuits.len() && 0 <= i < self.circuits[k].boxes.len() ==> self.is_box(
                #[trigger] self.circuits[k].boxes[i],
            )
        &&& forall|k: int, l: int|
            0 <= k < l < self.circuits.len() ==> disjoint(
                #[trigger] self.circuits[k],
                #[trigger] self.circuits[l],
            )
        &&& forall|i: int, j: int|
            0 <= i < j < self.distance_stack.len() ==> (#[trigger] self.distance_stack[i]).1
                >= (#[trigger] self.distance_stack[j]).1
        &&& forall|i: int|
            0 <= i < self.distance_stack.len() ==> self.is_candidate(
                #[trigger] self.distance_stack[i],
            )
        &&& forall|a: usize, b: usize|
            a < b < self.junction_boxes.len() ==> #[trigger] self.covered(a, b)
    }

    /// The connection that the next step consumes: the shortest one left.
    pub open spec fn next_connection(self) -> Connection
        recommends
            self.distance_stack.len() > 0,
    {
        self.distance_stack.last().0
    }

    /// The grid after the shortest remaining connection was consumed.
    ///
    /// Where no circuit holds either end, the two boxes start a circuit, which
    /// goes to the back. Where one circuit holds one end, the box at the other
    /// end joins it. Where one circuit holds both ends already, nothing but
    /// the candidates changes. Where two circuits hold an end each, both
    /// leave and their merger goes to the back.
    pub open spec fn step(self) -> GridView
        recommends
            self.distance_stack.len() > 0,
    {
        let (conn, d) = self.distance_stack.last();
        let rest = self.distance_stack.drop_last();
        let i = first_touching(self.circuits, conn, 0);
        if i >= self.circuits.len() {
            GridView {
                junction_boxes: self.junction_boxes,
                circuits: self.circuits.push(
                    CircuitView::pair(
                        self.junction_boxes[conn.from as int],
                        self.junction_boxes[conn.to as int],
                    ),
                ),
                distance_stack: rest,
            }
        } else {
            let j = first_touching(self.circuits, conn, i + 1);
            let c = self.circuits[i];
            if j >= self.circuits.len() {
                if c.has(conn.from) && c.has(conn.to) {
                    GridView {
                        junction_boxes: self.junction_boxes,
                        circuits: self.circuits,
                        distance_stack: rest,
                    }
                } else {
                    GridView {
                        junction_boxes: self.junction_boxes,
                        circuits: self.circuits.update(
                            i,
                            c.grown(self.junction_boxes[c.far_end(conn) as int], conn, d),
                        ),
                        distance_stack: rest,
                    }
                }
            } else {
                GridView {
                    junction_boxes: self.junction_boxes,
                    circuits: self.circuits.remove(j).remove(i).push(
                        c.merged(self.circuits[j], conn, d),
                    ),
                    distance_stack: rest,
                }
            }
        }
    }

    /// The grid after `n` steps.
    pub open spec fn steps(self, n: nat) -> GridView
        decreases n,
    {
        if n == 0 {
            self
        } else {
            self.steps((n - 1) as nat).step()
        }
    }
}

/// What carries the last clause of the invariant over a step: the consumed
/// pair is wired together afterwards, and every old circuit lives on inside
/// a new one.
proof fn lemma_cover_carries(g: GridView, g2: GridView)
    requires
        g.wf(),
        g.distance_stack.len() > 0,
        g2.junction_boxes == g.junction_boxes,
        g2.distance_stack == g.distance_stack.drop_last(),
        g2.joined(g.next_connection().from, g.next_connection().to),
        forall|k: int| 0 <= k < g.circuits.len() ==> lives_on(g2.circuits, #[trigger] g.circuits[k]),
    ensures
        forall|a: usize, b: usize| a < b < g2.junction_boxes.len() ==> #[trigger] g2.covered(a, b),
{
    let conn = g.next_connection();
    let last = g.distance_stack.len() - 1;
    assert forall|a: usize, b: usize| a < b < g2.junction_boxes.len() implies #[trigger] g2.covered(
        a,
        b,
    ) by {
        assert(g.covered(a, b));
        let key = Connection { from: a, to: b };
        if g.offers(key) {
            let i = choose|i: int|
                0 <= i < g.distance_stack.len() && #[trigger] g.distance_stack[i].0 == key;
            if i == last {
                assert(conn == key);
            } else {
                assert(g2.distance_stack[i].0 == key);
            }
        } else {
            let k = choose|k: int|
                0 <= k < g.circuits.len() && #[trigger] g.circuits[k].has(a) && g.circuits[k].has(
                    b,
                );
            assert(lives_on(g2.circuits, g.circuits[k]));
            let k2 = choose|k2: int|
                0 <= k2 < g2.circuits.len() && extends(#[trigger] g2.circuits[k2], g.circuits[k]);
            assert(g2.circuits[k2].has(a) && g2.circuits[k2].has(b));
        }
    }
}

proof fn lemma_stack_carries(g: GridView, g2: GridView)
    requires
        g.wf(),
        g.distance_stack.len() > 0,
        g2.junction_boxes == g.junction_boxes,
        g2.distance_stack == g.distance_stack.drop_last(),
    ensures
        forall|i: int| 0 <= i < g2.junction_boxes.len() ==> (#[trigger] g2.junction_boxes[i]).id == i,
        forall|i: int, j: int|
            0 <= i < j < g2.distance_stack.len() ==> (#[trigger] g2.distance_stack[i]).1
                >= (#[trigger] g2.distance_stack[j]).1,
        forall|i: int|
            0 <= i < g2.distance_stack.len() ==> g2.is_candidate(#[trigger] g2.distance_stack[i]),
{
    assert forall|i: int, j: int| 0 <= i < j < g2.distance_stack.len() implies (
    #[trigger] g2.distance_stack[i]).1 >= (#[trigger] g2.distance_stack[j]).1 by {
        assert(g2.distance_stack[i] == g.distance_stack[i]);
        assert(g2.distance_stack[j] == g.distance_stack[j]);
    }
    assert forall|i: int| 0 <= i < g2.distance_stack.len() implies g2.is_candidate(
        #[trigger] g2.distance_stack[i],
    ) by {
        assert(g2.distance_stack[i] == g.distance_stack[i]);
        assert(g.is_candidate(g.distance_stack[i]));
    }
}

proof fn lemma_step_starts(g: GridView)
    requires
        g.wf(),
        g.distance_stack.len() > 0,
        first_touching(g.circuits, g.next_connection(), 0) >= g.circuits.len(),
    ensures
        g.step().wf(),
{
    let g2 = g.step();
    let (conn, d) = g.distance_stack.last();
    let n = g.circuits.len() as int;
    let a = g.junction_boxes[conn.from as int];
    let b = g.junction_boxes[conn.to as int];
    let fresh = CircuitView::pair(a, b);
    assert(g.is_candidate(g.distance_stack[g.distance_stack.len() - 1]));
    lemma_first_touching(g.circuits, conn, 0);
    lemma_stack_carries(g, g2);
    lemma_pair_wf(a, b);
    assert(g2.circuits[n] == fresh);
    assert forall|id: usize| fresh.has(id) <==> (id == a.id || id == b.id) by {
        lemma_pair_has(a, b, id);
    }
    assert forall|k: int| 0 <= k < g2.circuits.len() implies (#[trigger] g2.circuits[k]).wf() by {
        if k < n {
            assert(g2.circuits[k] == g.circuits[k]);
        }
    }
    assert forall|k: int, i: int|
        0 <= k < g2.circuits.len() && 0 <= i < g2.circuits[k].boxes.len() implies g2.is_box(
        #[trigger] g2.circuits[k].boxes[i],
    ) by {
        if k < n {
            assert(g2.circuits[k] == g.circuits[k]);
            assert(g.is_box(g.circuits[k].boxes[i]));
        } else {
            assert(fresh.boxes[0] == a);
            assert(fresh.boxes[1] == b);
        }
    }
    assert forall|k: int, l: int| 0 <= k < l < g2.circuits.len() implies disjoint(
        #[trigger] g2.circuits[k],
        #[trigger] g2.circuits[l],
    ) by {
        assert(g2.circuits[k] == g.circuits[k]);
        if l < n {
            assert(g2.circuits[l] == g.circuits[l]);
            assert(disjoint(g.circuits[k], g.circuits[l]));
        } else {
            assert(!g.circuits[k].touches(conn));
        }
    }
    assert(g2.circuits[n].has(conn.from) && g2.circuits[n].has(conn.to));
    assert forall|k: int| 0 <= k < g.circuits.len() implies lives_on(
        g2.circuits,
        #[trigger] g.circuits[k],
    ) by {
        assert(extends(g2.circuits[k], g.circuits[k]));
    }
    lemma_cover_carries(g, g2);
}

proof fn lemma_step_idles(g: GridView)
    requires
        g.wf(),
        g.distance_stack.len() > 0,
        first_touching(g.circuits, g.next_connection(), 0) < g.circuits.len(),
        g.circuits[first_touching(g.circuits, g.next_connection(), 0)].has(g.next_connection().from),
        g.circuits[first_touching(g.circuits, g.next_connection(), 0)].has(g.next_connection().to),
    ensures
        g.step().wf(),
        g.step().circuits == g.circuits,
{
    let conn = g.next_connection();
    let i = first_touching(g.circuits, conn, 0);
    lemma_first_touching(g.circuits, conn, 0);
    lemma_first_touching(g.circuits, conn, i + 1);
    let j = first_touching(g.circuits, conn, i + 1);
    assert(j >= g.circuits.len()) by {
        if j < g.circuits.len() {
            assert(disjoint(g.circuits[i], g.circuits[j]));
            assert(g.circuits[j].touches(conn));
        }
    }
    let g2 = GridView {
        junction_boxes: g.junction_boxes,
        circuits: g.circuits,
        distance_stack: g.distance_stack.drop_last(),
    };
    assert(g.step() == g2);
    lemma_same_circuits_wf(g, g2, i);
}

/// A step that changes no circuit keeps the invariant, given that the
/// consumed pair is already in circuit `i`.
proof fn lemma_same_circuits_wf(g: GridView, g2: GridView, i: int)
    requires
        g.wf(),
        g.distance_stack.len() > 0,
        g2.junction_boxes == g.junction_boxes,
        g2.circuits == g.circuits,
        g2.distance_stack == g.distance_stack.drop_last(),
        0 <= i < g.circuits.len(),
        g.circuits[i].has(g.next_connection().from),
        g.circuits[i].has(g.next_connection().to),
    ensures
        g2.wf(),
{
    lemma_stack_carries(g, g2);
    assert(g2.circuits[i].has(g.next_connection().from) && g2.circuits[i].has(
        g.next_connection().to,
    ));
    assert forall|k: int| 0 <= k < g.circuits.len() implies lives_on(
        g2.circuits,
        #[trigger] g.circuits[k],
    ) by {
        assert(extends(g2.circuits[k], g.circuits[k]));
    }
    lemma_cover_carries(g, g2);
    assert forall|k: int, p: int|
        0 <= k < g2.circuits.len() && 0 <= p < g2.circuits[k].boxes.len() implies g2.is_box(
        #[trigger] g2.circuits[k].boxes[p],
    ) by {
        assert(g.is_box(g.circuits[k].boxes[p]));
    }
}

proof fn lemma_step_grows(g: GridView)
    requires
        g.wf(),
        g.distance_stack.len() > 0,
        first_touching(g.circuits, g.next_connection(), 0) < g.circuits.len(),
        first_touching(
            g.circuits,
            g.next_connection(),
            first_touching(g.circuits, g.next_connection(), 0) + 1,
        ) >= g.circuits.len(),
        !(g.circuits[first_touching(g.circuits, g.next_connection(), 0)].has(
            g.next_connection().from,
        ) && g.circuits[first_touching(g.circuits, g.next_connection(), 0)].has(
            g.next_connection().to,
        )),
    ensures
        g.step().wf(),
{
    let g2 = g.step();
    let (conn, d) = g.distance_stack.last();
    let i = first_touching(g.circuits, conn, 0);
    lemma_first_touching(g.circuits, conn, 0);
    lemma_first_touching(g.circuits, conn, i + 1);
    let c = g.circuits[i];
    let far = c.far_end(conn);
    let newcomer = g.junction_boxes[far as int];
    let grown = c.grown(newcomer, conn, d);
    assert(g.is_candidate(g.distance_stack[g.distance_stack.len() - 1]));
    assert(newcomer.id == far);
    assert(!c.has(far));
    lemma_stack_carries(g, g2);
    lemma_grown_wf(c, newcomer, conn, d);
    assert(g2.circuits[i] == grown);
    assert forall|id: usize| grown.has(id) <==> (c.has(id) || id == far) by {
        lemma_grown_has(c, newcomer, conn, d, id);
    }
    assert forall|k: int| 0 <= k < g2.circuits.len() implies (#[trigger] g2.circuits[k]).wf() by {
        if k != i {
            assert(g2.circuits[k] == g.circuits[k]);
        }
    }
    assert forall|k: int, p: int|
        0 <= k < g2.circuits.len() && 0 <= p < g2.circuits[k].boxes.len() implies g2.is_box(
        #[trigger] g2.circuits[k].boxes[p],
    ) by {
        if k != i {
            assert(g2.circuits[k] == g.circuits[k]);
            assert(g.is_box(g.circuits[k].boxes[p]));
        } else if p < c.boxes.len() {
            assert(g.is_box(g.circuits[i].boxes[p]));
        }
    }
    assert forall|k: int, l: int| 0 <= k < l < g2.circuits.len() implies disjoint(
        #[trigger] g2.circuits[k],
        #[trigger] g2.circuits[l],
    ) by {
        assert(disjoint(g.circuits[k], g.circuits[l]));
        if k == i {
            assert(g2.circuits[l] == g.circuits[l]);
            assert(!g.circuits[l].touches(conn));
        } else if l == i {
            assert(g2.circuits[k] == g.circuits[k]);
            assert(!g.circuits[k].touches(conn));
        } else {
            assert(g2.circuits[k] == g.circuits[k]);
            assert(g2.circuits[l] == g.circuits[l]);
        }
    }
    assert(g2.circuits[i].has(conn.from) && g2.circuits[i].has(conn.to));
    assert forall|k: int| 0 <= k < g.circuits.len() implies lives_on(
        g2.circuits,
        #[trigger] g.circuits[k],
    ) by {
        assert(extends(g2.circuits[k], g.circuits[k]));
    }
    lemma_cover_carries(g, g2);
}

/// Where the circuits that are left after two were taken out came from.
pub open spec fn kept_from(p: int, i: int, j: int) -> int {
    if p < i {
        p
    } else if p < j - 1 {
        p + 1
    } else {
        p + 2
    }
}

proof fn lemma_remove_two<T>(s: Seq<T>, i: int, j: int)
    requires
        0 <= i < j < s.len(),
    ensures
        s.remove(j).remove(i).len() == s.len() - 2,
        forall|p: int|
            0 <= p < s.len() - 2 ==> #[trigger] s.remove(j).remove(i)[p] == s[kept_from(p, i, j)],
{
}

proof fn lemma_step_merges(g: GridView)
    requires
        g.wf(),
        g.distance_stack.len() > 0,
        first_touching(g.circuits, g.next_connection(), 0) < g.circuits.len(),
        first_touching(
            g.circuits,
            g.next_connection(),
            first_touching(g.circuits, g.next_connection(), 0) + 1,
        ) < g.circuits.len(),
    ensures
        g.step().wf(),
{
    let g2 = g.step();
    let (conn, d) = g.distance_stack.last();
    let n = g.circuits.len() as int;
    let i = first_touching(g.circuits, conn, 0);
    lemma_first_touching(g.circuits, conn, 0);
    lemma_first_touching(g.circuits, conn, i + 1);
    let j = first_touching(g.circuits, conn, i + 1);
    let ci = g.circuits[i];
    let cj = g.circuits[j];
    let m = ci.merged(cj, conn, d);
    assert(g.is_candidate(g.distance_stack[g.distance_stack.len() - 1]));
    assert(disjoint(ci, cj));
    assert(ci.touches(conn) && cj.touches(conn));
    lemma_stack_carries(g, g2);
    lemma_merged_wf(ci, cj, conn, d);
    lemma_remove_two(g.circuits, i, j);
    let kept = g.circuits.remove(j).remove(i);
    assert(g2.circuits == kept.push(m));
    assert(g2.circuits[n - 2] == m);
    assert forall|id: usize| m.has(id) <==> (ci.has(id) || cj.has(id)) by {
        lemma_merged_has(ci, cj, conn, d, id);
    }
    assert forall|p: int| 0 <= p < n - 2 implies #[trigger] g2.circuits[p] == g.circuits[kept_from(
        p,
        i,
        j,
    )] by {
        assert(g2.circuits[p] == kept[p]);
    }
    assert forall|k: int| 0 <= k < g2.circuits.len() implies (#[trigger] g2.circuits[k]).wf() by {
        if k < n - 2 {
            assert(g2.circuits[k] == g.circuits[kept_from(k, i, j)]);
        }
    }
    assert forall|k: int, p: int|
        0 <= k < g2.circuits.len() && 0 <= p < g2.circuits[k].boxes.len() implies g2.is_box(
        #[trigger] g2.circuits[k].boxes[p],
    ) by {
        if k < n - 2 {
            assert(g2.circuits[k] == g.circuits[kept_from(k, i, j)]);
            assert(g.is_box(g.circuits[kept_from(k, i, j)].boxes[p]));
        } else if p < ci.boxes.len() {
            assert(g.is_box(g.circuits[i].boxes[p]));
        } else {
            assert(g.is_box(g.circuits[j].boxes[p - ci.boxes.len()]));
        }
    }
    assert forall|k: int, l: int| 0 <= k < l < g2.circuits.len() implies disjoint(
        #[trigger] g2.circuits[k],
        #[trigger] g2.circuits[l],
    ) by {
        let ok = kept_from(k, i, j);
        assert(g2.circuits[k] == g.circuits[ok]);
        if l < n - 2 {
            let ol = kept_from(l, i, j);
            assert(g2.circuits[l] == g.circuits[ol]);
            assert(disjoint(g.circuits[ok], g.circuits[ol]));
        } else {
            if ok < i {
                assert(disjoint(g.circuits[ok], g.circuits[i]));
            } else {
                assert(disjoint(g.circuits[i], g.circuits[ok]));
            }
            if ok < j {
                assert(disjoint(g.circuits[ok], g.circuits[j]));
            } else {
                assert(disjoint(g.circuits[j], g.circuits[ok]));
            }
        }
    }
    assert(g2.circuits[n - 2].has(conn.from) && g2.circuits[n - 2].has(conn.to));
    assert forall|k: int| 0 <= k < g.circuits.len() implies lives_on(
        g2.circuits,
        #[trigger] g.circuits[k],
    ) by {
        if k == i || k == j {
            assert(extends(g2.circuits[n - 2], g.circuits[k]));
        } else {
            let p = if k < i {
                k
            } else if k < j {
                k - 1
            } else {
                k - 2
            };
            assert(kept_from(p, i, j) == k);
            assert(g2.circuits[p] == g.circuits[k]);
            assert(extends(g2.circuits[p], g.circuits[k]));
        }
    }
    lemma_cover_carries(g, g2);
}

/// A step keeps the invariant and uses up exactly one candidate.
pub proof fn lemma_step_wf(g: GridView)
    requires
        g.wf(),
        g.distance_stack.len() > 0,
    ensures
        g.step().wf(),
        g.step().junction_boxes == g.junction_boxes,
        g.step().distance_stack == g.distance_stack.drop_last(),
{
    let conn = g.next_connection();
    let i = first_touching(g.circuits, conn, 0);
    if i >= g.circuits.len() {
        lemma_step_starts(g);
    } else {
        let j = first_touching(g.circuits, conn, i + 1);
        if j < g.circuits.len() {
            lemma_step_merges(g);
        } else if g.circuits[i].has(conn.from) && g.circuits[i].has(conn.to) {
            lemma_step_idles(g);
        } else {
            lemma_step_grows(g);
        }
    }
}

/// Any number of steps that the candidates allow keeps the invariant.
pub proof fn lemma_steps_wf(g: GridView, n: nat)
    requires
        g.wf(),
        n <= g.distance_stack.len(),
    ensures
        g.steps(n).wf(),
        g.steps(n).junction_boxes == g.junction_boxes,
        g.steps(n).distance_stack == g.distance_stack.take(g.distance_stack.len() - n),
    decreases n,
{
    if n == 0 {
        assert(g.distance_stack.take(g.distance_stack.len() as int) =~= g.distance_stack);
    } else {
        lemma_steps_wf(g, (n - 1) as nat);
        lemma_step_wf(g.steps((n - 1) as nat));
        assert(g.distance_stack.take(g.distance_stack.len() - (n - 1)).drop_last()
            =~= g.distance_stack.take(g.distance_stack.len() - n));
    }
}

} // verus!

verus! {

/// The candidates that pair box `i` with the boxes after it, up to box `j`.
pub open spec fn row(boxes: Seq<JunctionBox>, i: int, j: int) -> Seq<(Connection, u64)>
    decreases j - i,
{
    if j <= i + 1 {
        Seq::empty()
    } else {
        row(boxes, i, j - 1).push(link(boxes[i], boxes[j - 1]))
    }
}

/// The candidates whose first box comes before box `i`: row after row.
pub open spec fn pairs_before(boxes: Seq<JunctionBox>, i: int) -> Seq<(Connection, u64)>
    decreases i,
{
    if i <= 0 {
        Seq::empty()
    } else {
        pairs_before(boxes, i - 1) + row(boxes, i - 1, boxes.len() as int)
    }
}

/// Every pair of boxes once, the earlier box first, in the order in which
/// two nested loops over the boxes meet them.
pub open spec fn all_pairs(boxes: Seq<JunctionBox>) -> Seq<(Connection, u64)> {
    pairs_before(boxes, boxes.len() as int)
}

/// The squared lengths of the candidates, in their order.
pub open spec fn lengths(pairs: Seq<(Connection, u64)>) -> Seq<u64> {
    Seq::new(pairs.len(), |i: int| pairs[i].1)
}

/// The candidates longest first; candidates of one length keep their order.
pub open spec fn longest_first(pairs: Seq<(Connection, u64)>) -> Seq<(Connection, u64)> {
    arrange(pairs, descending_rank(lengths(pairs)))
}

/// The positions as boxes, numbered from zero in their order.
pub open spec fn numbered(positions: Seq<Position>) -> Seq<JunctionBox> {
    Seq::new(positions.len(), |i: int| JunctionBox { id: i as usize, pos: positions[i] })
}

/// Every squared distance between two of the boxes fits in 64 bits.
pub open spec fn lengths_fit(boxes: Seq<JunctionBox>) -> bool {
    forall|i: int, j: int|
        0 <= i < boxes.len() && 0 <= j < boxes.len() ==> #[trigger] boxes[i].pos.squared_distance(
            #[trigger] boxes[j].pos,
        ) <= u64::MAX
}

/// The sizes of the circuits, in their order.
pub open spec fn sizes(circuits: Seq<CircuitView>) -> Seq<u64> {
    Seq::new(circuits.len(), |i: int| circuits[i].boxes.len() as u64)
}

impl GridView {
    /// The grid before any connection was made.
    pub open spec fn initial(positions: Seq<Position>) -> GridView {
        GridView {
            junction_boxes: numbered(positions),
            circuits: Seq::empty(),
            distance_stack: longest_first(all_pairs(numbered(positions))),
        }
    }

    /// The same grid with its circuits largest first; circuits of one size
    /// keep their order.
    pub open spec fn largest_first(self) -> GridView {
        GridView {
            junction_boxes: self.junction_boxes,
            circuits: arrange(self.circuits, descending_rank(sizes(self.circuits))),
            distance_stack: self.distance_stack,
        }
    }

    /// The product of the sizes of the three largest circuits, or of all of
    /// them where there are fewer than three.
    pub open spec fn top_three_product(self) -> nat {
        let ranked = self.largest_first().circuits;
        if ranked.len() == 0 {
            1
        } else if ranked.len() == 1 {
            ranked[0].boxes.len()
        } else if ranked.len() == 2 {
            ranked[0].boxes.len() * ranked[1].boxes.len()
        } else {
            ranked[0].boxes.len() * ranked[1].boxes.len() * ranked[2].boxes.len()
        }
    }

    /// One circuit is left and it holds at least `total_size` boxes.
    pub open spec fn unified(self, total_size: nat) -> bool {
        self.circuits.len() == 1 && self.circuits[0].boxes.len() >= total_size
    }

    /// The first connection from here on whose step leaves the grid unified.
    pub open spec fn unifying_connection(self, total_size: nat) -> Connection
        decreases self.distance_stack.len(),
    {
        if self.distance_stack.len() == 0 || self.step().unified(total_size) {
            self.next_connection()
        } else {
            self.step().unifying_connection(total_size)
        }
    }

    /// The grid right after the step of the unifying connection.
    pub open spec fn unified_grid(self, total_size: nat) -> GridView
        decreases self.distance_stack.len(),
    {
        if self.distance_stack.len() == 0 {
            self
        } else if self.step().unified(total_size) {
            self.step()
        } else {
            self.step().unified_grid(total_size)
        }
    }

    /// The product of the `x` coordinates of the two ends of `conn`.
    pub open spec fn x_product(self, conn: Connection) -> int {
        self.junction_boxes[conn.from as int].pos.x * self.junction_boxes[conn.to as int].pos.x
    }
}

/// The candidates of one row: box `i` with each box after it, in order.
pub proof fn lemma_row(boxes: Seq<JunctionBox>, i: int, j: int)
    requires
        0 <= i < j <= boxes.len(),
    ensures
        row(boxes, i, j).len() == j - i - 1,
        forall|k: int|
            0 <= k < j - i - 1 ==> #[trigger] row(boxes, i, j)[k] == link(boxes[i], boxes[i + 1 + k]),
    decreases j - i,
{
    if j > i + 1 {
        lemma_row(boxes, i, j - 1);
    }
}

/// `e` is the candidate of two boxes, the earlier one first.
pub open spec fn is_pair_of(boxes: Seq<JunctionBox>, e: (Connection, u64)) -> bool {
    exists|a: int, b: int| 0 <= a < b < boxes.len() && e == #[trigger] link(boxes[a], boxes[b])
}

/// The candidates are pairs of boxes, and each pair whose first box comes
/// before box `i` is among them.
pub proof fn lemma_pairs_before(boxes: Seq<JunctionBox>, i: int)
    requires
        0 <= i <= boxes.len(),
    ensures
        forall|k: int|
            0 <= k < pairs_before(boxes, i).len() ==> is_pair_of(
                boxes,
                #[trigger] pairs_before(boxes, i)[k],
            ),
        forall|a: int, b: int|
            0 <= a < i && a < b < boxes.len() ==> pairs_before(boxes, i).contains(
                #[trigger] link(boxes[a], boxes[b]),
            ),
    decreases i,
{
    if i > 0 {
        let n = boxes.len() as int;
        let before = pairs_before(boxes, i - 1);
        let r = row(boxes, i - 1, n);
        let all = pairs_before(boxes, i);
        lemma_pairs_before(boxes, i - 1);
        lemma_row(boxes, i - 1, n);
        assert forall|k: int| 0 <= k < all.len() implies is_pair_of(boxes, #[trigger] all[k]) by {
            if k < before.len() {
                assert(all[k] == before[k]);
            } else {
                let c = k - before.len();
                assert(all[k] == r[c]);
                assert(r[c] == link(boxes[i - 1], boxes[i + c]));
            }
        }
        assert forall|a: int, b: int| 0 <= a < i && a < b < n implies all.contains(
            #[trigger] link(boxes[a], boxes[b]),
        ) by {
            if a < i - 1 {
                let w = choose|w: int|
                    0 <= w < before.len() && before[w] == link(boxes[a], boxes[b]);
                assert(all[w] == before[w]);
            } else {
                let c = b - i;
                assert(r[c] == link(boxes[a], boxes[b]));
                assert(all[before.len() + c] == r[c]);
            }
        }
    }
}

/// Arranging by a ranking keeps every item and adds none.
pub proof fn lemma_arrange_keeps<T>(items: Seq<T>, keys: Seq<u64>)
    requires
        keys.len() == items.len(),
        items.len() <= usize::MAX,
    ensures
        arrange(items, descending_rank(keys)).len() == items.len(),
        forall|p: int|
            0 <= p < items.len() ==> items.contains(#[trigger] arrange(items, descending_rank(keys))[p]),
        forall|k: int|
            0 <= k < items.len() ==> arrange(items, descending_rank(keys)).contains(#[trigger] items[k]),
        forall|p: int|
            0 <= p < items.len() ==> 0 <= #[trigger] descending_rank(keys)[p] < items.len(),
        forall|p: int, q: int|
            0 <= p < q < items.len() ==> precedes(
                keys,
                #[trigger] descending_rank(keys)[p],
                #[trigger] descending_rank(keys)[q],
            ),
{
    let rank = descending_rank(keys);
    let out = arrange(items, rank);
    lemma_descending_rank(keys);
    assert forall|p: int| 0 <= p < items.len() implies items.contains(#[trigger] out[p]) by {
        assert(0 <= rank[p] < items.len());
        assert(items[rank[p] as int] == out[p]);
    }
    assert forall|k: int| 0 <= k < items.len() implies out.contains(#[trigger] items[k]) by {
        assert(rank.contains(k as usize));
        let p = choose|p: int| 0 <= p < rank.len() && rank[p] == k as usize;
        assert(out[p] == items[k]);
    }
}

proof fn lemma_pairs_before_len(boxes: Seq<JunctionBox>, i: int)
    requires
        0 <= i <= boxes.len(),
    ensures
        2 * pairs_before(boxes, i).len() == i * (2 * boxes.len() - i - 1),
    decreases i,
{
    if i > 0 {
        let n = boxes.len() as int;
        lemma_pairs_before_len(boxes, i - 1);
        lemma_row(boxes, i - 1, n);
        let before = pairs_before(boxes, i - 1).len() as int;
        assert(pairs_before(boxes, i).len() == before + (n - i));
        assert(2 * (before + (n - i)) == i * (2 * n - i - 1)) by (nonlinear_arith)
            requires
                2 * before == (i - 1) * (2 * n - (i - 1) - 1),
        ;
    } else {
        assert(i * (2 * boxes.len() - i - 1) == 0) by (nonlinear_arith)
            requires
                i == 0,
        ;
    }
}

/// Of `n` boxes there are `n * (n - 1) / 2` pairs.
pub proof fn lemma_all_pairs_len(boxes: Seq<JunctionBox>)
    ensures
        2 * all_pairs(boxes).len() == boxes.len() * (boxes.len() - 1),
{
    let n = boxes.len() as int;
    lemma_pairs_before_len(boxes, n);
    assert(n * (2 * n - n - 1) == n * (n - 1)) by (nonlinear_arith);
}

/// A fresh grid meets the invariant, and its candidates are as many as
/// there are pairs of boxes.
pub proof fn lemma_initial_wf(positions: Seq<Position>)
    requires
        positions.len() <= usize::MAX,
        lengths_fit(numbered(positions)),
        all_pairs(numbered(positions)).len() <= usize::MAX,
    ensures
        GridView::initial(positions).wf(),
        2 * GridView::initial(positions).distance_stack.len() == positions.len() * (
        positions.len() - 1),
{
    lemma_all_pairs_len(numbered(positions));
    let g = GridView::initial(positions);
    let boxes = numbered(positions);
    let pairs = all_pairs(boxes);
    let keys = lengths(pairs);
    let rank = descending_rank(keys);
    let n = boxes.len() as int;
    lemma_pairs_before(boxes, n);
    lemma_arrange_keeps(pairs, keys);
    assert forall|i: int, j: int| 0 <= i < j < g.distance_stack.len() implies (
    #[trigger] g.distance_stack[i]).1 >= (#[trigger] g.distance_stack[j]).1 by {
        assert(precedes(keys, rank[i], rank[j]));
        assert(g.distance_stack[i] == pairs[rank[i] as int]);
        assert(g.distance_stack[j] == pairs[rank[j] as int]);
    }
    assert forall|i: int| 0 <= i < g.distance_stack.len() implies g.is_candidate(
        #[trigger] g.distance_stack[i],
    ) by {
        let e = g.distance_stack[i];
        assert(pairs.contains(e));
        let k = choose|k: int| 0 <= k < pairs.len() && pairs[k] == e;
        assert(is_pair_of(boxes, pairs[k]));
        let (a, b) = choose|a: int, b: int|
            0 <= a < b < boxes.len() && e == #[trigger] link(boxes[a], boxes[b]);
        assert(boxes[a].pos.squared_distance(boxes[b].pos) <= u64::MAX);
    }
    assert forall|a: usize, b: usize| a < b < g.junction_boxes.len() implies #[trigger] g.covered(
        a,
        b,
    ) by {
        let e = link(boxes[a as int], boxes[b as int]);
        assert(pairs.contains(e));
        let k = choose|k: int| 0 <= k < pairs.len() && pairs[k] == e;
        assert(g.distance_stack.contains(pairs[k]));
        let i = choose|i: int| 0 <= i < g.distance_stack.len() && g.distance_stack[i] == e;
        assert(g.distance_stack[i].0 == Connection { from: a, to: b });
    }
}

/// Putting the largest circuits first keeps the invariant.
pub proof fn lemma_largest_first_wf(g: GridView)
    requires
        g.wf(),
        g.circuits.len() <= usize::MAX,
    ensures
        g.largest_first().wf(),
        g.largest_first().circuits.len() == g.circuits.len(),
{
    let g2 = g.largest_first();
    let keys = sizes(g.circuits);
    let rank = descending_rank(keys);
    lemma_arrange_keeps(g.circuits, keys);
    assert forall|k: int| 0 <= k < g2.circuits.len() implies (#[trigger] g2.circuits[k]).wf() by {
        assert(g2.circuits[k] == g.circuits[rank[k] as int]);
    }
    assert forall|k: int, i: int|
        0 <= k < g2.circuits.len() && 0 <= i < g2.circuits[k].boxes.len() implies g2.is_box(
        #[trigger] g2.circuits[k].boxes[i],
    ) by {
        assert(g2.circuits[k] == g.circuits[rank[k] as int]);
        assert(g.is_box(g.circuits[rank[k] as int].boxes[i]));
    }
    assert forall|k: int, l: int| 0 <= k < l < g2.circuits.len() implies disjoint(
        #[trigger] g2.circuits[k],
        #[trigger] g2.circuits[l],
    ) by {
        assert(precedes(keys, rank[k], rank[l]));
        let ok = rank[k] as int;
        let ol = rank[l] as int;
        assert(g2.circuits[k] == g.circuits[ok]);
        assert(g2.circuits[l] == g.circuits[ol]);
        if ok < ol {
            assert(disjoint(g.circuits[ok], g.circuits[ol]));
        } else {
            assert(disjoint(g.circuits[ol], g.circuits[ok]));
        }
    }
    assert forall|a: usize, b: usize| a < b < g2.junction_boxes.len() implies #[trigger] g2.covered(
        a,
        b,
    ) by {
        assert(g.covered(a, b));
        let key = Connection { from: a, to: b };
        if g.offers(key) {
            let i = choose|i: int|
                0 <= i < g.distance_stack.len() && #[trigger] g.distance_stack[i].0 == key;
            assert(g2.distance_stack[i].0 == key);
        } else {
            let k = choose|k: int|
                0 <= k < g.circuits.len() && #[trigger] g.circuits[k].has(a) && g.circuits[k].has(
                    b,
                );
            let c = g.circuits[k];
            assert(g2.circuits.contains(g.circuits[k]));
            let p = choose|p: int| 0 <= p < g2.circuits.len() && g2.circuits[p] == c;
            assert(g2.circuits[p].has(a) && g2.circuits[p].has(b));
            assert(g2.joined(a, b));
        }
    }
}

} // verus!
