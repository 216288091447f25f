//! What holds of every grid: statements about whole runs of the wiring,
//! proved from the invariant and the definition of a step.

use crate::days::day8::model::{
    all_pairs, disjoint, has_id, lemma_initial_wf, lemma_largest_first_wf, lemma_step_wf,
    lemma_steps_wf, lengths_fit, numbered, GridView,
};
use crate::days::day8::{JunctionBox, Position};
use vstd::prelude::*;
use vstd::set_lib::{lemma_int_range, lemma_len_subset, set_int_range};

verus! {

/// Boxes with different ids, all below `n`, among which every id below `n`
/// occurs, are exactly `n` boxes.
proof fn lemma_count_of_all_ids(boxes: Seq<JunctionBox>, n: nat)
    requires
        forall|i: int, j: int|
            0 <= i < j < boxes.len() ==> #[trigger] boxes[i].id != #[trigger] boxes[j].id,
        forall|i: int| 0 <= i < boxes.len() ==> (#[trigger] boxes[i]).id < n,
        forall|id: usize| id < n ==> #[trigger] has_id(boxes, id),
        n <= usize::MAX + 1,
    ensures
        boxes.len() == n,
{
    let ids = Seq::new(boxes.len(), |i: int| boxes[i].id as int);
    assert(ids.no_duplicates());
    ids.unique_seq_to_set();
    lemma_int_range(0, n as int);
    assert forall|id: int| ids.to_set().contains(id) == set_int_range(0, n as int).contains(id) by {
        if ids.to_set().contains(id) {
            let i = choose|i: int| 0 <= i < ids.len() && ids[i] == id;
            assert(boxes[i].id < n);
        }
        if 0 <= id < n {
            assert(has_id(boxes, id as usize));
            let i = choose|i: int| 0 <= i < boxes.len() && #[trigger] boxes[i].id == id as usize;
            assert(ids[i] == id);
        }
    }
    assert(ids.to_set() =~= set_int_range(0, n as int));
}

/// Two circuits of a well-formed grid that hold the same box are one circuit.
proof fn lemma_one_home(g: GridView, k: int, l: int, id: usize)
    requires
        g.wf(),
        0 <= k < g.circuits.len(),
        0 <= l < g.circuits.len(),
        g.circuits[k].has(id),
        g.circuits[l].has(id),
    ensures
        k == l,
{
    if k < l {
        assert(disjoint(g.circuits[k], g.circuits[l]));
    } else if l < k {
        assert(disjoint(g.circuits[l], g.circuits[k]));
    }
}

/// Where one circuit holds every box of the grid, there is no other circuit.
proof fn lemma_only_home(g: GridView, home: int, k: int)
    requires
        g.wf(),
        0 <= home < g.circuits.len(),
        0 <= k < g.circuits.len(),
        forall|a: usize| a < g.junction_boxes.len() ==> #[trigger] g.circuits[home].has(a),
    ensures
        k == home,
{
    let c = g.circuits[k];
    assert(c.wf());
    let a = c.boxes[0].id;
    assert(g.is_box(g.circuits[k].boxes[0]));
    assert(c.has(a));
    lemma_one_home(g, k, home, a);
}

/// Once every candidate connection of a grid of at least two boxes has been
/// consumed, exactly one circuit is left and it holds every box.
pub proof fn lemma_exhausted_grid_is_one_circuit(g: GridView)
    requires
        g.wf(),
        g.junction_boxes.len() >= 2,
        g.distance_stack.len() == 0,
    ensures
        g.circuits.len() == 1,
        g.circuits[0].boxes.len() == g.junction_boxes.len(),
        g.unified(g.junction_boxes.len()),
{
    let n = g.junction_boxes.len();
    assert(g.covered(0usize, 1usize));
    let k0 = choose|k: int|
        0 <= k < g.circuits.len() && #[trigger] g.circuits[k].has(0usize) && g.circuits[k].has(
            1usize,
        );
    assert forall|a: usize| a < n implies #[trigger] g.circuits[k0].has(a) by {
        if a > 0 {
            assert(g.covered(0usize, a));
            let k1 = choose|k: int|
                0 <= k < g.circuits.len() && #[trigger] g.circuits[k].has(0usize)
                    && g.circuits[k].has(a);
            lemma_one_home(g, k1, k0, 0usize);
        }
    }
    if g.circuits.len() >= 2 {
        lemma_only_home(g, k0, 0);
        lemma_only_home(g, k0, 1);
    }
    let c0 = g.circuits[0];
    assert(c0.wf());
    assert forall|i: int| 0 <= i < c0.boxes.len() implies (#[trigger] c0.boxes[i]).id < n by {
        assert(g.is_box(g.circuits[0].boxes[i]));
    }
    assert forall|id: usize| id < n implies #[trigger] has_id(c0.boxes, id) by {
        assert(c0.has(id));
    }
    assert(g.junction_boxes[n - 1].id == n - 1);
    lemma_count_of_all_ids(c0.boxes, n);
}

/// Running a well-formed grid of at least two boxes until its candidates are
/// used up leaves exactly one circuit, which holds every box.
pub proof fn lemma_full_run_unifies(g: GridView)
    requires
        g.wf(),
        g.junction_boxes.len() >= 2,
    ensures
        g.steps(g.distance_stack.len()).circuits.len() == 1,
        g.steps(g.distance_stack.len()).circuits[0].boxes.len() == g.junction_boxes.len(),
{
    lemma_steps_wf(g, g.distance_stack.len());
    lemma_exhausted_grid_is_one_circuit(g.steps(g.distance_stack.len()));
}

/// Of two or more positions whose squared distances fit in 64 bits, the
/// grid that has consumed every candidate connection, one for each pair of
/// positions, has exactly one circuit, and it holds every box.
pub proof fn lemma_every_input_unifies(positions: Seq<Position>)
    requires
        2 <= positions.len() <= usize::MAX,
        lengths_fit(numbered(positions)),
        all_pairs(numbered(positions)).len() <= usize::MAX,
    ensures
        2 * GridView::initial(positions).distance_stack.len() == positions.len() * (
        positions.len() - 1),
        GridView::initial(positions).steps(
            GridView::initial(positions).distance_stack.len(),
        ).circuits.len() == 1,
        GridView::initial(positions).steps(
            GridView::initial(positions).distance_stack.len(),
        ).circuits[0].boxes.len() == positions.len(),
{
    lemma_initial_wf(positions);
    lemma_full_run_unifies(GridView::initial(positions));
}

/// The connection consumed by a step is never shorter than the one consumed
/// by the step before it.
pub proof fn lemma_lengths_never_decrease(g: GridView)
    requires
        g.wf(),
        g.distance_stack.len() >= 2,
    ensures
        g.length_of(g.next_connection()) <= g.step().length_of(g.step().next_connection()),
{
    let last = g.distance_stack.len() - 1;
    lemma_step_wf(g);
    assert(g.is_candidate(g.distance_stack[last]));
    assert(g.is_candidate(g.distance_stack[last - 1]));
    assert(g.distance_stack[last - 1].1 >= g.distance_stack[last].1);
    assert(g.step().distance_stack.last() == g.distance_stack[last - 1]);
}

/// Over a whole run the consumed lengths never decrease: an earlier step
/// never consumes a longer connection than a later one.
pub proof fn lemma_lengths_never_decrease_over_a_run(g: GridView, earlier: nat, later: nat)
    requires
        g.wf(),
        earlier <= later < g.distance_stack.len(),
    ensures
        g.steps(earlier).length_of(g.steps(earlier).next_connection()) <= g.steps(later).length_of(
            g.steps(later).next_connection(),
        ),
{
    let len = g.distance_stack.len() as int;
    lemma_steps_wf(g, earlier);
    lemma_steps_wf(g, later);
    let e = g.distance_stack[len - earlier - 1];
    let l = g.distance_stack[len - later - 1];
    assert(g.steps(earlier).distance_stack.last() == e);
    assert(g.steps(later).distance_stack.last() == l);
    assert(g.is_candidate(e));
    assert(g.is_candidate(l));
    if earlier < later {
        assert(l.1 >= e.1);
    }
}

/// Different numbers that all lie below `n` are at most `n` numbers.
proof fn lemma_distinct_below(s: Seq<int>, n: nat)
    requires
        s.no_duplicates(),
        forall|i: int| 0 <= i < s.len() ==> 0 <= #[trigger] s[i] < n,
    ensures
        s.len() <= n,
{
    s.unique_seq_to_set();
    lemma_int_range(0, n as int);
    assert(s.to_set().subset_of(set_int_range(0, n as int))) by {
        assert forall|x: int| s.to_set().contains(x) implies set_int_range(0, n as int).contains(
            x,
        ) by {
            let i = choose|i: int| 0 <= i < s.len() && s[i] == x;
            assert(0 <= s[i] < n);
        }
    }
    lemma_len_subset(s.to_set(), set_int_range(0, n as int));
}

/// A well-formed grid has no more circuits than boxes, and no circuit has
/// more boxes than the grid.
pub proof fn lemma_circuits_are_no_more_than_boxes(g: GridView)
    requires
        g.wf(),
    ensures
        g.circuits.len() <= g.junction_boxes.len(),
        forall|k: int|
            0 <= k < g.circuits.len() ==> (#[trigger] g.circuits[k]).boxes.len()
                <= g.junction_boxes.len(),
{
    let n = g.junction_boxes.len();
    let firsts = Seq::new(g.circuits.len(), |k: int| g.circuits[k].boxes[0].id as int);
    assert forall|k: int| 0 <= k < firsts.len() implies 0 <= #[trigger] firsts[k] < n by {
        assert(g.circuits[k].wf());
        assert(g.is_box(g.circuits[k].boxes[0]));
    }
    assert forall|k: int, l: int| 0 <= k < l < firsts.len() implies firsts[k] != firsts[l] by {
        assert(g.circuits[k].wf());
        assert(g.circuits[l].wf());
        assert(g.circuits[k].has(g.circuits[k].boxes[0].id));
        assert(g.circuits[l].has(g.circuits[l].boxes[0].id));
        assert(disjoint(g.circuits[k], g.circuits[l]));
    }
    lemma_distinct_below(firsts, n);
    assert forall|k: int| 0 <= k < g.circuits.len() implies (#[trigger] g.circuits[k]).boxes.len()
        <= n by {
        let c = g.circuits[k];
        assert(c.wf());
        let ids = Seq::new(c.boxes.len(), |i: int| c.boxes[i].id as int);
        assert forall|i: int| 0 <= i < ids.len() implies 0 <= #[trigger] ids[i] < n by {
            assert(g.is_box(g.circuits[k].boxes[i]));
        }
        lemma_distinct_below(ids, n);
    }
}

/// The largest number of boxes for which the score is sure to fit in 64
/// bits.
pub const SCORE_FITS_UP_TO: usize = 2_097_152;

/// The score of a well-formed grid of no more than `SCORE_FITS_UP_TO` boxes
/// fits in 64 bits.
pub proof fn lemma_score_fits(g: GridView)
    requires
        g.wf(),
        g.junction_boxes.len() <= SCORE_FITS_UP_TO,
    ensures
        g.top_three_product() <= u64::MAX,
{
    lemma_circuits_are_no_more_than_boxes(g);
    lemma_largest_first_wf(g);
    let ranked = g.largest_first();
    lemma_circuits_are_no_more_than_boxes(ranked);
    let bound = SCORE_FITS_UP_TO as int;
    if ranked.circuits.len() >= 3 {
        let a = ranked.circuits[0].boxes.len() as int;
        let b = ranked.circuits[1].boxes.len() as int;
        let c = ranked.circuits[2].boxes.len() as int;
        assert(a * b * c <= bound * bound * bound) by (nonlinear_arith)
            requires
                0 <= a <= bound,
                0 <= b <= bound,
                0 <= c <= bound,
        ;
    } else if ranked.circuits.len() == 2 {
        let a = ranked.circuits[0].boxes.len() as int;
        let b = ranked.circuits[1].boxes.len() as int;
        assert(a * b <= bound * bound) by (nonlinear_arith)
            requires
                0 <= a <= bound,
                0 <= b <= bound,
        ;
    }
}

/// The score depends on nothing but the positions and the number of steps:
/// two grids built from the same positions score the same.
pub proof fn lemma_score_is_a_function_of_the_input(
    first: Seq<Position>,
    second: Seq<Position>,
    n: nat,
)
    requires
        first == second,
    ensures
        GridView::initial(first).steps(n).top_three_product() == GridView::initial(second).steps(
            n,
        ).top_three_product(),
        GridView::initial(first).steps(n).largest_first() == GridView::initial(second).steps(
            n,
        ).largest_first(),
{
}

} // verus!
