use vstd::prelude::*;
use vstd::arithmetic::div_mod::{lemma_fundamental_div_mod_converse, lemma_small_mod};
use rayon::iter::{IntoParallelIterator, ParallelIterator};
use crate::field::{lemma_cell_index, IntensityField};
use crate::geometry::{in_field, in_mask, lemma_mask_in_field, side};
use crate::layout::{layout_ok, LayoutView, PinLayout};
use crate::line::{path_in_bounds, path_view, source_pin, Line, LineView};
use crate::raster::{
    erase, erased, in_bounds, lemma_line_on_field, line_score, line_sum, line_xs, line_ys,
    rasterize, score,
};

verus! {

/// The two pins visited last: `current` is where the thread is, `older`
/// where it was before. Both are pin 0 before the first chord.
#[derive(Clone, Copy, Debug, PartialEq, Eq, Structural)]
pub struct PrevPins {
    pub older: usize,
    pub current: usize,
}

/// The solver between two iterations, as mathematical values.
pub struct SolverView {
    /// The darkness that is left.
    pub cells: Seq<u8>,
    /// The pin visited before the current one.
    pub older: int,
    /// The pin the thread is at.
    pub current: int,
    /// The chords committed so far.
    pub path: Seq<LineView>,
    /// The solver chose to stay at its pin and has stopped for good.
    pub halted: bool,
}

/// The pin `k` places after `current` on a ring of `n` pins.
pub open spec fn pin_at_offset(n: int, current: int, k: int) -> int {
    (current + k) % n
}

/// The pin `k` places after the current one may be chosen: it is neither
/// the current pin nor the one visited before it.
pub open spec fn eligible(layout: LayoutView, older: int, current: int, k: int) -> bool {
    0 < k < layout.pins.len() && pin_at_offset(layout.pins.len() as int, current, k) != older
}

/// Columns of the pixels on the chord from pin `from` to pin `to`.
pub open spec fn chord_xs(layout: LayoutView, from: int, to: int) -> Seq<u32> {
    line_xs(layout.pins[from], layout.pins[to])
}

/// Rows of the pixels on the chord from pin `from` to pin `to`.
pub open spec fn chord_ys(layout: LayoutView, from: int, to: int) -> Seq<u32> {
    line_ys(layout.pins[from], layout.pins[to])
}

/// The chord from pin `from` to pin `to`, scored on the given cells.
pub open spec fn chord(cells: Seq<u8>, layout: LayoutView, from: int, to: int) -> LineView {
    let xs = chord_xs(layout, from, to);
    let ys = chord_ys(layout, from, to);
    LineView { dest_pin: to, xs, ys, sum: line_score(cells, layout.radius, xs, ys) }
}

/// Both ends of chord `i` of the path are pins of the layout and lie within
/// its circular mask, and the chord's pixels are those of the segment
/// between them, all of them on the field.
pub open spec fn chord_on_loom(layout: LayoutView, path: Seq<LineView>, i: int) -> bool {
    let from = source_pin(path, i);
    let to = path[i].dest_pin;
    &&& 0 <= from < layout.pins.len()
    &&& 0 <= to < layout.pins.len()
    &&& in_mask(layout.radius, layout.pins[from].x as int, layout.pins[from].y as int)
    &&& in_mask(layout.radius, layout.pins[to].x as int, layout.pins[to].y as int)
    &&& path[i].xs == chord_xs(layout, from, to)
    &&& path[i].ys == chord_ys(layout, from, to)
    &&& path[i].xs.len() > 0
    &&& in_bounds(layout.radius, path[i].xs, path[i].ys)
}

/// Chord `i` of the path joins two different pins and does not lead back to
/// the pin at which the chord before it started.
pub open spec fn chord_moves_on(path: Seq<LineView>, i: int) -> bool {
    &&& path[i].dest_pin != source_pin(path, i)
    &&& path[i].dest_pin != source_pin(path, i - 1)
}

/// The score of the chord to the pin `k` places after the current one; zero
/// for a pin that may not be chosen.
pub open spec fn candidate_score(
    cells: Seq<u8>,
    layout: LayoutView,
    older: int,
    current: int,
    k: int,
) -> int {
    if eligible(layout, older, current, k) {
        chord(cells, layout, current, pin_at_offset(layout.pins.len() as int, current, k)).sum
    } else {
        0
    }
}

/// The scores of all candidates, in the order in which the pins follow the
/// current one.
pub open spec fn candidate_scores(
    cells: Seq<u8>,
    layout: LayoutView,
    older: int,
    current: int,
) -> Seq<u32> {
    Seq::new(
        layout.pins.len(),
        |k: int| candidate_score(cells, layout, older, current, k) as u32,
    )
}

/// `best` is the first place at which the scores reach their maximum.
pub open spec fn is_first_max(scores: Seq<u32>, best: int) -> bool {
    &&& 0 <= best < scores.len()
    &&& forall|k: int| 0 <= k < scores.len() ==> scores[k] <= scores[best]
    &&& forall|k: int| 0 <= k < best ==> scores[k] < scores[best]
}

/// The first place at which the scores reach their maximum.
pub open spec fn first_max(scores: Seq<u32>) -> int {
    choose|best: int| is_first_max(scores, best)
}

/// The pin the solver goes to next: the first pin after the current one
/// whose chord has the highest score. It is the current pin itself where no
/// chord has a score above zero.
pub open spec fn next_pin(cells: Seq<u8>, layout: LayoutView, older: int, current: int) -> int {
    pin_at_offset(
        layout.pins.len() as int,
        current,
        first_max(candidate_scores(cells, layout, older, current)),
    )
}

/// The solver before its first iteration.
pub open spec fn initial(cells: Seq<u8>) -> SolverView {
    SolverView { cells, older: 0, current: 0, path: Seq::empty(), halted: false }
}

/// One iteration: the solver stops where the next pin is the current one;
/// otherwise it commits the chord to the next pin, erases it and moves on.
pub open spec fn step(layout: LayoutView, s: SolverView) -> SolverView {
    let dest = next_pin(s.cells, layout, s.older, s.current);
    if s.halted {
        s
    } else if dest == s.current {
        SolverView { halted: true, ..s }
    } else {
        let line = chord(s.cells, layout, s.current, dest);
        SolverView {
            cells: erased(s.cells, layout.radius, line.xs, line.ys),
            older: s.current,
            current: dest,
            path: s.path.push(line),
            halted: false,
        }
    }
}

/// The solver after the given number of iterations.
pub open spec fn run(layout: LayoutView, s: SolverView, steps: nat) -> SolverView
    decreases steps,
{
    if steps == 0 {
        s
    } else {
        step(layout, run(layout, s, (steps - 1) as nat))
    }
}

/// At most one place is the first maximum.
pub proof fn lemma_first_max_unique(scores: Seq<u32>, a: int, b: int)
    requires
        is_first_max(scores, a),
        is_first_max(scores, b),
    ensures
        a == b,
{
    if a < b {
        assert(scores[a] < scores[b]);
        assert(scores[b] <= scores[a]);
    } else if b < a {
        assert(scores[b] < scores[a]);
        assert(scores[a] <= scores[b]);
    }
}

/// Scores that are not empty have a first maximum.
pub proof fn lemma_first_max_exists(scores: Seq<u32>)
    requires
        scores.len() > 0,
    ensures
        is_first_max(scores, first_max(scores)),
    decreases scores.len(),
{
    if scores.len() == 1 {
        assert(is_first_max(scores, 0));
    } else {
        let front = scores.drop_last();
        lemma_first_max_exists(front);
        let b = first_max(front);
        if scores.last() > front[b] {
            assert(is_first_max(scores, scores.len() - 1)) by {
                assert forall|k: int| 0 <= k < scores.len() - 1 implies scores[k] < scores.last() by {
                    assert(front[k] <= front[b]);
                }
            }
        } else {
            assert(is_first_max(scores, b)) by {
                assert forall|k: int| 0 <= k < scores.len() implies scores[k] <= scores[b] by {
                    if k < scores.len() - 1 {
                        assert(front[k] <= front[b]);
                    }
                }
                assert forall|k: int| 0 <= k < b implies scores[k] < scores[b] by {
                    assert(front[k] < front[b]);
                }
            }
        }
    }
}

/// A place that passes the test is the first maximum.
pub proof fn lemma_first_max_is(scores: Seq<u32>, best: int)
    requires
        is_first_max(scores, best),
    ensures
        first_max(scores) == best,
{
    lemma_first_max_unique(scores, best, first_max(scores));
}

/// Walking `k` places round the ring from `current` leads to a pin, and
/// back to `current` only for `k == 0`.
pub proof fn lemma_pin_at_offset(n: int, current: int, k: int)
    requires
        0 <= current < n,
        0 <= k < n,
    ensures
        0 <= pin_at_offset(n, current, k) < n,
        pin_at_offset(n, current, k) == if current + k < n {
            current + k
        } else {
            current + k - n
        },
        pin_at_offset(n, current, k) == current <==> k == 0,
{
    if current + k < n {
        lemma_small_mod((current + k) as nat, n as nat);
    } else {
        lemma_fundamental_div_mod_converse(current + k, n, 1, current + k - n);
    }
}

/// The next pin is a pin of the layout, and unless the solver stays where
/// it is, it is not the pin visited before the current one.
pub proof fn lemma_next_pin(cells: Seq<u8>, layout: LayoutView, older: int, current: int)
    requires
        layout.pins.len() > 0,
        0 <= older < layout.pins.len(),
        0 <= current < layout.pins.len(),
    ensures
        0 <= next_pin(cells, layout, older, current) < layout.pins.len(),
        next_pin(cells, layout, older, current) != current ==> next_pin(
            cells,
            layout,
            older,
            current,
        ) != older,
        next_pin(cells, layout, older, current) == current <==> first_max(
            candidate_scores(cells, layout, older, current),
        ) == 0,
{
    let n = layout.pins.len() as int;
    let scores = candidate_scores(cells, layout, older, current);
    lemma_first_max_exists(scores);
    let best = first_max(scores);
    lemma_pin_at_offset(n, current, best);
    if best != 0 {
        assert(scores[0] < scores[best]);
        assert(!eligible(layout, older, current, 0));
        assert(eligible(layout, older, current, best));
    }
}

/// The first place at which the scores reach their maximum; `None` where
/// there are no scores.
pub fn first_max_index(scores: &Vec<u32>) -> (best: Option<usize>)
    ensures
        match best {
            Some(b) => is_first_max(scores@, b as int) && b == first_max(scores@),
            None => scores@.len() == 0,
        },
{
    let n: usize = scores.len();
    if n == 0 {
        return None;
    }
    let mut best: usize = 0;
    let mut k: usize = 1;
    while k < n
        invariant
            1 <= k <= n,
            n == scores@.len(),
            best < k,
            forall|j: int| 0 <= j < k ==> scores@[j] <= scores@[best as int],
            forall|j: int| 0 <= j < best ==> scores@[j] < scores@[best as int],
        decreases n - k,
    {
        if scores[k] > scores[best] {
            best = k;
        }
        k = k + 1;
    }
    proof {
        lemma_first_max_is(scores@, best as int);
    }
    Some(best)
}

/// The pin `k` places after `current` on a ring of `n` pins.
pub fn pin_after(n: usize, current: usize, k: usize) -> (pin: usize)
    requires
        current < n,
        k < n,
    ensures
        pin == pin_at_offset(n as int, current as int, k as int),
        pin < n,
{
    proof {
        lemma_pin_at_offset(n as int, current as int, k as int);
    }
    if k < n - current {
        current + k
    } else {
        k - (n - current)
    }
}

/// The solver's inputs fit together: both are well formed and have the
/// same radius.
pub open spec fn compatible(field: &IntensityField, layout: &PinLayout) -> bool {
    &&& field.wf()
    &&& layout.wf()
    &&& field@.radius == layout@.radius
}

/// The history names pins of the layout.
pub open spec fn pins_known(layout: &PinLayout, prev: PrevPins) -> bool {
    prev.older < layout@.pins.len() && prev.current < layout@.pins.len()
}

/// Rasterizes the chord between two pins and scores it on the field.
pub fn draw_chord(field: &IntensityField, layout: &PinLayout, from: usize, to: usize) -> (line: Line)
    requires
        compatible(field, layout),
        from < layout@.pins.len(),
        to < layout@.pins.len(),
    ensures
        line@ == chord(field@.cells, layout@, from as int, to as int),
        in_bounds(field@.radius, line@.xs, line@.ys),
        line@.xs.len() > 0,
{
    let a = layout.position(from);
    let b = layout.position(to);
    proof {
        lemma_mask_in_field(layout@.radius, a.x as int, a.y as int);
        lemma_mask_in_field(layout@.radius, b.x as int, b.y as int);
        lemma_line_on_field(field@.radius, a, b);
    }
    let (xs, ys) = rasterize(a, b);
    let sum: u32 = score(field, &xs, &ys);
    Line::new(to, xs, ys, sum)
}

/// The score of the chord to the pin `k` places after the current one; zero
/// for a pin that may not be chosen.
pub fn score_candidate(field: &IntensityField, layout: &PinLayout, prev: PrevPins, k: usize) -> (sum:
    u32)
    requires
        compatible(field, layout),
        pins_known(layout, prev),
        k < layout@.pins.len(),
    ensures
        sum == candidate_score(
            field@.cells,
            layout@,
            prev.older as int,
            prev.current as int,
            k as int,
        ),
{
    let n: usize = layout.num_pins();
    let pin: usize = pin_after(n, prev.current, k);
    if k == 0 || pin == prev.older {
        0
    } else {
        let line = draw_chord(field, layout, prev.current, pin);
        line.sum
    }
}

/// Scores every candidate, each on a worker of rayon's pool. This is
/// `into_par_iter` on the range of offsets, `map` and `collect` into a
/// vector: the contract claims that the vector holds, at each offset, what
/// `score_candidate` returns for that offset, in the order of the offsets
/// and whatever the order in which the workers finish.
#[verifier::external_body]
fn score_candidates(field: &IntensityField, layout: &PinLayout, prev: PrevPins) -> (scores: Vec<u32>)
    requires
        compatible(field, layout),
        pins_known(layout, prev),
    ensures
        scores@ == candidate_scores(
            field@.cells,
            layout@,
            prev.older as int,
            prev.current as int,
        ),
{
    (0..layout.num_pins()).into_par_iter().map(|k| score_candidate(field, layout, prev, k)).collect()
}

/// Chooses the pin to go to next: every pin but the current one and the
/// one visited before it is a candidate, the candidates are taken in the
/// order in which they follow the current pin, and the first one whose
/// chord has the highest score wins. Where no chord scores above zero the
/// result is the current pin.
pub fn select_next(field: &IntensityField, layout: &PinLayout, prev: PrevPins) -> (dest: usize)
    requires
        compatible(field, layout),
        pins_known(layout, prev),
    ensures
        dest == next_pin(field@.cells, layout@, prev.older as int, prev.current as int),
        dest < layout@.pins.len(),
        dest != prev.current ==> dest != prev.older,
{
    let scores: Vec<u32> = score_candidates(field, layout, prev);
    let n: usize = layout.num_pins();
    match first_max_index(&scores) {
        Some(best) => {
            proof {
                lemma_next_pin(field@.cells, layout@, prev.older as int, prev.current as int);
            }
            pin_after(n, prev.current, best)
        },
        None => prev.current,
    }
}

/// A solver that has stopped stays as it is.
pub proof fn lemma_halted_stays(layout: LayoutView, s: SolverView, steps: nat)
    requires
        s.halted,
    ensures
        run(layout, s, steps) == s,
    decreases steps,
{
    if steps > 0 {
        lemma_halted_stays(layout, s, (steps - 1) as nat);
    }
}

/// Running `a` iterations and then `b` more is running `a + b`.
pub proof fn lemma_run_add(layout: LayoutView, s: SolverView, a: nat, b: nat)
    ensures
        run(layout, s, a + b) == run(layout, run(layout, s, a), b),
    decreases b,
{
    if b > 0 {
        lemma_run_add(layout, s, a, (b - 1) as nat);
        assert(((a + b) - 1) as nat == a + (b - 1) as nat);
    }
}

/// What holds of the solver after `steps` iterations on a field that held
/// `start` at first.
pub open spec fn consistent(layout: LayoutView, start: Seq<u8>, s: SolverView, steps: nat) -> bool {
    let n = layout.pins.len() as int;
    let len = s.path.len() as int;
    &&& s.cells.len() == start.len()
    &&& forall|i: int| 0 <= i < start.len() ==> #[trigger] s.cells[i] <= start[i]
    &&& 0 <= s.older < n
    &&& 0 <= s.current < n
    &&& s.current == source_pin(s.path, len)
    &&& s.older == source_pin(s.path, len - 1)
    &&& forall|i: int|
        0 <= i < len ==> {
            &&& 0 <= (#[trigger] s.path[i]).dest_pin < n
            &&& s.path[i].dest_pin != source_pin(s.path, i)
            &&& s.path[i].dest_pin != source_pin(s.path, i - 1)
            &&& s.path[i].xs == chord_xs(layout, source_pin(s.path, i), s.path[i].dest_pin)
            &&& s.path[i].ys == chord_ys(layout, source_pin(s.path, i), s.path[i].dest_pin)
        }
    &&& len <= steps
    &&& s.halted <==> len < steps
    &&& s.halted ==> next_pin(s.cells, layout, s.older, s.current) == s.current
}

/// One iteration keeps what holds of the solver.
pub proof fn lemma_step_consistent(layout: LayoutView, start: Seq<u8>, s: SolverView, steps: nat)
    requires
        layout.pins.len() > 0,
        consistent(layout, start, s, steps),
    ensures
        consistent(layout, start, step(layout, s), steps + 1),
{
    let t = step(layout, s);
    lemma_next_pin(s.cells, layout, s.older, s.current);
    if !s.halted {
        let dest = next_pin(s.cells, layout, s.older, s.current);
        if dest != s.current {
            let len = s.path.len() as int;
            assert(t.path.len() == len + 1);
            assert(t.path[len].dest_pin == dest);
            assert forall|i: int| 0 <= i < len + 1 implies {
                &&& 0 <= (#[trigger] t.path[i]).dest_pin < layout.pins.len()
                &&& t.path[i].dest_pin != source_pin(t.path, i)
                &&& t.path[i].dest_pin != source_pin(t.path, i - 1)
                &&& t.path[i].xs == chord_xs(layout, source_pin(t.path, i), t.path[i].dest_pin)
                &&& t.path[i].ys == chord_ys(layout, source_pin(t.path, i), t.path[i].dest_pin)
            } by {
                if i < len {
                    assert(t.path[i] == s.path[i]);
                    if i > 0 {
                        assert(t.path[i - 1] == s.path[i - 1]);
                    }
                    if i > 1 {
                        assert(t.path[i - 2] == s.path[i - 2]);
                    }
                } else {
                    if len > 0 {
                        assert(t.path[len - 1] == s.path[len - 1]);
                    }
                    if len > 1 {
                        assert(t.path[len - 2] == s.path[len - 2]);
                    }
                }
            }
            assert forall|i: int| 0 <= i < start.len() implies #[trigger] t.cells[i] <= start[i] by {
                assert(s.cells[i] <= start[i]);
            }
        }
    }
}

/// What holds of the solver holds after every number of iterations.
pub proof fn lemma_run_consistent(layout: LayoutView, start: Seq<u8>, steps: nat)
    requires
        layout.pins.len() > 0,
    ensures
        consistent(layout, start, run(layout, initial(start), steps), steps),
    decreases steps,
{
    if steps > 0 {
        lemma_run_consistent(layout, start, (steps - 1) as nat);
        lemma_step_consistent(
            layout,
            start,
            run(layout, initial(start), (steps - 1) as nat),
            (steps - 1) as nat,
        );
    }
}

/// One iteration of the solver. It chooses the next pin; where that is the
/// current pin it changes nothing and returns `None`. Otherwise it commits
/// the chord to the next pin: the chord's pixels are erased from the field,
/// the history moves on, and the chord is returned.
pub fn advance(field: &mut IntensityField, layout: &PinLayout, prev: &mut PrevPins) -> (committed:
    Option<Line>)
    requires
        compatible(old(field), layout),
        pins_known(layout, *old(prev)),
    ensures
        compatible(final(field), layout),
        pins_known(layout, *final(prev)),
        ({
            let before = SolverView {
                cells: old(field)@.cells,
                older: old(prev).older as int,
                current: old(prev).current as int,
                path: Seq::empty(),
                halted: false,
            };
            let after = step(layout@, before);
            &&& final(field)@.cells == after.cells
            &&& final(prev).older == after.older
            &&& final(prev).current == after.current
            &&& match committed {
                Some(line) => !after.halted && after.path == seq![line@],
                None => after.halted,
            }
        }),
{
    let dest: usize = select_next(field, layout, *prev);
    if dest == prev.current {
        None
    } else {
        let line = draw_chord(field, layout, prev.current, dest);
        erase(field, &line.xs, &line.ys);
        *prev = PrevPins { older: prev.current, current: dest };
        proof {
            assert(Seq::<LineView>::empty().push(line@) =~= seq![line@]);
        }
        Some(line)
    }
}

/// `path` and `cells_after` are what the solver leaves when it is given
/// `cells`, the layout and a limit of `max_chords` chords.
pub open spec fn solved(
    cells: Seq<u8>,
    layout: LayoutView,
    max_chords: nat,
    path: Seq<LineView>,
    cells_after: Seq<u8>,
) -> bool {
    let end = run(layout, initial(cells), max_chords);
    path == end.path && cells_after == end.cells
}

/// The greedy solver. Starting at pin 0 it repeats [`advance`] until
/// `max_chords` chords are committed or an iteration chooses to stay at
/// its pin, and returns the chords in the order in which they were
/// committed. The field is left with every committed chord erased.
pub fn solve(field: &mut IntensityField, layout: &PinLayout, max_chords: usize) -> (path: Vec<Line>)
    requires
        compatible(old(field), layout),
    ensures
        compatible(final(field), layout),
        solved(
            old(field)@.cells,
            layout@,
            max_chords as nat,
            path_view(path@),
            final(field)@.cells,
        ),
        path@.len() <= max_chords,
        path@.len() < max_chords <==> run(
            layout@,
            initial(old(field)@.cells),
            max_chords as nat,
        ).halted,
        path@.len() < max_chords ==> next_pin(
            final(field)@.cells,
            layout@,
            source_pin(path_view(path@), path@.len() - 1),
            source_pin(path_view(path@), path@.len() as int),
        ) == source_pin(path_view(path@), path@.len() as int),
        forall|i: int|
            0 <= i < old(field)@.cells.len() ==> #[trigger] final(field)@.cells[i] <= old(
                field,
            )@.cells[i],
        forall|i: int|
            0 <= i < path@.len() ==> #[trigger] chord_on_loom(layout@, path_view(path@), i),
        forall|i: int| 0 <= i < path@.len() ==> #[trigger] chord_moves_on(path_view(path@), i),
        path_in_bounds(layout@.radius, path_view(path@)),
        forall|i: int| 0 <= i < path@.len() ==> Line::has_pixels((#[trigger] path@[i])@),
{
    let mut path: Vec<Line> = Vec::new();
    let mut prev = PrevPins { older: 0, current: 0 };
    let ghost start = field@.cells;
    let mut i: usize = 0;
    assert(path_view(path@) =~= Seq::<LineView>::empty());
    while i < max_chords
        invariant
            i <= max_chords,
            compatible(field, layout),
            pins_known(layout, prev),
            path@.len() == i,
            start == old(field)@.cells,
            run(layout@, initial(start), i as nat) == (SolverView {
                cells: field@.cells,
                older: prev.older as int,
                current: prev.current as int,
                path: path_view(path@),
                halted: false,
            }),
        decreases max_chords - i,
    {
        let ghost here = run(layout@, initial(start), i as nat);
        let ghost shown = path_view(path@);
        let ghost before = SolverView {
            cells: field@.cells,
            older: prev.older as int,
            current: prev.current as int,
            path: Seq::empty(),
            halted: false,
        };
        let ghost dest = next_pin(here.cells, layout@, here.older, here.current);
        assert(here.path == shown && !here.halted);
        assert(dest == next_pin(before.cells, layout@, before.older, before.current));
        match advance(field, layout, &mut prev) {
            Some(line) => {
                proof {
                    let after = step(layout@, before);
                    assert(dest != here.current);
                    assert(after.path[0] == line@);
                    assert(line@ == chord(here.cells, layout@, here.current, dest));
                    assert(path_view(path@.push(line)) =~= shown.push(line@));
                    assert(step(layout@, here).path == shown.push(line@));
                }
                path.push(line);
            },
            None => {
                proof {
                    let stopped = step(layout@, here);
                    assert(dest == here.current);
                    assert(stopped == (SolverView { halted: true, ..here }));
                    assert(stopped == run(layout@, initial(start), (i + 1) as nat));
                    lemma_run_add(
                        layout@,
                        initial(start),
                        (i + 1) as nat,
                        (max_chords - i - 1) as nat,
                    );
                    lemma_halted_stays(layout@, stopped, (max_chords - i - 1) as nat);
                    assert(run(layout@, initial(start), max_chords as nat) == stopped);
                    lemma_run_consistent(layout@, start, max_chords as nat);
                    lemma_path_on_loom(layout@, start, max_chords as nat);
                    lemma_path_drawable(layout@, path@);
                }
                return path;
            },
        }
        i = i + 1;
    }
    proof {
        lemma_run_consistent(layout@, start, max_chords as nat);
        lemma_path_on_loom(layout@, start, max_chords as nat);
        lemma_path_drawable(layout@, path@);
    }
    path
}

/// Every chord on the solver's path lies on the loom and moves on.
pub proof fn lemma_path_on_loom(layout: LayoutView, start: Seq<u8>, steps: nat)
    requires
        layout_ok(layout),
        side(layout.radius) * side(layout.radius) <= usize::MAX,
    ensures
        ({
            let path = run(layout, initial(start), steps).path;
            &&& forall|i: int| 0 <= i < path.len() ==> #[trigger] chord_on_loom(layout, path, i)
            &&& forall|i: int| 0 <= i < path.len() ==> #[trigger] chord_moves_on(path, i)
        }),
{
    lemma_run_consistent(layout, start, steps);
    let path = run(layout, initial(start), steps).path;
    assert forall|i: int| 0 <= i < path.len() implies #[trigger] chord_on_loom(layout, path, i) by {
        let from = source_pin(path, i);
        let to = path[i].dest_pin;
        if i > 0 {
            assert(0 <= path[i - 1].dest_pin < layout.pins.len());
        }
        let a = layout.pins[from];
        let b = layout.pins[to];
        lemma_mask_in_field(layout.radius, a.x as int, a.y as int);
        lemma_mask_in_field(layout.radius, b.x as int, b.y as int);
        lemma_line_on_field(layout.radius, a, b);
    }
    assert forall|i: int| 0 <= i < path.len() implies #[trigger] chord_moves_on(path, i) by {
        assert(0 <= path[i].dest_pin < layout.pins.len());
    }
}

/// A path whose chords lie on the loom can be drawn: every chord has a
/// pixel, and all its pixels lie on the field.
pub proof fn lemma_path_drawable(layout: LayoutView, path: Seq<Line>)
    requires
        forall|i: int| 0 <= i < path.len() ==> #[trigger] chord_on_loom(layout, path_view(path), i),
    ensures
        path_in_bounds(layout.radius, path_view(path)),
        forall|i: int| 0 <= i < path.len() ==> Line::has_pixels((#[trigger] path[i])@),
{
    let shown = path_view(path);
    assert forall|i: int| 0 <= i < shown.len() implies (#[trigger] shown[i]).xs.len() > 0
        && in_bounds(layout.radius, shown[i].xs, shown[i].ys) by {
        assert(chord_on_loom(layout, shown, i));
    }
    assert forall|i: int| 0 <= i < path.len() implies Line::has_pixels((#[trigger] path[i])@) by {
        assert(chord_on_loom(layout, shown, i));
        assert(shown[i] == path[i]@);
    }
}

/// On cells that are all zero every line sums to zero.
pub proof fn lemma_blank_line_sum(cells: Seq<u8>, radius: int, xs: Seq<u32>, ys: Seq<u32>)
    requires
        0 <= radius,
        cells.len() == side(radius) * side(radius),
        forall|i: int| 0 <= i < cells.len() ==> cells[i] == 0,
        in_bounds(radius, xs, ys),
    ensures
        line_sum(cells, radius, xs, ys) == 0,
    decreases xs.len(),
{
    if xs.len() > 0 {
        let k = xs.len() - 1;
        assert(in_field(radius, xs[k] as int, ys[k] as int));
        lemma_cell_index(radius, xs.last() as int, ys.last() as int);
        assert(in_bounds(radius, xs.drop_last(), ys.drop_last())) by {
            assert forall|j: int| 0 <= j < xs.drop_last().len() implies in_field(
                radius,
                #[trigger] xs.drop_last()[j] as int,
                ys.drop_last()[j] as int,
            ) by {
                assert(in_field(radius, xs[j] as int, ys[j] as int));
            }
        }
        lemma_blank_line_sum(cells, radius, xs.drop_last(), ys.drop_last());
    }
}

/// On a field that is zero everywhere the solver stays at pin 0: whatever
/// the limit, it commits no chord and leaves the field as it was.
pub proof fn lemma_blank_field_empty_path(layout: LayoutView, cells: Seq<u8>, max_chords: nat)
    requires
        layout_ok(layout),
        side(layout.radius) * side(layout.radius) <= usize::MAX,
        cells.len() == side(layout.radius) * side(layout.radius),
        forall|i: int| 0 <= i < cells.len() ==> cells[i] == 0,
    ensures
        run(layout, initial(cells), max_chords).path.len() == 0,
        run(layout, initial(cells), max_chords).cells == cells,
{
    if max_chords > 0 {
        let n = layout.pins.len() as int;
        let scores = candidate_scores(cells, layout, 0, 0);
        assert forall|k: int| 0 <= k < scores.len() implies scores[k] == 0 by {
            if eligible(layout, 0, 0, k) {
                lemma_pin_at_offset(n, 0, k);
                let to = pin_at_offset(n, 0, k);
                let a = layout.pins[0];
                let b = layout.pins[to];
                lemma_mask_in_field(layout.radius, a.x as int, a.y as int);
                lemma_mask_in_field(layout.radius, b.x as int, b.y as int);
                lemma_line_on_field(layout.radius, a, b);
                lemma_blank_line_sum(
                    cells,
                    layout.radius,
                    chord_xs(layout, 0, to),
                    chord_ys(layout, 0, to),
                );
            }
        }
        assert(is_first_max(scores, 0));
        lemma_first_max_is(scores, 0);
        lemma_pin_at_offset(n, 0, 0);
        let stopped = step(layout, initial(cells));
        assert(stopped.halted);
        assert(stopped == run(layout, initial(cells), 1)) by {
            assert(run(layout, initial(cells), 0) == initial(cells));
        }
        lemma_run_add(layout, initial(cells), 1, (max_chords - 1) as nat);
        lemma_halted_stays(layout, stopped, (max_chords - 1) as nat);
    }
}

/// At iteration `k`, counted from 0, the solver is still running and chooses
/// to stay at its pin.
pub open spec fn stays_at(layout: LayoutView, start: Seq<u8>, k: nat) -> bool {
    let s = run(layout, initial(start), k);
    !s.halted && next_pin(s.cells, layout, s.older, s.current) == s.current
}

/// A solver that has stopped chose to stay at its pin in an earlier
/// iteration.
pub proof fn lemma_stopped_because_stayed(layout: LayoutView, start: Seq<u8>, steps: nat)
    requires
        run(layout, initial(start), steps).halted,
    ensures
        exists|k: nat| k < steps && stays_at(layout, start, k),
    decreases steps,
{
    if steps > 0 {
        let before = run(layout, initial(start), (steps - 1) as nat);
        if before.halted {
            lemma_stopped_because_stayed(layout, start, (steps - 1) as nat);
            let k = choose|k: nat| k < steps - 1 && stays_at(layout, start, k);
            assert(k < steps && stays_at(layout, start, k));
        } else {
            assert(stays_at(layout, start, (steps - 1) as nat));
        }
    }
}

/// The solver commits at most `max_chords` chords, and fewer if and only if
/// in one of its iterations the pin it chose was the pin it was at.
pub proof fn lemma_stops_early_iff_stays(layout: LayoutView, start: Seq<u8>, max_chords: nat)
    requires
        layout.pins.len() > 0,
    ensures
        run(layout, initial(start), max_chords).path.len() <= max_chords,
        run(layout, initial(start), max_chords).path.len() < max_chords <==> exists|k: nat|
            k < max_chords && stays_at(layout, start, k),
{
    let end = run(layout, initial(start), max_chords);
    lemma_run_consistent(layout, start, max_chords);
    if end.halted {
        lemma_stopped_because_stayed(layout, start, max_chords);
    }
    if exists|k: nat| k < max_chords && stays_at(layout, start, k) {
        let k = choose|k: nat| k < max_chords && stays_at(layout, start, k);
        let stopped = run(layout, initial(start), k + 1);
        assert(stopped == step(layout, run(layout, initial(start), k)));
        assert(stopped.halted);
        lemma_run_add(layout, initial(start), k + 1, (max_chords - k - 1) as nat);
        lemma_halted_stays(layout, stopped, (max_chords - k - 1) as nat);
        assert(end == stopped);
    }
}

/// With a limit of zero chords the solver commits nothing and leaves the
/// field as it was.
pub proof fn lemma_zero_limit_empty_path(layout: LayoutView, cells: Seq<u8>)
    ensures
        run(layout, initial(cells), 0).path.len() == 0,
        run(layout, initial(cells), 0).cells == cells,
{
}

/// The solver is a function of its inputs: two runs on the same field, the
/// same layout and the same limit leave the same path and the same field.
pub proof fn lemma_solve_deterministic(
    cells: Seq<u8>,
    layout: LayoutView,
    max_chords: nat,
    path1: Seq<LineView>,
    after1: Seq<u8>,
    path2: Seq<LineView>,
    after2: Seq<u8>,
)
    requires
        solved(cells, layout, max_chords, path1, after1),
        solved(cells, layout, max_chords, path2, after2),
    ensures
        path1 == path2,
        after1 == after2,
{
}

} // verus!
