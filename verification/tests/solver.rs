use string_art::field::IntensityField;
use string_art::geometry::Point;
use string_art::layout::PinLayout;
use string_art::line::Line;
use string_art::solver::{
    advance, draw_chord, first_max_index, pin_after, score_candidate, select_next, solve, PrevPins,
};

fn four_pins() -> PinLayout {
    PinLayout::new(
        10,
        vec![
            Point { x: 20, y: 10 },
            Point { x: 10, y: 20 },
            Point { x: 0, y: 10 },
            Point { x: 10, y: 0 },
        ],
    )
    .unwrap()
}

fn ring(radius: u32, pins: usize) -> PinLayout {
    // Pins on the circle, each moved to the pixel next to it on the side of
    // the centre.
    let r = radius as f64;
    let positions = (0..pins)
        .map(|i| {
            let alpha = i as f64 * 2.0 * std::f64::consts::PI / pins as f64;
            Point {
                x: (radius as i64 + (r * alpha.cos()) as i64) as u32,
                y: (radius as i64 + (r * alpha.sin()) as i64) as u32,
            }
        })
        .collect();
    PinLayout::new(radius, positions).unwrap()
}

fn uniform(radius: u32, value: u8) -> IntensityField {
    let side = (2 * radius + 1) as usize;
    IntensityField::new(radius, vec![value; side * side]).unwrap()
}

fn textured(radius: u32) -> IntensityField {
    let side = (2 * radius + 1) as usize;
    let darkness = (0..side * side)
        .map(|i| ((i * 37 + (i / side) * 11) % 251) as u8)
        .collect();
    IntensityField::new(radius, darkness).unwrap()
}

fn dests(path: &[Line]) -> Vec<usize> {
    path.iter().map(|line| line.dest_pin).collect()
}

#[test]
fn first_max_index_takes_the_first_of_equal_maxima() {
    assert_eq!(first_max_index(&vec![0, 5, 3, 5]), Some(1));
    assert_eq!(first_max_index(&vec![0, 0, 0]), Some(0));
    assert_eq!(first_max_index(&vec![1, 2, 3]), Some(2));
    assert_eq!(first_max_index(&vec![7]), Some(0));
    assert_eq!(first_max_index(&vec![u32::MAX, u32::MAX]), Some(0));
}

#[test]
fn first_max_index_of_nothing_is_none() {
    assert_eq!(first_max_index(&vec![]), None);
}

#[test]
fn pin_after_walks_round_the_ring() {
    assert_eq!(pin_after(4, 0, 0), 0);
    assert_eq!(pin_after(4, 0, 3), 3);
    assert_eq!(pin_after(4, 3, 1), 0);
    assert_eq!(pin_after(4, 2, 3), 1);
    assert_eq!(pin_after(usize::MAX, usize::MAX - 1, usize::MAX - 1), usize::MAX - 2);
}

#[test]
fn draw_chord_rasterizes_and_scores() {
    let field = uniform(10, 255);
    let layout = four_pins();
    let line = draw_chord(&field, &layout, 0, 1);
    assert_eq!(line.dest_pin, 1);
    assert_eq!(line.xs, vec![20, 19, 18, 17, 16, 16, 15, 14, 13, 13, 12, 11, 10, 10]);
    assert_eq!(line.ys, vec![10, 10, 11, 12, 13, 13, 14, 15, 16, 16, 17, 18, 19, 20]);
    assert_eq!(line.sum, 14 * 255);
}

#[test]
fn score_candidate_is_zero_for_excluded_pins() {
    let field = uniform(10, 255);
    let layout = four_pins();
    let prev = PrevPins { older: 0, current: 2 };
    // offset 0 is the current pin, offset 2 leads back to pin 0
    assert_eq!(score_candidate(&field, &layout, prev, 0), 0);
    assert_eq!(score_candidate(&field, &layout, prev, 2), 0);
    assert_eq!(score_candidate(&field, &layout, prev, 1), 12 * 255);
    assert_eq!(score_candidate(&field, &layout, prev, 3), 14 * 255);
}

#[test]
fn select_next_on_uniform_field_takes_the_longest_chord() {
    let field = uniform(10, 255);
    let layout = four_pins();
    assert_eq!(select_next(&field, &layout, PrevPins { older: 0, current: 0 }), 2);
}

#[test]
fn select_next_breaks_ties_by_lowest_offset() {
    // One dark pixel on the chord from pin 0 to pin 1, one as dark on the
    // chord from pin 0 to pin 3, and the same for the chords from pin 2.
    let mut darkness = vec![0u8; 441];
    for (x, y) in [(15, 14), (15, 5), (5, 4), (5, 15)] {
        darkness[y * 21 + x] = 100;
    }
    let field = IntensityField::new(10, darkness).unwrap();
    let layout = four_pins();
    let prev = PrevPins { older: 0, current: 0 };
    assert_eq!(score_candidate(&field, &layout, prev, 1), 100);
    assert_eq!(score_candidate(&field, &layout, prev, 2), 0);
    assert_eq!(score_candidate(&field, &layout, prev, 3), 100);
    assert_eq!(select_next(&field, &layout, prev), 1);
    // seen from pin 2 the ring is walked 3, 0, 1: pin 3 comes first
    let prev = PrevPins { older: 2, current: 2 };
    assert_eq!(score_candidate(&field, &layout, prev, 1), 100);
    assert_eq!(score_candidate(&field, &layout, prev, 3), 100);
    assert_eq!(select_next(&field, &layout, prev), 3);
}

#[test]
fn rounding_down_breaks_the_mirror_symmetry() {
    // With row 10 blank the chord from pin 0 to pin 1 loses its first two
    // pixels, the chord to pin 3 only its first.
    let mut darkness = vec![255u8; 441];
    for x in 0..21 {
        darkness[10 * 21 + x] = 0;
    }
    let field = IntensityField::new(10, darkness).unwrap();
    let layout = four_pins();
    let prev = PrevPins { older: 0, current: 0 };
    assert_eq!(score_candidate(&field, &layout, prev, 1), 12 * 255);
    assert_eq!(score_candidate(&field, &layout, prev, 2), 0);
    assert_eq!(score_candidate(&field, &layout, prev, 3), 13 * 255);
    assert_eq!(select_next(&field, &layout, prev), 3);
}

#[test]
fn select_next_stays_when_nothing_scores() {
    let field = uniform(10, 0);
    let layout = four_pins();
    assert_eq!(select_next(&field, &layout, PrevPins { older: 0, current: 0 }), 0);
    assert_eq!(select_next(&field, &layout, PrevPins { older: 1, current: 3 }), 3);
}

#[test]
fn advance_commits_erases_and_shifts_the_history() {
    let mut field = uniform(10, 255);
    let layout = four_pins();
    let mut prev = PrevPins { older: 0, current: 0 };
    let line = advance(&mut field, &layout, &mut prev).unwrap();
    assert_eq!(line.dest_pin, 2);
    assert_eq!(line.sum, 20 * 255);
    assert_eq!(prev, PrevPins { older: 0, current: 2 });
    for (&x, &y) in line.xs.iter().zip(line.ys.iter()) {
        assert_eq!(field.get(x, y), 0);
    }
    // the one pixel of the row that the samples skip is untouched
    assert_eq!(field.get(19, 10), 255);
    assert_eq!(field.get(10, 11), 255);
}

#[test]
fn advance_on_blank_field_changes_nothing() {
    let mut field = uniform(10, 0);
    let layout = four_pins();
    let mut prev = PrevPins { older: 3, current: 1 };
    assert!(advance(&mut field, &layout, &mut prev).is_none());
    assert_eq!(prev, PrevPins { older: 3, current: 1 });
    assert_eq!(field.cells(), &vec![0u8; 441]);
}

#[test]
fn solve_uniform_field_four_pins_three_chords() {
    let mut field = IntensityField::from_luma(10, vec![0; 441]).unwrap();
    let layout = four_pins();
    let path = solve(&mut field, &layout, 3);
    assert_eq!(dests(&path), vec![2, 1, 3]);
    let sums: Vec<u32> = path.iter().map(|line| line.sum).collect();
    assert_eq!(sums, vec![20 * 255, 12 * 255, 18 * 255]);
    // the first chord is the diameter: it has 20 samples, the chords to the
    // neighbours of pin 0 have 14
    assert_eq!(path[0].xs.len(), 20);
    assert_eq!(path[1].xs.len(), 14);
}

#[test]
fn solve_blank_field_gives_empty_path() {
    for max_chords in [0usize, 1, 2, 10, 1000] {
        let mut field = IntensityField::from_luma(10, vec![255; 441]).unwrap();
        let layout = four_pins();
        let path = solve(&mut field, &layout, max_chords);
        assert!(path.is_empty());
        assert_eq!(field.cells(), &vec![0u8; 441]);
    }
}

#[test]
fn solve_zero_limit_gives_empty_path() {
    let mut field = textured(10);
    let before = field.cells().clone();
    let layout = four_pins();
    let path = solve(&mut field, &layout, 0);
    assert!(path.is_empty());
    assert_eq!(field.cells(), &before);
}

#[test]
fn solve_stops_at_the_limit() {
    let mut field = textured(40);
    let layout = ring(40, 31);
    let path = solve(&mut field, &layout, 7);
    assert_eq!(path.len(), 7);
}

#[test]
fn solve_stops_early_once_nothing_scores() {
    // One dark pixel in the middle of the diameter from pin 0 to pin 2.
    let mut darkness = vec![0u8; 441];
    darkness[10 * 21 + 10] = 200;
    let mut field = IntensityField::new(10, darkness).unwrap();
    let layout = four_pins();
    let path = solve(&mut field, &layout, 50);
    assert_eq!(dests(&path), vec![2]);
    assert_eq!(path[0].sum, 200);
    assert_eq!(field.cells(), &vec![0u8; 441]);
}

#[test]
fn solve_never_turns_straight_back() {
    let mut field = textured(40);
    let layout = ring(40, 31);
    let path = solve(&mut field, &layout, 200);
    assert!(path.len() > 2);
    let mut source = 0usize;
    let mut before_source = 0usize;
    for line in &path {
        assert!(line.dest_pin < 31);
        assert_ne!(line.dest_pin, source);
        assert_ne!(line.dest_pin, before_source);
        before_source = source;
        source = line.dest_pin;
    }
}

#[test]
fn solve_may_come_back_to_a_pin_later() {
    let mut field = IntensityField::from_luma(10, vec![0; 441]).unwrap();
    let layout = four_pins();
    let path = solve(&mut field, &layout, 6);
    let pins = dests(&path);
    assert_eq!(&pins[..3], &[2, 1, 3]);
    let mut seen = vec![0usize];
    let mut revisited = false;
    for pin in pins {
        if seen.contains(&pin) {
            revisited = true;
        }
        seen.push(pin);
    }
    assert!(revisited);
}

#[test]
fn solve_twice_gives_the_same_path() {
    let layout = ring(40, 31);
    let mut first_field = textured(40);
    let mut second_field = textured(40);
    let first = solve(&mut first_field, &layout, 60);
    let second = solve(&mut second_field, &layout, 60);
    assert_eq!(first.len(), second.len());
    for (a, b) in first.iter().zip(second.iter()) {
        assert_eq!(a.dest_pin, b.dest_pin);
        assert_eq!(a.xs, b.xs);
        assert_eq!(a.ys, b.ys);
        assert_eq!(a.sum, b.sum);
    }
    assert_eq!(first_field.cells(), second_field.cells());
}

#[test]
fn solve_only_lowers_the_field_and_keeps_the_mask() {
    let mut field = textured(40);
    let before = field.cells().clone();
    let layout = ring(40, 31);
    let path = solve(&mut field, &layout, 100);
    for (new, old) in field.cells().iter().zip(before.iter()) {
        assert!(new <= old);
    }
    for y in 0..81u32 {
        for x in 0..81u32 {
            let dx = x as i64 - 40;
            let dy = y as i64 - 40;
            if dx * dx + dy * dy > 1600 {
                assert_eq!(field.get(x, y), 0);
            }
        }
    }
    for line in &path {
        for (&x, &y) in line.xs.iter().zip(line.ys.iter()) {
            assert_eq!(field.get(x, y), 0);
        }
    }
}

#[test]
fn solve_chords_run_from_pin_to_pin() {
    let mut field = textured(40);
    let layout = ring(40, 31);
    let path = solve(&mut field, &layout, 30);
    let mut source = 0usize;
    for line in &path {
        let from = layout.position(source);
        let to = layout.position(line.dest_pin);
        assert_eq!((line.xs[0], line.ys[0]), (from.x, from.y));
        let last = line.xs.len() - 1;
        assert_eq!((line.xs[last], line.ys[last]), (to.x, to.y));
        for p in [from, to] {
            let dx = p.x as i64 - 40;
            let dy = p.y as i64 - 40;
            assert!(dx * dx + dy * dy <= 1600);
        }
        source = line.dest_pin;
    }
}

#[test]
fn solve_path_is_what_repeated_advance_gives() {
    let layout = ring(25, 17);
    let mut solved_field = textured(25);
    let path = solve(&mut solved_field, &layout, 20);
    let mut stepped_field = textured(25);
    let mut prev = PrevPins { older: 0, current: 0 };
    let mut stepped = Vec::new();
    while stepped.len() < 20 {
        match advance(&mut stepped_field, &layout, &mut prev) {
            Some(line) => stepped.push(line),
            None => break,
        }
    }
    assert_eq!(dests(&path), dests(&stepped));
    assert_eq!(solved_field.cells(), stepped_field.cells());
}
