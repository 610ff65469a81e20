use string_art::field::IntensityField;
use string_art::geometry::Point;
use string_art::layout::PinLayout;
use string_art::line::Line;
use string_art::output::{coord_records, pin_records, render, DARK, LIGHT};
use string_art::solver::solve;

fn four_pins() -> PinLayout {
    PinLayout::new(
        10,
        vec![
            Point { x: 20, y: 10 },
            Point { x: 10, y: 20 },
            Point { x: 0, y: 10 },
            Point { x: 10, y: 0 },
        ],
    )
    .unwrap()
}

#[test]
fn light_and_dark() {
    assert_eq!(LIGHT, 255);
    assert_eq!(DARK, 0);
}

#[test]
fn render_of_no_chords_is_all_light() {
    assert_eq!(render(&vec![], 1), vec![255; 9]);
}

#[test]
fn render_darkens_every_pixel_of_every_chord() {
    let path = vec![
        Line::new(1, vec![0, 1, 2], vec![0, 0, 0], 5),
        Line::new(2, vec![2, 2], vec![0, 2], 7),
    ];
    assert_eq!(
        render(&path, 1),
        vec![
            0, 0, 0, //
            255, 255, 255, //
            255, 255, 0,
        ]
    );
}

#[test]
fn render_draws_outside_the_circle_too() {
    let path = vec![Line::new(1, vec![0], vec![0], 0)];
    assert_eq!(render(&path, 1)[0], 0);
}

#[test]
fn render_of_a_solved_path() {
    let mut field = IntensityField::from_luma(10, vec![0; 441]).unwrap();
    let path = solve(&mut field, &four_pins(), 1);
    let picture = render(&path, 10);
    assert_eq!(picture.len(), 441);
    for y in 0..21usize {
        for x in 0..21usize {
            let on_chord = y == 10 && x != 19;
            assert_eq!(picture[y * 21 + x], if on_chord { 0 } else { 255 });
        }
    }
}

#[test]
fn pin_records_chain_the_chords() {
    let path = vec![
        Line::new(2, vec![], vec![], 0),
        Line::new(1, vec![], vec![], 0),
        Line::new(3, vec![], vec![], 0),
    ];
    assert_eq!(pin_records(&path), vec![(0, 2), (2, 1), (1, 3)]);
    assert_eq!(pin_records(&vec![]), vec![]);
}

#[test]
fn coord_records_hold_first_and_last_pixel() {
    let path = vec![
        Line::new(1, vec![4, 5, 6], vec![7, 8, 9], 0),
        Line::new(2, vec![3], vec![2], 0),
    ];
    assert_eq!(coord_records(&path), vec![(4, 7, 6, 9), (3, 2, 3, 2)]);
    assert_eq!(coord_records(&vec![]), vec![]);
}

#[test]
fn records_of_a_solved_path() {
    let mut field = IntensityField::from_luma(10, vec![0; 441]).unwrap();
    let path = solve(&mut field, &four_pins(), 3);
    assert_eq!(pin_records(&path), vec![(0, 2), (2, 1), (1, 3)]);
    assert_eq!(
        coord_records(&path),
        vec![(20, 10, 0, 10), (0, 10, 10, 20), (10, 20, 10, 0)]
    );
}

#[test]
fn endpoints_of_a_line() {
    assert_eq!(
        Line::new(1, vec![4, 5, 6], vec![7, 8, 9], 0).endpoints(),
        Some((4, 7, 6, 9))
    );
    assert_eq!(Line::new(1, vec![4], vec![7], 0).endpoints(), Some((4, 7, 4, 7)));
    assert_eq!(Line::new(1, vec![], vec![], 0).endpoints(), None);
    assert_eq!(Line::new(1, vec![1, 2], vec![1], 0).endpoints(), None);
}
