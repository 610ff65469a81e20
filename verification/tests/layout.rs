use string_art::error::InvalidInput;
use string_art::geometry::Point;
use string_art::layout::PinLayout;

fn square() -> Vec<Point> {
    vec![
        Point { x: 20, y: 10 },
        Point { x: 10, y: 20 },
        Point { x: 0, y: 10 },
        Point { x: 10, y: 0 },
    ]
}

#[test]
fn layout_keeps_radius_and_pins() {
    let layout = PinLayout::new(10, square()).unwrap();
    assert_eq!(layout.radius(), 10);
    assert_eq!(layout.num_pins(), 4);
    assert_eq!(layout.position(0), Point { x: 20, y: 10 });
    assert_eq!(layout.position(3), Point { x: 10, y: 0 });
}

#[test]
fn layout_rejects_fewer_than_three_pins() {
    let mut pins = square();
    pins.truncate(2);
    assert!(matches!(PinLayout::new(10, pins), Err(InvalidInput::TooFewPins)));
    assert!(matches!(PinLayout::new(10, vec![]), Err(InvalidInput::TooFewPins)));
}

#[test]
fn layout_accepts_three_pins() {
    let mut pins = square();
    pins.truncate(3);
    assert!(PinLayout::new(10, pins).is_ok());
}

#[test]
fn layout_rejects_radius_zero() {
    let pins = vec![Point { x: 0, y: 0 }; 3];
    assert!(matches!(PinLayout::new(0, pins), Err(InvalidInput::ZeroRadius)));
}

#[test]
fn layout_reports_too_few_pins_before_radius_zero() {
    assert!(matches!(PinLayout::new(0, vec![]), Err(InvalidInput::TooFewPins)));
}

#[test]
fn layout_rejects_a_pin_outside_the_mask() {
    let mut pins = square();
    pins.push(Point { x: 2, y: 17 });
    assert!(matches!(
        PinLayout::new(10, pins),
        Err(InvalidInput::PinOutsideMask)
    ));
    let mut pins = square();
    pins[0] = Point { x: 21, y: 10 };
    assert!(matches!(
        PinLayout::new(10, pins),
        Err(InvalidInput::PinOutsideMask)
    ));
}
