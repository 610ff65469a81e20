use string_art::error::InvalidInput;
use string_art::field::{invert, IntensityField};

#[test]
fn new_masks_outside_the_circle() {
    let field = IntensityField::new(1, vec![9; 9]).unwrap();
    assert_eq!(field.cells(), &vec![0, 9, 0, 9, 9, 9, 0, 9, 0]);
    assert_eq!(field.radius(), 1);
    assert_eq!(field.side_len(), 3);
}

#[test]
fn new_masks_all_four_corners_alike() {
    let field = IntensityField::new(10, vec![1; 441]).unwrap();
    for y in 0..21u32 {
        for x in 0..21u32 {
            let dx = x as i64 - 10;
            let dy = y as i64 - 10;
            let inside = dx * dx + dy * dy <= 100;
            assert_eq!(field.get(x, y), if inside { 1 } else { 0 }, "({}, {})", x, y);
            assert_eq!(field.get(x, y), field.get(20 - x, y));
            assert_eq!(field.get(x, y), field.get(x, 20 - y));
        }
    }
}

#[test]
fn new_keeps_the_values_inside_the_circle() {
    let darkness: Vec<u8> = (0..25).collect();
    let field = IntensityField::new(2, darkness).unwrap();
    assert_eq!(
        field.cells(),
        &vec![
            0, 0, 2, 0, 0, //
            0, 6, 7, 8, 0, //
            10, 11, 12, 13, 14, //
            0, 16, 17, 18, 0, //
            0, 0, 22, 0, 0,
        ]
    );
}

#[test]
fn new_rejects_radius_zero() {
    assert!(matches!(
        IntensityField::new(0, vec![0; 1]),
        Err(InvalidInput::ZeroRadius)
    ));
    assert!(matches!(
        IntensityField::new(0, vec![]),
        Err(InvalidInput::ZeroRadius)
    ));
}

#[test]
fn new_rejects_a_buffer_of_the_wrong_length() {
    assert!(matches!(
        IntensityField::new(1, vec![0; 8]),
        Err(InvalidInput::SizeMismatch)
    ));
    assert!(matches!(
        IntensityField::new(1, vec![0; 10]),
        Err(InvalidInput::SizeMismatch)
    ));
    assert!(matches!(
        IntensityField::new(u32::MAX, vec![0; 9]),
        Err(InvalidInput::SizeMismatch)
    ));
}

#[test]
fn from_luma_inverts_and_masks() {
    let field = IntensityField::from_luma(1, vec![0, 10, 20, 30, 255, 50, 60, 70, 80]).unwrap();
    assert_eq!(field.cells(), &vec![0, 245, 0, 225, 0, 205, 0, 185, 0]);
}

#[test]
fn from_luma_rejects_what_new_rejects() {
    assert!(matches!(
        IntensityField::from_luma(0, vec![0; 1]),
        Err(InvalidInput::ZeroRadius)
    ));
    assert!(matches!(
        IntensityField::from_luma(2, vec![0; 9]),
        Err(InvalidInput::SizeMismatch)
    ));
}

#[test]
fn invert_subtracts_from_255() {
    let mut values = vec![0, 1, 127, 128, 254, 255];
    invert(&mut values);
    assert_eq!(values, vec![255, 254, 128, 127, 1, 0]);
    invert(&mut values);
    assert_eq!(values, vec![0, 1, 127, 128, 254, 255]);
}

#[test]
fn get_reads_by_column_and_row() {
    let darkness: Vec<u8> = (0..25).collect();
    let field = IntensityField::new(2, darkness).unwrap();
    assert_eq!(field.get(3, 1), 8);
    assert_eq!(field.get(1, 3), 16);
    assert_eq!(field.get(4, 2), 14);
    assert_eq!(field.get(0, 0), 0);
}

#[test]
fn clear_zeroes_one_cell() {
    let darkness: Vec<u8> = (0..25).collect();
    let mut field = IntensityField::new(2, darkness).unwrap();
    field.clear(3, 1);
    assert_eq!(field.get(3, 1), 0);
    assert_eq!(field.get(1, 3), 16);
    assert_eq!(field.get(2, 1), 7);
}
