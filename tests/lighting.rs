use veil::coord::Coord;
use veil::lighting::{delta_to_intensity, INTENSITY_MAX, INTENSITY_MIN};

#[test]
fn intensity_fades_with_distance() {
    assert_eq!(delta_to_intensity(Coord::new(0, 0)), INTENSITY_MAX);
    // 8160 / 26 rounds down to 313, above the maximum.
    assert_eq!(delta_to_intensity(Coord::new(5, 0)), INTENSITY_MAX);
    // 8160 / 38 rounds down to 214.
    assert_eq!(delta_to_intensity(Coord::new(6, 1)), 214);
    // 8160 / 51 == 160.
    assert_eq!(delta_to_intensity(Coord::new(-5, 5)), 160);
    assert_eq!(delta_to_intensity(Coord::new(10, 10)), INTENSITY_MIN);
    assert_eq!(delta_to_intensity(Coord::new(i32::MIN, i32::MAX)), INTENSITY_MIN);
}
