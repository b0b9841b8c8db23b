use life_rle::parsers::{MalformedPattern, MalformedReason};
use life_rle::shape::{PatternError, Shape};

#[test]
fn shifting_patterns_works() {
    let mut pattern = Shape {
        alive_cells: vec![(0, 0), (1, 1), (13, 1)],
    };
    pattern.shift((1, 2));
    assert_eq!(pattern.alive_cells, vec![(1, 2), (2, 3), (14, 3)]);
}

#[test]
fn parsing_pattern_works() {
    assert_eq!(
        Shape::from_rle_string("2bobo23$4b2o"),
        Ok(Shape {
            alive_cells: vec![(2, 0), (4, 0), (4, 23), (5, 23)],
        })
    );
}

#[test]
fn glider_decodes_row_by_row() {
    assert_eq!(
        Shape::from_rle_string("bo$2bo$3o"),
        Ok(Shape {
            alive_cells: vec![(1, 0), (2, 1), (0, 2), (1, 2), (2, 2)],
        })
    );
}

#[test]
fn malformed_pattern_is_reported() {
    assert_eq!(
        Shape::from_rle_string("3x"),
        Err(PatternError::Malformed(MalformedPattern {
            position: 1,
            reason: MalformedReason::UnexpectedChar,
        }))
    );
    assert_eq!(
        Shape::from_rle_string("bo2"),
        Err(PatternError::Malformed(MalformedPattern {
            position: 3,
            reason: MalformedReason::MissingTag,
        }))
    );
}

#[test]
fn pattern_beyond_coordinate_range_is_too_large() {
    assert_eq!(Shape::from_rle_string("4294967295b2o"), Err(PatternError::TooLarge));
}

#[test]
fn shift_range_is_checked() {
    let pattern = Shape {
        alive_cells: vec![(4294967290, 0), (1, 7)],
    };
    assert!(pattern.can_shift((5, 1)));
    assert!(!pattern.can_shift((6, 0)));
    assert!(!Shape { alive_cells: vec![(0, 4294967295)] }.can_shift((0, 1)));
}
