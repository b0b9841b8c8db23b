use life_rle::parsers::{MalformedPattern, MalformedReason};
use life_rle::shape::PatternError;
use life_rle::universe::Universe;

fn alive(u: &Universe) -> Vec<bool> {
    u.get_cells().iter().collect()
}

#[test]
fn blank_universe_works() {
    let u = Universe::new(4, 4);
    for c in u.get_cells().iter() {
        assert_eq!(c, false);
    }
}

#[test]
fn universe_with_absolute_pattern_works() {
    let mut u = Universe::new(2, 2);
    u.set_cells(vec![(0, 0), (1, 1)]);
    assert_eq!(u.get_cells()[0], true);
    assert_eq!(u.get_cells()[1], false);
    assert_eq!(u.get_cells()[2], false);
    assert_eq!(u.get_cells()[3], true);
}

#[test]
fn fresh_universe_of_other_shapes_is_dead() {
    let u = Universe::new(3, 7);
    assert_eq!(u.get_cells().len(), 21);
    assert!(u.get_cells().none());
    let empty = Universe::new(0, 5);
    assert_eq!(empty.get_cells().len(), 0);
}

#[test]
fn seeding_wraps_coordinates() {
    let mut u = Universe::new(2, 3);
    u.set_cells(vec![(4, 3), (0, 0), (0, 0)]);
    assert_eq!(alive(&u), vec![true, false, false, false, true, false]);
}

#[test]
fn blinker_oscillates() {
    let mut u = Universe::new(5, 5);
    u.set_cells(vec![(1, 2), (2, 2), (3, 2)]);
    u.tick();
    let mut expected = vec![false; 25];
    expected[7] = true;
    expected[12] = true;
    expected[17] = true;
    assert_eq!(alive(&u), expected);
    u.tick();
    let mut back = vec![false; 25];
    back[11] = true;
    back[12] = true;
    back[13] = true;
    assert_eq!(alive(&u), back);
}

#[test]
fn tick_is_deterministic() {
    let mut a = Universe::new(6, 6);
    let mut b = Universe::new(6, 6);
    a.set_rle_shape("bo$2bo$3o", 1, 1).unwrap();
    b.set_rle_shape("bo$2bo$3o", 1, 1).unwrap();
    a.tick();
    a.tick();
    b.tick();
    b.tick();
    assert_eq!(alive(&a), alive(&b));
}

#[test]
fn rows_wrap_around() {
    let mut u = Universe::new(4, 4);
    u.set_cells(vec![(0, 3), (1, 3), (2, 3)]);
    u.tick();
    let cells = alive(&u);
    assert!(cells[1]);
    assert!(cells[13]);
    assert!(cells[9]);
    assert_eq!(cells.iter().filter(|c| **c).count(), 3);
}

#[test]
fn columns_wrap_around() {
    let mut u = Universe::new(4, 4);
    u.set_cells(vec![(3, 0), (3, 1), (3, 2)]);
    u.tick();
    let cells = alive(&u);
    assert!(cells[4]);
    assert!(cells[6]);
    assert!(cells[7]);
    assert_eq!(cells.iter().filter(|c| **c).count(), 3);
}

#[test]
fn rle_shape_is_placed_at_offset() {
    let mut u = Universe::new(4, 4);
    assert_eq!(u.set_rle_shape("2o", 1, 2), Ok(()));
    let mut expected = vec![false; 16];
    expected[9] = true;
    expected[10] = true;
    assert_eq!(alive(&u), expected);
}

#[test]
fn malformed_shape_leaves_grid_unchanged() {
    let mut u = Universe::new(3, 3);
    u.set_cells(vec![(1, 1)]);
    let before = alive(&u);
    assert_eq!(
        u.set_rle_shape("3x", 0, 0),
        Err(PatternError::Malformed(MalformedPattern {
            position: 1,
            reason: MalformedReason::UnexpectedChar,
        }))
    );
    assert_eq!(alive(&u), before);
    assert_eq!(
        u.set_rle_shape("o12", 0, 0),
        Err(PatternError::Malformed(MalformedPattern {
            position: 3,
            reason: MalformedReason::MissingTag,
        }))
    );
    assert_eq!(alive(&u), before);
    assert_eq!(u.set_rle_shape("o", 4294967295, 1), Ok(()));
    assert_eq!(u.set_rle_shape("2o", 4294967295, 1), Err(PatternError::TooLarge));
}

#[test]
fn resizing_clears_cells() {
    let mut u = Universe::new(3, 3);
    u.set_cells(vec![(0, 0), (1, 1), (2, 2)]);
    u.set_width(4);
    assert_eq!(alive(&u), vec![false; 12]);
    u.set_cells(vec![(3, 2)]);
    u.set_height(2);
    assert_eq!(alive(&u), vec![false; 8]);
}

#[test]
fn render_draws_cells_in_rows() {
    let mut u = Universe::new(2, 2);
    u.set_cells(vec![(0, 0), (1, 1)]);
    assert_eq!(u.render(), "\u{25fc}\n \n \n\u{25fc}\n");
    let mut wide = Universe::new(1, 3);
    wide.set_cells(vec![(1, 0)]);
    assert_eq!(wide.render(), " \u{25fc}\n ");
}
