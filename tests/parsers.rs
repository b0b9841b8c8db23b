use life_rle::parsers::{
    parse_rle_string, parse_rle_symbol, MalformedPattern, MalformedReason, RleSymbol,
};

#[test]
fn parsing_single_rle_atom_works() {
    assert_eq!(parse_rle_symbol("$bo"), Ok(("bo", RleSymbol::Dollar(1))));
    assert_eq!(parse_rle_symbol("21$bo"), Ok(("bo", RleSymbol::Dollar(21))));
    assert_eq!(parse_rle_symbol("1bo"), Ok(("o", RleSymbol::B(1))));
}

#[test]
fn parsing_multiple_rle_atoms_works() {
    assert_eq!(
        parse_rle_string("2bobo23$"),
        Ok((
            "",
            vec![
                RleSymbol::B(2),
                RleSymbol::O(1),
                RleSymbol::B(1),
                RleSymbol::O(1),
                RleSymbol::Dollar(23),
            ]
        ))
    );
}

#[test]
fn rle_atom_works() {
    let mut offset = (0u32, 0u32);
    let mut pattern: Vec<(u32, u32)> = vec![];

    RleSymbol::B(2).grow_pattern(&mut offset, &mut pattern);
    assert_eq!(offset, (2, 0));
    assert_eq!(pattern, vec![]);

    RleSymbol::Dollar(1).grow_pattern(&mut offset, &mut pattern);
    assert_eq!(offset, (0, 1));
    assert_eq!(pattern, vec![]);

    RleSymbol::O(2).grow_pattern(&mut offset, &mut pattern);
    assert_eq!(offset, (2, 1));
    assert_eq!(pattern, vec![(0, 1), (1, 1)]);
}

#[test]
fn counted_end_of_row_skips_rows() {
    let mut offset = (5u32, 2u32);
    let mut pattern: Vec<(u32, u32)> = vec![];
    RleSymbol::Dollar(3).grow_pattern(&mut offset, &mut pattern);
    assert_eq!(offset, (0, 5));
    assert!(pattern.is_empty());
}

#[test]
fn symbol_with_unexpected_tag_is_rejected() {
    assert_eq!(
        parse_rle_symbol("3x"),
        Err(MalformedPattern { position: 1, reason: MalformedReason::UnexpectedChar })
    );
}

#[test]
fn symbol_without_tag_is_rejected() {
    assert_eq!(
        parse_rle_symbol("12"),
        Err(MalformedPattern { position: 2, reason: MalformedReason::MissingTag })
    );
    assert_eq!(
        parse_rle_symbol(""),
        Err(MalformedPattern { position: 0, reason: MalformedReason::MissingTag })
    );
}

#[test]
fn symbol_with_huge_count_is_rejected() {
    assert_eq!(parse_rle_symbol("4294967295o"), Ok(("", RleSymbol::O(4294967295))));
    assert_eq!(
        parse_rle_symbol("4294967296o"),
        Err(MalformedPattern { position: 0, reason: MalformedReason::CountTooLarge })
    );
}

#[test]
fn pattern_errors_report_their_position() {
    assert_eq!(
        parse_rle_string("2bo3"),
        Err(MalformedPattern { position: 4, reason: MalformedReason::MissingTag })
    );
    assert_eq!(
        parse_rle_string("2bo!"),
        Err(MalformedPattern { position: 3, reason: MalformedReason::UnexpectedChar })
    );
    assert_eq!(
        parse_rle_string(""),
        Err(MalformedPattern { position: 0, reason: MalformedReason::MissingTag })
    );
}
