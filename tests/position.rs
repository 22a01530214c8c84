use baduk_rs::Position;

#[test]
fn it_can_convert_from_usize_tuple() {
    let pos: Position = (2, 3).into();
    assert_eq!(pos.x(), 2);
    assert_eq!(pos.y(), 3);
}

#[test]
fn it_can_convert_from_str() {
    let pos: Position = "A1".into();
    assert_eq!(pos.x(), 1);
    assert_eq!(pos.y(), 1);

    let pos: Position = "t19".into();
    assert_eq!(pos.x(), 19);
    assert_eq!(pos.y(), 19);

    let pos: Position = "J12".into();
    assert_eq!(pos.x(), 9);
    assert_eq!(pos.y(), 12);
}

#[test]
fn notation_skips_the_letter_i() {
    assert_eq!(Position::from_notation("h8"), Some(Position(8, 8)));
    assert_eq!(Position::from_notation("j9"), Some(Position(9, 9)));
    assert_eq!(Position::from_notation("z25"), Some(Position(25, 25)));
}

#[test]
fn notation_rejects_malformed_text() {
    assert_eq!(Position::from_notation(""), None);
    assert_eq!(Position::from_notation("a"), None);
    assert_eq!(Position::from_notation("11"), None);
    assert_eq!(Position::from_notation("a1b"), None);
    assert_eq!(Position::from_notation("a99999999999"), None);
    let pos: Position = "?3".into();
    assert_eq!(pos, Position(0, 0));
}

#[test]
fn it_converts_to_and_from_byte_pairs() {
    let pos: Position = (3u8, 4u8).into();
    assert_eq!(pos, Position(3, 4));
    let pair: (u8, u8) = pos.into();
    assert_eq!(pair, (3, 4));
    let pos: Position = (5u32, 6u32).into();
    assert_eq!(pos, Position(5, 6));
}
