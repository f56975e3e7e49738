use gridquest::shared::{rand_range, Direction, Tile};

#[test]
fn it_should_render_expected_random_numbers() {
    let range = 0..=10;
    for _ in 0..1000 {
        let rand = rand_range(0, 10);
        assert!(range.contains(&rand));
    }
}

#[test]
fn tile_codes_decode_to_their_variants() {
    assert_eq!(Tile::from_u8(&0), Tile::Wall);
    assert_eq!(Tile::from_u8(&1), Tile::Empty);
    assert_eq!(Tile::from_u8(&2), Tile::Current);
    assert_eq!(Tile::from_u8(&3), Tile::Warp);
    assert_eq!(Tile::from_u8(&4), Tile::NPC);
    assert_eq!(Tile::from_u8(&5), Tile::Unknown);
    assert_eq!(Tile::from_u8(&250), Tile::Unknown);

    assert_eq!(Tile::from_str("0"), Tile::Wall);
    assert_eq!(Tile::from_str("1"), Tile::Empty);
    assert_eq!(Tile::from_str("2"), Tile::Current);
    assert_eq!(Tile::from_str("3"), Tile::Warp);
    assert_eq!(Tile::from_str("4"), Tile::NPC);
    assert_eq!(Tile::from_str("5"), Tile::Unknown);
    assert_eq!(Tile::from_str("10"), Tile::Unknown);
    assert_eq!(Tile::from_str(""), Tile::Unknown);
}

#[test]
fn direction_codes_round_trip() {
    assert_eq!(Direction::Up.to_u8(), 0);
    assert_eq!(Direction::Down.to_u8(), 1);
    assert_eq!(Direction::Right.to_u8(), 2);
    assert_eq!(Direction::Left.to_u8(), 3);
    for code in 0..4u8 {
        assert_eq!(Direction::from_u8(code).to_u8(), code);
    }
    assert_eq!(Direction::from_u8(9), Direction::Left);
}
