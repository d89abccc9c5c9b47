use drunken_bishop::step::{steps_from_bytes, Step};

#[test]
fn step_from_works() {
    let table = &[
        (Step::NW, 0b00),
        (Step::NE, 0b01),
        (Step::SW, 0b10),
        (Step::SE, 0b11),
        (Step::NW, 0b100),
        (Step::NE, 0b101),
        (Step::SW, 0b110),
        (Step::SE, 0b111),
        (Step::NW, 0),
        (Step::NE, 1),
        (Step::SW, 2),
        (Step::SE, 3),
        (Step::NW, 4),
        (Step::NE, 5),
        (Step::SW, 6),
        (Step::SE, 7),
    ];
    for t in table {
        assert_eq!(t.0, Step::from(t.1));
    }
}

#[test]
fn transform_moves_diagonally() {
    assert_eq!(Step::NW.transform(3, 5), (2, 4));
    assert_eq!(Step::NE.transform(3, 5), (4, 4));
    assert_eq!(Step::SW.transform(3, 5), (2, 6));
    assert_eq!(Step::SE.transform(3, 5), (4, 6));
}

#[test]
fn transform_saturates_at_zero() {
    assert_eq!(Step::NW.transform(0, 0), (0, 0));
    assert_eq!(Step::NE.transform(0, 0), (1, 0));
    assert_eq!(Step::SW.transform(0, 0), (0, 1));
    assert_eq!(Step::SE.transform(0, 0), (1, 1));
}

#[test]
fn decode_one_byte_low_pairs_first() {
    // 0x1b is 0b00_01_10_11: the pairs from least significant upward are
    // 11, 10, 01, 00.
    let steps = steps_from_bytes(&[0x1b], 0);
    assert_eq!(steps, vec![Step::SE, Step::SW, Step::NE, Step::NW]);
}

#[test]
fn decode_zero_byte_is_all_northwest() {
    let steps = steps_from_bytes(&[0x00], 0);
    assert_eq!(steps, vec![Step::NW, Step::NW, Step::NW, Step::NW]);
}

#[test]
fn decode_unlimited_yields_four_per_byte() {
    assert_eq!(steps_from_bytes(&[0xab, 0xcd], 0).len(), 8);
    assert_eq!(steps_from_bytes(&[], 0).len(), 0);
}

#[test]
fn decode_limit_truncates() {
    let steps = steps_from_bytes(&[0x1b, 0x1b], 3);
    assert_eq!(steps, vec![Step::SE, Step::SW, Step::NE]);
}

#[test]
fn decode_limit_past_available_yields_all() {
    assert_eq!(steps_from_bytes(&[0xab, 0xcd], 100).len(), 8);
    assert_eq!(steps_from_bytes(&[], 7).len(), 0);
}
