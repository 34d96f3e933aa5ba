use othello_core::{algebraic_to_pos, pos, pos_to_algebraic, pos_to_rc};

#[test]
fn test_position_conversion() {
    assert_eq!(pos(0, 0), 0);
    assert_eq!(pos(7, 7), 63);
    assert_eq!(pos(3, 3), 27); // D4
    assert_eq!(pos_to_rc(27), (3, 3));
}

#[test]
fn test_algebraic() {
    assert_eq!(pos_to_algebraic(27), [b'D', b'4']);
    assert_eq!(algebraic_to_pos(b"D4"), Some(27));
    assert_eq!(algebraic_to_pos(b"A1"), Some(0));
    assert_eq!(algebraic_to_pos(b"H8"), Some(63));
}

#[test]
fn algebraic_accepts_lower_case_files() {
    assert_eq!(algebraic_to_pos(b"d3"), Some(19));
    assert_eq!(algebraic_to_pos(b"h8"), Some(63));
    assert_eq!(algebraic_to_pos(b"a1"), Some(0));
}

#[test]
fn algebraic_rejects_malformed_input() {
    assert_eq!(algebraic_to_pos(b""), None);
    assert_eq!(algebraic_to_pos(b"D"), None);
    assert_eq!(algebraic_to_pos(b"D44"), None);
    assert_eq!(algebraic_to_pos(b"I1"), None);
    assert_eq!(algebraic_to_pos(b"A0"), None);
    assert_eq!(algebraic_to_pos(b"A9"), None);
    assert_eq!(algebraic_to_pos(b"@1"), None);
    assert_eq!(algebraic_to_pos(b"i1"), None);
    assert_eq!(algebraic_to_pos(b"4D"), None);
    assert_eq!(algebraic_to_pos(b"--"), None);
}

#[test]
fn algebraic_round_trips_for_every_square() {
    for p in 0u8..64 {
        let name = pos_to_algebraic(p);
        assert_eq!(algebraic_to_pos(&name), Some(p));
        let (row, col) = pos_to_rc(p);
        assert_eq!(pos(row, col), p);
        assert_eq!(name, [b'A' + col, b'1' + row]);
    }
}
