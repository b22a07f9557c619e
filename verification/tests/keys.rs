use cid_registry::pubkey::Pubkey;

#[test]
fn rendering_format() {
    let pk = Pubkey::new([7; 32]);
    let mut expected = String::from("[");
    for i in 0..32 {
        if i > 0 {
            expected.push_str(", ");
        }
        expected.push('7');
    }
    expected.push(']');
    assert_eq!(pk.to_string(), expected);
}

#[test]
fn rendering_multi_digit_bytes() {
    let mut bytes = [0u8; 32];
    bytes[0] = 0;
    bytes[1] = 9;
    bytes[2] = 10;
    bytes[3] = 99;
    bytes[4] = 100;
    bytes[5] = 255;
    let pk = Pubkey::new(bytes);
    let s = pk.to_string();
    assert!(s.starts_with("[0, 9, 10, 99, 100, 255, 0, "));
    assert!(s.ends_with(", 0]"));
}

#[test]
fn parse_round_trip() {
    let mut bytes = [0u8; 32];
    for (i, b) in bytes.iter_mut().enumerate() {
        *b = (i as u8).wrapping_mul(37).wrapping_add(11);
    }
    let pk = Pubkey::new(bytes);
    let parsed = Pubkey::from_string(&pk.to_string()).unwrap();
    assert_eq!(parsed, pk);
}

#[test]
fn parse_rejects_garbage() {
    assert!(Pubkey::from_string("").is_err());
    assert!(Pubkey::from_string("not a key").is_err());
    assert!(Pubkey::from_string("[1, 2, 3]").is_err());
}

#[test]
fn parse_rejects_leading_zero() {
    let pk = Pubkey::new([1; 32]);
    let canonical = pk.to_string();
    // pad the first group to two digits: no longer canonical
    let padded = canonical.replacen("[1,", "[01,", 1);
    assert!(Pubkey::from_string(&padded).is_err());
}

#[test]
fn parse_rejects_out_of_range() {
    let pk = Pubkey::new([200; 32]);
    let canonical = pk.to_string();
    let too_big = canonical.replacen("[200,", "[300,", 1);
    assert!(Pubkey::from_string(&too_big).is_err());
}

#[test]
fn parse_rejects_trailing_text() {
    let pk = Pubkey::new([1; 32]);
    let mut s = pk.to_string();
    s.push(' ');
    assert!(Pubkey::from_string(&s).is_err());
}

#[test]
fn equality_is_by_bytes() {
    let a = Pubkey::new([3; 32]);
    let b = Pubkey::new([3; 32]);
    let mut other = [3u8; 32];
    other[31] = 4;
    let c = Pubkey::new(other);
    assert_eq!(a, b);
    assert_ne!(a, c);
}
