use adversembly::nibble::{hex_digit, u4};

#[test]
fn add_with_carry_matches_mod_div() {
    // every nibble pair: truncated sum and carry are (a+b) mod 16 and (a+b) div 16
    for a in 0u8..16 {
        for b in 0u8..16 {
            let (sum, carry) = u4::from_u8(a).add_with_carry(u4::from_u8(b));
            assert_eq!(sum.to_u8(), (a + b) % 16);
            assert_eq!(carry.to_u8(), (a + b) / 16);
        }
    }
}

#[test]
fn add_with_carry_examples() {
    let (s, c) = u4::from_u8(9).add_with_carry(u4::from_u8(9));
    assert_eq!((s.to_u8(), c.to_u8()), (2, 1));
    let (s, c) = u4::from_u8(0xF).add_with_carry(u4::from_u8(1));
    assert_eq!((s.to_u8(), c.to_u8()), (0, 1));
    let (s, c) = u4::from_u8(5).add_with_carry(u4::from_u8(3));
    assert_eq!((s.to_u8(), c.to_u8()), (8, 0));
}

#[test]
fn wrapping_arithmetic() {
    assert_eq!(u4::from_u8(9).add(u4::from_u8(9)).to_u8(), 2);
    assert_eq!(u4::from_u8(3).sub(u4::from_u8(5)).to_u8(), 14);
    assert_eq!(u4::from_u8(0).sub(u4::from_u8(1)).to_u8(), 15);
    assert_eq!(u4::from_u8(5).mul(u4::from_u8(7)).to_u8(), 3);
    assert_eq!(u4::from_u8(9).div(u4::from_u8(2)).to_u8(), 4);
    assert_eq!(u4::from_u8(9).rem(u4::from_u8(2)).to_u8(), 1);
}

#[test]
fn bitwise_operations() {
    assert_eq!(u4::from_u8(1).shl(u4::from_u8(3)).to_u8(), 8);
    assert_eq!(u4::from_u8(3).shl(u4::from_u8(3)).to_u8(), 8);
    assert_eq!(u4::from_u8(8).shr(u4::from_u8(2)).to_u8(), 2);
    assert_eq!(u4::from_u8(0b1100).and(u4::from_u8(0b1010)).to_u8(), 0b1000);
    assert_eq!(u4::from_u8(0b1100).or(u4::from_u8(0b1010)).to_u8(), 0b1110);
    assert_eq!(u4::from_u8(0b1100).xor(u4::from_u8(0b1010)).to_u8(), 0b0110);
}

#[test]
fn from_u8_truncates_to_low_nibble() {
    assert_eq!(u4::from_u8(0x1A).to_u8(), 0xA);
    assert_eq!(u4::from_u8(0xF0).to_u8(), 0);
    assert_eq!(u4::from_u8(255).to_u8(), 15);
}

#[test]
fn combine_and_split() {
    let parts = u4::split(0xAB);
    assert_eq!(parts[0].to_u8(), 0xA);
    assert_eq!(parts[1].to_u8(), 0xB);
    assert_eq!(u4::combine(parts), 0xAB);
    for x in 0u8..=255 {
        assert_eq!(u4::combine(u4::split(x)), x);
    }
    assert_eq!(u4::combine([u4::from_u8(0), u4::from_u8(5)]), 5);
}

#[test]
fn hex_digits_decode() {
    assert_eq!(hex_digit('0'), Some(0));
    assert_eq!(hex_digit('9'), Some(9));
    assert_eq!(hex_digit('a'), Some(10));
    assert_eq!(hex_digit('f'), Some(15));
    assert_eq!(hex_digit('A'), Some(10));
    assert_eq!(hex_digit('F'), Some(15));
    assert_eq!(hex_digit('g'), None);
    assert_eq!(hex_digit('G'), None);
    assert_eq!(hex_digit(' '), None);
    assert_eq!(hex_digit('-'), None);
}
