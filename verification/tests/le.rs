use pixel_shell::le::{push_u16, push_u64};

#[test]
fn sixteen_bits_least_significant_first() {
    let mut out = vec![9u8];
    push_u16(&mut out, 0xABCD);
    push_u16(&mut out, 0);
    push_u16(&mut out, u16::MAX);
    assert_eq!(out, vec![9, 0xCD, 0xAB, 0, 0, 0xFF, 0xFF]);
}

#[test]
fn sixty_four_bits_least_significant_first() {
    let mut out = Vec::new();
    push_u64(&mut out, 0x0102030405060708);
    assert_eq!(out, vec![8, 7, 6, 5, 4, 3, 2, 1]);
    let mut out = Vec::new();
    push_u64(&mut out, u64::MAX);
    push_u64(&mut out, 1);
    assert_eq!(out, vec![255, 255, 255, 255, 255, 255, 255, 255, 1, 0, 0, 0, 0, 0, 0, 0]);
    assert_eq!(out[..8], u64::MAX.to_le_bytes());
}
