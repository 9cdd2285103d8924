use huffman::{bits_to_bytes, bytes_to_bits, HuffmanError};

fn bits(text: &str) -> Vec<bool> {
    text.chars().filter(|c| *c == '0' || *c == '1').map(|c| c == '1').collect()
}

#[test]
fn bytes_to_bits_is_msb_first() {
    assert_eq!(bytes_to_bits(&[0xA5]), bits("1010 0101"));
    assert_eq!(bytes_to_bits(&[0x80]), bits("1000 0000"));
    assert_eq!(bytes_to_bits(&[0x01]), bits("0000 0001"));
    assert_eq!(bytes_to_bits(&[0x00, 0xFF]), bits("0000 0000 1111 1111"));
}

#[test]
fn bytes_to_bits_gives_eight_bits_per_byte() {
    assert_eq!(bytes_to_bits(&[]).len(), 0);
    assert_eq!(bytes_to_bits(&[7]).len(), 8);
    assert_eq!(bytes_to_bits(&[1, 2, 3, 4, 5]).len(), 40);
}

#[test]
fn bits_to_bytes_is_msb_first() {
    assert_eq!(bits_to_bytes(&bits("1010 0101")), Ok(vec![0xA5]));
    assert_eq!(bits_to_bytes(&bits("1000 0000")), Ok(vec![0x80]));
    assert_eq!(bits_to_bytes(&bits("0000 0001")), Ok(vec![0x01]));
    assert_eq!(bits_to_bytes(&bits("0001 0011 0011 0111")), Ok(vec![0x13, 0x37]));
}

#[test]
fn bits_to_bytes_of_nothing_is_nothing() {
    assert_eq!(bits_to_bytes(&[]), Ok(vec![]));
}

#[test]
fn bits_to_bytes_refuses_three_bits() {
    assert_eq!(
        bits_to_bytes(&[true, false, true]),
        Err(HuffmanError::UnalignedBitLength)
    );
}

#[test]
fn bits_to_bytes_refuses_every_unaligned_length() {
    for len in 0..40usize {
        let input = vec![true; len];
        let packed = bits_to_bytes(&input);
        if len % 8 == 0 {
            assert_eq!(packed, Ok(vec![0xFF; len / 8]));
        } else {
            assert_eq!(packed, Err(HuffmanError::UnalignedBitLength));
        }
    }
}

#[test]
fn packing_inverts_unpacking() {
    let all: Vec<u8> = (0..=255u8).collect();
    assert_eq!(bits_to_bytes(&bytes_to_bits(&all)), Ok(all));
    let empty: Vec<u8> = Vec::new();
    assert_eq!(bits_to_bytes(&bytes_to_bits(&empty)), Ok(empty));
    let text = b"the quick brown fox".to_vec();
    assert_eq!(bits_to_bytes(&bytes_to_bits(&text)), Ok(text));
}

#[test]
fn unpacking_inverts_packing_of_aligned_bits() {
    let mut input = Vec::new();
    let mut state: u32 = 0x2545_F491;
    for _ in 0..256 {
        state ^= state << 13;
        state ^= state >> 17;
        state ^= state << 5;
        input.push(state & 1 == 1);
    }
    let packed = bits_to_bytes(&input).unwrap();
    assert_eq!(packed.len(), 32);
    assert_eq!(bytes_to_bits(&packed), input);
}
