use huffman::{bits_to_bytes, bytes_to_bits, HuffmanError, HuffmanTree};
use std::collections::HashMap;

fn bits(text: &str) -> Vec<bool> {
    text.chars().map(|c| c == '1').collect()
}

fn abc() -> HuffmanTree {
    HuffmanTree::build(&HashMap::from([(b'a', 2), (b'b', 1), (b'c', 1)])).unwrap()
}

fn english() -> HuffmanTree {
    let letters = b"etaoinshrdlcumwfgypbvkjxqz";
    let weights = [
        1270, 910, 820, 750, 700, 670, 630, 610, 600, 430, 400, 280, 280, 240, 240, 220, 200,
        200, 190, 150, 98, 77, 15, 15, 9, 7,
    ];
    let freqs: HashMap<u8, usize> = letters.iter().copied().zip(weights).collect();
    HuffmanTree::build(&freqs).unwrap()
}

#[test]
fn encode_concatenates_the_codes() {
    assert_eq!(abc().encode(b"aab"), Ok(bits("0010")));
    assert_eq!(abc().encode(b"cab"), Ok(bits("11010")));
    assert_eq!(abc().encode(b""), Ok(bits("")));
}

#[test]
fn encode_refuses_an_unknown_symbol() {
    assert_eq!(abc().encode(b"abd"), Err(HuffmanError::UnknownSymbol));
    assert_eq!(abc().encode(b"d"), Err(HuffmanError::UnknownSymbol));
    assert_eq!(abc().encode(&[0]), Err(HuffmanError::UnknownSymbol));
}

#[test]
fn decode_reads_bits_that_end_at_a_leaf() {
    assert_eq!(abc().decode(&bits("0010")), b"aab".to_vec());
    assert_eq!(abc().decode(&bits("11010")), b"cab".to_vec());
}

#[test]
fn decode_of_nothing_is_nothing() {
    assert_eq!(abc().decode(&[]), Vec::<u8>::new());
    assert_eq!(english().decode(&[]), Vec::<u8>::new());
}

#[test]
fn decode_completes_a_broken_code_with_zero_bits() {
    assert_eq!(abc().decode(&bits("1")), b"b".to_vec());
    assert_eq!(abc().decode(&bits("01")), b"ab".to_vec());
    assert_eq!(abc().decode(&bits("111")), b"cb".to_vec());
    // 001011 breaks off inside the code of z, 001011000
    assert_eq!(english().decode(&bits("100001011")), b"ez".to_vec());
}

#[test]
fn decode_inverts_encode_for_three_symbols() {
    let tree = abc();
    let encoded = tree.encode(b"aab").unwrap();
    assert_eq!(encoded, bits("0010"));
    assert_eq!(encoded.len(), 4);
    assert_eq!(tree.decode(&encoded), b"aab".to_vec());
}

#[test]
fn single_symbol_round_trip() {
    let tree = HuffmanTree::build(&HashMap::from([(b'x', 5)])).unwrap();
    let encoded = tree.encode(b"xxxx").unwrap();
    assert_eq!(encoded, bits("0000"));
    assert_eq!(tree.decode(&encoded), b"xxxx".to_vec());
}

#[test]
fn single_symbol_tree_emits_on_every_bit() {
    let tree = HuffmanTree::build(&HashMap::from([(b'x', 5)])).unwrap();
    assert_eq!(tree.decode(&bits("101")), b"xxx".to_vec());
    assert_eq!(tree.decode(&[]), Vec::<u8>::new());
    assert_eq!(tree.encode(b"xy"), Err(HuffmanError::UnknownSymbol));
}

#[test]
fn english_text_round_trip() {
    let tree = english();
    let encoded = tree.encode(b"helloworld").unwrap();
    assert_eq!(encoded, bits("01101001100111001110100111110101011100111111"));
    assert_eq!(encoded.len(), 44);
    assert_eq!(tree.decode(&encoded), b"helloworld".to_vec());
}

#[test]
fn every_symbol_sequence_round_trips() {
    let tree = english();
    let letters = b"etaoinshrdlcumwfgypbvkjxqz";
    let mut state: u32 = 12345;
    for len in 0..60usize {
        let mut data = Vec::new();
        for _ in 0..len {
            state = state.wrapping_mul(1_103_515_245).wrapping_add(12345);
            data.push(letters[(state >> 16) as usize % letters.len()]);
        }
        let encoded = tree.encode(&data).unwrap();
        assert_eq!(tree.decode(&encoded), data);
    }
}

#[test]
fn decode_accepts_arbitrary_bytes() {
    let tree = english();
    let input = [0xde, 0xad, 0xbe, 0xef, 0x00, 0xff];
    assert_eq!(tree.decode(&bytes_to_bits(&input)), b"oanoiaagttda".to_vec());
    assert_eq!(tree.decode(&bytes_to_bits(&[0x13, 0x37])), b"telie".to_vec());
}

#[test]
fn reencoding_decoded_bytes_starts_with_the_bytes() {
    let tree = english();
    let input = [0x13u8, 0x37];
    let decoded = tree.decode(&bytes_to_bits(&input));
    let mut again = tree.encode(&decoded).unwrap();
    assert!(again.len() >= 16);
    again.truncate(16);
    assert_eq!(bits_to_bytes(&again), Ok(input.to_vec()));
}

#[test]
fn decode_strict_reads_whole_codes() {
    assert_eq!(abc().decode_strict(&bits("0010")), Ok(b"aab".to_vec()));
    assert_eq!(abc().decode_strict(&bits("11010")), Ok(b"cab".to_vec()));
    assert_eq!(abc().decode_strict(&[]), Ok(Vec::new()));
}

#[test]
fn decode_strict_refuses_a_broken_code() {
    assert_eq!(abc().decode_strict(&bits("1")), Err(HuffmanError::IncompleteCode));
    assert_eq!(abc().decode_strict(&bits("001")), Err(HuffmanError::IncompleteCode));
    assert_eq!(
        english().decode_strict(&bits("100001011")),
        Err(HuffmanError::IncompleteCode)
    );
}

#[test]
fn decode_strict_under_a_single_symbol_takes_every_bit() {
    let tree = HuffmanTree::build(&HashMap::from([(b'x', 5)])).unwrap();
    assert_eq!(tree.decode_strict(&bits("101")), Ok(b"xxx".to_vec()));
    assert_eq!(tree.decode_strict(&[]), Ok(Vec::new()));
}

#[test]
fn decode_strict_agrees_with_decode_on_whole_codes() {
    let tree = english();
    let encoded = tree.encode(b"thequickbrownfoxjumpsoverthelazydog").unwrap();
    assert_eq!(tree.decode_strict(&encoded), Ok(tree.decode(&encoded)));
    assert_eq!(
        tree.decode_strict(&encoded),
        Ok(b"thequickbrownfoxjumpsoverthelazydog".to_vec())
    );
}

#[test]
fn encoding_inverts_strict_decoding() {
    let tree = english();
    let whole = bits("000100111011011011");
    let decoded = tree.decode_strict(&whole).unwrap();
    assert_eq!(decoded, b"teaoi".to_vec());
    assert_eq!(tree.encode(&decoded), Ok(whole));
}
