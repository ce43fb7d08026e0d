use msm_precompute::decompose::Result as Words;
use msm_precompute::{
    decompose_scalars, extract_word_from_bytes_le, to_words_le, PrecomputeError,
};

fn decompose(scalars: &[&str], num_words: usize, word_size: usize) -> Vec<u16> {
    let owned: Vec<String> = scalars.iter().map(|scalar| String::from(*scalar)).collect();
    let words: Words = match decompose_scalars(&owned, num_words, word_size) {
        Ok(words) => words,
        Err(e) => panic!("decomposing failed: {:?}", e),
    };
    words.get_result()
}

fn decompose_error(scalars: &[&str], num_words: usize, word_size: usize) -> PrecomputeError {
    let owned: Vec<String> = scalars.iter().map(|scalar| String::from(*scalar)).collect();
    match decompose_scalars(&owned, num_words, word_size) {
        Ok(_) => panic!("decomposing succeeded"),
        Err(e) => e,
    }
}

fn words_of(input: &Vec<u8>, count: usize, word_size: usize) -> Vec<u16> {
    (0..count).map(|word_idx| extract_word_from_bytes_le(input, word_idx, word_size)).collect()
}

#[test]
fn words_of_whole_bytes() {
    let input = vec![0x12, 0x34, 0x56];
    assert_eq!(words_of(&input, 4, 8), vec![0x56, 0x34, 0x12, 0]);
    assert_eq!(words_of(&input, 3, 16), vec![0x3456, 0x12, 0]);
    assert_eq!(words_of(&input, 7, 4), vec![6, 5, 4, 3, 2, 1, 0]);
}

#[test]
fn words_across_byte_boundaries() {
    let input = vec![0x12, 0x34, 0x56];
    assert_eq!(words_of(&input, 3, 13), vec![5206, 145, 0]);
    assert_eq!(words_of(&input, 6, 5), vec![22, 2, 13, 4, 1, 0]);
}

#[test]
fn words_inside_one_byte() {
    let input = vec![0x12, 0x34, 0x56];
    assert_eq!(words_of(&input, 8, 3), vec![6, 2, 1, 2, 3, 4, 4, 0]);
}

#[test]
fn word_that_ends_at_the_most_significant_bit() {
    let input = vec![0xab, 0xcd];
    assert_eq!(extract_word_from_bytes_le(&input, 1, 8), 0xab);
    assert_eq!(extract_word_from_bytes_le(&input, 0, 16), 0xabcd);
    assert_eq!(extract_word_from_bytes_le(&input, 3, 4), 0xa);
}

#[test]
fn bits_beyond_the_input_are_zero() {
    let input = vec![0xff];
    assert_eq!(extract_word_from_bytes_le(&input, 0, 16), 0xff);
    assert_eq!(extract_word_from_bytes_le(&input, 0, 13), 0xff);
    assert_eq!(extract_word_from_bytes_le(&input, 1, 5), 0b111);
    assert_eq!(extract_word_from_bytes_le(&input, 1, 8), 0);
    assert_eq!(extract_word_from_bytes_le(&input, 1000, 16), 0);
    assert_eq!(extract_word_from_bytes_le(&Vec::new(), 0, 16), 0);
}

#[test]
fn word_of_no_bits_is_zero() {
    let input = vec![0xff, 0xff];
    assert_eq!(extract_word_from_bytes_le(&input, 0, 0), 0);
    assert_eq!(extract_word_from_bytes_le(&input, 5, 0), 0);
}

#[test]
fn scalar_is_cut_into_words() {
    let scalar = "e55121e109c9c728149a54395afba711cc8ed4afc28d72bea7404963dcfcf74";
    assert_eq!(
        decompose(&[scalar], 20, 13),
        vec![
            3956, 3710, 1423, 2057, 7847, 2965, 4259, 2399, 2285, 2278, 3740, 2911, 5177, 1234,
            2565, 5006, 4252, 4336, 5444, 28,
        ]
    );
}

#[test]
fn words_fill_whole_bytes() {
    let scalar = "ffffffffffffffffffffffffffffffffffffffffffffffffffffffffffffffff";
    assert_eq!(decompose(&[scalar], 16, 16), vec![0xffff; 16]);
}

#[test]
fn words_are_listed_by_word_index_first() {
    assert_eq!(decompose(&["1fffe", "abcdef"], 3, 13), vec![8190, 3567, 15, 1374, 0, 0]);
    assert_eq!(decompose(&["1", "ff", "abc"], 2, 8), vec![1, 255, 188, 0, 0, 10]);
}

#[test]
fn short_scalars_are_padded() {
    assert_eq!(decompose(&["abc"], 2, 8), vec![0xbc, 0x0a]);
    assert_eq!(decompose(&[""], 2, 8), vec![0, 0]);
    assert_eq!(decompose(&["0"], 1, 4), vec![0]);
}

#[test]
fn both_cases_of_digits_are_read() {
    assert_eq!(decompose(&["AbCd"], 2, 8), vec![0xcd, 0xab]);
    assert_eq!(decompose(&["ABCDEF", "abcdef"], 3, 8), vec![0xef, 0xef, 0xcd, 0xcd, 0xab, 0xab]);
}

#[test]
fn long_scalars_keep_their_low_words() {
    assert_eq!(decompose(&["123456"], 2, 8), vec![0x56, 0x34]);
}

#[test]
fn no_scalars_give_no_words() {
    assert_eq!(decompose(&[], 4, 13), Vec::<u16>::new());
    assert_eq!(decompose(&["12", "34"], 0, 13), Vec::<u16>::new());
}

#[test]
fn other_characters_are_malformed() {
    assert_eq!(decompose_error(&["12g4"], 2, 8), PrecomputeError::MalformedInput);
    assert_eq!(decompose_error(&["-ff"], 2, 8), PrecomputeError::MalformedInput);
    assert_eq!(decompose_error(&["ab", "0x12"], 2, 8), PrecomputeError::MalformedInput);
    assert_eq!(decompose_error(&["\u{e9}\u{e9}"], 2, 8), PrecomputeError::MalformedInput);
}

#[test]
fn long_scalar_of_odd_length_is_malformed() {
    assert_eq!(decompose_error(&["12345"], 2, 8), PrecomputeError::MalformedInput);
    assert_eq!(decompose(&["2345"], 2, 8), vec![0x45, 0x23]);
}

#[test]
fn result_is_handed_out_again() {
    let owned = vec![String::from("beef")];
    let words = match decompose_scalars(&owned, 4, 4) {
        Ok(words) => words,
        Err(e) => panic!("decomposing failed: {:?}", e),
    };
    assert_eq!(words.get_result(), vec![0xf, 0xe, 0xe, 0xb]);
    assert_eq!(words.get_result(), words.get_result());
}

#[test]
fn room_for_words_holds_no_word() {
    let words = to_words_le("e55121e109", 20, 13);
    assert_eq!(words, Vec::<u16>::new());
    assert!(words.capacity() >= 20);
    assert_eq!(to_words_le("", 0, 0), Vec::<u16>::new());
}

#[test]
fn words_make_up_the_scalar_again() {
    let input = vec![0x9a, 0xbc, 0xde, 0xf0, 0x12, 0x34, 0x56, 0x78];
    let value: u128 = 0x9abc_def0_1234_5678;
    for word_size in 1usize..=16 {
        for count in 0usize..8 {
            let mut sum: u128 = 0;
            for word_idx in 0..count {
                let word = extract_word_from_bytes_le(&input, word_idx, word_size) as u128;
                assert!(word < (1u128 << word_size));
                sum += word << (word_idx * word_size);
            }
            assert_eq!(sum, value % (1u128 << (count * word_size)));
        }
    }
}
