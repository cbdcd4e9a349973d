use hexpatch::apply::{apply_patch, apply_patches, find_pattern};
use hexpatch::hex::{array_to_hexstring, hex_string_to_array, parse_hex_byte, split_tokens};
use hexpatch::parser::{clean_string, read_blocks, Patch, Patches};
use hexpatch::{PatchError, WIDTH};

fn lines(text: &str) -> Vec<String> {
    text.lines().map(String::from).collect()
}

#[test]
fn decode_full_line() {
    let r = hex_string_to_array::<9>("00 01 0A ff 10 7f 80 Fe 09");
    assert_eq!(r, Ok([0x00, 0x01, 0x0a, 0xff, 0x10, 0x7f, 0x80, 0xfe, 0x09]));
}

#[test]
fn decode_short_line_pads_with_zeros() {
    let r = hex_string_to_array::<9>("  aa\tbb  ");
    assert_eq!(r, Ok([0xaa, 0xbb, 0, 0, 0, 0, 0, 0, 0]));
}

#[test]
fn decode_empty_line_is_all_zeros() {
    assert_eq!(hex_string_to_array::<4>(""), Ok([0u8; 4]));
}

#[test]
fn decode_single_digit_and_leading_zeros() {
    assert_eq!(hex_string_to_array::<3>("f 00ff +1"), Ok([0x0f, 0xff, 0x01]));
}

#[test]
fn decode_too_many_tokens() {
    let r = hex_string_to_array::<2>("01 02 03");
    assert_eq!(r, Err(PatchError::TooLongString("01 02 03".to_string())));
}

#[test]
fn decode_bad_token_names_it() {
    let r = hex_string_to_array::<9>("00 zz 02");
    assert_eq!(r, Err(PatchError::ConversionFailure("zz".to_string())));
}

#[test]
fn decode_value_too_large() {
    let r = hex_string_to_array::<9>("100");
    assert_eq!(r, Err(PatchError::ConversionFailure("100".to_string())));
}

#[test]
fn decode_first_error_wins() {
    // The bad token comes before the overflowing one.
    let r = hex_string_to_array::<2>("01 xy 03");
    assert_eq!(r, Err(PatchError::ConversionFailure("xy".to_string())));
    // The overflow is met before the bad token.
    let r = hex_string_to_array::<2>("01 02 xy");
    assert_eq!(r, Err(PatchError::TooLongString("01 02 xy".to_string())));
}

#[test]
fn parse_single_tokens() {
    assert_eq!(parse_hex_byte("ff"), Some(255));
    assert_eq!(parse_hex_byte("A"), Some(10));
    assert_eq!(parse_hex_byte("+"), None);
    assert_eq!(parse_hex_byte("-1"), None);
    assert_eq!(parse_hex_byte(""), None);
    assert_eq!(parse_hex_byte("g0"), None);
}

#[test]
fn split_on_runs_of_white_space() {
    let t = split_tokens("  ab \t cd\u{3000}ef  ");
    assert_eq!(t, vec!["ab".to_string(), "cd".to_string(), "ef".to_string()]);
    assert!(split_tokens(" \t ").is_empty());
}

#[test]
fn encode_bytes_as_hex() {
    assert_eq!(array_to_hexstring(&[0x00, 0x0a, 0xff, 0x3c]), "00 0a ff 3c");
    assert_eq!(array_to_hexstring(&[]), "");
    assert_eq!(array_to_hexstring(&[7]), "07");
}

#[test]
fn decode_encode_round_trip() {
    let a = hex_string_to_array::<9>("39 3A 3B 3C 3D 3E 3F 40 41").unwrap();
    let text = array_to_hexstring(&a);
    assert_eq!(text, "39 3a 3b 3c 3d 3e 3f 40 41");
    assert_eq!(hex_string_to_array::<9>(&text), Ok(a));
    let b = hex_string_to_array::<9>("1 2").unwrap();
    assert_eq!(hex_string_to_array::<9>(&array_to_hexstring(&b)), Ok(b));
}

#[test]
fn clean_strips_comment_and_space() {
    assert_eq!(clean_string("  00 01 # note"), "00 01");
    assert_eq!(clean_string("# only a comment"), "");
    assert_eq!(clean_string("\t 0a 0b \t"), "0a 0b");
    assert_eq!(clean_string("   "), "");
    assert_eq!(clean_string("a#b#c"), "a");
}

#[test]
fn blocks_are_grouped_in_pairs() {
    let r = read_blocks(&lines("a\nb\n\n\n# x\nc # y\nd\n"));
    assert_eq!(
        r,
        Ok(vec![
            vec!["a".to_string(), "b".to_string()],
            vec!["c".to_string(), "d".to_string()]
        ])
    );
}

#[test]
fn empty_spec_has_no_blocks() {
    assert_eq!(read_blocks(&lines("")), Ok(vec![]));
    assert_eq!(read_blocks(&lines("\n\n# c\n")), Ok(vec![]));
}

#[test]
fn single_line_block_fails() {
    assert_eq!(read_blocks(&lines("a\nb\n\nc\n\nd\ne")), Err(PatchError::InsufficientLines(2)));
    assert_eq!(read_blocks(&lines("a\nb\n\nc")), Err(PatchError::InsufficientLines(2)));
}

#[test]
fn three_line_block_fails() {
    assert_eq!(read_blocks(&lines("a\nb\nc\n\nd\ne")), Err(PatchError::TooManyLines(1)));
    assert_eq!(read_blocks(&lines("a\nb\n\nc\nd\ne")), Err(PatchError::TooManyLines(2)));
}

#[test]
fn three_lines_fail_before_decoding() {
    let text = "00 01 02 03 04 05 06 07 08\nzz zz\n10 11 12 13 14 15 16 17 18\n";
    let r = Patches::<WIDTH>::new(&lines(text));
    assert!(matches!(r, Err(PatchError::TooManyLines(1))));
}

#[test]
fn block_count_error_before_hex_error() {
    let text = "zz\n00\n\n01\n";
    let r = Patches::<WIDTH>::new(&lines(text));
    assert!(matches!(r, Err(PatchError::InsufficientLines(2))));
}

#[test]
fn hex_error_names_token() {
    let text = "00 01 02\n10 zz 12\n";
    let r = Patches::<WIDTH>::new(&lines(text));
    assert!(matches!(r, Err(PatchError::ConversionFailure(ref s)) if s == "zz"));
}

#[test]
fn too_long_line_in_spec() {
    let text = "00 01 02 03 04 05 06 07 08 09\n00\n";
    let r = Patches::<WIDTH>::new(&lines(text));
    assert!(matches!(r, Err(PatchError::TooLongString(ref s)) if s == "00 01 02 03 04 05 06 07 08 09"));
}

#[test]
fn two_blocks_parse_and_apply() {
    let text = "00 01 02 03 04 05 06 07 08\n10 11 12 13 14 15 16 17 18\n\n# comment\n29 2a 2b 2c 2d 2e 2f 30 31\n39 3A 3B 3C 3D 3E 3F 40 41\n";
    let ps = match Patches::<WIDTH>::new(&lines(text)) {
        Ok(p) => p,
        Err(e) => panic!("{:?}", e),
    };
    assert_eq!(ps.patches.len(), 2);
    assert_eq!(ps.patches[0].pattern, [0x00, 0x01, 0x02, 0x03, 0x04, 0x05, 0x06, 0x07, 0x08]);
    assert_eq!(ps.patches[0].replacement, [0x10, 0x11, 0x12, 0x13, 0x14, 0x15, 0x16, 0x17, 0x18]);
    assert_eq!(ps.patches[1].pattern, [0x29, 0x2a, 0x2b, 0x2c, 0x2d, 0x2e, 0x2f, 0x30, 0x31]);
    assert_eq!(ps.patches[1].replacement, [0x39, 0x3a, 0x3b, 0x3c, 0x3d, 0x3e, 0x3f, 0x40, 0x41]);
    let mut data: Vec<u8> = Vec::new();
    data.extend_from_slice(&ps.patches[0].pattern);
    data.extend_from_slice(&ps.patches[1].pattern);
    let found = apply_patches(&mut data, &ps);
    let mut expected: Vec<u8> = Vec::new();
    expected.extend_from_slice(&ps.patches[0].replacement);
    expected.extend_from_slice(&ps.patches[1].replacement);
    assert_eq!(data, expected);
    assert_eq!(found, vec![vec![0], vec![9]]);
}

#[test]
fn find_first_occurrence() {
    assert_eq!(find_pattern(&[1, 2, 3, 1, 2], &[1, 2]), Some(0));
    assert_eq!(find_pattern(&[0, 1, 2, 3, 1, 2], &[2, 3]), Some(2));
    assert_eq!(find_pattern(&[1, 2], &[1, 2, 3]), None);
    assert_eq!(find_pattern(&[], &[1]), None);
    assert_eq!(find_pattern(&[1, 3, 1, 3], &[3, 1, 3]), Some(1));
}

#[test]
fn absent_pattern_leaves_buffer() {
    let p = Patch::<3>::from_bytes([9, 9, 9], [1, 1, 1]);
    let mut data = vec![0u8, 9, 9, 8, 9];
    let found = apply_patch(&mut data, &p);
    assert_eq!(data, vec![0u8, 9, 9, 8, 9]);
    assert!(found.is_empty());
}

#[test]
fn single_occurrence_replaced() {
    let p = Patch::<2>::from_bytes([5, 6], [7, 8]);
    let mut data = vec![1u8, 5, 6, 2];
    let found = apply_patch(&mut data, &p);
    assert_eq!(data, vec![1u8, 7, 8, 2]);
    assert_eq!(found, vec![1]);
}

#[test]
fn every_occurrence_replaced() {
    let p = Patch::<2>::from_bytes([0xaa, 0xbb], [0x11, 0x22]);
    let mut data = vec![0xaau8, 0xbb, 0, 0xaa, 0xbb, 0xaa, 0xbb];
    let found = apply_patch(&mut data, &p);
    assert_eq!(data, vec![0x11u8, 0x22, 0, 0x11, 0x22, 0x11, 0x22]);
    assert_eq!(found, vec![0, 3, 5]);
    let again = apply_patch(&mut data, &p);
    assert!(again.is_empty());
    assert_eq!(data, vec![0x11u8, 0x22, 0, 0x11, 0x22, 0x11, 0x22]);
}

#[test]
fn scan_resumes_after_replacement() {
    // Overlapping occurrences: only the first of each overlapping run is taken.
    let p = Patch::<2>::from_bytes([1, 1], [2, 2]);
    let mut data = vec![1u8, 1, 1];
    let found = apply_patch(&mut data, &p);
    assert_eq!(data, vec![2u8, 2, 1]);
    assert_eq!(found, vec![0]);
    // A replacement that starts a new occurrence is not rescanned by the same patch.
    let q = Patch::<2>::from_bytes([1, 2], [3, 1]);
    let mut data = vec![1u8, 2, 2];
    apply_patch(&mut data, &q);
    assert_eq!(data, vec![3u8, 1, 2]);
}

#[test]
fn patches_apply_in_order() {
    let a = Patch::<3>::new("00 01 02", "AA BB CC").unwrap();
    let b = Patch::<3>::new("AA BB CC", "FF FF FF").unwrap();
    let ps = Patches { patches: vec![a, b] };
    let mut data = vec![0x00u8, 0x01, 0x02];
    let found = apply_patches(&mut data, &ps);
    assert_eq!(data, vec![0xffu8, 0xff, 0xff]);
    assert_eq!(found, vec![vec![0], vec![0]]);
}

#[test]
fn later_patch_not_seen_by_earlier() {
    let a = Patch::<1>::from_bytes([1], [2]);
    let b = Patch::<1>::from_bytes([3], [1]);
    let ps = Patches { patches: vec![a, b] };
    let mut data = vec![3u8, 1];
    apply_patches(&mut data, &ps);
    assert_eq!(data, vec![1u8, 2]);
}

#[test]
fn patch_new_reports_replacement_error() {
    let r = Patch::<2>::new("01 02", "01 qq");
    assert!(matches!(r, Err(PatchError::ConversionFailure(ref s)) if s == "qq"));
}
