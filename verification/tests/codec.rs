use ristate::tags::{decode_set, decode_single, decode_view_tags, encode_set, NO_TAG};
use ristate::text::{decimal_text, numeral_texts, strip_spaces};

#[test]
fn single_bit_masks_decode_to_their_tag() {
    for i in 1u8..=32 {
        assert_eq!(decode_single(1u32 << (i - 1)), Some(i));
    }
}

#[test]
fn zero_mask_names_no_single_tag() {
    assert_eq!(decode_single(0), None);
}

#[test]
fn masks_with_several_bits_name_no_single_tag() {
    assert_eq!(decode_single(0b11), None);
    assert_eq!(decode_single(0b1010), None);
    assert_eq!(decode_single(0x8000_0001), None);
    assert_eq!(decode_single(u32::MAX), None);
    for i in 0..32u32 {
        for j in (i + 1)..32u32 {
            assert_eq!(decode_single((1 << i) | (1 << j)), None);
        }
    }
}

#[test]
fn highest_and_lowest_tags_decode() {
    assert_eq!(decode_single(1), Some(1));
    assert_eq!(decode_single(0x8000_0000), Some(32));
    assert_eq!(decode_single(4), Some(3));
}

#[test]
fn decode_set_lists_tags_in_ascending_order() {
    let set = decode_set(0b1010);
    assert_eq!(set.as_slice(), &[2u8, 4u8]);
    assert_eq!(set.len(), 2);
    assert_eq!(set.get(0), 2);
    assert_eq!(set.get(1), 4);
    let rendered = numeral_texts(set.as_slice());
    assert_eq!(rendered, vec!["2".to_string(), "4".to_string()]);
}

#[test]
fn decode_set_of_zero_is_empty() {
    let set = decode_set(0);
    assert_eq!(set.len(), 0);
    assert!(set.as_slice().is_empty());
}

#[test]
fn decode_set_of_all_ones_holds_every_tag() {
    let set = decode_set(u32::MAX);
    let all: Vec<u8> = (1u8..=32).collect();
    assert_eq!(set.as_slice(), all.as_slice());
}

#[test]
fn decode_set_of_high_bit() {
    assert_eq!(decode_set(0x8000_0000).as_slice(), &[32u8]);
    assert_eq!(decode_set(0x8000_0001).as_slice(), &[1u8, 32u8]);
}

#[test]
fn encode_inverts_decode() {
    let masks = [
        0u32,
        1,
        2,
        3,
        0b1010,
        0xff,
        0x0f0f_0f0f,
        0x8000_0000,
        0x8000_0001,
        0xdead_beef,
        0x1234_5678,
        u32::MAX,
    ];
    for mask in masks {
        assert_eq!(encode_set(&decode_set(mask)), mask);
    }
    for i in 0..32u32 {
        assert_eq!(encode_set(&decode_set(1 << i)), 1 << i);
        assert_eq!(encode_set(&decode_set(!(1u32 << i))), !(1u32 << i));
    }
}

#[test]
fn encode_of_two_tags() {
    assert_eq!(encode_set(&decode_set(10)), 10);
    assert_eq!(decode_set(10).as_slice(), &[2u8, 4u8]);
}

#[test]
fn view_tag_buffer_decodes_in_order() {
    let buf = [0x01u8, 0, 0, 0, 0x04, 0, 0, 0];
    assert_eq!(decode_view_tags(&buf), vec![1u8, 3u8]);
}

#[test]
fn view_tag_with_two_bits_becomes_the_sentinel() {
    let buf = [0x01u8, 0, 0, 0, 0x03, 0, 0, 0, 0x08, 0, 0, 0];
    let list = decode_view_tags(&buf);
    assert_eq!(list, vec![1u8, 0u8, 4u8]);
    assert_eq!(list.len(), buf.len() / 4);
    assert_eq!(list[1], NO_TAG);
}

#[test]
fn view_tag_with_no_bit_becomes_the_sentinel() {
    let buf = [0u8, 0, 0, 0];
    assert_eq!(decode_view_tags(&buf), vec![NO_TAG]);
}

#[test]
fn view_tag_masks_are_little_endian() {
    let buf = [0u8, 1, 0, 0, 0, 0, 1, 0, 0, 0, 0, 0x80, 0, 0, 0, 1];
    assert_eq!(decode_view_tags(&buf), vec![9u8, 17u8, 32u8, 25u8]);
}

#[test]
fn empty_view_tag_buffer_gives_empty_list() {
    let buf: [u8; 0] = [];
    assert_eq!(decode_view_tags(&buf), Vec::<u8>::new());
}

#[test]
fn decimal_text_of_small_numbers() {
    assert_eq!(decimal_text(0), "0");
    assert_eq!(decimal_text(1), "1");
    assert_eq!(decimal_text(9), "9");
    assert_eq!(decimal_text(10), "10");
    assert_eq!(decimal_text(32), "32");
    assert_eq!(decimal_text(99), "99");
    assert_eq!(decimal_text(100), "100");
    assert_eq!(decimal_text(105), "105");
    assert_eq!(decimal_text(255), "255");
}

#[test]
fn decimal_text_agrees_with_std() {
    for n in 0u8..=255 {
        assert_eq!(decimal_text(n), n.to_string());
    }
}

#[test]
fn numeral_texts_keep_order_and_length() {
    assert_eq!(
        numeral_texts(&[3, 0, 12]),
        vec!["3".to_string(), "0".to_string(), "12".to_string()]
    );
    assert_eq!(numeral_texts(&[]), Vec::<String>::new());
}

#[test]
fn strip_spaces_removes_only_spaces() {
    assert_eq!(strip_spaces("Acme Display"), "AcmeDisplay");
    assert_eq!(strip_spaces("  a  b  "), "ab");
    assert_eq!(strip_spaces("nospace"), "nospace");
    assert_eq!(strip_spaces(""), "");
    assert_eq!(strip_spaces("   "), "");
    assert_eq!(strip_spaces("tab\tstays"), "tab\tstays");
    assert_eq!(strip_spaces("Dell Inc. \u{e9}t\u{e9}"), "DellInc.\u{e9}t\u{e9}");
}
