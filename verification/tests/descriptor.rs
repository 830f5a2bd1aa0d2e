use gputrace_bundle::descriptor::{derive_tag, descriptor_tag, parse_descriptor, DESC_SIZE};

// Build a synthetic 248-byte descriptor: 31 LE u64 words, tag at word 0.
fn desc(tag: u64, fields: &[(usize, u64)]) -> Vec<u8> {
    let mut p = vec![0u8; DESC_SIZE];
    let mut set = |i: usize, v: u64| p[i * 8..i * 8 + 8].copy_from_slice(&v.to_le_bytes());
    set(0, tag);
    for &(i, v) in fields {
        set(i, v);
    }
    p
}

#[test]
fn parses_the_word_map() {
    let p = desc(
        0xE1,
        &[
            (1, 2),   // texture_type = 2D-ish
            (2, 80),  // format = BGRA8Unorm
            (3, 256), // width
            (4, 256), // height
            (5, 1),   // depth
            (6, 9),   // mip_levels
            (7, 1),   // array_length
            (8, 1),   // sample_count
            (11, 5),  // usage
            (17, 16), // texture_id
        ],
    );
    let d = parse_descriptor(&p, 12964);
    assert_eq!(d.store0_offset, 12964);
    assert_eq!(d.format, 80);
    assert_eq!(d.texture_type, 2);
    assert_eq!((d.width, d.height, d.depth), (256, 256, 1));
    assert_eq!((d.mip_levels, d.array_length, d.sample_count), (9, 1, 1));
    assert_eq!(d.usage, 5);
    assert_eq!(d.texture_id, 16);
    assert_eq!(descriptor_tag(&p), 0xE1);
}

#[test]
fn derives_the_modal_tag() {
    // three descriptors tagged 0xE1, one stray 0x99 -> tag is 0xE1
    let tags = [0xE1u64, 0xE1, 0x99, 0xE1];
    assert_eq!(derive_tag(&tags), Some(0xE1));
    assert_eq!(derive_tag(&[]), None);
}

#[test]
fn modal_tag_ties_go_to_the_value_seen_first() {
    assert_eq!(derive_tag(&[5, 7, 7, 5]), Some(5));
    assert_eq!(derive_tag(&[7, 5, 5, 7]), Some(7));
    assert_eq!(derive_tag(&[3, 9, 9]), Some(9));
    assert_eq!(derive_tag(&[42]), Some(42));
}

#[test]
fn word_fields_keep_the_low_32_bits_and_the_full_u64_ones() {
    let p = desc(7, &[(3, 0x1_0000_0002), (11, 0xDEAD_BEEF_0000_0001), (17, u64::MAX)]);
    let d = parse_descriptor(&p, 0);
    assert_eq!(d.width, 2);
    assert_eq!(d.usage, 0xDEAD_BEEF_0000_0001);
    assert_eq!(d.texture_id, u64::MAX);
    assert_eq!(descriptor_tag(&p), 7);
}

#[test]
fn a_short_payload_reads_missing_words_as_zero() {
    // Only words 0..=3 present: width is there, height and beyond read as 0.
    let p = desc(0xAB, &[(3, 640), (4, 480)]);
    let short = &p[..32];
    let d = parse_descriptor(short, 9);
    assert_eq!(d.width, 640);
    assert_eq!(d.height, 0);
    assert_eq!(d.texture_id, 0);
    assert_eq!(descriptor_tag(&p[..7]), 0);
    assert_eq!(descriptor_tag(&p[..8]), 0xAB);
}
