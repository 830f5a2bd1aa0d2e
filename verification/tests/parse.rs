use flate2::{write::ZlibEncoder, Compression};
use gputrace_bundle::{Bundle, Error};
use std::io::Write;

fn zlib(data: &[u8]) -> Vec<u8> {
    let mut e = ZlibEncoder::new(Vec::new(), Compression::default());
    e.write_all(data).unwrap();
    e.finish().unwrap()
}

// 248-byte descriptor: tag at word 0, then fields.
fn desc(tag: u64, fields: &[(usize, u64)]) -> Vec<u8> {
    let mut p = vec![0u8; 248];
    let mut set = |i: usize, v: u64| p[i * 8..i * 8 + 8].copy_from_slice(&v.to_le_bytes());
    set(0, tag);
    for &(i, v) in fields {
        set(i, v);
    }
    p
}

fn header(buckets: u32, records: u32) -> Vec<u8> {
    let mut index = Vec::new();
    index.extend_from_slice(b"xdic");
    index.extend_from_slice(&0u32.to_le_bytes());
    index.extend_from_slice(&buckets.to_le_bytes());
    index.extend_from_slice(&records.to_le_bytes());
    index.extend_from_slice(&records.to_le_bytes());
    index
}

fn record(index: &mut Vec<u8>, usz: u32, cs: u32, off: u64) {
    index.extend_from_slice(&usz.to_le_bytes());
    index.extend_from_slice(&cs.to_le_bytes());
    index.extend_from_slice(&off.to_le_bytes());
    index.extend_from_slice(&0u64.to_le_bytes());
}

#[test]
fn opens_parses_resolves_alias_and_sorts() {
    // Two texture descriptors (distinct dims), one bulk payload record.
    // record 0: canonical 64x64 texture (tag 0xE1, format 80, mip 3)
    // record 1: 128x128 texture (tag 0xE1, format 80, mip 1) -- HIGHER store0 offset
    // record 2: alias -> record 0 (store0_offset 0, csize == id 2)
    // record 3: bulk (non-248) record
    let d0 = desc(0xE1, &[(2, 80), (3, 64), (4, 64), (6, 3), (7, 1), (1, 2)]);
    let d1 = desc(0xE1, &[(2, 80), (3, 128), (4, 128), (6, 1), (7, 1), (1, 2)]);
    let bulk = b"not a descriptor".repeat(3);

    let c0 = zlib(&d0);
    let c1 = zlib(&d1);
    let cb = zlib(&bulk);
    // store0 layout: d1 first (lower offset) then d0 (higher) to prove sorting.
    let mut store0 = Vec::new();
    let off_d1 = store0.len() as u64;
    store0.extend_from_slice(&c1);
    let off_d0 = store0.len() as u64;
    store0.extend_from_slice(&c0);
    let off_bulk = store0.len() as u64;
    store0.extend_from_slice(&cb);

    // index: header (buckets=4, records=4), bucket table, record array.
    let buckets = 4u32;
    let records = 4u32;
    let mut index = header(buckets, records);
    // bucket table: all-empty except one entry mapping alias id 2 -> canonical 0
    let mut btable = vec![0xFFu8; buckets as usize * 12];
    btable[0..4].copy_from_slice(&0u32.to_le_bytes()); // canonical 0
    btable[4..8].copy_from_slice(&2u32.to_le_bytes()); // this = 2 (the alias)
    btable[8..12].copy_from_slice(&u32::MAX.to_le_bytes());
    index.extend_from_slice(&btable);
    // record array (24 bytes each): usize, csize, store0_offset, flags
    record(&mut index, 248, c0.len() as u32, off_d0); // record 0 = d0
    record(&mut index, 248, c1.len() as u32, off_d1); // record 1 = d1
    record(&mut index, 248, 2, 0); // record 2 = alias of 0 (store0_offset 0, csize == id 2)
    record(&mut index, bulk.len() as u32, cb.len() as u32, off_bulk); // record 3 = bulk

    let bundle = Bundle::open(Some("synthetic"), &index, &store0).unwrap();
    let t = bundle.textures();
    // Three texture descriptors (record 0, record 1, alias->0), sorted by
    // store0_offset ascending: d1(off lower) first, then the two copies of d0.
    assert_eq!(bundle.texture_count(), 3);
    assert_eq!(t[0].width, 128); // lowest store0 offset
    assert_eq!(t[1].width, 64);
    assert_eq!(t[2].width, 64); // the alias resolved to d0's bytes
    assert!(t.windows(2).all(|w| w[0].store0_offset <= w[1].store0_offset));
    assert_eq!(bundle.name(), "synthetic");
}

/// An alias record redirecting to a canonical record whose own `usize_len` is
/// not 248 must be skipped, not read. The bundle should still open, just
/// without that descriptor.
#[test]
fn alias_to_a_bogus_sized_canonical_is_skipped_not_read() {
    let buckets = 1u32;
    let records = 2u32;
    let mut index = header(buckets, records);
    // bucket table: alias id 1 -> canonical id 0
    let mut btable = vec![0xFFu8; buckets as usize * 12];
    btable[0..4].copy_from_slice(&0u32.to_le_bytes()); // canonical
    btable[4..8].copy_from_slice(&1u32.to_le_bytes()); // this = 1 (the alias)
    btable[8..12].copy_from_slice(&u32::MAX.to_le_bytes());
    index.extend_from_slice(&btable);
    // record 0: the canonical target, claiming a huge (bogus) usize_len.
    record(&mut index, u32::MAX, 1, 5);
    // record 1: the alias, a normal 248-byte record.
    record(&mut index, 248, 0, 0);

    let bundle = Bundle::open(Some("synthetic"), &index, &[]).unwrap();
    assert_eq!(bundle.texture_count(), 0);
}

/// A header claiming a huge `record_count` against a short index must be
/// rejected before it drives an allocation sized by that untrusted count.
#[test]
fn oversized_record_count_against_short_index_is_rejected() {
    // Header only (20 bytes): no bucket table, no record array, but claims a
    // huge record count.
    let huge = 0xFFFF_FFF0u32;
    let index = header(0, huge);
    let err = Bundle::open(Some("synthetic"), &index, &[]).unwrap_err();
    assert!(matches!(err, Error::BadIndex(_)));
}

/// Trailing bytes after the record array (index padding) must be tolerated:
/// only claiming MORE than the index holds is the error.
#[test]
fn trailing_bytes_after_the_record_array_are_tolerated() {
    let d = desc(0xE1, &[(2, 80), (3, 64), (4, 64), (6, 1), (7, 1)]);
    let c = zlib(&d);
    let store0 = c.clone(); // one stream at offset 0

    let mut index = header(0, 1);
    record(&mut index, 248, c.len() as u32, 0);
    // Padding beyond the record array: record_array_len < index.len().
    index.extend_from_slice(&[0u8; 16]);

    let bundle = Bundle::open(Some("synthetic"), &index, &store0).unwrap();
    assert_eq!(bundle.texture_count(), 1);
}

/// A canonical record that is itself an alias marker is not a payload, even
/// when its csize happens to equal a real stream's length at offset 0.
#[test]
fn alias_whose_canonical_is_itself_an_alias_yields_no_texture() {
    let d = desc(0xE1, &[(2, 80), (3, 64), (4, 64), (6, 1), (7, 1)]);
    let comp = zlib(&d);
    let l = comp.len(); // the canonical alias sits at record index `l`
    let records = l + 1;

    // store0: the real 248-byte stream at offset 0, `l` bytes long.
    let store0 = comp.clone();

    let mut index = header(1, records as u32);
    // one bucket: record 1 -> canonical `l`
    index.extend_from_slice(&(l as u32).to_le_bytes()); // canonical
    index.extend_from_slice(&1u32.to_le_bytes()); // this = 1
    index.extend_from_slice(&u32::MAX.to_le_bytes()); // marker
    for i in 0..records {
        let (usz, cs, off): (u32, u32, u64) = if i == l {
            (248, l as u32, 0)
        } else if i == 1 {
            (248, 5, 100)
        } else {
            (0, 0, 0) // filler: usize_len != 248, filtered out
        };
        record(&mut index, usz, cs, off);
    }

    let bundle = Bundle::open(Some("synthetic"), &index, &store0).unwrap();
    assert_eq!(bundle.texture_count(), 0);
}

#[test]
fn each_malformed_index_gets_its_own_error() {
    let why = |index: &[u8]| match Bundle::open(None, index, &[]) {
        Err(Error::BadIndex(m)) => m,
        Err(e) => panic!("unexpected error {:?}", e),
        Ok(_) => panic!("a malformed index opened"),
    };
    assert_eq!(why(&header(0, 0)[..12]), "index shorter than header");
    let mut foreign = header(0, 0);
    foreign[1] = b'D';
    assert_eq!(why(&foreign), "bad xdic magic");
    // Two records claimed, one present.
    let mut index = header(0, 2);
    record(&mut index, 248, 1, 1);
    assert_eq!(why(&index), "record array exceeds index size");
    // A bucket table that pushes the record array past the end.
    let index = header(3, 0);
    assert_eq!(why(&index), "record array exceeds index size");
}

#[test]
fn an_empty_manifest_opens_with_the_default_name() {
    let bundle = Bundle::open(None, &header(0, 0), &[]).unwrap();
    assert_eq!(bundle.texture_count(), 0);
    assert_eq!(bundle.record_count(), 0);
    assert_eq!(bundle.name(), "trace");
    assert!(bundle.textures().is_empty());
}

#[test]
fn only_descriptors_with_the_modal_tag_are_kept() {
    // Three payloads tagged 0xE1 and one tagged 0x99: the stray is dropped.
    let mut store0 = Vec::new();
    let mut index = header(0, 5);
    let tags = [0xE1u64, 0x99, 0xE1, 0xE1];
    for (i, tag) in tags.iter().enumerate() {
        let c = zlib(&desc(*tag, &[(3, 10 + i as u64)]));
        record(&mut index, 248, c.len() as u32, store0.len() as u64);
        store0.extend_from_slice(&c);
    }
    // record 4: points past the end of store0, silently skipped.
    record(&mut index, 248, 10, store0.len() as u64);
    let bundle = Bundle::open(Some("x"), &index, &store0).unwrap();
    let widths: Vec<u32> = bundle.textures().iter().map(|d| d.width).collect();
    assert_eq!(widths, vec![10, 12, 13]);
    assert_eq!(bundle.record_count(), 5);
    assert!(bundle.texture_count() <= bundle.record_count() as usize);
}

#[test]
fn equal_offsets_keep_record_order_and_sorting_is_by_offset() {
    // Records 0 and 1 share one stream; record 2 sits lower in store0.
    let hi = zlib(&desc(1, &[(3, 7)]));
    let lo = zlib(&desc(1, &[(3, 5)]));
    let mut store0 = lo.clone();
    let off_hi = store0.len() as u64;
    store0.extend_from_slice(&hi);
    let mut index = header(0, 3);
    record(&mut index, 248, hi.len() as u32, off_hi);
    record(&mut index, 248, hi.len() as u32, off_hi);
    record(&mut index, 248, lo.len() as u32, 0);
    let bundle = Bundle::open(None, &index, &store0).unwrap();
    let t = bundle.textures();
    assert_eq!(t.len(), 3);
    assert_eq!((t[0].store0_offset, t[0].width), (0, 5));
    assert_eq!((t[1].store0_offset, t[1].width), (off_hi, 7));
    assert_eq!((t[2].store0_offset, t[2].width), (off_hi, 7));
}

#[test]
fn an_invalid_bucket_table_leaves_non_alias_records_usable() {
    let c = zlib(&desc(3, &[(3, 99)]));
    let mut index = header(1, 2);
    // A bucket pointing out of range: the whole table is ignored.
    index.extend_from_slice(&50u32.to_le_bytes());
    index.extend_from_slice(&1u32.to_le_bytes());
    index.extend_from_slice(&u32::MAX.to_le_bytes());
    record(&mut index, 248, c.len() as u32, 0);
    record(&mut index, 248, 1, 0); // an alias marker with no usable table
    let bundle = Bundle::open(None, &index, &c).unwrap();
    assert_eq!(bundle.texture_count(), 1);
    assert_eq!(bundle.textures()[0].width, 99);
}
