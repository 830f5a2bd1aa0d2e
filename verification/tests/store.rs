use flate2::{write::ZlibEncoder, Compression};
use gputrace_bundle::store::{accept_stream, read_extent};
use std::io::Write;

fn zlib(data: &[u8]) -> Vec<u8> {
    let mut e = ZlibEncoder::new(Vec::new(), Compression::default());
    e.write_all(data).unwrap();
    e.finish().unwrap()
}

#[test]
fn reads_one_stream_at_an_offset() {
    let payload = b"the descriptor bytes".repeat(4);
    let comp = zlib(&payload);
    let mut store0 = vec![0u8; 7]; // a leading gap
    let off = store0.len() as u64;
    store0.extend_from_slice(&comp);
    let got = read_extent(&store0, off, comp.len() as u32, payload.len() as u32);
    assert_eq!(got.as_deref(), Some(&payload[..]));
}

#[test]
fn rejects_out_of_range_extent() {
    assert_eq!(read_extent(&[0u8; 4], 2, 100, 8), None);
}

#[test]
fn rejects_a_size_mismatch() {
    let comp = zlib(&[1u8, 2, 3]);
    // declare 99 bytes uncompressed when only 3 inflate
    assert_eq!(read_extent(&comp, 0, comp.len() as u32, 99), None);
}

#[test]
fn rejects_a_stream_longer_than_declared() {
    let comp = zlib(&[9u8; 40]);
    assert_eq!(read_extent(&comp, 0, comp.len() as u32, 39), None);
    assert_eq!(read_extent(&comp, 0, comp.len() as u32, 40), Some(vec![9u8; 40]));
}

#[test]
fn refuses_to_read_into_the_next_stream() {
    let a = zlib(b"first");
    let b = zlib(b"second");
    let mut store0 = a.clone();
    store0.extend_from_slice(&b);
    // The extent of `a` cut one byte short fails; the full extent reads.
    assert_eq!(read_extent(&store0, 0, a.len() as u32 - 1, 5), None);
    assert_eq!(read_extent(&store0, 0, a.len() as u32, 5), Some(b"first".to_vec()));
    assert_eq!(
        read_extent(&store0, a.len() as u64, b.len() as u32, 6),
        Some(b"second".to_vec())
    );
    // An extent that ends exactly at the end of store0 is inside it.
    assert!(read_extent(&store0, a.len() as u64, b.len() as u32 + 1, 6).is_none());
    assert!(read_extent(&store0, u64::MAX, 1, 6).is_none());
}

#[test]
fn garbage_does_not_inflate() {
    assert_eq!(read_extent(&[0xFFu8; 16], 0, 16, 4), None);
}

#[test]
fn a_probe_is_kept_only_when_the_stream_ended() {
    assert_eq!(accept_stream(Some((vec![1, 2, 3], 0))), Some(vec![1, 2, 3]));
    assert_eq!(accept_stream(Some((vec![1, 2, 3], 1))), None);
    assert_eq!(accept_stream(None), None);
}
