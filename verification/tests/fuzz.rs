//! Lightweight corpus fuzz for the parser: `Bundle::open` must return `Ok`
//! or `Err` on adversarial input, never panic.

use flate2::{write::ZlibEncoder, Compression};
use gputrace_bundle::Bundle;
use std::io::Write;

/// xorshift64* - a tiny deterministic PRNG.
struct Rng(u64);

impl Rng {
    fn next_u64(&mut self) -> u64 {
        let mut x = self.0;
        x ^= x >> 12;
        x ^= x << 25;
        x ^= x >> 27;
        self.0 = x;
        x.wrapping_mul(0x2545_F491_4F6C_DD1D)
    }
    /// A value in `0..n`. `n` must be non-zero.
    fn below(&mut self, n: usize) -> usize {
        (self.next_u64() % n as u64) as usize
    }
    fn byte(&mut self) -> u8 {
        self.next_u64() as u8
    }
    fn coin(&mut self) -> bool {
        self.next_u64() & 1 == 1
    }
}

fn zlib(data: &[u8]) -> Vec<u8> {
    let mut e = ZlibEncoder::new(Vec::new(), Compression::fast());
    e.write_all(data).unwrap();
    e.finish().unwrap()
}

/// A structurally-valid `(index, store0)` pair with an rng-chosen shape.
fn valid_bundle(rng: &mut Rng) -> (Vec<u8>, Vec<u8>) {
    let records = 1 + rng.below(6);
    let bucket_count = rng.below(3) as u32;

    let mut store0 = Vec::new();
    let mut placed: Vec<(u64, u32)> = Vec::new();
    for _ in 0..records {
        let mut d = vec![0u8; 248];
        let mut set = |i: usize, v: u64| d[i * 8..i * 8 + 8].copy_from_slice(&v.to_le_bytes());
        set(0, 0xE1);
        set(2, 70 + rng.below(20) as u64); // format
        set(3, 1 + rng.below(512) as u64); // width
        set(4, 1 + rng.below(512) as u64); // height
        set(6, 1 + rng.below(12) as u64); // mip levels
        set(7, 1);
        let c = zlib(&d);
        let off = store0.len() as u64;
        let comp_len = c.len() as u32;
        store0.extend_from_slice(&c);
        placed.push((off, comp_len));
    }

    let mut index = Vec::new();
    index.extend_from_slice(b"xdic");
    index.extend_from_slice(&0u32.to_le_bytes());
    index.extend_from_slice(&bucket_count.to_le_bytes());
    index.extend_from_slice(&(records as u32).to_le_bytes());
    index.extend_from_slice(&(records as u32).to_le_bytes());
    index.extend(std::iter::repeat(0xFFu8).take(bucket_count as usize * 12));
    for &(off, comp_len) in &placed {
        index.extend_from_slice(&248u32.to_le_bytes());
        index.extend_from_slice(&comp_len.to_le_bytes());
        index.extend_from_slice(&off.to_le_bytes());
        index.extend_from_slice(&0u64.to_le_bytes());
    }
    (index, store0)
}

/// Corrupt a buffer in place with a handful of random edits.
fn mutate(rng: &mut Rng, buf: &mut Vec<u8>) {
    let ops = 1 + rng.below(8);
    for _ in 0..ops {
        if buf.is_empty() {
            return;
        }
        match rng.below(4) {
            0 => {
                let i = rng.below(buf.len());
                buf[i] = rng.byte();
            }
            1 => {
                let i = rng.below(buf.len());
                buf.truncate(i);
            }
            2 => {
                let i = rng.below(buf.len());
                buf.insert(i, rng.byte());
            }
            _ => {
                let i = rng.below(buf.len());
                buf[i] = buf[i].wrapping_add(1);
            }
        }
    }
}

#[test]
fn open_is_total_over_adversarial_input() {
    let seed: u64 = 0x5EED_1234_ABCD;
    let iters = 2000;
    let mut rng = Rng(seed | 1);
    let mut opened = 0usize;
    for _ in 0..iters {
        let (mut index, mut store0) = if rng.coin() {
            valid_bundle(&mut rng)
        } else {
            let il = rng.below(256);
            let sl = rng.below(256);
            (
                (0..il).map(|_| rng.byte()).collect(),
                (0..sl).map(|_| rng.byte()).collect(),
            )
        };
        if rng.coin() {
            mutate(&mut rng, &mut index);
        }
        if rng.coin() {
            mutate(&mut rng, &mut store0);
        }
        // The whole point: this must return, not panic.
        if let Ok(b) = Bundle::open(Some("fuzz"), &index, &store0) {
            opened += 1;
            assert!(b.texture_count() <= b.record_count() as usize);
            assert!(b.textures().windows(2).all(|w| w[0].store0_offset <= w[1].store0_offset));
        }
    }
    assert!(opened > 0);
}
