//! The 248-byte Metal texture descriptor: 31 little-endian `u64` words whose
//! word 0 is the capture's descriptor tag (byte offset = word * 8).

use crate::bytes::{le_u32, le_u64, read_u64_le};
use std::collections::HashMap;
use vstd::prelude::*;

verus! {

/// Length of a texture descriptor payload.
pub const DESC_SIZE: usize = 248;

/// A decoded texture descriptor. Fields are raw Metal enum/bitflag values.
/// `store0_offset` is the join key (bridge order).
#[derive(Debug, Clone, Copy, PartialEq, Eq, Structural)]
pub struct TextureDescriptor {
    pub store0_offset: u64,
    pub format: u32,
    pub texture_type: u32,
    pub width: u32,
    pub height: u32,
    pub depth: u32,
    pub mip_levels: u32,
    pub array_length: u32,
    pub sample_count: u32,
    pub usage: u64,
    pub texture_id: u64,
}

/// Word `i` of a payload: the little-endian `u64` at byte `8 * i`, or 0 when
/// the payload is too short to hold it.
pub open spec fn spec_word(payload: Seq<u8>, i: int) -> u64 {
    if 8 * i + 8 <= payload.len() {
        le_u64(payload, 8 * i) as u64
    } else {
        0
    }
}

/// Word 0: the per-capture descriptor tag.
pub open spec fn spec_descriptor_tag(payload: Seq<u8>) -> u64 {
    spec_word(payload, 0)
}

/// The descriptor decoded from `payload`: words 1 to 8 give type, format,
/// width, height, depth, mip levels, array length and sample count (low 32
/// bits each), word 11 the usage and word 17 the texture id.
pub open spec fn spec_descriptor(payload: Seq<u8>, store0_offset: u64) -> TextureDescriptor {
    TextureDescriptor {
        store0_offset,
        texture_type: spec_word(payload, 1) as u32,
        format: spec_word(payload, 2) as u32,
        width: spec_word(payload, 3) as u32,
        height: spec_word(payload, 4) as u32,
        depth: spec_word(payload, 5) as u32,
        mip_levels: spec_word(payload, 6) as u32,
        array_length: spec_word(payload, 7) as u32,
        sample_count: spec_word(payload, 8) as u32,
        usage: spec_word(payload, 11),
        texture_id: spec_word(payload, 17),
    }
}

/// Read word `i` (little-endian u64) of a descriptor payload, 0 if out of range.
fn word(payload: &[u8], i: usize) -> (r: u64)
    requires
        8 * i + 8 <= usize::MAX,
    ensures
        r == spec_word(payload@, i as int),
{
    let o = i * 8;
    if o + 8 <= payload.len() {
        read_u64_le(payload, o)
    } else {
        0
    }
}

/// Word 0: the per-capture descriptor tag shared by every descriptor struct.
pub fn descriptor_tag(payload: &[u8]) -> (r: u64)
    ensures
        r == spec_descriptor_tag(payload@),
{
    word(payload, 0)
}

/// Decodes the descriptor fields of `payload`, found at `store0_offset`.
pub fn parse_descriptor(payload: &[u8], store0_offset: u64) -> (r: TextureDescriptor)
    ensures
        r == spec_descriptor(payload@, store0_offset),
        payload@.len() == DESC_SIZE ==> descriptor_fields_at_fixed_bytes(
            payload@,
            store0_offset,
            r,
        ),
{
    proof {
        if payload@.len() == DESC_SIZE {
            lemma_descriptor_fields_at_fixed_bytes(payload@, store0_offset);
        }
    }
    TextureDescriptor {
        store0_offset,
        texture_type: word(payload, 1) as u32,
        format: word(payload, 2) as u32,
        width: word(payload, 3) as u32,
        height: word(payload, 4) as u32,
        depth: word(payload, 5) as u32,
        mip_levels: word(payload, 6) as u32,
        array_length: word(payload, 7) as u32,
        sample_count: word(payload, 8) as u32,
        usage: word(payload, 11),
        texture_id: word(payload, 17),
    }
}

/// The low 32 bits of the little-endian `u64` at `at` are the
/// little-endian `u32` at `at`.
pub proof fn lemma_low_half_of_le_u64(b: Seq<u8>, at: int)
    requires
        0 <= at,
        at + 8 <= b.len(),
    ensures
        0 <= le_u64(b, at) < 0x1_0000_0000_0000_0000,
        (le_u64(b, at) as u64) as u32 == le_u32(b, at),
{
    let lo = le_u32(b, at);
    let hi = le_u32(b, at + 4);
    assert(0 <= lo < 0x1_0000_0000);
    assert(0 <= hi < 0x1_0000_0000);
    let x = le_u64(b, at) as u64;
    assert(x == lo + 0x1_0000_0000 * hi);
    assert((x as u32) == x % 0x1_0000_0000) by (bit_vector);
    assert((lo + 0x1_0000_0000 * hi) % 0x1_0000_0000 == lo) by (nonlinear_arith)
        requires
            0 <= lo < 0x1_0000_0000,
            0 <= hi,
    ;
}

/// The fields of descriptor `d`, decoded from the 248-byte payload `p` found
/// at `off`, sit at fixed byte offsets of `p`: each 32-bit field is the low
/// half (the little-endian `u32`) of its 8-byte word, at bytes 8 (type), 16
/// (format), 24 (width), 32 (height), 40 (depth), 48 (mip levels), 56 (array
/// length) and 64 (sample count); usage is the little-endian `u64` at byte
/// 88 and the texture id the one at byte 136.
pub open spec fn descriptor_fields_at_fixed_bytes(
    p: Seq<u8>,
    off: u64,
    d: TextureDescriptor,
) -> bool {
    &&& d.store0_offset == off
    &&& d.texture_type == le_u32(p, 8)
    &&& d.format == le_u32(p, 16)
    &&& d.width == le_u32(p, 24)
    &&& d.height == le_u32(p, 32)
    &&& d.depth == le_u32(p, 40)
    &&& d.mip_levels == le_u32(p, 48)
    &&& d.array_length == le_u32(p, 56)
    &&& d.sample_count == le_u32(p, 64)
    &&& d.usage == le_u64(p, 88)
    &&& d.texture_id == le_u64(p, 136)
}

/// Decoding a 248-byte payload reads each field from its own fixed bytes.
pub proof fn lemma_descriptor_fields_at_fixed_bytes(p: Seq<u8>, off: u64)
    requires
        p.len() == DESC_SIZE,
    ensures
        descriptor_fields_at_fixed_bytes(p, off, spec_descriptor(p, off)),
{
    lemma_low_half_of_le_u64(p, 8);
    lemma_low_half_of_le_u64(p, 16);
    lemma_low_half_of_le_u64(p, 24);
    lemma_low_half_of_le_u64(p, 32);
    lemma_low_half_of_le_u64(p, 40);
    lemma_low_half_of_le_u64(p, 48);
    lemma_low_half_of_le_u64(p, 56);
    lemma_low_half_of_le_u64(p, 64);
    lemma_low_half_of_le_u64(p, 88);
    lemma_low_half_of_le_u64(p, 136);
}

/// The tag of a payload of at least 8 bytes is the little-endian `u64` in
/// its first 8 bytes.
pub proof fn lemma_tag_is_first_word(p: Seq<u8>)
    requires
        p.len() >= 8,
    ensures
        spec_descriptor_tag(p) == le_u64(p, 0),
{
    lemma_low_half_of_le_u64(p, 0);
}

/// If `w` occurs in `s` strictly more often than every other value of `s`,
/// the vote elects `w`.
pub proof fn lemma_strict_majority_wins(s: Seq<u64>, w: u64)
    requires
        occurrences(s, w) > 0,
        forall|j: int| 0 <= j < s.len() && s[j] != w ==> occurrences(s, s[j]) < occurrences(s, w),
    ensures
        spec_modal_tag(s) == Some(w),
{
    lemma_occurrences_witness(s, w);
    lemma_modal_tag_exists(s);
    let v = spec_modal_tag(s)->0;
    if v != w {
        let iv = choose|i: int|
            0 <= i < s.len() && #[trigger] s[i] == v && forall|j: int|
                0 <= j < i ==> occurrences(s, #[trigger] s[j]) < occurrences(s, v);
        let iw = choose|i: int| 0 <= i < s.len() && s[i] == w;
        assert(occurrences(s, s[iv]) < occurrences(s, w));
        assert(occurrences(s, s[iw]) <= occurrences(s, v));
    }
}

proof fn lemma_occurrences_witness(s: Seq<u64>, w: u64)
    requires
        occurrences(s, w) > 0,
    ensures
        exists|i: int| 0 <= i < s.len() && s[i] == w,
    decreases s.len(),
{
    if s.last() == w {
        assert(s[s.len() - 1] == w);
    } else {
        lemma_occurrences_witness(s.drop_last(), w);
        let i = choose|i: int| 0 <= i < s.drop_last().len() && s.drop_last()[i] == w;
        assert(s[i] == w);
    }
}

/// How many times `w` occurs in `s`.
pub open spec fn occurrences(s: Seq<u64>, w: u64) -> nat
    decreases s.len(),
{
    if s.len() == 0 {
        0
    } else {
        occurrences(s.drop_last(), w) + if s.last() == w {
            1nat
        } else {
            0nat
        }
    }
}

/// `w` is the tag of `s` that wins the vote: it occurs at some position
/// `i`, no value occurs more often, and every value met before position `i`
/// occurs strictly less often (ties go to the value seen first).
pub open spec fn is_modal_tag(s: Seq<u64>, w: u64) -> bool {
    &&& exists|i: int|
        0 <= i < s.len() && #[trigger] s[i] == w && forall|j: int|
            0 <= j < i ==> occurrences(s, #[trigger] s[j]) < occurrences(s, w)
    &&& forall|j: int| 0 <= j < s.len() ==> occurrences(s, #[trigger] s[j]) <= occurrences(s, w)
}

/// The most common value of `s` (the first seen among equally common ones),
/// `None` when `s` is empty.
pub open spec fn spec_modal_tag(s: Seq<u64>) -> Option<u64> {
    if s.len() == 0 {
        None
    } else {
        Some(choose|w: u64| is_modal_tag(s, w))
    }
}

proof fn lemma_occurrences_bounded(s: Seq<u64>, w: u64)
    ensures
        occurrences(s, w) <= s.len(),
    decreases s.len(),
{
    if s.len() > 0 {
        lemma_occurrences_bounded(s.drop_last(), w);
    }
}

proof fn lemma_occurrences_positive(s: Seq<u64>, i: int)
    requires
        0 <= i < s.len(),
    ensures
        occurrences(s, s[i]) > 0,
    decreases s.len(),
{
    if i < s.len() - 1 {
        lemma_occurrences_positive(s.drop_last(), i);
    }
}

/// The winning tag of a vote is unique.
pub proof fn lemma_modal_tag_unique(s: Seq<u64>, a: u64, b: u64)
    requires
        is_modal_tag(s, a),
        is_modal_tag(s, b),
    ensures
        a == b,
{
    let ia = choose|i: int|
        0 <= i < s.len() && #[trigger] s[i] == a && forall|j: int|
            0 <= j < i ==> occurrences(s, #[trigger] s[j]) < occurrences(s, a);
    let ib = choose|i: int|
        0 <= i < s.len() && #[trigger] s[i] == b && forall|j: int|
            0 <= j < i ==> occurrences(s, #[trigger] s[j]) < occurrences(s, b);
    if ia < ib {
        assert(occurrences(s, s[ia]) < occurrences(s, b));
        assert(occurrences(s, s[ib]) <= occurrences(s, a));
    } else if ib < ia {
        assert(occurrences(s, s[ib]) < occurrences(s, a));
        assert(occurrences(s, s[ia]) <= occurrences(s, b));
    }
}

/// Every non-empty sequence of tags has a winning tag, so `spec_modal_tag`
/// names a value of the sequence that wins the vote.
pub proof fn lemma_modal_tag_exists(s: Seq<u64>)
    requires
        s.len() > 0,
    ensures
        exists|w: u64| is_modal_tag(s, w),
        spec_modal_tag(s) matches Some(w) && is_modal_tag(s, w),
{
    let m = lemma_modal_prefix(s, s.len() as int);
    assert(is_modal_tag(s, s[m]));
}

/// Among the first `t` positions, position `m` holds a most common value,
/// and every earlier position holds a strictly less common one.
proof fn lemma_modal_prefix(s: Seq<u64>, t: int) -> (m: int)
    requires
        0 < t <= s.len(),
    ensures
        0 <= m < t,
        forall|j: int| 0 <= j < t ==> occurrences(s, #[trigger] s[j]) <= occurrences(s, s[m]),
        forall|j: int| 0 <= j < m ==> occurrences(s, #[trigger] s[j]) < occurrences(s, s[m]),
    decreases t,
{
    if t == 1 {
        0
    } else {
        let m0 = lemma_modal_prefix(s, t - 1);
        if occurrences(s, s[t - 1]) > occurrences(s, s[m0]) {
            t - 1
        } else {
            m0
        }
    }
}

/// The capture's descriptor tag: the most common word-0 value among the
/// 248-byte payloads. `None` when there are none.
pub fn derive_tag(word0s: &[u64]) -> (r: Option<u64>)
    ensures
        r == spec_modal_tag(word0s@),
{
    broadcast use vstd::std_specs::hash::group_hash_axioms;

    let ghost s = word0s@;
    let mut votes: HashMap<u64, usize> = HashMap::new();
    let mut i: usize = 0;
    while i < word0s.len()
        invariant
            s == word0s@,
            i <= s.len(),
            forall|x: u64| #[trigger]
                votes@.contains_key(x) ==> votes@[x] == occurrences(s.take(i as int), x),
            forall|x: u64|
                !(#[trigger] votes@.contains_key(x)) ==> occurrences(s.take(i as int), x) == 0,
        decreases s.len() - i,
    {
        let w = word0s[i];
        proof {
            assert(s.take(i + 1).drop_last() =~= s.take(i as int));
            lemma_occurrences_bounded(s.take(i as int), w);
        }
        let c: usize = match votes.get(&w) {
            Some(c) => *c,
            None => 0,
        };
        votes.insert(w, c + 1);
        i = i + 1;
    }
    proof {
        assert(s.take(s.len() as int) =~= s);
    }
    let mut best: Option<(u64, usize)> = None;
    let ghost mut best_at: int = 0;
    let mut i: usize = 0;
    while i < word0s.len()
        invariant
            s == word0s@,
            i <= s.len(),
            forall|x: u64| #[trigger]
                votes@.contains_key(x) ==> votes@[x] == occurrences(s, x),
            forall|x: u64| !(#[trigger] votes@.contains_key(x)) ==> occurrences(s, x) == 0,
            i == 0 <==> best is None,
            best matches Some((w, c)) ==> {
                &&& 0 <= best_at < i
                &&& s[best_at] == w
                &&& c == occurrences(s, w)
                &&& forall|j: int| 0 <= j < best_at ==> occurrences(s, #[trigger] s[j]) < c
                &&& forall|j: int| 0 <= j < i ==> occurrences(s, #[trigger] s[j]) <= c
            },
        decreases s.len() - i,
    {
        let w = word0s[i];
        proof {
            lemma_occurrences_positive(s, i as int);
        }
        let c: usize = match votes.get(&w) {
            Some(c) => *c,
            None => 0,
        };
        let better = match best {
            None => true,
            Some((_, bc)) => c > bc,
        };
        if better {
            best = Some((w, c));
            proof {
                best_at = i as int;
            }
        }
        i = i + 1;
    }
    match best {
        None => None,
        Some((w, _)) => {
            proof {
                assert(s[best_at] == w);
                assert(is_modal_tag(s, w));
                let v = choose|v: u64| is_modal_tag(s, v);
                lemma_modal_tag_unique(s, w, v);
            }
            Some(w)
        },
    }
}

} // verus!
