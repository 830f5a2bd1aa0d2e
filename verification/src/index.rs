//! The `xdic` index: a 20-byte header, a bucket table, then a record array.

use crate::bytes::{le_u32, le_u64, read_u32_le, read_u64_le};
use crate::{is_bad_index, Error};
use vstd::prelude::*;

verus! {

/// Length of the index header.
pub const HEADER_LEN: usize = 20;

/// Length of one bucket of the bucket table.
pub const BUCKET_SIZE: usize = 12;

/// Length of one record of the record array.
pub const RECORD_SIZE: usize = 24;

/// The word that marks an empty bucket slot.
pub const EMPTY: u32 = 0xFFFF_FFFF;

/// The index starts with these four bytes, `xdic`.
pub open spec fn has_xdic_magic(index: Seq<u8>) -> bool {
    &&& index.len() >= 4
    &&& index[0] == 0x78u8
    &&& index[1] == 0x64u8
    &&& index[2] == 0x69u8
    &&& index[3] == 0x63u8
}

/// The header's counts.
pub struct Header {
    pub bucket_count: u32,
    pub record_count: u32,
}

/// Why the header of `index` is refused, if it is.
pub open spec fn header_fault(index: Seq<u8>) -> Option<&'static str> {
    if index.len() < HEADER_LEN {
        Some("index shorter than header")
    } else if !has_xdic_magic(index) {
        Some("bad xdic magic")
    } else {
        None
    }
}

/// Header word 2: the number of buckets.
pub open spec fn spec_bucket_count(index: Seq<u8>) -> u32 {
    le_u32(index, 8) as u32
}

/// Header word 3: the number of records.
pub open spec fn spec_record_count(index: Seq<u8>) -> u32 {
    le_u32(index, 12) as u32
}

/// Where the record array starts: after the header and the bucket table.
pub open spec fn spec_record_array_offset(bucket_count: u32) -> int {
    HEADER_LEN + BUCKET_SIZE * bucket_count
}

impl Header {
    /// Parses the 20-byte header: the `xdic` magic, then little-endian
    /// words, of which word 2 counts buckets and word 3 counts records.
    pub fn parse(index: &[u8]) -> (r: Result<Header, Error>)
        ensures
            match header_fault(index@) {
                Some(why) => is_bad_index(r, why),
                None => r matches Ok(h) && h.bucket_count == spec_bucket_count(index@)
                    && h.record_count == spec_record_count(index@),
            },
    {
        if index.len() < HEADER_LEN {
            return Err(Error::BadIndex("index shorter than header"));
        }
        if !(index[0] == 0x78u8 && index[1] == 0x64u8 && index[2] == 0x69u8 && index[3]
            == 0x63u8) {
            return Err(Error::BadIndex("bad xdic magic"));
        }
        Ok(Header { bucket_count: read_u32_le(index, 8), record_count: read_u32_le(index, 12) })
    }

    /// The record array begins after the header and the bucket table.
    pub fn record_array_offset(&self) -> (r: Result<usize, Error>)
        ensures
            spec_record_array_offset(self.bucket_count) <= usize::MAX ==> r == Ok::<usize, Error>(
                spec_record_array_offset(self.bucket_count) as usize,
            ),
            spec_record_array_offset(self.bucket_count) > usize::MAX ==> is_bad_index(
                r,
                "record array offset overflow",
            ),
    {
        match (self.bucket_count as usize).checked_mul(BUCKET_SIZE) {
            Some(b) => match b.checked_add(HEADER_LEN) {
                Some(o) => Ok(o),
                None => Err(Error::BadIndex("record array offset overflow")),
            },
            None => Err(Error::BadIndex("record array offset overflow")),
        }
    }
}


/// One 24-byte record: the uncompressed and compressed sizes of its extent
/// and where that extent starts in `store0`.
#[derive(Clone, Copy, Debug, PartialEq, Eq, Structural)]
pub struct Record {
    pub usize_len: u32,
    pub csize: u32,
    pub store0_offset: u64,
}

/// The record whose 24 bytes start at `off`: little-endian `u32` sizes at
/// `off` and `off + 4`, the little-endian `u64` offset at `off + 8`.
pub open spec fn spec_record(index: Seq<u8>, off: int) -> Record {
    Record {
        usize_len: le_u32(index, off) as u32,
        csize: le_u32(index, off + 4) as u32,
        store0_offset: le_u64(index, off + 8) as u64,
    }
}

impl Record {
    /// An alias carries a marker where an extent would be.
    pub open spec fn spec_is_alias(self, id: int) -> bool {
        self.store0_offset == 0 && self.csize == id
    }

    /// Parses the record at byte offset `off`, if all 24 bytes are there.
    pub fn parse_at(index: &[u8], off: usize) -> (r: Option<Record>)
        ensures
            off + RECORD_SIZE <= index@.len() ==> r == Some(spec_record(index@, off as int)),
            off + RECORD_SIZE > index@.len() ==> r is None,
    {
        if off > index.len() || index.len() - off < RECORD_SIZE {
            return None;
        }
        Some(
            Record {
                usize_len: read_u32_le(index, off),
                csize: read_u32_le(index, off + 4),
                store0_offset: read_u64_le(index, off + 8),
            },
        )
    }

    /// An alias carries a marker where an extent would be: `store0_offset == 0`
    /// and `csize == this record's own index`. Its bytes live in a canonical
    /// record reached via the bucket table.
    pub fn is_alias(&self, id: usize) -> (r: bool)
        ensures
            r == self.spec_is_alias(id as int),
            r == (self.store0_offset == 0 && self.csize as int == id as int),
    {
        self.store0_offset == 0 && self.csize as usize == id
    }
}


/// Where bucket `k` starts.
pub open spec fn bucket_at(k: int) -> int {
    HEADER_LEN + BUCKET_SIZE * k
}

/// Bucket word 0: the record that holds the bytes.
pub open spec fn bucket_canon(index: Seq<u8>, k: int) -> int {
    le_u32(index, bucket_at(k))
}

/// Bucket word 1: the record that the bucket redirects.
pub open spec fn bucket_this(index: Seq<u8>, k: int) -> int {
    le_u32(index, bucket_at(k) + 4)
}

/// Bucket word 2: `EMPTY` in every occupied bucket.
pub open spec fn bucket_marker(index: Seq<u8>, k: int) -> int {
    le_u32(index, bucket_at(k) + 8)
}

/// A bucket whose three words are all `EMPTY`.
pub open spec fn bucket_is_empty(index: Seq<u8>, k: int) -> bool {
    bucket_canon(index, k) == EMPTY && bucket_this(index, k) == EMPTY && bucket_marker(index, k)
        == EMPTY
}

/// An occupied bucket that is well formed for `n` records.
pub open spec fn bucket_is_valid(index: Seq<u8>, k: int, n: int) -> bool {
    bucket_marker(index, k) == EMPTY && bucket_this(index, k) < n && bucket_canon(index, k) < n
}

/// The bucket table of `bucket_count` buckets lies inside the index, each
/// bucket is empty or well formed, and no two occupied buckets redirect the
/// same record.
pub open spec fn table_is_valid(index: Seq<u8>, bucket_count: int, n: int) -> bool {
    &&& bucket_count == 0 || bucket_at(bucket_count) <= index.len()
    &&& forall|k: int|
        0 <= k < bucket_count ==> bucket_is_empty(index, k) || bucket_is_valid(index, k, n)
    &&& forall|k1: int, k2: int|
        0 <= k1 < k2 < bucket_count && !bucket_is_empty(index, k1) && !bucket_is_empty(index, k2)
            ==> bucket_this(index, k1) != bucket_this(index, k2)
}

/// Some occupied bucket redirects record `id`.
pub open spec fn is_redirected(index: Seq<u8>, bucket_count: int, id: int) -> bool {
    exists|k: int|
        0 <= k < bucket_count && !bucket_is_empty(index, k) && #[trigger] bucket_this(index, k)
            == id
}

/// The record that holds record `id`'s bytes under a valid table.
pub open spec fn redirect(index: Seq<u8>, bucket_count: int, id: int) -> int {
    if is_redirected(index, bucket_count, id) {
        bucket_canon(
            index,
            choose|k: int|
                0 <= k < bucket_count && !bucket_is_empty(index, k) && #[trigger] bucket_this(
                    index,
                    k,
                ) == id,
        )
    } else {
        id
    }
}

/// The canonical record of each of the `n` records, or `None` when the
/// table fails validation.
pub open spec fn spec_canonical_table(index: Seq<u8>, bucket_count: int, n: int) -> Option<
    Seq<u32>,
> {
    if table_is_valid(index, bucket_count, n) {
        Some(Seq::new(n as nat, |id: int| redirect(index, bucket_count, id) as u32))
    } else {
        None
    }
}

/// Open-addressed hash table mapping each record to the record that actually
/// holds its bytes. Absent (`None`) when the table fails validation, in which
/// case every non-alias record is still usable.
pub struct Buckets {
    canonical: Vec<u32>,
}

impl View for Buckets {
    type V = Seq<u32>;

    closed spec fn view(&self) -> Seq<u32> {
        self.canonical@
    }
}

impl Buckets {
    /// Reads and validates the bucket table that follows the header.
    pub fn build(index: &[u8], header: &Header) -> (r: Option<Buckets>)
        requires
            spec_record_array_offset(header.bucket_count) <= usize::MAX,
        ensures
            match r {
                Some(b) => spec_canonical_table(
                    index@,
                    header.bucket_count as int,
                    header.record_count as int,
                ) == Some(b@),
                None => spec_canonical_table(
                    index@,
                    header.bucket_count as int,
                    header.record_count as int,
                ) is None,
            },
    {
        let n = header.record_count as usize;
        let bc = header.bucket_count as usize;
        let ghost idx = index@;
        let ghost ni = n as int;
        let mut canonical: Vec<u32> = Vec::new();
        let mut seen: Vec<bool> = Vec::new();
        let mut id: u32 = 0;
        while id < header.record_count
            invariant
                n == header.record_count,
                id <= header.record_count,
                canonical@.len() == id,
                seen@.len() == id,
                forall|i: int| 0 <= i < id ==> canonical@[i] == i && !seen@[i],
            decreases header.record_count - id,
        {
            canonical.push(id);
            seen.push(false);
            id = id + 1;
        }
        let mut k: usize = 0;
        while k < bc
            invariant
                idx == index@,
                ni == n,
                n == header.record_count,
                bc == header.bucket_count,
                spec_record_array_offset(header.bucket_count) <= usize::MAX,
                k <= bc,
                canonical@.len() == n,
                seen@.len() == n,
                k == 0 || bucket_at(k as int) <= idx.len(),
                forall|j: int|
                    0 <= j < k ==> bucket_is_empty(idx, j) || bucket_is_valid(idx, j, ni),
                forall|k1: int, k2: int|
                    0 <= k1 < k2 < k && !bucket_is_empty(idx, k1) && !bucket_is_empty(idx, k2)
                        ==> bucket_this(idx, k1) != bucket_this(idx, k2),
                forall|i: int| 0 <= i < n ==> (seen@[i] <==> is_redirected(idx, k as int, i)),
                forall|j: int|
                    0 <= j < k && !bucket_is_empty(idx, j) ==> canonical@[bucket_this(idx, j)]
                        == bucket_canon(idx, j),
                forall|i: int| 0 <= i < n && !seen@[i] ==> canonical@[i] == i,
            decreases bc - k,
        {
            let at = HEADER_LEN + k * BUCKET_SIZE;
            if at > index.len() || index.len() - at < BUCKET_SIZE {
                return None;
            }
            let canon = read_u32_le(index, at);
            let this = read_u32_le(index, at + 4);
            let third = read_u32_le(index, at + 8);
            assert(canon == bucket_canon(idx, k as int));
            assert(this == bucket_this(idx, k as int));
            assert(third == bucket_marker(idx, k as int));
            if canon == EMPTY && this == EMPTY && third == EMPTY {
                assert forall|i: int| 0 <= i < n implies (seen@[i] <==> is_redirected(
                    idx,
                    k + 1,
                    i,
                )) by {
                    if is_redirected(idx, k + 1, i) {
                        let w = choose|w: int|
                            0 <= w < k + 1 && !bucket_is_empty(idx, w) && #[trigger] bucket_this(
                                idx,
                                w,
                            ) == i;
                        assert(is_redirected(idx, k as int, i));
                    }
                    if is_redirected(idx, k as int, i) {
                        let w = choose|w: int|
                            0 <= w < k && !bucket_is_empty(idx, w) && #[trigger] bucket_this(
                                idx,
                                w,
                            ) == i;
                        assert(is_redirected(idx, k + 1, i));
                    }
                }
                k = k + 1;
                continue ;
            }
            if third != EMPTY {
                assert(!bucket_is_empty(idx, k as int) && !bucket_is_valid(idx, k as int, ni));
                return None;
            }
            let ti = this as usize;
            let ci = canon as usize;
            if ti >= n || ci >= n {
                assert(!bucket_is_empty(idx, k as int) && !bucket_is_valid(idx, k as int, ni));
                return None;
            }
            if seen[ti] {
                proof {
                    let w = choose|w: int|
                        0 <= w < k && !bucket_is_empty(idx, w) && #[trigger] bucket_this(idx, w)
                            == ti;
                    assert(bucket_this(idx, w) == bucket_this(idx, k as int));
                }
                return None;
            }
            seen.set(ti, true);
            canonical.set(ti, canon);
            proof {
                assert forall|i: int| 0 <= i < n implies (seen@[i] <==> is_redirected(
                    idx,
                    k + 1,
                    i,
                )) by {
                    if is_redirected(idx, k + 1, i) && i != ti {
                        let w = choose|w: int|
                            0 <= w < k + 1 && !bucket_is_empty(idx, w) && #[trigger] bucket_this(
                                idx,
                                w,
                            ) == i;
                        assert(is_redirected(idx, k as int, i));
                    }
                    if is_redirected(idx, k as int, i) {
                        let w = choose|w: int|
                            0 <= w < k && !bucket_is_empty(idx, w) && #[trigger] bucket_this(
                                idx,
                                w,
                            ) == i;
                        assert(is_redirected(idx, k + 1, i));
                    }
                    if i == ti {
                        assert(bucket_this(idx, k as int) == i);
                        assert(is_redirected(idx, k + 1, i));
                    }
                }
                assert forall|j: int|
                    0 <= j < k + 1 && !bucket_is_empty(idx, j) implies canonical@[bucket_this(
                    idx,
                    j,
                )] == bucket_canon(idx, j) by {
                    if j < k {
                        assert(bucket_this(idx, j) != bucket_this(idx, k as int)) by {
                            assert(is_redirected(idx, k as int, bucket_this(idx, j)));
                        }
                    }
                }
            }
            k = k + 1;
        }
        proof {
            assert(table_is_valid(idx, bc as int, ni));
            let t = Seq::new(ni as nat, |i: int| redirect(idx, bc as int, i) as u32);
            assert forall|i: int| 0 <= i < ni implies canonical@[i] == t[i] by {
                if is_redirected(idx, bc as int, i) {
                    let w = choose|w: int|
                        0 <= w < bc && !bucket_is_empty(idx, w) && #[trigger] bucket_this(idx, w)
                            == i;
                    assert(canonical@[bucket_this(idx, w)] == bucket_canon(idx, w));
                }
            }
            assert(canonical@ =~= t);
        }
        Some(Buckets { canonical })
    }

    /// The record holding `id`'s bytes (itself when not aliased).
    pub fn canonical(&self, id: usize) -> (r: usize)
        ensures
            r == resolve(Some(self@), id as int),
    {
        if id < self.canonical.len() {
            self.canonical[id] as usize
        } else {
            id
        }
    }
}

/// The byte layout of the index: the header counts are the little-endian
/// words at bytes 8 (buckets) and 12 (records); the record array starts 20
/// bytes plus 12 per bucket into the index; a record holds its sizes at
/// bytes 0 and 4 and its `store0` offset, a little-endian `u64`, at byte 8.
pub proof fn lemma_index_layout(index: Seq<u8>, off: int)
    requires
        index.len() >= 20,
        0 <= off,
        off + 24 <= index.len(),
    ensures
        spec_bucket_count(index) as int == le_u32(index, 8),
        spec_record_count(index) as int == le_u32(index, 12),
        spec_record_array_offset(spec_bucket_count(index)) == 20 + 12 * le_u32(index, 8),
        spec_record(index, off).usize_len as int == le_u32(index, off),
        spec_record(index, off).csize as int == le_u32(index, off + 4),
        spec_record(index, off).store0_offset as int == le_u64(index, off + 8),
{
    assert(0 <= le_u32(index, 8) < 0x1_0000_0000);
    assert(0 <= le_u32(index, 12) < 0x1_0000_0000);
    assert(0 <= le_u32(index, off) < 0x1_0000_0000);
    assert(0 <= le_u32(index, off + 4) < 0x1_0000_0000);
    assert(0 <= le_u32(index, off + 8) < 0x1_0000_0000);
    assert(0 <= le_u32(index, off + 12) < 0x1_0000_0000);
}

/// An alias marker names exactly one record: a record is an alias for `id`
/// only at offset 0 with `csize` equal to `id`, so it is an alias for at
/// most one id, and never for an id other than its `csize`.
pub proof fn lemma_alias_marker_names_one_id(r: Record, a: int, b: int)
    ensures
        r.spec_is_alias(a) && r.spec_is_alias(b) ==> a == b,
        r.csize != a ==> !r.spec_is_alias(a),
        r.store0_offset != 0 ==> !r.spec_is_alias(a),
        r.store0_offset == 0 ==> r.spec_is_alias(r.csize as int),
{
}

/// A table whose buckets all lie in the index, each empty (three `EMPTY`
/// words) or carrying the `EMPTY` marker with both record numbers below `n`,
/// and no two occupied buckets naming the same redirected record, is
/// accepted, and every occupied bucket redirects its record to its
/// canonical record. Several buckets may share one canonical record.
pub proof fn lemma_well_formed_table_is_accepted(index: Seq<u8>, bucket_count: int, n: u32)
    requires
        0 <= bucket_count,
        bucket_count == 0 || 20 + 12 * bucket_count <= index.len(),
        forall|k: int|
            0 <= k < bucket_count ==> {
                ||| (le_u32(index, 20 + 12 * k) == 0xFFFF_FFFF && le_u32(index, 24 + 12 * k)
                    == 0xFFFF_FFFF && #[trigger] le_u32(index, 28 + 12 * k) == 0xFFFF_FFFF)
                ||| (le_u32(index, 28 + 12 * k) == 0xFFFF_FFFF && le_u32(index, 24 + 12 * k) < n
                    && le_u32(index, 20 + 12 * k) < n)
            },
        forall|k1: int, k2: int|
            0 <= k1 < k2 < bucket_count && !(le_u32(index, 20 + 12 * k1) == 0xFFFF_FFFF
                && le_u32(index, 24 + 12 * k1) == 0xFFFF_FFFF && le_u32(index, 28 + 12 * k1)
                == 0xFFFF_FFFF) && !(le_u32(index, 20 + 12 * k2) == 0xFFFF_FFFF && le_u32(
                index,
                24 + 12 * k2,
            ) == 0xFFFF_FFFF && le_u32(index, 28 + 12 * k2) == 0xFFFF_FFFF) ==> #[trigger] le_u32(
                index,
                24 + 12 * k1,
            ) != #[trigger] le_u32(index, 24 + 12 * k2),
    ensures
        spec_canonical_table(index, bucket_count, n as int) is Some,
        spec_canonical_table(index, bucket_count, n as int)->0.len() == n,
        forall|k: int|
            0 <= k < bucket_count && !(le_u32(index, 20 + 12 * k) == 0xFFFF_FFFF && le_u32(
                index,
                24 + 12 * k,
            ) == 0xFFFF_FFFF && le_u32(index, 28 + 12 * k) == 0xFFFF_FFFF) ==> resolve(
                spec_canonical_table(index, bucket_count, n as int),
                #[trigger] le_u32(index, 24 + 12 * k),
            ) == le_u32(index, 20 + 12 * k),
{
    assert forall|k: int|
        0 <= k < bucket_count implies bucket_is_empty(index, k) || bucket_is_valid(
        index,
        k,
        n as int,
    ) by {
        assert(bucket_at(k) == 20 + 12 * k);
        assert(le_u32(index, 28 + 12 * k) == bucket_marker(index, k));
    }
    assert forall|k1: int, k2: int|
        0 <= k1 < k2 < bucket_count && !bucket_is_empty(index, k1) && !bucket_is_empty(index, k2)
            implies bucket_this(index, k1) != bucket_this(index, k2) by {
        assert(bucket_this(index, k1) == le_u32(index, 24 + 12 * k1));
        assert(bucket_this(index, k2) == le_u32(index, 24 + 12 * k2));
    }
    assert(table_is_valid(index, bucket_count, n as int));
    assert forall|k: int|
        0 <= k < bucket_count && !(le_u32(index, 20 + 12 * k) == 0xFFFF_FFFF && le_u32(
            index,
            24 + 12 * k,
        ) == 0xFFFF_FFFF && le_u32(index, 28 + 12 * k) == 0xFFFF_FFFF) implies resolve(
        spec_canonical_table(index, bucket_count, n as int),
        #[trigger] le_u32(index, 24 + 12 * k),
    ) == le_u32(index, 20 + 12 * k) by {
        let id = bucket_this(index, k);
        assert(le_u32(index, 28 + 12 * k) == bucket_marker(index, k));
        assert(bucket_is_valid(index, k, n as int));
        assert(is_redirected(index, bucket_count, id));
        let w = choose|w: int|
            0 <= w < bucket_count && !bucket_is_empty(index, w) && #[trigger] bucket_this(index, w)
                == id;
        if w != k {
            if w < k {
                assert(bucket_this(index, w) != bucket_this(index, k));
            } else {
                assert(bucket_this(index, k) != bucket_this(index, w));
            }
        }
        assert(bucket_canon(index, k) < n);
    }
}

/// A table is refused when a bucket lies past the end of the index, when a
/// bucket that is not all `EMPTY` lacks the `EMPTY` marker or names a record
/// at or past `n`, or when two occupied buckets redirect the same record.
pub proof fn lemma_ill_formed_table_is_refused(index: Seq<u8>, bucket_count: int, n: int, k: int, k2: int)
    requires
        0 <= k < bucket_count,
    ensures
        20 + 12 * bucket_count > index.len() ==> spec_canonical_table(index, bucket_count, n) is None,
        !(le_u32(index, 20 + 12 * k) == 0xFFFF_FFFF && le_u32(index, 24 + 12 * k) == 0xFFFF_FFFF
            && le_u32(index, 28 + 12 * k) == 0xFFFF_FFFF) && (le_u32(index, 28 + 12 * k)
            != 0xFFFF_FFFF || le_u32(index, 24 + 12 * k) >= n || le_u32(index, 20 + 12 * k) >= n)
            ==> spec_canonical_table(index, bucket_count, n) is None,
        k < k2 < bucket_count && !(le_u32(index, 20 + 12 * k) == 0xFFFF_FFFF && le_u32(
            index,
            24 + 12 * k,
        ) == 0xFFFF_FFFF && le_u32(index, 28 + 12 * k) == 0xFFFF_FFFF) && !(le_u32(
            index,
            20 + 12 * k2,
        ) == 0xFFFF_FFFF && le_u32(index, 24 + 12 * k2) == 0xFFFF_FFFF && le_u32(
            index,
            28 + 12 * k2,
        ) == 0xFFFF_FFFF) && le_u32(index, 24 + 12 * k) == le_u32(index, 24 + 12 * k2)
            ==> spec_canonical_table(index, bucket_count, n) is None,
{
    assert(bucket_at(k) == 20 + 12 * k);
    assert(bucket_at(k2) == 20 + 12 * k2);
    assert(bucket_at(bucket_count) == 20 + 12 * bucket_count);
    if !bucket_is_empty(index, k) && !bucket_is_valid(index, k, n) {
        assert(!table_is_valid(index, bucket_count, n));
    }
    if k < k2 < bucket_count && !bucket_is_empty(index, k) && !bucket_is_empty(index, k2)
        && bucket_this(index, k) == bucket_this(index, k2) {
        assert(!table_is_valid(index, bucket_count, n));
    }
}

/// With a valid table, a record that no occupied bucket redirects (no
/// bucket, other than an all-`EMPTY` one, has it as its second word) is its
/// own canonical record.
pub proof fn lemma_unclaimed_record_is_its_own_canonical(
    index: Seq<u8>,
    bucket_count: int,
    n: u32,
    id: int,
)
    requires
        table_is_valid(index, bucket_count, n as int),
        0 <= id < n,
        forall|k: int|
            0 <= k < bucket_count && #[trigger] le_u32(index, 24 + 12 * k) == id ==> (le_u32(
                index,
                20 + 12 * k,
            ) == 0xFFFF_FFFF && le_u32(index, 24 + 12 * k) == 0xFFFF_FFFF && le_u32(
                index,
                28 + 12 * k,
            ) == 0xFFFF_FFFF),
    ensures
        resolve(spec_canonical_table(index, bucket_count, n as int), id) == id,
{
    if is_redirected(index, bucket_count, id) {
        let k = choose|k: int|
            0 <= k < bucket_count && !bucket_is_empty(index, k) && #[trigger] bucket_this(index, k)
                == id;
        assert(bucket_at(k) == 20 + 12 * k);
        assert(le_u32(index, 24 + 12 * k) == bucket_this(index, k));
    }
}

/// Under a valid table every record resolves to a record of the index, and
/// a record that no bucket redirects resolves to itself.
pub proof fn lemma_canonical_table_in_range(index: Seq<u8>, bucket_count: int, n: u32, id: int)
    requires
        table_is_valid(index, bucket_count, n as int),
        0 <= id < n,
    ensures
        0 <= resolve(spec_canonical_table(index, bucket_count, n as int), id) < n,
        !is_redirected(index, bucket_count, id) ==> resolve(
            spec_canonical_table(index, bucket_count, n as int),
            id,
        ) == id,
{
    if is_redirected(index, bucket_count, id) {
        let k = choose|k: int|
            0 <= k < bucket_count && !bucket_is_empty(index, k) && #[trigger] bucket_this(index, k)
                == id;
        assert(bucket_is_valid(index, k, n as int));
    }
}

/// The record that holds record `id`'s bytes, given the canonical table
/// (or its absence).
pub open spec fn resolve(table: Option<Seq<u32>>, id: int) -> int {
    match table {
        Some(t) => if 0 <= id < t.len() {
            t[id] as int
        } else {
            id
        },
        None => id,
    }
}

} // verus!
