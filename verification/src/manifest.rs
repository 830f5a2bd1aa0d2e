//! From the parsed index and `store0` to the capture's texture descriptors:
//! alias resolution, payload collection and selection by the modal tag.

use crate::bytes::le_u64;
use crate::descriptor::{
    descriptor_fields_at_fixed_bytes, descriptor_tag, lemma_descriptor_fields_at_fixed_bytes,
    lemma_strict_majority_wins, lemma_tag_is_first_word, occurrences, parse_descriptor,
    spec_descriptor, spec_descriptor_tag, spec_modal_tag, TextureDescriptor, DESC_SIZE,
};
use crate::index::{
    resolve, spec_bucket_count, spec_canonical_table, spec_record, spec_record_array_offset,
    spec_record_count, Buckets, Record, RECORD_SIZE,
};
use crate::store::{read_extent, spec_read_extent};
use vstd::prelude::*;

verus! {

/// A 248-byte descriptor payload and the `store0` offset of the record it
/// was inflated from.
pub struct Payload {
    pub store0_offset: u64,
    pub bytes: Vec<u8>,
}

impl View for Payload {
    type V = (u64, Seq<u8>);

    open spec fn view(&self) -> (u64, Seq<u8>) {
        (self.store0_offset, self.bytes@)
    }
}

/// The views of a run of payloads.
pub open spec fn payloads_view(v: Seq<Payload>) -> Seq<(u64, Seq<u8>)> {
    Seq::new(v.len(), |i: int| v[i]@)
}

/// The `n` records of the record array that starts at `rec_off`.
pub open spec fn spec_records(index: Seq<u8>, rec_off: int, n: int) -> Seq<Record> {
    Seq::new(n as nat, |i: int| spec_record(index, rec_off + RECORD_SIZE * i))
}

/// The payload that record `id` contributes, if any: a 248-byte record
/// whose canonical record exists, is no alias marker and is itself a
/// 248-byte record whose extent inflates to exactly 248 bytes. The payload
/// carries the canonical record's `store0` offset.
pub open spec fn spec_payload(
    records: Seq<Record>,
    table: Option<Seq<u32>>,
    store0: Seq<u8>,
    id: int,
) -> Option<(u64, Seq<u8>)> {
    let r = records[id];
    let cid = resolve(table, id);
    if r.usize_len != DESC_SIZE {
        None
    } else if !(0 <= cid < records.len()) {
        None
    } else {
        let cr = records[cid];
        if cr.spec_is_alias(cid) || cr.usize_len != DESC_SIZE {
            None
        } else {
            match spec_read_extent(store0, cr.store0_offset, cr.csize, cr.usize_len) {
                Some(p) => if p.len() == DESC_SIZE {
                    Some((cr.store0_offset, p))
                } else {
                    None
                },
                None => None,
            }
        }
    }
}

/// The payloads of records `0 .. count`, in record order.
pub open spec fn spec_payloads(
    records: Seq<Record>,
    table: Option<Seq<u32>>,
    store0: Seq<u8>,
    count: int,
) -> Seq<(u64, Seq<u8>)>
    decreases count,
{
    if count <= 0 {
        Seq::empty()
    } else {
        let before = spec_payloads(records, table, store0, count - 1);
        match spec_payload(records, table, store0, count - 1) {
            Some(p) => before.push(p),
            None => before,
        }
    }
}

/// The descriptor tag (word 0) of each payload.
pub open spec fn spec_tags(payloads: Seq<(u64, Seq<u8>)>) -> Seq<u64> {
    Seq::new(payloads.len(), |i: int| spec_descriptor_tag(payloads[i].1))
}

/// The descriptors of the payloads whose tag is `tag`, in payload order.
pub open spec fn spec_selected(payloads: Seq<(u64, Seq<u8>)>, tag: Option<u64>) -> Seq<
    TextureDescriptor,
>
    decreases payloads.len(),
{
    if payloads.len() == 0 {
        Seq::empty()
    } else {
        let before = spec_selected(payloads.drop_last(), tag);
        let last = payloads.last();
        if Some(spec_descriptor_tag(last.1)) == tag {
            before.push(spec_descriptor(last.1, last.0))
        } else {
            before
        }
    }
}

/// The payloads that an index and a store yield.
pub open spec fn spec_manifest_payloads(index: Seq<u8>, store0: Seq<u8>) -> Seq<(u64, Seq<u8>)> {
    let bc = spec_bucket_count(index);
    let n = spec_record_count(index) as int;
    spec_payloads(
        spec_records(index, spec_record_array_offset(bc), n),
        spec_canonical_table(index, bc as int, n),
        store0,
        n,
    )
}

/// The texture descriptors that an index and a store yield, before
/// ordering: every payload tagged with the capture's modal tag, decoded.
pub open spec fn spec_manifest_textures(index: Seq<u8>, store0: Seq<u8>) -> Seq<TextureDescriptor> {
    let payloads = spec_manifest_payloads(index, store0);
    spec_selected(payloads, spec_modal_tag(spec_tags(payloads)))
}

/// There are no more payloads than records considered.
pub proof fn lemma_payloads_bounded(
    records: Seq<Record>,
    table: Option<Seq<u32>>,
    store0: Seq<u8>,
    count: int,
)
    requires
        0 <= count,
    ensures
        spec_payloads(records, table, store0, count).len() <= count,
    decreases count,
{
    if count > 0 {
        lemma_payloads_bounded(records, table, store0, count - 1);
    }
}

/// Selecting never yields more descriptors than payloads.
pub proof fn lemma_selected_bounded(payloads: Seq<(u64, Seq<u8>)>, tag: Option<u64>)
    ensures
        spec_selected(payloads, tag).len() <= payloads.len(),
    decreases payloads.len(),
{
    if payloads.len() > 0 {
        lemma_selected_bounded(payloads.drop_last(), tag);
    }
}

/// Without a bucket table every record is its own canonical record: a
/// 248-byte record that is no alias marker contributes its own extent.
pub proof fn lemma_untabled_record_is_its_own_payload(
    records: Seq<Record>,
    store0: Seq<u8>,
    id: int,
    p: Seq<u8>,
)
    requires
        0 <= id < records.len(),
        records[id].usize_len == DESC_SIZE,
        records[id].store0_offset != 0 || records[id].csize != id,
        spec_read_extent(store0, records[id].store0_offset, records[id].csize, DESC_SIZE as u32)
            == Some(p),
        p.len() == DESC_SIZE,
    ensures
        spec_payload(records, None, store0, id) == Some((records[id].store0_offset, p)),
{
}

/// `pl` is what record `id` yields: `id` is a 248-byte record, the record
/// `cid` that holds its bytes (`id` itself, or where the table redirects it)
/// is in range, is a 248-byte record, and is no alias marker (offset 0 with
/// `csize` equal to `cid`); `pl` carries `cid`'s `store0` offset and the 248
/// bytes that `cid`'s extent inflates to.
pub open spec fn yields_payload(
    records: Seq<Record>,
    table: Option<Seq<u32>>,
    store0: Seq<u8>,
    id: int,
    pl: (u64, Seq<u8>),
) -> bool {
    let cid = resolve(table, id);
    &&& 0 <= id < records.len()
    &&& records[id].usize_len == 248
    &&& 0 <= cid < records.len()
    &&& records[cid].usize_len == 248
    &&& !(records[cid].store0_offset == 0 && records[cid].csize == cid)
    &&& pl.0 == records[cid].store0_offset
    &&& pl.1.len() == 248
    &&& spec_read_extent(store0, records[cid].store0_offset, records[cid].csize, 248) == Some(
        pl.1,
    )
}

/// Every collected payload comes from some record `id < count` and carries
/// the `store0` offset of the record that holds `id`'s bytes, never the
/// alias record's own marker offset.
pub proof fn lemma_payload_comes_from_canonical_record(
    records: Seq<Record>,
    table: Option<Seq<u32>>,
    store0: Seq<u8>,
    count: int,
    i: int,
)
    requires
        count <= records.len(),
        0 <= i < spec_payloads(records, table, store0, count).len(),
    ensures
        exists|id: int|
            0 <= id < count && #[trigger] yields_payload(
                records,
                table,
                store0,
                id,
                spec_payloads(records, table, store0, count)[i],
            ),
    decreases count,
{
    let before = spec_payloads(records, table, store0, count - 1);
    if i < before.len() {
        lemma_payload_comes_from_canonical_record(records, table, store0, count - 1, i);
        let id = choose|id: int|
            0 <= id < count - 1 && #[trigger] yields_payload(records, table, store0, id, before[i]);
        assert(yields_payload(
            records,
            table,
            store0,
            id,
            spec_payloads(records, table, store0, count)[i],
        ));
    } else {
        assert(yields_payload(
            records,
            table,
            store0,
            count - 1,
            spec_payloads(records, table, store0, count)[i],
        ));
    }
}

/// Every record `id < count` that yields a payload has it collected.
pub proof fn lemma_yielded_payload_is_collected(
    records: Seq<Record>,
    table: Option<Seq<u32>>,
    store0: Seq<u8>,
    count: int,
    id: int,
    pl: (u64, Seq<u8>),
)
    requires
        count <= records.len(),
        0 <= id < count,
        yields_payload(records, table, store0, id, pl),
    ensures
        spec_payloads(records, table, store0, count).contains(pl),
    decreases count,
{
    let before = spec_payloads(records, table, store0, count - 1);
    if id == count - 1 {
        assert(spec_payload(records, table, store0, id) == Some(pl));
        assert(spec_payloads(records, table, store0, count) == before.push(pl));
        assert(before.push(pl)[before.len() as int] == pl);
    } else {
        lemma_yielded_payload_is_collected(records, table, store0, count - 1, id, pl);
        let j = choose|j: int| 0 <= j < before.len() && before[j] == pl;
        match spec_payload(records, table, store0, count - 1) {
            Some(q) => {
                assert(before.push(q)[j] == pl);
            },
            None => {},
        }
    }
}

/// Every collected payload holds exactly 248 bytes.
pub proof fn lemma_payloads_are_descriptor_sized(
    records: Seq<Record>,
    table: Option<Seq<u32>>,
    store0: Seq<u8>,
    count: int,
)
    requires
        count <= records.len(),
    ensures
        forall|i: int|
            0 <= i < spec_payloads(records, table, store0, count).len() ==> (#[trigger] spec_payloads(
                records,
                table,
                store0,
                count,
            )[i]).1.len() == 248,
{
    assert forall|i: int| 0 <= i < spec_payloads(records, table, store0, count).len() implies (
    #[trigger] spec_payloads(records, table, store0, count)[i]).1.len() == 248 by {
        lemma_payload_comes_from_canonical_record(records, table, store0, count, i);
    }
}

/// The first little-endian word of each payload, read from its own bytes.
pub open spec fn first_words(payloads: Seq<(u64, Seq<u8>)>) -> Seq<u64> {
    Seq::new(payloads.len(), |i: int| le_u64(payloads[i].1, 0) as u64)
}

/// The tag voted on for payload `i` is the first little-endian word of
/// payload `i`'s own bytes.
pub proof fn lemma_tags_are_first_words(payloads: Seq<(u64, Seq<u8>)>)
    requires
        forall|i: int| 0 <= i < payloads.len() ==> (#[trigger] payloads[i]).1.len() >= 8,
    ensures
        spec_tags(payloads) == first_words(payloads),
{
    assert forall|i: int| 0 <= i < payloads.len() implies spec_tags(payloads)[i] == first_words(
        payloads,
    )[i] by {
        lemma_tag_is_first_word(payloads[i].1);
    }
    assert(spec_tags(payloads) =~= first_words(payloads));
}

/// Selecting tag `w` keeps the descriptor of every 248-byte payload whose
/// first word is `w`, read from that payload's fixed bytes at its offset.
pub proof fn lemma_selected_keeps_tagged(payloads: Seq<(u64, Seq<u8>)>, w: u64, i: int)
    requires
        0 <= i < payloads.len(),
        payloads[i].1.len() == 248,
        le_u64(payloads[i].1, 0) == w,
    ensures
        exists|j: int|
            0 <= j < spec_selected(payloads, Some(w)).len() && descriptor_fields_at_fixed_bytes(
                payloads[i].1,
                payloads[i].0,
                #[trigger] spec_selected(payloads, Some(w))[j],
            ),
    decreases payloads.len(),
{
    lemma_tag_is_first_word(payloads[i].1);
    lemma_descriptor_fields_at_fixed_bytes(payloads[i].1, payloads[i].0);
    let before = spec_selected(payloads.drop_last(), Some(w));
    if i == payloads.len() - 1 {
        assert(spec_selected(payloads, Some(w)) == before.push(
            spec_descriptor(payloads[i].1, payloads[i].0),
        ));
        assert(spec_selected(payloads, Some(w))[before.len() as int] == spec_descriptor(
            payloads[i].1,
            payloads[i].0,
        ));
    } else {
        assert(payloads.drop_last()[i] == payloads[i]);
        lemma_selected_keeps_tagged(payloads.drop_last(), w, i);
        let j = choose|j: int|
            0 <= j < before.len() && descriptor_fields_at_fixed_bytes(
                payloads[i].1,
                payloads[i].0,
                #[trigger] before[j],
            );
        let last = payloads.last();
        if Some(spec_descriptor_tag(last.1)) == Some(w) {
            assert(spec_selected(payloads, Some(w)) == before.push(spec_descriptor(last.1, last.0)));
            assert(spec_selected(payloads, Some(w))[j] == before[j]);
        } else {
            assert(spec_selected(payloads, Some(w))[j] == before[j]);
        }
    }
}

/// Selecting tag `w` keeps nothing else: each selected descriptor is read,
/// from its fixed bytes, out of some 248-byte payload whose first word is
/// `w`, at that payload's offset.
pub proof fn lemma_selected_only_tagged(payloads: Seq<(u64, Seq<u8>)>, w: u64, j: int)
    requires
        forall|i: int| 0 <= i < payloads.len() ==> (#[trigger] payloads[i]).1.len() == 248,
        0 <= j < spec_selected(payloads, Some(w)).len(),
    ensures
        exists|i: int|
            0 <= i < payloads.len() && le_u64(payloads[i].1, 0) == w
                && descriptor_fields_at_fixed_bytes(
                payloads[i].1,
                payloads[i].0,
                #[trigger] spec_selected(payloads, Some(w))[j],
            ),
    decreases payloads.len(),
{
    let before = spec_selected(payloads.drop_last(), Some(w));
    let last = payloads.last();
    let n = payloads.len() - 1;
    assert(payloads[n] == last);
    if j < before.len() {
        assert forall|i: int| 0 <= i < payloads.drop_last().len() implies (
        #[trigger] payloads.drop_last()[i]).1.len() == 248 by {
            assert(payloads.drop_last()[i] == payloads[i]);
        }
        if Some(spec_descriptor_tag(last.1)) == Some(w) {
            assert(spec_selected(payloads, Some(w))[j] == before.push(spec_descriptor(last.1, last.0))[j]);
        }
        assert(spec_selected(payloads, Some(w))[j] == before[j]);
        lemma_selected_only_tagged(payloads.drop_last(), w, j);
        let i = choose|i: int|
            0 <= i < payloads.drop_last().len() && le_u64(payloads.drop_last()[i].1, 0) == w
                && descriptor_fields_at_fixed_bytes(
                payloads.drop_last()[i].1,
                payloads.drop_last()[i].0,
                #[trigger] before[j],
            );
        assert(payloads.drop_last()[i] == payloads[i]);
    } else {
        lemma_selected_bounded(payloads.drop_last(), Some(w));
        assert(Some(spec_descriptor_tag(last.1)) == Some(w));
        assert(spec_selected(payloads, Some(w))[j] == spec_descriptor(last.1, last.0));
        lemma_tag_is_first_word(last.1);
        lemma_descriptor_fields_at_fixed_bytes(last.1, last.0);
        assert(le_u64(payloads[n].1, 0) == w);
    }
}

/// When one first word is carried by strictly more of the 248-byte payloads
/// than any other, every payload carrying it yields a texture.
pub proof fn lemma_majority_tag_is_kept(payloads: Seq<(u64, Seq<u8>)>, w: u64, i: int)
    requires
        forall|j: int| 0 <= j < payloads.len() ==> (#[trigger] payloads[j]).1.len() == 248,
        0 <= i < payloads.len(),
        le_u64(payloads[i].1, 0) == w,
        forall|j: int|
            0 <= j < payloads.len() && #[trigger] first_words(payloads)[j] != w ==> occurrences(
                first_words(payloads),
                first_words(payloads)[j],
            ) < occurrences(first_words(payloads), w),
    ensures
        exists|j: int|
            0 <= j < spec_selected(payloads, spec_modal_tag(spec_tags(payloads))).len()
                && descriptor_fields_at_fixed_bytes(
                payloads[i].1,
                payloads[i].0,
                #[trigger] spec_selected(payloads, spec_modal_tag(spec_tags(payloads)))[j],
            ),
{
    lemma_tags_are_first_words(payloads);
    let fw = first_words(payloads);
    lemma_low_word_in_range(payloads[i].1);
    assert(fw[i] == w);
    lemma_occurrences_of_member(fw, i);
    lemma_strict_majority_wins(fw, w);
    lemma_selected_keeps_tagged(payloads, w, i);
}

proof fn lemma_low_word_in_range(p: Seq<u8>)
    requires
        p.len() >= 8,
    ensures
        0 <= le_u64(p, 0) < 0x1_0000_0000_0000_0000,
{
    crate::descriptor::lemma_low_half_of_le_u64(p, 0);
}

proof fn lemma_occurrences_of_member(s: Seq<u64>, i: int)
    requires
        0 <= i < s.len(),
    ensures
        occurrences(s, s[i]) > 0,
    decreases s.len(),
{
    if i < s.len() - 1 {
        lemma_occurrences_of_member(s.drop_last(), i);
    }
}

/// The canonical table of the exec buckets, if any.
pub open spec fn table_of(buckets: Option<Buckets>) -> Option<Seq<u32>> {
    match buckets {
        Some(b) => Some(b@),
        None => None,
    }
}

/// Collects every 248-byte record's payload (alias-resolved), with the
/// canonical record's `store0` offset.
pub fn collect_payloads(records: &Vec<Record>, buckets: &Option<Buckets>, store0: &[u8]) -> (r:
    Vec<Payload>)
    ensures
        payloads_view(r@) == spec_payloads(records@, table_of(*buckets), store0@, records@.len() as int),
{
    let ghost table = table_of(*buckets);
    let mut out: Vec<Payload> = Vec::new();
    let mut id: usize = 0;
    while id < records.len()
        invariant
            table == table_of(*buckets),
            id <= records@.len(),
            payloads_view(out@) == spec_payloads(records@, table, store0@, id as int),
        decreases records@.len() - id,
    {
        let ghost before = out@;
        let r = records[id];
        let cid = match buckets {
            Some(b) => b.canonical(id),
            None => id,
        };
        assert(cid == resolve(table, id as int));
        if r.usize_len as usize == DESC_SIZE && cid < records.len() {
            let cr = records[cid];
            if !cr.is_alias(cid) && cr.usize_len as usize == DESC_SIZE {
                match read_extent(store0, cr.store0_offset, cr.csize, cr.usize_len) {
                    Some(p) => {
                        if p.len() == DESC_SIZE {
                            out.push(Payload { store0_offset: cr.store0_offset, bytes: p });
                            proof {
                                assert(payloads_view(out@) =~= payloads_view(before).push(
                                    out@.last()@,
                                ));
                            }
                        }
                    },
                    None => {},
                }
            }
        }
        id = id + 1;
    }
    out
}

/// The descriptor tag of every payload, in order.
pub fn payload_tags(payloads: &Vec<Payload>) -> (r: Vec<u64>)
    ensures
        r@ == spec_tags(payloads_view(payloads@)),
{
    let mut tags: Vec<u64> = Vec::new();
    let mut i: usize = 0;
    while i < payloads.len()
        invariant
            i <= payloads@.len(),
            tags@.len() == i,
            forall|j: int| 0 <= j < i ==> tags@[j] == spec_descriptor_tag(payloads@[j].bytes@),
        decreases payloads@.len() - i,
    {
        tags.push(descriptor_tag(payloads[i].bytes.as_slice()));
        i = i + 1;
    }
    assert(tags@ =~= spec_tags(payloads_view(payloads@)));
    tags
}

/// Decodes the payloads whose tag is `tag`, keeping payload order.
pub fn select_textures(payloads: &Vec<Payload>, tag: Option<u64>) -> (r: Vec<TextureDescriptor>)
    ensures
        r@ == spec_selected(payloads_view(payloads@), tag),
{
    let mut out: Vec<TextureDescriptor> = Vec::new();
    let mut i: usize = 0;
    while i < payloads.len()
        invariant
            i <= payloads@.len(),
            out@ == spec_selected(payloads_view(payloads@).take(i as int), tag),
        decreases payloads@.len() - i,
    {
        let ghost pv = payloads_view(payloads@);
        proof {
            assert(pv.take(i + 1).drop_last() =~= pv.take(i as int));
            assert(pv.take(i + 1).last() == payloads@[i as int]@);
        }
        let p = &payloads[i];
        let t = descriptor_tag(p.bytes.as_slice());
        let matches = match tag {
            Some(w) => w == t,
            None => false,
        };
        if matches {
            out.push(parse_descriptor(p.bytes.as_slice(), p.store0_offset));
        }
        i = i + 1;
    }
    assert(payloads_view(payloads@).take(payloads@.len() as int) =~= payloads_view(payloads@));
    out
}

} // verus!
