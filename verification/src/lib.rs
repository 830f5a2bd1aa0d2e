//! Reader for the static texture manifest of a `.gputrace` capture bundle.
//!
//! The manifest is two members of the bundle directory: `index`, an `xdic`
//! table of 24-byte records behind a bucket table, and `store0`, a run of
//! concatenated zlib streams. Each 248-byte texture descriptor is inflated
//! from `store0` and decoded into a [`TextureDescriptor`].

pub mod bytes;
pub mod descriptor;
pub mod index;
pub mod manifest;
pub mod order;
pub mod store;

pub use descriptor::TextureDescriptor;

use descriptor::derive_tag;
use index::{
    header_fault, spec_bucket_count, spec_record, spec_record_array_offset, spec_record_count,
    Buckets, Header, Record, RECORD_SIZE,
};
use manifest::{
    collect_payloads, lemma_payloads_bounded, lemma_selected_bounded, payload_tags,
    payloads_view, select_textures, spec_manifest_payloads, spec_manifest_textures, spec_records,
};
use order::{is_stable_sort_by_offset, offsets_ascending, sort_by_offset};
use vstd::prelude::*;

verus! {

/// Errors from opening or parsing a bundle manifest.
#[derive(Debug)]
pub enum Error {
    /// The path is not a `.gputrace` directory.
    NotABundle(String),
    /// A required member (`index` or `store0`) is missing.
    MissingMember { member: &'static str },
    /// Reading a member failed.
    Io { path: String, message: String },
    /// The `index` member is malformed; the text says how.
    BadIndex(&'static str),
}

/// `r` is the `BadIndex` error whose text is `why`.
pub open spec fn is_bad_index<T>(r: Result<T, Error>, why: &str) -> bool {
    r matches Err(Error::BadIndex(m)) && m@ == why@
}

/// Why `open` refuses `index`, if it does: a bad header, a bucket table
/// whose end does not fit in `usize`, or a record array that runs past the
/// end of the index.
pub open spec fn open_fault(index: Seq<u8>) -> Option<&'static str> {
    match header_fault(index) {
        Some(why) => Some(why),
        None => {
            let rec_off = spec_record_array_offset(spec_bucket_count(index));
            if rec_off > usize::MAX {
                Some("record array offset overflow")
            } else if rec_off + RECORD_SIZE * spec_record_count(index) > index.len() {
                Some("record array exceeds index size")
            } else {
                None
            }
        },
    }
}

/// The bundle name: the file stem when there is one, else `trace`.
pub open spec fn spec_bundle_name(stem: Option<&str>) -> Seq<char> {
    match stem {
        Some(s) => s@,
        None => "trace"@,
    }
}

/// An opened `.gputrace` texture manifest.
#[derive(Debug)]
pub struct Bundle {
    name: String,
    textures: Vec<TextureDescriptor>,
    record_count: u32,
}

impl Bundle {
    /// The textures are in ascending `store0` offset order, and there are
    /// no more of them than records in the index.
    #[verifier::type_invariant]
    spec fn well_formed(self) -> bool {
        &&& offsets_ascending(self.textures@)
        &&& self.textures@.len() <= self.record_count
    }

    /// The bundle's name.
    pub closed spec fn spec_name(self) -> Seq<char> {
        self.name@
    }

    /// The bundle's texture descriptors.
    pub closed spec fn spec_textures(self) -> Seq<TextureDescriptor> {
        self.textures@
    }

    /// The index header's total record count.
    pub closed spec fn spec_record_count(self) -> u32 {
        self.record_count
    }

    /// Opens a manifest from the bytes of its `index` and `store0` members;
    /// `stem` is the bundle directory's file stem, when it has one.
    ///
    /// Every 248-byte record contributes the payload of its canonical record
    /// (alias-resolved through the bucket table), the capture's tag is the
    /// most common word 0 among those payloads, and the descriptors of the
    /// payloads carrying that tag are returned sorted by `store0` offset.
    pub fn open(stem: Option<&str>, index: &[u8], store0: &[u8]) -> (r: Result<Bundle, Error>)
        ensures
            match open_fault(index@) {
                Some(why) => is_bad_index(r, why),
                None => r matches Ok(b) && {
                    &&& b.spec_name() == spec_bundle_name(stem)
                    &&& b.spec_record_count() == spec_record_count(index@)
                    &&& is_stable_sort_by_offset(
                        b.spec_textures(),
                        spec_manifest_textures(index@, store0@),
                    )
                },
            },
    {
        let header = Header::parse(index)?;
        let rec_off = header.record_array_offset()?;
        let count = header.record_count as usize;
        let index_len = index.len();
        // `record_count` is untrusted (a u32 straight from the header); bound
        // it by the actual index size before trusting it to size anything.
        let record_array_len = match count.checked_mul(RECORD_SIZE) {
            Some(len) => match rec_off.checked_add(len) {
                Some(end) => end,
                None => return Err(Error::BadIndex("record array exceeds index size")),
            },
            None => return Err(Error::BadIndex("record array exceeds index size")),
        };
        if record_array_len > index_len {
            return Err(Error::BadIndex("record array exceeds index size"));
        }
        let ghost n = count as int;
        let mut records: Vec<Record> = Vec::with_capacity(count);
        let mut i: usize = 0;
        while i < count
            invariant
                n == count,
                index_len == index@.len(),
                rec_off + RECORD_SIZE * count <= index@.len(),
                i <= count,
                records@.len() == i,
                forall|j: int|
                    0 <= j < i ==> records@[j] == spec_record(
                        index@,
                        rec_off + RECORD_SIZE * j,
                    ),
            decreases count - i,
        {
            let r = match Record::parse_at(index, rec_off + i * RECORD_SIZE) {
                Some(r) => r,
                None => return Err(Error::BadIndex("record array truncated")),
            };
            records.push(r);
            i = i + 1;
        }
        assert(records@ =~= spec_records(index@, rec_off as int, n));
        let buckets = Buckets::build(index, &header);
        let payloads = collect_payloads(&records, &buckets, store0);
        let tags = payload_tags(&payloads);
        let tag = derive_tag(tags.as_slice());
        let selected = select_textures(&payloads, tag);
        let textures = sort_by_offset(selected);
        proof {
            assert(payloads_view(payloads@) == spec_manifest_payloads(index@, store0@));
            lemma_payloads_bounded(
                records@,
                manifest::table_of(buckets),
                store0@,
                n,
            );
            lemma_selected_bounded(payloads_view(payloads@), tag);
        }
        let name = match stem {
            Some(s) => s.to_owned(),
            None => "trace".to_owned(),
        };
        Ok(Bundle { name, textures, record_count: header.record_count })
    }

    /// Texture descriptors, sorted by `store0_offset` ascending (the bridge
    /// order that corresponds rank-for-rank with ascending fetch streamRefs).
    pub fn textures(&self) -> (r: &[TextureDescriptor])
        ensures
            r@ == self.spec_textures(),
            offsets_ascending(r@),
    {
        proof {
            use_type_invariant(self);
        }
        self.textures.as_slice()
    }

    /// The number of texture descriptors.
    pub fn texture_count(&self) -> (r: usize)
        ensures
            r == self.spec_textures().len(),
            r <= self.spec_record_count(),
    {
        proof {
            use_type_invariant(self);
        }
        self.textures.len()
    }

    /// The index header's total record count, an upper bound on the highest
    /// streamRef a fetch sweep needs to try (streamRefs are shared across
    /// all resource types, so this sits above `texture_count()`).
    pub fn record_count(&self) -> (r: u32)
        ensures
            r == self.spec_record_count(),
    {
        self.record_count
    }

    /// The bundle's name, taken from the directory's file stem.
    pub fn name(&self) -> (r: &str)
        ensures
            r@ == self.spec_name(),
    {
        self.name.as_str()
    }
}

} // verus!
