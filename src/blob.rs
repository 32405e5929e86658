//! Blob storage with optional LZ4 compression, framed by a trailing marker
//! byte so that compressed and uncompressed blobs can live side by side.
use vstd::prelude::*;
use vstd::string::StringSliceAdditionalSpecFns;
use std::ops::Range;
use lz4_flex::block::DecompressError;
use crate::codec::{append_bytes, copy_bytes, copy_range};
use crate::keys::SUBSPACE_BLOBS;
use crate::store::{stored, MemoryStore};

verus! {

#[verifier::external_type_specification]
#[verifier::external_body]
pub struct ExDecompressError(DecompressError);

/// The bytes that LZ4 block compression with the size prepended makes of
/// `data`.
pub uninterp spec fn lz4_compressed(data: Seq<u8>) -> Seq<u8>;

/// What decompressing size-prepended LZ4 bytes gives, `None` where they do
/// not decompress.
pub uninterp spec fn lz4_decompressed(data: Seq<u8>) -> Option<Seq<u8>>;

/// The largest input whose length the size-prepended format can hold (it
/// writes the length as a `u32`).
pub const LZ4_MAX_INPUT: u64 = 0xffff_ffff;

/// Relies on `lz4_flex::compress_prepend_size`: LZ4 block compression with
/// the uncompressed length in front as a `u32`; the output depends on the
/// input alone.
#[verifier::external_body]
fn lz4_compress(data: &Vec<u8>) -> (r: Vec<u8>)
    requires
        data@.len() <= LZ4_MAX_INPUT,
    ensures
        r@ == lz4_compressed(data@),
{
    lz4_flex::compress_prepend_size(data)
}

/// Relies on `lz4_flex::decompress_size_prepended`: the result depends on the
/// input alone, and it gives back the input of `compress_prepend_size` for
/// inputs whose length fits in a `u32`.
#[verifier::external_body]
fn lz4_decompress(data: &[u8]) -> (r: Result<Vec<u8>, DecompressError>)
    ensures
        match r {
            Ok(d) => lz4_decompressed(data@) == Some(d@),
            Err(_) => lz4_decompressed(data@) is None,
        },
        forall|v: Seq<u8>|
            v.len() <= LZ4_MAX_INPUT && #[trigger] lz4_compressed(v) == data@ ==> (r is Ok && r->Ok_0@ == v),
{
    lz4_flex::decompress_size_prepended(data)
}

/// Marker bits of the trailing byte of a compressed blob.
pub const MAGIC_MARKER: u8 = 0xa0;

/// How the blobs of a store are compressed.
#[derive(Debug, PartialEq, Eq, Structural, Clone, Copy)]
pub enum CompressionAlgo {
    Uncompressed,
    Lz4,
}

impl CompressionAlgo {
    pub open spec fn spec_marker(&self) -> u8 {
        match self {
            CompressionAlgo::Lz4 => 0xa1,
            CompressionAlgo::Uncompressed => 0,
        }
    }

    /// The trailing byte that marks a blob compressed by this algorithm.
    pub fn marker(&self) -> (r: u8)
        ensures
            r == self.spec_marker(),
    {
        match self {
            CompressionAlgo::Lz4 => {
                assert(MAGIC_MARKER | 0x01u8 == 0xa1u8) by (bit_vector);
                MAGIC_MARKER | 0x01
            },
            CompressionAlgo::Uncompressed => 0,
        }
    }
}

/// Why a blob could not be read.
#[derive(Debug, PartialEq, Eq, Structural)]
pub enum BlobError {
    /// A blob marked as compressed did not decompress.
    Decompress,
    /// The blob is too long for the compressed format.
    TooLarge,
}

/// The bytes stored for `data`.
pub open spec fn framed(compression: CompressionAlgo, data: Seq<u8>) -> Seq<u8> {
    match compression {
        CompressionAlgo::Uncompressed => data,
        CompressionAlgo::Lz4 => lz4_compressed(data).push(CompressionAlgo::Lz4.spec_marker()),
    }
}

/// Whether the stored bytes `raw` are marked as compressed.
pub open spec fn is_marked(compression: CompressionAlgo, raw: Seq<u8>) -> bool {
    compression == CompressionAlgo::Lz4 && raw.len() > 0 && raw.last() == CompressionAlgo::Lz4.spec_marker()
}

/// Whether `data` is what reading the stored bytes `raw` gives: the bytes
/// themselves without compression; with LZ4, the decompressed prefix where
/// the marker ends them (a prefix that compression made of `data` is known to
/// give `data` back), else the bytes as they are.
pub open spec fn reads_back(compression: CompressionAlgo, raw: Seq<u8>, data: Seq<u8>) -> bool {
    if is_marked(compression, raw) {
        lz4_decompressed(raw.drop_last()) == Some(data) || (data.len() <= LZ4_MAX_INPUT && lz4_compressed(data)
            == raw.drop_last())
    } else {
        data == raw
    }
}

/// Whether the compression can store `data`.
pub open spec fn fits(compression: CompressionAlgo, data: Seq<u8>) -> bool {
    compression == CompressionAlgo::Uncompressed || data.len() <= LZ4_MAX_INPUT
}

/// The part of `data` that a range asks for, cut at the end of the data.
pub open spec fn range_of(data: Seq<u8>, start: usize, end: usize) -> Seq<u8> {
    let hi = if end < data.len() {
        end as int
    } else {
        data.len() as int
    };
    let lo = if start < hi {
        start as int
    } else {
        hi
    };
    data.subrange(lo, hi)
}

/// The store key of a blob.
pub open spec fn blob_key(key: Seq<u8>) -> Seq<u8> {
    seq![SUBSPACE_BLOBS] + key
}

fn blob_store_key(key: &Vec<u8>) -> (r: Vec<u8>)
    ensures
        r@ == blob_key(key@),
{
    let mut r: Vec<u8> = Vec::new();
    r.push(SUBSPACE_BLOBS);
    append_bytes(&mut r, key);
    r
}

/// The bytes to store for `data`.
pub fn frame_blob(compression: CompressionAlgo, data: &Vec<u8>) -> (r: Result<Vec<u8>, BlobError>)
    ensures
        fits(compression, data@) ==> r is Ok && r->Ok_0@ == framed(compression, data@),
        !fits(compression, data@) ==> r == Err::<Vec<u8>, BlobError>(BlobError::TooLarge),
{
    match compression {
        CompressionAlgo::Uncompressed => Ok(copy_bytes(data)),
        CompressionAlgo::Lz4 => {
            if data.len() as u64 > LZ4_MAX_INPUT {
                return Err(BlobError::TooLarge);
            }
            let mut compressed = lz4_compress(data);
            compressed.push(CompressionAlgo::Lz4.marker());
            Ok(compressed)
        },
    }
}

/// The data that stored bytes hold: decompressed where they are marked as
/// compressed.
pub fn unframe_blob(compression: CompressionAlgo, raw: Vec<u8>) -> (r: Result<Vec<u8>, BlobError>)
    ensures
        forall|d: Seq<u8>| #[trigger] reads_back(compression, raw@, d) ==> (r is Ok && r->Ok_0@ == d),
        !is_marked(compression, raw@) ==> r is Ok && r->Ok_0@ == raw@,
        is_marked(compression, raw@) && lz4_decompressed(raw@.drop_last()) is None ==> r == Err::<
            Vec<u8>,
            BlobError,
        >(BlobError::Decompress),
        is_marked(compression, raw@) && lz4_decompressed(raw@.drop_last()) is Some ==> r is Ok,
{
    match compression {
        CompressionAlgo::Uncompressed => Ok(raw),
        CompressionAlgo::Lz4 => {
            let n = raw.len();
            if n > 0 && raw[n - 1] == CompressionAlgo::Lz4.marker() {
                let body = copy_range(&raw, 0, n - 1);
                assert(body@ == raw@.drop_last());
                match lz4_decompress(body.as_slice()) {
                    Ok(data) => Ok(data),
                    Err(_) => Err(BlobError::Decompress),
                }
            } else {
                Ok(raw)
            }
        },
    }
}

/// The part of `data` that `start..end` asks for, cut at the end of the data.
pub fn apply_range(data: &Vec<u8>, start: usize, end: usize) -> (r: Vec<u8>)
    ensures
        r@ == range_of(data@, start, end),
{
    let n = data.len();
    let hi = if end < n {
        end
    } else {
        n
    };
    let lo = if start < hi {
        start
    } else {
        hi
    };
    copy_range(data, lo, hi)
}

/// Blobs kept under their keys in a store, compressed or not.
pub struct BlobStore {
    pub backend: MemoryStore,
    pub compression: CompressionAlgo,
}

impl BlobStore {
    pub fn new(compression: CompressionAlgo) -> (r: BlobStore)
        ensures
            r.backend.wf(),
            r.backend@ == Map::<Seq<u8>, Seq<u8>>::empty(),
            r.compression == compression,
    {
        BlobStore { backend: MemoryStore::new(), compression }
    }

    /// The same blobs, read and written with another compression.
    pub fn with_compression(self, compression: CompressionAlgo) -> (r: Self)
        ensures
            r.backend == self.backend,
            r.compression == compression,
    {
        Self { backend: self.backend, compression }
    }

    /// Reads the part `range` of a blob; `None` where there is no blob.
    pub fn get_blob(&self, key: &Vec<u8>, range: Range<usize>) -> (r: Result<Option<Vec<u8>>, BlobError>)
        requires
            self.backend.wf(),
        ensures
            match stored(self.backend@, blob_key(key@)) {
                None => r == Ok::<Option<Vec<u8>>, BlobError>(None),
                Some(raw) => {
                    &&& forall|d: Seq<u8>| #[trigger] reads_back(self.compression, raw, d) ==> (r is Ok
                        && r->Ok_0 is Some && r->Ok_0->Some_0@ == range_of(d, range.start, range.end))
                    &&& r is Ok ==> r->Ok_0 is Some
                    &&& (r is Err <==> is_marked(self.compression, raw) && lz4_decompressed(raw.drop_last()) is None)
                    &&& r is Err ==> r == Err::<Option<Vec<u8>>, BlobError>(BlobError::Decompress)
                },
            },
    {
        let k = blob_store_key(key);
        match self.backend.get(&k) {
            None => Ok(None),
            Some(raw) => {
                let ghost raw_v = raw@;
                match unframe_blob(self.compression, raw) {
                    Ok(data) => Ok(Some(apply_range(&data, range.start, range.end))),
                    Err(e) => Err(e),
                }
            },
        }
    }

    /// Stores a blob under its key, compressed as the store asks; a blob too
    /// long for the compressed format is refused.
    pub fn put_blob(&mut self, key: &Vec<u8>, data: &Vec<u8>) -> (r: Result<(), BlobError>)
        requires
            old(self).backend.wf(),
        ensures
            final(self).backend.wf(),
            final(self).compression == old(self).compression,
            fits(old(self).compression, data@) ==> r is Ok && final(self).backend@ == old(self).backend@.insert(
                blob_key(key@),
                framed(old(self).compression, data@),
            ),
            !fits(old(self).compression, data@) ==> r == Err::<(), BlobError>(BlobError::TooLarge)
                && final(self).backend@ == old(self).backend@,
    {
        let v = frame_blob(self.compression, data)?;
        let k = blob_store_key(key);
        self.backend.set(k, v);
        Ok(())
    }

    /// Removes a blob; whether there was one.
    pub fn delete_blob(&mut self, key: &Vec<u8>) -> (r: bool)
        requires
            old(self).backend.wf(),
        ensures
            final(self).backend.wf(),
            final(self).compression == old(self).compression,
            final(self).backend@ == old(self).backend@.remove(blob_key(key@)),
            r == old(self).backend@.contains_key(blob_key(key@)),
    {
        let k = blob_store_key(key);
        let existed = self.backend.get(&k).is_some();
        self.backend.clear(&k);
        existed
    }
}

/// What is stored for some data reads back as that data, with or without
/// compression (with it, for data whose length fits in a `u32`).
pub proof fn lemma_blob_round_trip(compression: CompressionAlgo, data: Seq<u8>)
    requires
        fits(compression, data),
    ensures
        reads_back(compression, framed(compression, data), data),
{
    if compression == CompressionAlgo::Lz4 {
        assert(framed(compression, data).drop_last() =~= lz4_compressed(data));
    }
}

/// Bytes that do not end with the marker read back unchanged through LZ4.
pub proof fn lemma_legacy_blob(raw: Seq<u8>)
    requires
        raw.len() == 0 || raw.last() != CompressionAlgo::Lz4.spec_marker(),
    ensures
        reads_back(CompressionAlgo::Lz4, raw, raw),
{
}


fn slice_eq(a: &[u8], b: &[u8]) -> (r: bool)
    ensures
        r == (a@ == b@),
{
    let n = a.len();
    if n != b.len() {
        return false;
    }
    let mut i: usize = 0;
    while i < n
        invariant
            n == a@.len(),
            n == b@.len(),
            i <= n,
            forall|j: int| 0 <= j < i ==> a@[j] == b@[j],
        decreases n - i,
    {
        if a[i] != b[i] {
            return false;
        }
        i = i + 1;
    }
    assert(a@ =~= b@);
    true
}

/// The compression that a configuration value names, by its UTF-8 bytes:
/// `lz4`, or one of `none`, `false`, `disable`, `disabled`; `None` for any
/// other value.
pub open spec fn parsed_compression(v: Seq<u8>) -> Option<CompressionAlgo> {
    if v == seq![108u8, 122, 52] {
        Some(CompressionAlgo::Lz4)
    } else if v == seq![110u8, 111, 110, 101] || v == seq![102u8, 97, 108, 115, 101] || v == seq![
        100u8,
        105,
        115,
        97,
        98,
        108,
        101,
    ] || v == seq![100u8, 105, 115, 97, 98, 108, 101, 100] {
        Some(CompressionAlgo::Uncompressed)
    } else {
        None
    }
}

/// A configuration value that names no compression algorithm, with the key
/// it was given for.
#[derive(Debug, PartialEq, Eq)]
pub struct InvalidCompression {
    pub key: String,
    pub value: String,
}

impl CompressionAlgo {
    /// Reads a compression algorithm from the value of configuration key
    /// `key`.
    pub fn parse_value(key: &str, value: &str) -> (r: Result<CompressionAlgo, InvalidCompression>)
        ensures
            match parsed_compression(value.spec_bytes()) {
                Some(c) => r == Ok::<CompressionAlgo, InvalidCompression>(c),
                None => r is Err && r->Err_0.key@ == key@ && r->Err_0.value@ == value@,
            },
    {
        let b = value.as_bytes();
        let lz4: [u8; 3] = [108, 122, 52];
        let none: [u8; 4] = [110, 111, 110, 101];
        let no: [u8; 5] = [102, 97, 108, 115, 101];
        let disable: [u8; 7] = [100, 105, 115, 97, 98, 108, 101];
        let disabled: [u8; 8] = [100, 105, 115, 97, 98, 108, 101, 100];
        assert(lz4@ =~= seq![108u8, 122, 52]);
        assert(none@ =~= seq![110u8, 111, 110, 101]);
        assert(no@ =~= seq![102u8, 97, 108, 115, 101]);
        assert(disable@ =~= seq![100u8, 105, 115, 97, 98, 108, 101]);
        assert(disabled@ =~= seq![100u8, 105, 115, 97, 98, 108, 101, 100]);
        if slice_eq(b, lz4.as_slice()) {
            Ok(CompressionAlgo::Lz4)
        } else if slice_eq(b, none.as_slice()) || slice_eq(b, no.as_slice()) || slice_eq(b, disable.as_slice())
            || slice_eq(b, disabled.as_slice()) {
            Ok(CompressionAlgo::Uncompressed)
        } else {
            Err(InvalidCompression { key: key.to_owned(), value: value.to_owned() })
        }
    }
}

} // verus!
