use std::io::{Read, Write};

use vstd::prelude::*;

verus! {

/// The zstd frame that `zstd::Encoder` writes for `data` at the default
/// level, with the size of `data` pledged up front.
pub uninterp spec fn zstd_frame(data: Seq<u8>) -> Seq<u8>;

/// What `zstd::Decoder` reads out of `blob` to its end: the decompressed
/// bytes, or nothing where `blob` is not a sequence of zstd frames.
pub uninterp spec fn zstd_decoded(blob: Seq<u8>) -> Option<Seq<u8>>;

/// Compresses `data` with `zstd::Encoder::new` at level 0 (zstd's default
/// level) writing into a `Vec`, after `set_pledged_src_size` with the length
/// of `data`, then `write_all` and `finish`. Trusted: the result is `Some` of
/// the frame `zstd_frame(data)`. In the zstd source these steps fail only
/// where zstd cannot allocate memory (level 0 is valid, there is no
/// dictionary, the pledged size is exact, and writing into a `Vec` does not
/// fail); like the clauses of `zstd_decompress`, this sets running out of
/// memory aside. Creating the compression context panics only in that case.
#[verifier::external_body]
fn zstd_compress(data: &[u8]) -> (r: Option<Vec<u8>>)
    ensures
        r.deep_view() == Some(zstd_frame(data@)),
{
    let mut blob = Vec::with_capacity(data.len());
    let mut encoder = zstd::Encoder::new(&mut blob, 0).ok()?;
    encoder.set_pledged_src_size(Some(data.len() as u64)).ok()?;
    encoder.write_all(data).ok()?;
    encoder.finish().ok()?;
    Some(blob)
}

/// Decompresses `blob` with `zstd::Decoder::new` and `read_to_end`.
/// Trusted: the result is `zstd_decoded(blob)`, and a frame that
/// `zstd_compress` wrote for some data decodes to that data (zstd is
/// lossless). As above, creating the decompression context panics only
/// where zstd cannot allocate it; both clauses set aside zstd running out of
/// memory while it decodes.
#[verifier::external_body]
fn zstd_decompress(blob: &[u8]) -> (r: Option<Vec<u8>>)
    ensures
        r.deep_view() == zstd_decoded(blob@),
        forall|data: Seq<u8>| blob@ == zstd_frame(data) ==> r.deep_view() == Some(data),
{
    let mut data = Vec::new();
    let mut decoder = zstd::Decoder::new(blob).ok()?;
    decoder.read_to_end(&mut data).ok()?;
    Some(data)
}

/// The byte that stores a `bool`: 1 for `true`, 0 for `false`.
pub open spec fn bool_byte(b: bool) -> u8 {
    if b {
        1
    } else {
        0
    }
}

/// The bytes that store a sequence of `bool`s.
pub open spec fn bool_bytes(data: Seq<bool>) -> Seq<u8> {
    data.map_values(|b: bool| bool_byte(b))
}

/// The `bool`s stored in `bytes`, when every byte is 0 or 1.
pub open spec fn bytes_bools(bytes: Seq<u8>) -> Option<Seq<bool>> {
    if forall|k: int| 0 <= k < bytes.len() ==> bytes[k] <= 1 {
        Some(bytes.map_values(|b: u8| b == 1))
    } else {
        None
    }
}

/// Compresses a grid's bytes into a blob: the zstd frame of the bytes.
pub fn data_to_blob(data: &[u8]) -> (r: Option<Vec<u8>>)
    ensures
        r.deep_view() == Some(zstd_frame(data@)),
{
    zstd_compress(data)
}

/// Reads a grid's bytes back from a blob; a blob made by `data_to_blob`
/// gives back the bytes it was made of.
pub fn blob_to_data(blob: &[u8]) -> (r: Option<Vec<u8>>)
    ensures
        r.deep_view() == zstd_decoded(blob@),
        forall|data: Seq<u8>| blob@ == zstd_frame(data) ==> r.deep_view() == Some(data),
{
    zstd_decompress(blob)
}

/// Compresses a grid of `bool`s into a blob, one byte per value (1 for
/// `true`, 0 for `false`): the zstd frame of those bytes.
pub fn bools_to_blob(data: &[bool]) -> (r: Option<Vec<u8>>)
    ensures
        r.deep_view() == Some(zstd_frame(bool_bytes(data@))),
{
    let mut bytes: Vec<u8> = Vec::with_capacity(data.len());
    let mut k: usize = 0;
    while k < data.len()
        invariant
            0 <= k <= data.len(),
            bytes@ == bool_bytes(data@.take(k as int)),
        decreases data.len() - k,
    {
        bytes.push(if data[k] {
            1u8
        } else {
            0u8
        });
        proof {
            assert(data@.take(k + 1) =~= data@.take(k as int).push(data@[k as int]));
            assert(bool_bytes(data@.take(k + 1)) =~= bool_bytes(data@.take(k as int)).push(
                bool_byte(data@[k as int]),
            ));
        }
        k += 1;
    }
    proof {
        assert(data@.take(data@.len() as int) =~= data@);
    }
    zstd_compress(bytes.as_slice())
}

/// Reads a grid of `bool`s back from a blob: nothing when the blob does not
/// decompress or holds a byte other than 0 and 1. A blob made by
/// `bools_to_blob` gives back the values it was made of.
pub fn blob_to_bools(blob: &[u8]) -> (r: Option<Vec<bool>>)
    ensures
        r.deep_view() == match zstd_decoded(blob@) {
            Some(bytes) => bytes_bools(bytes),
            None => None,
        },
        forall|data: Seq<bool>| blob@ == zstd_frame(bool_bytes(data)) ==> r.deep_view() == Some(data),
{
    let bytes = match zstd_decompress(blob) {
        Some(bytes) => bytes,
        None => {
            return None;
        },
    };
    let ghost bs = bytes@;
    proof {
        assert(bytes.deep_view() =~= bs);
    }
    let mut data: Vec<bool> = Vec::with_capacity(bytes.len());
    let mut k: usize = 0;
    while k < bytes.len()
        invariant
            0 <= k <= bytes.len(),
            bs == bytes@,
            zstd_decoded(blob@) == Some(bs),
            forall|d: Seq<bool>| blob@ == zstd_frame(bool_bytes(d)) ==> bs == bool_bytes(d),
            data@.len() == k,
            forall|q: int| 0 <= q < k ==> bs[q] <= 1 && data@[q] == (bs[q] == 1),
        decreases bytes.len() - k,
    {
        let b = bytes[k];
        if b > 1 {
            proof {
                assert(!(forall|q: int| 0 <= q < bs.len() ==> bs[q] <= 1));
                assert forall|d: Seq<bool>| blob@ != zstd_frame(bool_bytes(d)) by {
                    if blob@ == zstd_frame(bool_bytes(d)) {
                        assert(bs[k as int] == bool_byte(d[k as int]));
                    }
                }
            }
            return None;
        }
        data.push(b == 1);
        k += 1;
    }
    proof {
        assert(data@ =~= bs.map_values(|b: u8| b == 1));
        assert forall|d: Seq<bool>| blob@ == zstd_frame(bool_bytes(d)) implies data@ == d by {
            assert(bs == bool_bytes(d));
            assert(data@ =~= d);
        }
    }
    Some(data)
}

} // verus!
