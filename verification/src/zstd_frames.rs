//! Compressed payloads: a one-byte tag, then the bytes raw or as a zstd frame.

use vstd::prelude::*;
use vstd::slice::{slice_subrange, slice_to_vec};

verus! {

/// Tag of a payload that follows as it is.
pub const TAG_RAW: u8 = 0x00;

/// Tag of a payload that follows as a zstd frame.
pub const TAG_ZSTD: u8 = 0x01;

/// Payloads at or below this size are sent raw (compression overhead not worth it).
pub const COMPRESSION_THRESHOLD: usize = 256;

/// Zstd compression level (3 = fast with good ratio).
pub const ZSTD_LEVEL: i32 = 3;

/// What `zstd::encode_all` gives for `data` at `level`.
pub uninterp spec fn zstd_frame(data: Seq<u8>, level: i32) -> Seq<u8>;

/// What a `zstd::Decoder` over `frames` yields until it ends or has given `limit` bytes;
/// nothing if it fails before.
pub uninterp spec fn zstd_output(frames: Seq<u8>, limit: nat) -> Option<Seq<u8>>;

/// `zstd::encode_all`: from a slice into a vector it does not fail as long as there is
/// memory, which is taken for granted here as it is for every vector. The frame depends on
/// the data and the level alone.
#[verifier::external_body]
pub(crate) fn zstd_encode(data: &[u8], level: i32) -> (r: Result<Vec<u8>, String>)
    ensures
        r is Ok,
        r->Ok_0@ == zstd_frame(data@, level),
{
    zstd::encode_all(data, level).map_err(|e| e.to_string())
}

/// `zstd::Decoder` read to the end, or until it has given `limit` bytes: whether it fails,
/// and what it gives, depend on the frames and the limit alone. What it gives is never
/// longer than the limit. A frame that `zstd::encode_all` gave is decoded, to the front of
/// the data. The text of an error is left open.
#[verifier::external_body]
pub(crate) fn zstd_decode(frames: &[u8], limit: u64) -> (r: Result<Vec<u8>, String>)
    ensures
        r is Ok <==> zstd_output(frames@, limit as nat) is Some,
        r is Ok ==> zstd_output(frames@, limit as nat) == Some(r->Ok_0@),
        r is Ok ==> r->Ok_0@.len() <= limit,
        forall|data: Seq<u8>, level: i32|
            frames@ == #[trigger] zstd_frame(data, level) ==> r is Ok && r->Ok_0@ == front(
                data,
                limit as nat,
            ),
{
    let decoder = zstd::Decoder::new(frames).map_err(|e| e.to_string())?;
    let mut out = Vec::new();
    std::io::Read::read_to_end(&mut std::io::Read::take(decoder, limit), &mut out)
        .map_err(|e| e.to_string())?;
    Ok(out)
}

/// At most the first `limit` bytes.
pub open spec fn front(data: Seq<u8>, limit: nat) -> Seq<u8> {
    if data.len() <= limit {
        data
    } else {
        data.take(limit as int)
    }
}

/// The payload for `data`, given its frame: the frame if that is shorter, else the data.
pub open spec fn sealed(data: Seq<u8>, frame: Seq<u8>) -> Seq<u8> {
    if frame.len() >= data.len() {
        seq![TAG_RAW] + data
    } else {
        seq![TAG_ZSTD] + frame
    }
}

/// The tag, then the bytes.
pub fn tagged(tag: u8, body: &[u8]) -> (r: Vec<u8>)
    ensures
        r@ == seq![tag] + body@,
{
    let mut out: Vec<u8> = Vec::new();
    out.push(tag);
    let mut rest: Vec<u8> = slice_to_vec(body);
    out.append(&mut rest);
    assert(out@ =~= seq![tag] + body@);
    out
}

/// The payload for `data` whose frame is `frame`: sent raw when the frame saves nothing.
pub fn seal(data: &[u8], frame: &[u8]) -> (r: Vec<u8>)
    ensures
        r@ == sealed(data@, frame@),
{
    if frame.len() >= data.len() {
        tagged(TAG_RAW, data)
    } else {
        tagged(TAG_ZSTD, frame)
    }
}

/// The bytes behind the tag.
pub fn body(payload: &[u8]) -> (r: &[u8])
    requires
        payload@.len() > 0,
    ensures
        r@ == payload@.drop_first(),
{
    slice_subrange(payload, 1, payload.len())
}

/// Compresses what is longer than the threshold. An `Err` would carry zstd's own message.
pub(crate) fn compress_payload(data: &[u8]) -> (r: Result<Vec<u8>, String>)
    ensures
        r matches Ok(out) && out@ == payload_of(data@),
{
    if data.len() <= COMPRESSION_THRESHOLD {
        return Ok(tagged(TAG_RAW, data));
    }
    match zstd_encode(data, ZSTD_LEVEL) {
        Ok(frame) => Ok(seal(data, frame.as_slice())),
        Err(e) => Err(e),
    }
}

/// The payload that stands for `data`.
pub open spec fn payload_of(data: Seq<u8>) -> Seq<u8> {
    if data.len() <= COMPRESSION_THRESHOLD {
        seq![TAG_RAW] + data
    } else {
        sealed(data, zstd_frame(data, ZSTD_LEVEL))
    }
}

/// The bytes behind a zstd tag as the decoder gives them under a ceiling: read to one byte
/// past it, so that what is over the ceiling shows.
pub open spec fn within(frames: Seq<u8>, max: nat) -> Option<Seq<u8>> {
    match zstd_output(frames, max + 1) {
        Some(out) => if out.len() <= max {
            Some(out)
        } else {
            None
        },
        None => None,
    }
}

/// The payload for `data` is the data behind a raw tag, or its frame behind a zstd tag, and
/// at most one byte longer than the data.
pub proof fn payload_stands_for_its_data(data: Seq<u8>)
    ensures
        payload_of(data).len() > 0,
        payload_of(data)[0] == TAG_RAW ==> payload_of(data).drop_first() == data,
        payload_of(data)[0] != TAG_RAW ==> {
            &&& payload_of(data)[0] == TAG_ZSTD
            &&& payload_of(data).drop_first() == zstd_frame(data, ZSTD_LEVEL)
        },
        payload_of(data).len() <= data.len() + 1,
{
    let frame = zstd_frame(data, ZSTD_LEVEL);
    assert((seq![TAG_RAW] + data).drop_first() =~= data);
    assert((seq![TAG_ZSTD] + frame).drop_first() =~= frame);
}

/// Up to 256 bytes go out as they are, behind a zero. More go out as a frame behind a one, where
/// the frame is the shorter, and else as they are.
pub proof fn short_and_stubborn_data_goes_out_raw(data: Seq<u8>)
    ensures
        data.len() <= 256 ==> payload_of(data) == seq![0u8] + data,
        data.len() > 256 && zstd_frame(data, 3).len() < data.len() ==> payload_of(data) == seq![1u8]
            + zstd_frame(data, 3),
        data.len() > 256 && zstd_frame(data, 3).len() >= data.len() ==> payload_of(data) == seq![
            0u8,
        ] + data,
{
}

} // verus!
