//! Compression of wire messages, with a ceiling on what a message may expand to.

use crate::text::{hex_byte, push_hex_byte, push_str, push_usize, string};
use crate::turbine::error::TurbineError;
use crate::zstd_frames::{
    body, compress_payload, front, payload_of, payload_stands_for_its_data, within, zstd_decode,
    zstd_frame, zstd_output, TAG_RAW, TAG_ZSTD, ZSTD_LEVEL,
};
use vstd::prelude::*;
use vstd::slice::slice_to_vec;

verus! {

/// Maximum allowed decompressed output size (4 MiB).
/// Prevents decompression bombs where a tiny compressed payload expands to gigabytes.
pub const MAX_DECOMPRESS_SIZE: usize = 4194304;

/// The error is `Compression` with the message `text`.
pub open spec fn is_compression(e: TurbineError, text: Seq<char>) -> bool {
    e matches TurbineError::Compression(s) && s@ == text
}

/// The error is `Decompression` with the message `text`.
pub open spec fn is_decompression(e: TurbineError, text: Seq<char>) -> bool {
    e matches TurbineError::Decompression(s) && s@ == text
}

/// Compress `data` with a 1-byte tag prefix: the data as it is if it is at or below the
/// threshold or incompressible, else a zstd frame.
pub fn compress(data: &[u8]) -> (r: Result<Vec<u8>, TurbineError>)
    ensures
        if data@.len() == 0 {
            r matches Err(e) && is_compression(e, "empty payload"@)
        } else {
            r matches Ok(out) && out@ == payload_of(data@)
        },
{
    if data.len() == 0 {
        return Err(TurbineError::Compression(string("empty payload")));
    }
    match compress_payload(data) {
        Ok(out) => Ok(out),
        Err(e) => Err(TurbineError::Compression(e)),
    }
}

/// What a zstd payload gives, once the decoder has been read to its end or one byte past
/// the limit: the output, unless it is over the limit or the decoder failed.
pub fn finish_decompress(read: Result<Vec<u8>, String>) -> (r: Result<Vec<u8>, TurbineError>)
    ensures
        match read {
            Ok(out) => if out@.len() > MAX_DECOMPRESS_SIZE {
                r matches Err(e) && is_decompression(e, over_limit_text(MAX_DECOMPRESS_SIZE as nat))
            } else {
                r == Ok::<Vec<u8>, TurbineError>(out)
            },
            Err(text) => r == Err::<Vec<u8>, TurbineError>(TurbineError::Decompression(text)),
        },
{
    match read {
        Ok(out) => {
            if out.len() > MAX_DECOMPRESS_SIZE {
                let mut text: String = string("decompressed output exceeds limit of ");
                push_usize(&mut text, MAX_DECOMPRESS_SIZE);
                push_str(&mut text, " bytes");
                Err(TurbineError::Decompression(text))
            } else {
                Ok(out)
            }
        },
        Err(text) => Err(TurbineError::Decompression(text)),
    }
}

pub open spec fn over_limit_text(limit: nat) -> Seq<char> {
    "decompressed output exceeds limit of "@ + crate::text::decimal(limit) + " bytes"@
}

/// What comes out of a payload: the bytes behind a raw tag, or what the decoder gives for
/// the frames behind a zstd tag, within the limit.
pub open spec fn opened(payload: Seq<u8>) -> Option<Seq<u8>> {
    if payload.len() == 0 {
        None
    } else if payload[0] == TAG_RAW {
        Some(payload.drop_first())
    } else if payload[0] == TAG_ZSTD {
        within(payload.drop_first(), MAX_DECOMPRESS_SIZE as nat)
    } else {
        None
    }
}

/// Why nothing comes out of a payload. What the decoder says of frames that it refuses is
/// its own.
pub open spec fn tells_why(payload: Seq<u8>, e: TurbineError) -> bool {
    if payload.len() == 0 {
        is_decompression(e, "empty payload"@)
    } else if payload[0] == TAG_ZSTD {
        if zstd_output(payload.drop_first(), (MAX_DECOMPRESS_SIZE + 1) as nat) is Some {
            is_decompression(e, over_limit_text(MAX_DECOMPRESS_SIZE as nat))
        } else {
            e is Decompression
        }
    } else {
        is_decompression(e, "unknown compression tag: 0x"@ + hex_byte(payload[0]))
    }
}

/// What is made of `data` can be opened again: it is within the limit, or goes out raw.
pub open spec fn openable(data: Seq<u8>) -> bool {
    data.len() <= MAX_DECOMPRESS_SIZE || payload_of(data)[0] == TAG_RAW
}

/// Decompress a tagged payload produced by [`compress`].
///
/// Nothing longer than [`MAX_DECOMPRESS_SIZE`] comes out of a zstd payload. What `compress`
/// made is opened to what it was made of, within that limit.
pub fn decompress(tagged_payload: &[u8]) -> (r: Result<Vec<u8>, TurbineError>)
    ensures
        match opened(tagged_payload@) {
            Some(data) => r matches Ok(out) && out@ == data,
            None => r matches Err(e) && tells_why(tagged_payload@, e),
        },
        forall|data: Seq<u8>|
            tagged_payload@ == #[trigger] payload_of(data) ==> if openable(data) {
                r matches Ok(out) && out@ == data
            } else {
                r is Err
            },
{
    if tagged_payload.len() == 0 {
        proof {
            assert forall|data: Seq<u8>| tagged_payload@ != #[trigger] payload_of(data) by {
                payload_stands_for_its_data(data);
            }
        }
        return Err(TurbineError::Decompression(string("empty payload")));
    }
    let tag: u8 = tagged_payload[0];
    let rest: &[u8] = body(tagged_payload);
    proof {
        if tag != TAG_ZSTD {
            assert forall|data: Seq<u8>| tagged_payload@ == #[trigger] payload_of(
                data,
            ) implies openable(data) && tag == TAG_RAW && rest@ == data by {
                payload_stands_for_its_data(data);
            }
        }
    }
    if tag == TAG_RAW {
        Ok(slice_to_vec(rest))
    } else if tag == TAG_ZSTD {
        // One byte past the limit, so that an overflow shows.
        let read = zstd_decode(rest, MAX_DECOMPRESS_SIZE as u64 + 1);
        let r = finish_decompress(read);
        assert forall|data: Seq<u8>|
            tagged_payload@ == #[trigger] payload_of(data) implies if openable(data) {
            r matches Ok(out) && out@ == data
        } else {
            r is Err
        } by {
            payload_stands_for_its_data(data);
            assert(rest@ == zstd_frame(data, ZSTD_LEVEL));
            assert(read->Ok_0@ == front(data, (MAX_DECOMPRESS_SIZE + 1) as nat));
        }
        r
    } else {
        let mut text: String = string("unknown compression tag: 0x");
        push_hex_byte(&mut text, tag);
        Err(TurbineError::Decompression(text))
    }
}

/// No more than four mebibytes come out of a frame, whatever it holds; behind a zero, all bytes
/// come out as they are; and nothing comes out behind another byte.
pub proof fn opened_payload_is_bounded(payload: Seq<u8>)
    ensures
        payload.len() > 0 && payload[0] == 0 ==> opened(payload) == Some(payload.skip(1)),
        payload.len() > 0 && payload[0] == 1 ==> (opened(payload) matches Some(out) ==> out.len()
            <= 4_194_304),
        payload.len() == 0 || payload[0] > 1 ==> opened(payload) is None,
{
    if payload.len() > 0 {
        assert(payload.drop_first() =~= payload.skip(1));
    }
}

/// Data of up to four mebibytes can be opened again, however it goes out.
pub proof fn data_up_to_the_limit_is_openable(data: Seq<u8>)
    requires
        data.len() <= 4_194_304,
    ensures
        openable(data),
{
}

} // verus!
