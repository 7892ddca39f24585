//! Compression of messages between nodes, with a ceiling that the receiver chooses.

use crate::text::{decimal, hex_byte, push_hex_byte, push_str, push_usize, string};
use crate::tpu::error::TpuError;
use crate::zstd_frames::{
    body, compress_payload, front, payload_of, payload_stands_for_its_data, within, zstd_decode,
    zstd_frame, zstd_output, TAG_RAW, TAG_ZSTD, ZSTD_LEVEL,
};
use vstd::prelude::*;
use vstd::slice::slice_to_vec;

verus! {

/// Maximum decompressed-to-wire ratio to guard against decompression bombs.
pub const MAX_DECOMPRESSION_RATIO: usize = 4;

/// The error is `Compression` with the message `text`.
pub open spec fn is_compression(e: TpuError, text: Seq<char>) -> bool {
    e matches TpuError::Compression(s) && s@ == text
}

/// The error is `Decompression` with the message `text`.
pub open spec fn is_decompression(e: TpuError, text: Seq<char>) -> bool {
    e matches TpuError::Decompression(s) && s@ == text
}

pub open spec fn raw_over_text(size: nat, max: nat) -> Seq<char> {
    "raw payload size "@ + decimal(size) + " exceeds max "@ + decimal(max)
}

pub open spec fn over_limit_text(max: nat) -> Seq<char> {
    "decompressed output exceeds limit of "@ + decimal(max) + " bytes"@
}

/// What comes out of a payload under a ceiling: the bytes behind a raw tag, or what the
/// decoder gives for the frames behind a zstd tag.
pub open spec fn opened(payload: Seq<u8>, max: nat) -> Option<Seq<u8>> {
    if payload.len() == 0 {
        None
    } else if payload[0] == TAG_RAW {
        if payload.drop_first().len() <= max {
            Some(payload.drop_first())
        } else {
            None
        }
    } else if payload[0] == TAG_ZSTD {
        within(payload.drop_first(), max)
    } else {
        None
    }
}

/// Why nothing comes out of a payload. What the decoder says of frames that it refuses is
/// its own.
pub open spec fn tells_why(payload: Seq<u8>, max: nat, e: TpuError) -> bool {
    if payload.len() == 0 {
        is_decompression(e, "empty payload"@)
    } else if payload[0] == TAG_RAW {
        is_decompression(e, raw_over_text(payload.drop_first().len(), max))
    } else if payload[0] == TAG_ZSTD {
        if zstd_output(payload.drop_first(), max + 1) is Some {
            is_decompression(e, over_limit_text(max))
        } else {
            e is Decompression
        }
    } else {
        is_decompression(e, "unknown compression tag: 0x"@ + hex_byte(payload[0]))
    }
}

/// The first byte of what a payload carries, as far as it can be read without the rest.
pub open spec fn first_of(payload: Seq<u8>) -> Option<u8> {
    if payload.len() == 0 {
        None
    } else if payload[0] == TAG_RAW {
        if payload.len() > 1 {
            Some(payload[1])
        } else {
            None
        }
    } else if payload[0] == TAG_ZSTD {
        match zstd_output(payload.drop_first(), 1) {
            Some(out) => if out.len() > 0 {
                Some(out[0])
            } else {
                None
            },
            None => None,
        }
    } else {
        None
    }
}

/// Compress `data` with a 1-byte tag prefix.
pub fn compress(data: &[u8]) -> (r: Result<Vec<u8>, TpuError>)
    ensures
        if data@.len() == 0 {
            r matches Err(e) && is_compression(e, "empty payload"@)
        } else {
            r matches Ok(out) && out@ == payload_of(data@)
        },
{
    if data.len() == 0 {
        return Err(TpuError::Compression(string("empty payload")));
    }
    match compress_payload(data) {
        Ok(out) => Ok(out),
        Err(e) => Err(TpuError::Compression(e)),
    }
}

/// What a zstd payload gives, once the decoder has been read to its end or one byte past
/// the limit: the output, unless it is over the limit or the decoder failed.
pub fn finish_decompress(read: Result<Vec<u8>, String>, max_decompressed_size: usize) -> (r: Result<
    Vec<u8>,
    TpuError,
>)
    ensures
        match read {
            Ok(out) => if out@.len() > max_decompressed_size {
                r matches Err(e) && is_decompression(e, over_limit_text(max_decompressed_size as nat))
            } else {
                r == Ok::<Vec<u8>, TpuError>(out)
            },
            Err(text) => r == Err::<Vec<u8>, TpuError>(TpuError::Decompression(text)),
        },
{
    match read {
        Ok(out) => {
            if out.len() > max_decompressed_size {
                let mut text: String = string("decompressed output exceeds limit of ");
                push_usize(&mut text, max_decompressed_size);
                push_str(&mut text, " bytes");
                Err(TpuError::Decompression(text))
            } else {
                Ok(out)
            }
        },
        Err(text) => Err(TpuError::Decompression(text)),
    }
}

/// Decompress a tagged payload produced by [`compress`].
/// `max_decompressed_size` limits the output to prevent decompression bombs. What `compress`
/// made is opened to what it was made of, within that limit.
pub fn decompress(tagged_payload: &[u8], max_decompressed_size: usize) -> (r: Result<
    Vec<u8>,
    TpuError,
>)
    requires
        max_decompressed_size < u64::MAX,
    ensures
        match opened(tagged_payload@, max_decompressed_size as nat) {
            Some(data) => r matches Ok(out) && out@ == data,
            None => r matches Err(e) && tells_why(
                tagged_payload@,
                max_decompressed_size as nat,
                e,
            ),
        },
        forall|data: Seq<u8>|
            tagged_payload@ == #[trigger] payload_of(data) ==> if data.len()
                <= max_decompressed_size {
                r matches Ok(out) && out@ == data
            } else {
                r is Err
            },
{
    if tagged_payload.len() == 0 {
        proof {
            assert forall|data: Seq<u8>| tagged_payload@ != #[trigger] payload_of(data) by {
                payload_stands_for_its_data(data);
            }
        }
        return Err(TpuError::Decompression(string("empty payload")));
    }
    let tag: u8 = tagged_payload[0];
    let rest: &[u8] = body(tagged_payload);
    proof {
        if tag != TAG_ZSTD {
            assert forall|data: Seq<u8>| tagged_payload@ == #[trigger] payload_of(
                data,
            ) implies tag == TAG_RAW && rest@ == data by {
                payload_stands_for_its_data(data);
            }
        }
    }
    if tag == TAG_RAW {
        if rest.len() > max_decompressed_size {
            let mut text: String = string("raw payload size ");
            push_usize(&mut text, rest.len());
            push_str(&mut text, " exceeds max ");
            push_usize(&mut text, max_decompressed_size);
            return Err(TpuError::Decompression(text));
        }
        Ok(slice_to_vec(rest))
    } else if tag == TAG_ZSTD {
        // One byte past the limit, so that an overflow shows.
        let read = zstd_decode(rest, max_decompressed_size as u64 + 1);
        let r = finish_decompress(read, max_decompressed_size);
        assert forall|data: Seq<u8>|
            tagged_payload@ == #[trigger] payload_of(data) implies if data.len()
            <= max_decompressed_size {
            r matches Ok(out) && out@ == data
        } else {
            r is Err
        } by {
            payload_stands_for_its_data(data);
            assert(rest@ == zstd_frame(data, ZSTD_LEVEL));
            assert(read->Ok_0@ == front(data, (max_decompressed_size + 1) as nat));
        }
        r
    } else {
        let mut text: String = string("unknown compression tag: 0x");
        push_hex_byte(&mut text, tag);
        Err(TpuError::Decompression(text))
    }
}

/// The first byte of what a payload carries, as far as it can be read without the rest. It
/// can be read of everything that `compress` made.
pub fn peek(tagged_payload: &[u8]) -> (r: Option<u8>)
    ensures
        r == first_of(tagged_payload@),
        forall|data: Seq<u8>|
            data.len() > 0 && tagged_payload@ == #[trigger] payload_of(data) ==> r == Some(data[0]),
{
    if tagged_payload.len() == 0 {
        proof {
            assert forall|data: Seq<u8>| tagged_payload@ != #[trigger] payload_of(data) by {
                payload_stands_for_its_data(data);
            }
        }
        return None;
    }
    let tag: u8 = tagged_payload[0];
    let rest: &[u8] = body(tagged_payload);
    proof {
        assert forall|data: Seq<u8>|
            tagged_payload@ == #[trigger] payload_of(data) implies if tag == TAG_RAW {
            rest@ == data
        } else {
            tag == TAG_ZSTD && rest@ == zstd_frame(data, ZSTD_LEVEL)
        } by {
            payload_stands_for_its_data(data);
        }
    }
    if tag == TAG_RAW {
        if rest.len() > 0 {
            Some(rest[0])
        } else {
            None
        }
    } else if tag == TAG_ZSTD {
        match zstd_decode(rest, 1) {
            Ok(out) => {
                assert forall|data: Seq<u8>|
                    data.len() > 0 && tagged_payload@ == #[trigger] payload_of(
                        data,
                    ) implies out@.len() > 0 && out@[0] == data[0] by {
                    assert(rest@ == zstd_frame(data, ZSTD_LEVEL));
                    assert(out@ == front(data, 1));
                }
                if out.len() == 0 {
                    return None;
                }
                Some(out[0])
            },
            Err(_) => None,
        }
    } else {
        None
    }
}

/// No more comes out of a payload than was allowed for. Behind a zero, all bytes come out as they
/// are, within that; and nothing comes out behind a byte that is neither zero nor one.
pub proof fn opened_payload_is_bounded(payload: Seq<u8>, max: nat)
    ensures
        opened(payload, max) matches Some(out) ==> out.len() <= max,
        payload.len() > 0 && payload[0] == 0 && payload.len() <= max + 1 ==> opened(payload, max)
            == Some(payload.skip(1)),
        payload.len() == 0 || payload[0] > 1 ==> opened(payload, max) is None,
{
    if payload.len() > 0 {
        assert(payload.drop_first() =~= payload.skip(1));
    }
}

} // verus!
