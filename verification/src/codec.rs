//! The wire layer: turning chunk records into datagram bytes and back with
//! the external binary codec.

use vstd::prelude::*;
use crate::msgqueue::{MsgChunk, MsgId, PieceNum};
use crate::{UnrError, UnrResult};

verus! {

/// The longest datagram the transport can carry: its length fits a u16.
pub const MAX_DATAGRAM_LEN: usize = 0xffff;

/// The byte string the external codec produces for a chunk record with the
/// given fields. The exact framing is the codec's own; the library relies
/// only on it being a function of the fields and on decoding inverting it.
pub uninterp spec fn chunk_bytes(id: u64, index: u16, total: u16, payload: Seq<u8>) -> Seq<u8>;

#[verifier::external_type_specification]
#[verifier::external_body]
pub struct ExEncodeError(bincode::error::EncodeError);

#[verifier::external_type_specification]
#[verifier::external_body]
pub struct ExDecodeError(bincode::error::DecodeError);

/// Relies on bincode::encode_to_vec with the standard configuration: the
/// bytes produced for a tuple of plain values are a function of those
/// values alone, and for integers and byte vectors the encoder cannot fail
/// (its in-memory writers never error).
#[verifier::external_body]
fn encode_chunk_parts(id: u64, index: u16, total: u16, payload: &Vec<u8>) -> (r: Result<
    Vec<u8>,
    bincode::error::EncodeError,
>)
    ensures
        r is Ok,
        r matches Ok(bytes) ==> bytes@ == chunk_bytes(id, index, total, payload@),
{
    bincode::encode_to_vec((id, index, total, payload), bincode::config::standard())
}

/// Relies on bincode::decode_from_slice with the standard configuration
/// bounded by a 1 MiB read limit: decoding inverts encoding, every byte a
/// datagram-sized encoding makes the decoder claim is within the limit, and
/// the limit turns a malicious length claim into an error before anything
/// is allocated for it.
#[verifier::external_body]
fn decode_chunk_parts(data: &[u8]) -> (r: Result<
    (u64, u16, u16, Vec<u8>),
    bincode::error::DecodeError,
>)
    ensures
        r matches Ok(t) ==> (forall|id: u64, index: u16, total: u16, payload: Seq<u8>|
            data@ == #[trigger] chunk_bytes(id, index, total, payload) ==> t.0 == id && t.1
                == index && t.2 == total && t.3@ == payload),
        r is Err ==> (forall|id: u64, index: u16, total: u16, payload: Seq<u8>|
            data@ == #[trigger] chunk_bytes(id, index, total, payload) ==> data@.len()
                > MAX_DATAGRAM_LEN),
{
    match bincode::decode_from_slice::<(u64, u16, u16, Vec<u8>), _>(
        data,
        bincode::config::standard().with_limit::<0x100000>(),
    ) {
        Ok((t, _)) => Ok(t),
        Err(e) => Err(e),
    }
}

/// Encode a chunk record for the wire. Fails with `EncodingError` exactly
/// when the encoded record would not fit one datagram of `limit` bytes.
pub fn encode_chunk(chunk: &MsgChunk, limit: u16) -> (r: UnrResult<Vec<u8>>)
    ensures
        r matches Ok(bytes) ==> bytes@ == chunk_bytes(
            chunk@.id,
            chunk@.index,
            chunk@.total,
            chunk@.payload,
        ) && bytes@.len() <= limit,
        r matches Err(e) ==> e == UnrError::EncodingError,
        r is Err <==> chunk_bytes(chunk@.id, chunk@.index, chunk@.total, chunk@.payload).len()
            > limit,
{
    match encode_chunk_parts(chunk.0.0, chunk.1.0, chunk.1.1, &chunk.2) {
        Ok(bytes) => {
            if bytes.len() <= limit as usize {
                Ok(bytes)
            } else {
                Err(UnrError::EncodingError)
            }
        },
        Err(_) => Err(UnrError::EncodingError),
    }
}

/// Decode one inbound datagram into a chunk record. Any byte string the
/// codec produced for a chunk — no datagram outgrows the decoder's read
/// limit — decodes back to that chunk; bytes the codec cannot read fail
/// with `DecodingError`.
pub fn decode_chunk(data: &[u8]) -> (r: UnrResult<MsgChunk>)
    ensures
        forall|id: u64, index: u16, total: u16, payload: Seq<u8>|
            data@ == #[trigger] chunk_bytes(id, index, total, payload) && data@.len()
                <= MAX_DATAGRAM_LEN ==> (r matches Ok(c) && c@.id == id && c@.index == index
                && c@.total == total && c@.payload == payload),
        r matches Err(e) ==> e == UnrError::DecodingError,
{
    match decode_chunk_parts(data) {
        Ok((id, index, total, payload)) => Ok(
            MsgChunk(MsgId(id), PieceNum(index, total), payload),
        ),
        Err(_) => Err(UnrError::DecodingError),
    }
}

} // verus!
