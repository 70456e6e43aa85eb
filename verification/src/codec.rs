use vstd::prelude::*;
use crate::addr::{sha1_digest, sha1_of};
use crate::bytes::{copy_range, find_byte, push_bytes};
use crate::kind::{kind_name, lemma_kind_name_round_trip, parse_kind, spec_kind_name,
    spec_parse_kind, Kind};
use crate::num::{lemma_dec_digits, lemma_dec_val_of_dec, parse_dec, spec_dec, spec_dec_val,
    spec_is_digits, u64_to_dec};
use crate::zip::{zlib_compress, zlib_decompress, zlib_inflate_of};
use vstd::slice::slice_subrange;

verus! {

/// A decoded object: its kind and its full payload.
#[derive(Debug, PartialEq, Eq)]
pub struct Object {
    pub kind: Kind,
    pub content: Vec<u8>,
}

/// Why a stored byte string failed to decode.
#[derive(Clone, Copy, PartialEq, Eq, Structural, Debug)]
pub enum DecodeError {
    /// The stored bytes are not a zlib stream.
    Corrupt,
    /// The decompressed bytes hold no NUL-terminated `kind size` header.
    MissingHeader,
    /// The header names no known object kind.
    UnknownKind,
    /// The size field is empty, not a number, or does not fit.
    BadSize,
    /// Fewer payload bytes are present than the header declares.
    SizeMismatch,
}

/// The canonical header of an object: its kind's name, a space, the
/// decimal payload size, and a terminating NUL.
pub open spec fn spec_header(k: Kind, size: nat) -> Seq<u8> {
    spec_kind_name(k) + seq![32u8] + spec_dec(size) + seq![0u8]
}

/// The framed, uncompressed form of an object: header, then payload.
pub open spec fn spec_frame(k: Kind, payload: Seq<u8>) -> Seq<u8> {
    spec_header(k, payload.len()) + payload
}

/// The content address of an object: the SHA-1 digest of its framed,
/// uncompressed bytes. Compression never enters the address.
pub open spec fn spec_object_id(k: Kind, payload: Seq<u8>) -> Seq<u8> {
    sha1_of(spec_frame(k, payload))
}

/// What parsing decompressed object bytes yields: the kind and the
/// payload, truncated to exactly the declared size, or the first error
/// in header isolation, kind, size, or payload length.
pub open spec fn spec_parse_frame(d: Seq<u8>) -> Result<(Kind, Seq<u8>), DecodeError> {
    match d.index_of_first(0u8) {
        None => Err(DecodeError::MissingHeader),
        Some(z) => {
            let header = d.take(z);
            match header.index_of_first(32u8) {
                None => Err(DecodeError::MissingHeader),
                Some(sp) => {
                    let kname = header.take(sp);
                    let digits = header.skip(sp + 1);
                    match spec_parse_kind(kname) {
                        None => Err(DecodeError::UnknownKind),
                        Some(k) => if !(digits.len() > 0 && spec_is_digits(digits)
                            && spec_dec_val(digits) <= u64::MAX) {
                            Err(DecodeError::BadSize)
                        } else {
                            let rest = d.skip(z + 1);
                            if rest.len() < spec_dec_val(digits) {
                                Err(DecodeError::SizeMismatch)
                            } else {
                                Ok((k, rest.take(spec_dec_val(digits))))
                            }
                        },
                    }
                },
            }
        },
    }
}

/// What decoding stored bytes yields: decompression, then frame parsing.
pub open spec fn spec_decode(stored: Seq<u8>) -> Result<(Kind, Seq<u8>), DecodeError> {
    match zlib_inflate_of(stored) {
        None => Err(DecodeError::Corrupt),
        Some(d) => spec_parse_frame(d),
    }
}

/// The header of an object of the given kind and payload size.
pub fn header_bytes(k: Kind, size: u64) -> (r: Vec<u8>)
    ensures
        r@ == spec_header(k, size as nat),
{
    let mut v = kind_name(k);
    v.push(32);
    let digits = u64_to_dec(size);
    push_bytes(&mut v, digits.as_slice());
    v.push(0);
    proof {
        assert(v@ =~= spec_header(k, size as nat));
    }
    v
}

/// The framed, uncompressed bytes of an object.
pub fn frame_bytes(k: Kind, payload: &[u8]) -> (r: Vec<u8>)
    ensures
        r@ == spec_frame(k, payload@),
{
    let size: u64 = payload.len() as u64;
    let mut v = header_bytes(k, size);
    push_bytes(&mut v, payload);
    v
}

/// An object encoded for storage: its content address, and the
/// compressed bytes that belong under the address-derived path.
pub struct Encoded {
    pub id: Vec<u8>,
    pub stored: Vec<u8>,
}

/// Frame, hash and compress an object in one pass. The address covers
/// the header and the uncompressed payload, never the compressed bytes.
pub fn encode_object(k: Kind, payload: &[u8]) -> (r: Encoded)
    ensures
        r.id@ == spec_object_id(k, payload@),
        r.id@.len() == 20,
        zlib_inflate_of(r.stored@) == Some(spec_frame(k, payload@)),
{
    let frame = frame_bytes(k, payload);
    let id = sha1_digest(frame.as_slice());
    let stored = zlib_compress(frame.as_slice());
    Encoded { id, stored }
}

/// Parse decompressed object bytes into an object.
pub fn parse_frame(d: &[u8]) -> (r: Result<Object, DecodeError>)
    ensures
        match r {
            Ok(o) => spec_parse_frame(d@) == Ok::<(Kind, Seq<u8>), DecodeError>(
                (o.kind, o.content@)),
            Err(e) => spec_parse_frame(d@) == Err::<(Kind, Seq<u8>), DecodeError>(e),
        },
{
    proof {
        d@.index_of_first_ensures(0u8);
    }
    let z = match find_byte(d, 0) {
        Some(z) => z,
        None => { return Err(DecodeError::MissingHeader) },
    };
    let header = slice_subrange(d, 0, z);
    proof {
        header@.index_of_first_ensures(32u8);
        assert(header@ == d@.take(z as int));
    }
    let sp = match find_byte(header, 32) {
        Some(sp) => sp,
        None => { return Err(DecodeError::MissingHeader) },
    };
    let kname = slice_subrange(header, 0, sp);
    let digits = slice_subrange(header, sp + 1, header.len());
    proof {
        assert(kname@ == d@.take(z as int).take(sp as int));
        assert(digits@ == d@.take(z as int).skip(sp + 1));
    }
    let k = match parse_kind(kname) {
        Some(k) => k,
        None => { return Err(DecodeError::UnknownKind) },
    };
    let size = match parse_dec(digits) {
        Some(s) => s,
        None => { return Err(DecodeError::BadSize) },
    };
    let rest_len: usize = d.len() - (z + 1);
    proof {
        assert(d@.skip(z + 1).len() == rest_len);
    }
    if (rest_len as u64) < size {
        return Err(DecodeError::SizeMismatch);
    }
    let size_us: usize = size as usize;
    let content = copy_range(d, z + 1, z + 1 + size_us);
    proof {
        assert(content@ =~= d@.skip(z + 1).take(size as int));
    }
    Ok(Object { kind: k, content })
}

/// Decode stored bytes: decompress, then parse the frame.
pub fn decode_object(stored: &[u8]) -> (r: Result<Object, DecodeError>)
    ensures
        match r {
            Ok(o) => spec_decode(stored@) == Ok::<(Kind, Seq<u8>), DecodeError>(
                (o.kind, o.content@)),
            Err(e) => spec_decode(stored@) == Err::<(Kind, Seq<u8>), DecodeError>(e),
        },
{
    let d = match zlib_decompress(stored) {
        Some(d) => d,
        None => { return Err(DecodeError::Corrupt) },
    };
    parse_frame(d.as_slice())
}

/// No byte of a kind's name is a NUL or a space.
proof fn lemma_kind_name_plain(k: Kind)
    ensures
        forall|i: int| 0 <= i < spec_kind_name(k).len() ==> spec_kind_name(k)[i] != 0
            && spec_kind_name(k)[i] != 32,
{
}

/// Parsing the framed form of an object gives the object back: the
/// codec loses nothing and invents nothing.
pub proof fn lemma_parse_of_frame(k: Kind, payload: Seq<u8>)
    requires
        payload.len() <= u64::MAX,
    ensures
        spec_parse_frame(spec_frame(k, payload)) == Ok::<(Kind, Seq<u8>), DecodeError>(
            (k, payload)),
{
    let size = payload.len();
    let kname = spec_kind_name(k);
    let digits = spec_dec(size);
    let body = kname + seq![32u8] + digits;
    let frame = spec_frame(k, payload);
    lemma_kind_name_plain(k);
    lemma_dec_digits(size);
    lemma_dec_val_of_dec(size);
    assert(frame =~= body + seq![0u8] + payload);
    let hl = body.len() as int;
    assert(frame[hl] == 0);
    assert(forall|j: int| 0 <= j < hl ==> frame[j] != 0) by {
        assert(forall|j: int| 0 <= j < hl ==> frame[j] == body[j]);
    }
    frame.index_of_first_ensures(0u8);
    assert(frame.contains(0u8));
    let z = frame.index_of_first(0u8).unwrap();
    assert(z == hl);
    let header = frame.take(z);
    assert(header =~= body);
    let kl = kname.len() as int;
    assert(header[kl] == 32);
    assert(forall|j: int| 0 <= j < kl ==> header[j] != 32) by {
        assert(forall|j: int| 0 <= j < kl ==> header[j] == kname[j]);
    }
    header.index_of_first_ensures(32u8);
    assert(header.contains(32u8));
    let sp = header.index_of_first(32u8).unwrap();
    assert(sp == kl);
    assert(header.take(sp) =~= kname);
    lemma_kind_name_round_trip(k);
    assert(header.skip(sp + 1) =~= digits);
    let rest = frame.skip(z + 1);
    assert(rest =~= payload);
    assert(rest.take(size as int) =~= payload);
}

/// Round trip: decoding any stored bytes that decompress to the framed
/// form of an object yields exactly that object's kind and payload.
pub proof fn lemma_decode_of_encode(stored: Seq<u8>, k: Kind, payload: Seq<u8>)
    requires
        payload.len() <= u64::MAX,
        zlib_inflate_of(stored) == Some(spec_frame(k, payload)),
    ensures
        spec_decode(stored) == Ok::<(Kind, Seq<u8>), DecodeError>((k, payload)),
{
    lemma_parse_of_frame(k, payload);
}

/// The content address is a pure function of kind and payload: equal
/// inputs give equal addresses, whatever was encoded before or after.
pub proof fn lemma_address_pure(k1: Kind, p1: Seq<u8>, k2: Kind, p2: Seq<u8>)
    requires
        k1 == k2,
        p1 == p2,
    ensures
        spec_object_id(k1, p1) == spec_object_id(k2, p2),
{
}

} // verus!
