//! The blob codec: `"blob {byteLength}\0{rawBytes}"`.

use vstd::prelude::*;

use crate::bytesio::{push_byte, push_bytes, push_dec, read_until, spec_read_until, take_rest};
use crate::error::GitError;
use crate::hashing::bytes_eq;
use crate::numbers::{dec_digits, is_digit, lemma_dec_digits_value, spec_parse_dec};
use crate::object::{blob_tag, spec_encode_blob, Object, ObjectV};

verus! {

/// What decoding a blob yields: the declared length must equal the actual
/// remaining byte count.
pub open spec fn spec_decode_blob(s: Seq<u8>) -> Option<ObjectV> {
    match spec_read_until(s, 0, 0x20u8) {
        Some((tag, p1)) => {
            if tag == blob_tag() {
                match spec_read_until(s, p1, 0u8) {
                    Some((lenb, p2)) => {
                        match spec_parse_dec(lenb) {
                            Some(n) => {
                                let data = s.skip(p2);
                                if n == data.len() {
                                    Some(ObjectV::Blob { data })
                                } else {
                                    None
                                }
                            },
                            None => None,
                        }
                    },
                    None => None,
                }
            } else {
                None
            }
        },
        None => None,
    }
}

/// Encodes raw blob data with its header.
pub fn as_bytes(data: &[u8]) -> (r: Vec<u8>)
    ensures
        r@ == spec_encode_blob(data@),
{
    let mut out: Vec<u8> = Vec::new();
    push_byte(&mut out, 0x62);
    push_byte(&mut out, 0x6c);
    push_byte(&mut out, 0x6f);
    push_byte(&mut out, 0x62);
    push_byte(&mut out, 0x20);
    push_dec(&mut out, data.len() as u64);
    push_byte(&mut out, 0);
    push_bytes(&mut out, data);
    proof {
        assert(out@ =~= spec_encode_blob(data@));
    }
    out
}

/// Decodes a blob object, validating the header and the declared length.
pub fn from_bytes(bytes: &[u8]) -> (r: Result<Object, GitError>)
    ensures
        r is Ok <==> spec_decode_blob(bytes@) is Some,
        r is Ok ==> Some(r.unwrap()@) == spec_decode_blob(bytes@),
{
    let mut pos: usize = 0;
    let tag = match read_until(bytes, &mut pos, 0x20) {
        Some(t) => t,
        None => {
            return Err(GitError::FormatError);
        },
    };
    if !bytes_eq(tag.as_slice(), &[0x62u8, 0x6cu8, 0x6fu8, 0x62u8]) {
        proof {
            assert(seq![0x62u8, 0x6cu8, 0x6fu8, 0x62u8] =~= blob_tag());
        }
        return Err(GitError::FormatError);
    }
    proof {
        assert(seq![0x62u8, 0x6cu8, 0x6fu8, 0x62u8] =~= blob_tag());
    }
    let lenb = match read_until(bytes, &mut pos, 0) {
        Some(t) => t,
        None => {
            return Err(GitError::FormatError);
        },
    };
    let n = match crate::numbers::parse_dec(lenb.as_slice()) {
        Some(n) => n,
        None => {
            return Err(GitError::FormatError);
        },
    };
    let data = take_rest(bytes, pos);
    if n != data.len() as u64 {
        return Err(GitError::FormatError);
    }
    Ok(Object::Blob { data })
}

/// Renders blob data for human reading.
pub fn display(data: &[u8]) -> (r: String)
    ensures
        r@ == crate::display::lossy_of(data@),
{
    crate::display::lossy_string(data)
}

/// Decoding a canonical blob encoding gives back the blob.
pub proof fn lemma_blob_round_trip(data: Seq<u8>)
    requires
        data.len() <= u64::MAX,
    ensures
        spec_decode_blob(spec_encode_blob(data)) == Some(ObjectV::Blob { data }),
{
    let dd = dec_digits(data.len());
    let dl = dd.len() as int;
    lemma_dec_digits_value(data.len());
    let enc = spec_encode_blob(data);
    assert(enc.len() == 4 + 1 + dl + 1 + data.len());
    assert(enc[0] == 0x62 && enc[1] == 0x6c && enc[2] == 0x6f && enc[3] == 0x62);
    assert(enc[4] == 0x20);
    assert(forall|i: int| 0 <= i < dl ==> enc[5 + i] == dd[i]);
    assert(forall|i: int| 0 <= i < dl ==> is_digit(#[trigger] dd[i]));
    assert(forall|k: int| 0 <= k < 4 ==> enc[k] != 0x20);
    crate::bytesio::lemma_index_of_from_exact(enc, 0, 0x20, 4);
    assert(enc.subrange(0, 4) =~= blob_tag());
    assert(enc[5 + dl] == 0);
    assert(forall|k: int| 5 <= k < 5 + dl ==> enc[k] != 0);
    crate::bytesio::lemma_index_of_from_exact(enc, 5, 0, 5 + dl);
    assert(enc.subrange(5, 5 + dl) =~= dd);
    assert(enc.skip(5 + dl + 1) =~= data);
}

} // verus!
