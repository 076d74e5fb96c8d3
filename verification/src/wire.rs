//! The wire format: a flat sequence of 16-bit little-endian codes, with no
//! header, length prefix or end marker.  A byte stream of odd length ends in
//! the middle of a code and is malformed.

use vstd::prelude::*;

use crate::codec::DecodeError;
use crate::codec::decode;
use crate::codec::decode_spec;
use crate::codec::encode;
use crate::codec::encode_spec;

verus! {

/// The little-endian byte stream carrying a code stream: each code
/// contributes its low byte, then its high byte.
pub open spec fn le_bytes_of_codes(cs: Seq<u16>) -> Seq<u8>
    decreases cs.len(),
{
    if cs.len() == 0 {
        Seq::empty()
    } else {
        seq![(cs[0] as int % 256) as u8, (cs[0] as int / 256) as u8] + le_bytes_of_codes(
            cs.skip(1),
        )
    }
}

/// The code stream carried by a little-endian byte stream, pairing bytes from
/// the front.  A trailing odd byte carries no code; callers reject odd
/// lengths before applying this.
pub open spec fn codes_of_le_bytes(bs: Seq<u8>) -> Seq<u16>
    decreases bs.len(),
{
    if bs.len() < 2 {
        Seq::empty()
    } else {
        seq![((bs[1] as int) * 256 + (bs[0] as int)) as u16] + codes_of_le_bytes(bs.skip(2))
    }
}

/// Serialises a code stream as little-endian bytes.
pub fn codes_to_bytes(cs: &Vec<u16>) -> (bs: Vec<u8>)
    ensures
        bs@ == le_bytes_of_codes(cs@),
{
    let mut bs: Vec<u8> = Vec::new();
    let mut i: usize = 0;
    proof {
        assert(cs@.skip(0) =~= cs@);
        assert(bs@ + le_bytes_of_codes(cs@) =~= le_bytes_of_codes(cs@));
    }
    while i < cs.len()
        invariant
            0 <= i <= cs@.len(),
            bs@ + le_bytes_of_codes(cs@.skip(i as int)) == le_bytes_of_codes(cs@),
        decreases cs@.len() - i,
    {
        let ghost rest = cs@.skip(i as int);
        let ghost pre_bs = bs@;
        let c = cs[i];
        bs.push((c % 256) as u8);
        bs.push((c / 256) as u8);
        proof {
            assert(rest[0] == cs@[i as int]);
            assert(rest.skip(1) =~= cs@.skip(i as int + 1));
            assert(bs@ =~= pre_bs + seq![(c as int % 256) as u8, (c as int / 256) as u8]);
            assert((pre_bs + seq![(c as int % 256) as u8, (c as int / 256) as u8])
                + le_bytes_of_codes(cs@.skip(i as int + 1)) =~= pre_bs + (seq![
                (c as int % 256) as u8,
                (c as int / 256) as u8,
            ] + le_bytes_of_codes(cs@.skip(i as int + 1))));
        }
        i += 1;
    }
    proof {
        assert(cs@.skip(cs@.len() as int) =~= Seq::<u16>::empty());
        assert(bs@ + Seq::<u8>::empty() =~= bs@);
    }
    bs
}

/// Parses a little-endian byte stream into its code stream; rejects streams
/// of odd length.
pub fn bytes_to_codes(bs: &Vec<u8>) -> (r: Result<Vec<u16>, DecodeError>)
    ensures
        match r {
            Ok(cs) => bs@.len() % 2 == 0 && cs@ == codes_of_le_bytes(bs@),
            Err(e) => bs@.len() % 2 != 0 && e == DecodeError::OddLength,
        },
{
    if bs.len() % 2 != 0 {
        return Err(DecodeError::OddLength);
    }
    let mut cs: Vec<u16> = Vec::new();
    let mut i: usize = 0;
    proof {
        assert(bs@.skip(0) =~= bs@);
        assert(cs@ + codes_of_le_bytes(bs@) =~= codes_of_le_bytes(bs@));
    }
    while i < bs.len()
        invariant
            0 <= i <= bs@.len(),
            i % 2 == 0,
            bs@.len() % 2 == 0,
            cs@ + codes_of_le_bytes(bs@.skip(i as int)) == codes_of_le_bytes(bs@),
        decreases bs@.len() - i,
    {
        let ghost rest = bs@.skip(i as int);
        let ghost pre_cs = cs@;
        let lo = bs[i];
        let hi = bs[i + 1];
        let c: u16 = (lo as u16) + 256 * (hi as u16);
        cs.push(c);
        proof {
            assert(rest.len() >= 2);
            assert(rest[0] == bs@[i as int]);
            assert(rest[1] == bs@[i as int + 1]);
            assert(rest.skip(2) =~= bs@.skip(i as int + 2));
            assert(c == ((rest[1] as int) * 256 + (rest[0] as int)) as u16);
            assert(cs@ =~= pre_cs + seq![c]);
            assert((pre_cs + seq![c]) + codes_of_le_bytes(bs@.skip(i as int + 2)) =~= pre_cs + (
            seq![c] + codes_of_le_bytes(bs@.skip(i as int + 2))));
        }
        i += 2;
    }
    proof {
        assert(bs@.skip(bs@.len() as int) =~= Seq::<u8>::empty());
        assert(cs@ + Seq::<u16>::empty() =~= cs@);
    }
    Ok(cs)
}

/// Compresses a byte sequence into the little-endian wire form of its code
/// stream.
pub fn compress(input: &Vec<u8>) -> (out: Vec<u8>)
    ensures
        out@ == le_bytes_of_codes(encode_spec(input@)),
{
    let cs = encode(input);
    codes_to_bytes(&cs)
}

/// Decompresses a little-endian wire stream back into the original bytes.
/// Odd-length streams are rejected as [`DecodeError::OddLength`]; streams
/// whose codes cannot be resolved as [`DecodeError::BadCode`].
pub fn decompress(input: &Vec<u8>) -> (r: Result<Vec<u8>, DecodeError>)
    ensures
        match r {
            Ok(out) => input@.len() % 2 == 0 && decode_spec(codes_of_le_bytes(input@)) == Some(
                out@,
            ),
            Err(DecodeError::OddLength) => input@.len() % 2 != 0,
            Err(DecodeError::BadCode) => input@.len() % 2 == 0 && decode_spec(
                codes_of_le_bytes(input@),
            ) is None,
        },
{
    let cs = match bytes_to_codes(input) {
        Ok(cs) => cs,
        Err(e) => {
            return Err(e);
        },
    };
    decode(&cs)
}

} // verus!
