//! Fixed-width framing of codes: every code becomes four bytes, most
//! significant byte first, with nothing between consecutive codes.

use vstd::prelude::*;

verus! {

/// The four bytes of `code`, most significant first.
pub open spec fn be_bytes(code: u32) -> Seq<u8> {
    seq![
        (code / 0x100_0000) as u8,
        (code / 0x1_0000 % 0x100) as u8,
        (code / 0x100 % 0x100) as u8,
        (code % 0x100) as u8,
    ]
}

/// The code whose big-endian bytes are `b0 b1 b2 b3`.
pub open spec fn be_value(b0: u8, b1: u8, b2: u8, b3: u8) -> u32 {
    (b0 * 0x100_0000 + b1 * 0x1_0000 + b2 * 0x100 + b3) as u32
}

/// The framing of a code sequence: byte `i` is byte `i % 4` of code `i / 4`.
pub open spec fn packed(codes: Seq<u32>) -> Seq<u8> {
    Seq::new(4 * codes.len(), |i: int| be_bytes(codes[i / 4])[i % 4])
}

/// The codes framed in `bytes`, one per complete group of four bytes.
pub open spec fn unpacked(bytes: Seq<u8>) -> Seq<u32> {
    Seq::new(
        bytes.len() / 4,
        |i: int| be_value(bytes[4 * i], bytes[4 * i + 1], bytes[4 * i + 2], bytes[4 * i + 3]),
    )
}

/// Unframing is the inverse of framing.
pub proof fn lemma_unpack_pack(codes: Seq<u32>)
    ensures
        unpacked(packed(codes)) == codes,
{
    let bytes = packed(codes);
    assert(bytes.len() / 4 == codes.len());
    assert forall|i: int| 0 <= i < codes.len() implies unpacked(bytes)[i] == codes[i] by {
        let c = codes[i];
        assert((4 * i) / 4 == i && (4 * i + 1) / 4 == i && (4 * i + 2) / 4 == i && (4 * i + 3) / 4
            == i);
        assert((4 * i) % 4 == 0 && (4 * i + 1) % 4 == 1 && (4 * i + 2) % 4 == 2 && (4 * i + 3) % 4
            == 3);
        assert(bytes[4 * i] == be_bytes(c)[0]);
        assert(bytes[4 * i + 1] == be_bytes(c)[1]);
        assert(bytes[4 * i + 2] == be_bytes(c)[2]);
        assert(bytes[4 * i + 3] == be_bytes(c)[3]);
    }
    assert(unpacked(bytes) =~= codes);
}

/// Framing is the inverse of unframing on buffers made of whole groups.
pub proof fn lemma_pack_unpack(bytes: Seq<u8>)
    requires
        bytes.len() % 4 == 0,
    ensures
        packed(unpacked(bytes)) == bytes,
{
    let codes = unpacked(bytes);
    assert(4 * codes.len() == bytes.len());
    assert forall|i: int| 0 <= i < bytes.len() implies packed(codes)[i] == bytes[i] by {
        let q = i / 4;
        let r = i % 4;
        assert(i == 4 * q + r && 0 <= r < 4);
        let c = codes[q];
        assert(c == be_value(bytes[4 * q], bytes[4 * q + 1], bytes[4 * q + 2], bytes[4 * q + 3]));
    }
    assert(packed(codes) =~= bytes);
}

/// Frames `input` as bytes, four per code, most significant byte first.
pub fn to_bytes(input: &Vec<u32>) -> (output: Vec<u8>)
    ensures
        output@ == packed(input@),
        unpacked(output@) == input@,
{
    let mut output: Vec<u8> = Vec::new();
    let mut i: usize = 0;
    while i < input.len()
        invariant
            i <= input.len(),
            output@ == packed(input@.take(i as int)),
        decreases input.len() - i,
    {
        let code: u32 = input[i];
        output.push((code / 0x100_0000) as u8);
        output.push((code / 0x1_0000 % 0x100) as u8);
        output.push((code / 0x100 % 0x100) as u8);
        output.push((code % 0x100) as u8);
        i += 1;
    }
    proof {
        lemma_unpack_pack(input@);
    }
    output
}

/// Reads `input` back as codes, one per group of four bytes.
pub fn to_u32(input: &Vec<u8>) -> (output: Vec<u32>)
    requires
        input@.len() % 4 == 0,
    ensures
        output@ == unpacked(input@),
        packed(output@) == input@,
{
    let mut output: Vec<u32> = Vec::new();
    let mut i: usize = 0;
    while i < input.len()
        invariant
            i <= input.len(),
            i % 4 == 0,
            input@.len() % 4 == 0,
            output@.len() == i / 4,
            forall|k: int| 0 <= k < output@.len() ==> output@[k] == unpacked(input@)[k],
        decreases input.len() - i,
    {
        let b0: u32 = input[i] as u32;
        let b1: u32 = input[i + 1] as u32;
        let b2: u32 = input[i + 2] as u32;
        let b3: u32 = input[i + 3] as u32;
        output.push(b0 * 0x100_0000 + b1 * 0x1_0000 + b2 * 0x100 + b3);
        i += 4;
    }
    proof {
        lemma_pack_unpack(input@);
    }
    output
}

} // verus!
