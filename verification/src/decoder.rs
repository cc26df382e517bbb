//! The decoder: from a code sequence back to the bytes it stands for.
//!
//! The dictionary is an array of strings indexed by code. The previous
//! string is not copied aside but remembered by its code: once a step has
//! added its entry, the string of the code just read stands under that code
//! whether the code was bound before the step or by it.

use crate::model::{
    alphabet, code_values, decode, decoder_run, extends_alphabet, first_rejected,
    lemma_decodable_iff_well_formed, lemma_decoder_invariant, lemma_decoder_run_push, well_formed,
};
use vstd::prelude::*;

verus! {

/// A code that the decoder could not read: invalid compressed data.
#[derive(Debug, Clone, Copy, PartialEq, Eq)]
pub struct InvalidCode {
    /// The index of the code in the sequence.
    pub position: usize,
    /// The code found there.
    pub code: u32,
}

/// The strings held in an array of byte vectors.
spec fn strings(table: Seq<Vec<u8>>) -> Seq<Seq<u8>> {
    table.map_values(|entry: Vec<u8>| entry@)
}

/// Once the decoder has failed on an initial part of a sequence, it fails
/// on the whole.
proof fn lemma_rejection_is_final(codes: Seq<nat>, n: int)
    requires
        0 <= n <= codes.len(),
        decoder_run(codes.take(n)) is None,
    ensures
        decoder_run(codes) is None,
{
    lemma_decodable_iff_well_formed(codes.take(n));
    lemma_decodable_iff_well_formed(codes);
    let i = choose|i: int| 0 <= i < n && !(#[trigger] codes.take(n)[i] < 256 + i);
    assert(codes[i] == codes.take(n)[i]);
}

/// Every entry of a dictionary that extends the alphabet holds a byte.
proof fn lemma_entry_nonempty(table: Seq<Seq<u8>>, code: int)
    requires
        extends_alphabet(table),
        0 <= code < table.len(),
    ensures
        table[code].len() > 0,
{
    if code < 256 {
        assert(table[code] == seq![code as u8]);
    }
}

/// The alphabet as an array of one-byte vectors.
fn alphabet_table() -> (table: Vec<Vec<u8>>)
    ensures
        table@.len() == 256,
        strings(table@) == alphabet(),
{
    let mut table: Vec<Vec<u8>> = Vec::new();
    let mut symbol: usize = 0;
    while symbol < 256
        invariant
            symbol <= 256,
            table@.len() == symbol,
            forall|i: int| 0 <= i < symbol ==> (#[trigger] table@[i])@ == seq![i as u8],
        decreases 256 - symbol,
    {
        let mut entry: Vec<u8> = Vec::new();
        entry.push(symbol as u8);
        table.push(entry);
        symbol += 1;
    }
    table
}

/// A fresh vector holding `prefix` followed by `symbol`.
fn extended(prefix: &Vec<u8>, symbol: u8) -> (string: Vec<u8>)
    ensures
        string@ == prefix@.push(symbol),
{
    let mut string: Vec<u8> = Vec::new();
    let mut i: usize = 0;
    while i < prefix.len()
        invariant
            i <= prefix.len(),
            string@ == prefix@.take(i as int),
        decreases prefix.len() - i,
    {
        string.push(prefix[i]);
        i += 1;
    }
    string.push(symbol);
    string
}

/// Appends `string` to `output`.
fn write_out(output: &mut Vec<u8>, string: &Vec<u8>)
    ensures
        final(output)@ == old(output)@ + string@,
{
    let mut i: usize = 0;
    while i < string.len()
        invariant
            i <= string.len(),
            output@ == old(output)@ + string@.take(i as int),
        decreases string.len() - i,
    {
        output.push(string[i]);
        i += 1;
    }
}

/// Decodes `data`, or reports the first code that cannot be read.
///
/// The first code has to be below 256. Each later code has to be bound
/// already or be the very next code to be assigned; the latter stands for
/// the previous string followed by its own first byte. Every code after the
/// first adds the previous string, followed by the first byte of the
/// current one, to the dictionary.
pub fn decompress(data: &[u32]) -> (result: Result<Vec<u8>, InvalidCode>)
    ensures
        result is Ok <==> well_formed(code_values(data@)),
        match result {
            Ok(bytes) => decode(code_values(data@)) == Some(bytes@),
            Err(error) => {
                &&& decode(code_values(data@)) is None
                &&& first_rejected(code_values(data@), error.position as int)
                &&& error.code == data@[error.position as int]
            },
        },
{
    let ghost codes = code_values(data@);
    let mut output: Vec<u8> = Vec::new();
    proof {
        lemma_decodable_iff_well_formed(codes);
    }
    if data.len() == 0 {
        return Ok(output);
    }
    let first: u32 = data[0];
    proof {
        lemma_decoder_run_push(Seq::empty(), first as nat);
        assert(Seq::<nat>::empty().push(first as nat) =~= codes.take(1));
    }
    if first >= 256 {
        proof {
            lemma_rejection_is_final(codes, 1);
        }
        return Err(InvalidCode { position: 0, code: first });
    }
    let mut table: Vec<Vec<u8>> = alphabet_table();
    let mut previous: usize = first as usize;
    write_out(&mut output, &table[previous]);
    let mut i: usize = 1;
    while i < data.len()
        invariant
            1 <= i <= data.len(),
            codes == code_values(data@),
            well_formed(codes.take(i as int)),
            decoder_run(codes.take(i as int)) is Some,
            strings(table@) == decoder_run(codes.take(i as int))->0.table,
            output@ == decoder_run(codes.take(i as int))->0.output,
            previous < table@.len(),
            table@[previous as int]@ == decoder_run(codes.take(i as int))->0.previous,
        decreases data.len() - i,
    {
        let code: u32 = data[i];
        let ghost before = decoder_run(codes.take(i as int))->0;
        proof {
            lemma_decoder_invariant(codes.take(i as int));
            assert(codes.take(i + 1).drop_last() =~= codes.take(i as int));
            lemma_decoder_run_push(codes.take(i as int), code as nat);
        }
        let index: usize = code as usize;
        if index > table.len() {
            proof {
                lemma_rejection_is_final(codes, i + 1);
            }
            return Err(InvalidCode { position: i, code });
        }
        proof {
            lemma_decodable_iff_well_formed(codes.take(i + 1));
            if index < table@.len() {
                lemma_entry_nonempty(before.table, index as int);
            }
        }
        let head: u8 = if index < table.len() {
            table[index][0]
        } else {
            table[previous][0]
        };
        let added: Vec<u8> = extended(&table[previous], head);
        table.push(added);
        write_out(&mut output, &table[index]);
        previous = index;
        i += 1;
    }
    proof {
        assert(codes.take(i as int) =~= codes);
    }
    Ok(output)
}

} // verus!
