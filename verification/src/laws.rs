//! What holds of the coder as a whole: decoding undoes encoding, the
//! dictionaries only grow, malformed input is refused, and the contracts of
//! the executable functions leave no choice of result.

use crate::model::{
    accepts, alphabet, assigned_code, code_of, code_values, decode, decoder_run, decoder_start,
    decoder_step, distinct_entries, encode, encoder_run, first_rejected, grown_from,
    lemma_code_of_unique, lemma_decodable_iff_well_formed, lemma_decoder_invariant,
    lemma_decoder_run_push, lemma_encoder_invariant, lemma_encoder_run_push, table_len_after,
    well_formed, DecoderState, EncoderState,
};
use vstd::prelude::*;

verus! {

/// How the decoder stands to the encoder whose output it has read so far.
/// It has written all of `data` but the encoder's current match. Before the
/// first code both hold the alphabet. After it the decoder is exactly one
/// entry behind: the entry it lacks is its previous string followed by the
/// first byte of the encoder's current match, which it has not seen yet.
pub open spec fn follows(d: DecoderState, e: EncoderState, data: Seq<u8>) -> bool {
    &&& d.output + e.current == data
    &&& if e.codes.len() == 0 {
        &&& d == decoder_start()
        &&& e.table == alphabet()
    } else {
        &&& e.current.len() > 0
        &&& d.previous.len() > 0
        &&& e.table == d.table.push(d.previous.push(e.current[0]))
    }
}

/// The decoder that follows the encoder accepts the code of the encoder's
/// current match, reads it as that match, and then holds the encoder's
/// dictionary. When the code is the one entry that the decoder lacks, the
/// match starts with the first byte of the decoder's previous string, which
/// is how the decoder rebuilds it.
proof fn lemma_decoder_reads_match(d: DecoderState, e: EncoderState, data: Seq<u8>)
    requires
        follows(d, e, data),
        e.current.len() > 0,
        e.table.contains(e.current),
    ensures
        accepts(d, code_of(e.table, e.current)),
        decoder_step(d, code_of(e.table, e.current)) == (DecoderState {
            table: e.table,
            previous: e.current,
            output: data,
        }),
{
    let code = code_of(e.table, e.current);
    assert(code < e.table.len() && e.table[code as int] == e.current);
    let after = decoder_step(d, code);
    if e.codes.len() > 0 {
        let missing = d.previous.push(e.current[0]);
        if code == d.table.len() {
            assert(e.current == missing);
            assert(missing[0] == d.previous[0]);
            assert(d.previous.push(d.previous[0]) =~= e.current);
        } else {
            assert(d.table[code as int] == e.table[code as int]);
        }
        assert(after.previous == e.current);
        assert(after.table =~= e.table);
    }
}

/// The two dictionaries agree without ever being exchanged: at every point
/// of the input the decoder gets through what the encoder has emitted so
/// far and follows it, so the entries that it has made are the entries that
/// the encoder made, under the same codes.
pub proof fn lemma_decoder_follows(data: Seq<u8>)
    ensures
        decoder_run(encoder_run(data).codes) is Some,
        follows(decoder_run(encoder_run(data).codes)->0, encoder_run(data), data),
        grown_from(encoder_run(data).table, decoder_run(encoder_run(data).codes)->0.table),
    decreases data.len(),
{
    if data.len() == 0 {
        assert(Seq::<u8>::empty() + Seq::<u8>::empty() =~= data);
    } else {
        let front = data.drop_last();
        let symbol = data.last();
        let e = encoder_run(front);
        lemma_decoder_follows(front);
        lemma_encoder_invariant(front);
        let d = decoder_run(e.codes)->0;
        let candidate = e.current.push(symbol);
        assert(front.push(symbol) =~= data);
        if !e.table.contains(candidate) {
            if e.current.len() == 0 {
                assert(e.table[symbol as int] == seq![symbol]);
            }
            lemma_decoder_reads_match(d, e, front);
            lemma_decoder_run_push(e.codes, code_of(e.table, e.current));
            assert(front + seq![symbol] =~= data);
        }
    }
}

/// Round trip: decoding the codes of any byte sequence gives that byte
/// sequence back, and leaves the decoder with the encoder's dictionary.
pub proof fn lemma_round_trip(data: Seq<u8>)
    ensures
        decode(encode(data)) == Some(data),
        well_formed(encode(data)),
        decoder_run(encode(data)) is Some,
        decoder_run(encode(data))->0.table == encoder_run(data).table,
{
    let e = encoder_run(data);
    lemma_decoder_follows(data);
    lemma_encoder_invariant(data);
    let d = decoder_run(e.codes)->0;
    if e.current.len() > 0 {
        lemma_decoder_reads_match(d, e, data);
        lemma_decoder_run_push(e.codes, code_of(e.table, e.current));
    }
    lemma_decodable_iff_well_formed(encode(data));
}

/// Alphabet seeding: a single byte is encoded as the one code equal to it.
pub proof fn lemma_single_byte(symbol: u8)
    ensures
        encode(seq![symbol]) == seq![symbol as nat],
{
    lemma_encoder_run_push(Seq::empty(), symbol);
    lemma_encoder_invariant(Seq::empty());
    lemma_code_of_unique(alphabet(), symbol as int);
}

/// The encoder's dictionary only grows, one entry at a time and at its
/// end: what it holds after the first `n` bytes of `data` it still holds,
/// under the same codes, after all of `data`, and each further byte adds at
/// most one entry, under the first unused code. No string is ever entered
/// twice.
pub proof fn lemma_encoder_table_grows(data: Seq<u8>, n: int)
    requires
        0 <= n <= data.len(),
    ensures
        grown_from(encoder_run(data.take(n)).table, alphabet()),
        grown_from(encoder_run(data).table, encoder_run(data.take(n)).table),
        encoder_run(data).table.len() <= encoder_run(data.take(n)).table.len() + (data.len() - n),
        distinct_entries(encoder_run(data).table),
    decreases data.len(),
{
    lemma_encoder_invariant(data);
    lemma_encoder_invariant(data.take(n));
    if n == data.len() {
        assert(data.take(n) =~= data);
    } else {
        let front = data.drop_last();
        assert(front.take(n) =~= data.take(n));
        lemma_encoder_table_grows(front, n);
    }
}

/// The decoder's dictionary only grows, one entry at a time and at its
/// end: what it holds after the first `n` codes it still holds, under the
/// same codes, after all of them, and every code but the first adds exactly
/// one entry, under the first unused code.
pub proof fn lemma_decoder_table_grows(codes: Seq<nat>, n: int)
    requires
        decoder_run(codes) is Some,
        0 <= n <= codes.len(),
    ensures
        decoder_run(codes.take(n)) is Some,
        grown_from(decoder_run(codes.take(n))->0.table, alphabet()),
        grown_from(decoder_run(codes)->0.table, decoder_run(codes.take(n))->0.table),
        decoder_run(codes.take(n))->0.table.len() == table_len_after(n as nat),
    decreases codes.len(),
{
    lemma_decoder_invariant(codes);
    if n == codes.len() {
        assert(codes.take(n) =~= codes);
    } else {
        let front = codes.drop_last();
        assert(front.take(n) =~= codes.take(n));
        lemma_decoder_table_grows(front, n);
    }
}

/// The codes that the encoder assigns start at 256 and strictly increase
/// along the input: the step at byte `i` assigns a smaller code than the
/// step at any later byte `j`, so no code is assigned twice.
pub proof fn lemma_encoder_codes_increase(data: Seq<u8>, i: int, j: int)
    requires
        0 <= i < j < data.len(),
    ensures
        assigned_code(encoder_run(data.take(i)).table, encoder_run(data.take(i + 1)).table)
            matches Some(earlier) ==> {
            &&& earlier >= 256
            &&& assigned_code(
                encoder_run(data.take(j)).table,
                encoder_run(data.take(j + 1)).table,
            ) matches Some(later) ==> earlier < later
        },
{
    assert(data.take(j).take(i + 1) =~= data.take(i + 1));
    lemma_encoder_table_grows(data.take(j), i + 1);
    lemma_encoder_invariant(data.take(i));
}

/// The codes that the decoder assigns start at 256 and strictly increase
/// along the code sequence: the step at code `i` assigns a smaller code
/// than the step at any later code `j`, so no code is assigned twice.
pub proof fn lemma_decoder_codes_increase(codes: Seq<nat>, i: int, j: int)
    requires
        decoder_run(codes) is Some,
        0 <= i < j < codes.len(),
    ensures
        assigned_code(
            decoder_run(codes.take(i))->0.table,
            decoder_run(codes.take(i + 1))->0.table,
        ) matches Some(earlier) ==> {
            &&& earlier >= 256
            &&& assigned_code(
                decoder_run(codes.take(j))->0.table,
                decoder_run(codes.take(j + 1))->0.table,
            ) matches Some(later) ==> earlier < later
        },
{
    lemma_decoder_table_grows(codes, i);
    lemma_decoder_table_grows(codes, j);
}

/// Corruption is detected: a sequence with a code that is neither bound
/// where it stands nor the next to be assigned there has no decoding. At
/// the first position that is any code from 256 on; at position `p` after
/// it, any code beyond `255 + p`.
pub proof fn lemma_corrupt_code_rejected(codes: Seq<nat>, position: int)
    requires
        0 <= position < codes.len(),
        codes[position] >= 256 + position,
    ensures
        decode(codes) is None,
{
    lemma_decodable_iff_well_formed(codes);
}

/// A sequence has a decoding exactly if it has no such code, and then no
/// position is the first rejected one.
pub proof fn lemma_decoding_exists(codes: Seq<nat>)
    ensures
        decode(codes) is Some <==> well_formed(codes),
        well_formed(codes) ==> forall|position: int| !first_rejected(codes, position),
        !well_formed(codes) ==> exists|position: int| first_rejected(codes, position),
{
    lemma_decodable_iff_well_formed(codes);
    if !well_formed(codes) {
        lemma_first_rejected_exists(codes);
    }
}

/// A malformed sequence has a first rejected position.
proof fn lemma_first_rejected_exists(codes: Seq<nat>)
    requires
        !well_formed(codes),
    ensures
        exists|position: int| first_rejected(codes, position),
    decreases codes.len(),
{
    let front = codes.drop_last();
    if codes.len() == 0 {
    } else if well_formed(front) {
        let last = codes.len() - 1;
        assert(codes[last] >= 256 + last) by {
            if codes[last] < 256 + last {
                assert forall|i: int| 0 <= i < codes.len() implies #[trigger] codes[i] < 256
                    + i by {
                    if i < last {
                        assert(front[i] == codes[i]);
                    }
                }
            }
        }
        assert(first_rejected(codes, last));
    } else {
        lemma_first_rejected_exists(front);
        let position = choose|position: int| first_rejected(front, position);
        assert(front.take(position) =~= codes.take(position));
        assert(first_rejected(codes, position));
    }
}

/// The encoder is a function of its input: two outputs that meet the
/// contract of `compress` for the same input are the same.
pub proof fn lemma_encoding_determined(data: Seq<u8>, first: Seq<u32>, second: Seq<u32>)
    requires
        code_values(first) == encode(data),
        code_values(second) == encode(data),
    ensures
        first == second,
{
    assert(first.len() == code_values(first).len());
    assert(second.len() == code_values(second).len());
    assert forall|i: int| 0 <= i < first.len() implies first[i] == second[i] by {
        assert(code_values(first)[i] == first[i] as nat);
        assert(code_values(second)[i] == second[i] as nat);
    }
    assert(first =~= second);
}

/// The decoder is a function of its input: a sequence has at most one
/// first rejected position, so two failures that meet the contract of
/// `decompress` for the same input report the same position.
pub proof fn lemma_rejection_determined(codes: Seq<nat>, first: int, second: int)
    requires
        first_rejected(codes, first),
        first_rejected(codes, second),
    ensures
        first == second,
{
    if first < second {
        assert(codes.take(second)[first] == codes[first]);
    } else if second < first {
        assert(codes.take(first)[second] == codes[second]);
    }
}

} // verus!
