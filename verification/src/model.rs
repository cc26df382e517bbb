//! The mathematical model of the coder.
//!
//! A dictionary is a sequence of byte strings; the code of a string is its
//! index. Codes 0 to 255 stand for the single-byte strings, and every later
//! entry is appended under the first unused code. The encoder and the decoder
//! are each a fold of a step function over their input, and the executable
//! functions of this crate are specified by these folds.

use vstd::prelude::*;

verus! {

/// The dictionary that every run starts from: entry `i` is the one-byte
/// string `[i]`, for each of the 256 byte values.
pub open spec fn alphabet() -> Seq<Seq<u8>> {
    Seq::new(256, |i: int| seq![i as u8])
}

/// The codes held in a vector of machine integers, as natural numbers.
pub open spec fn code_values(codes: Seq<u32>) -> Seq<nat> {
    codes.map_values(|c: u32| c as nat)
}

/// A code under which `table` holds `string`.
pub open spec fn code_of(table: Seq<Seq<u8>>, string: Seq<u8>) -> nat {
    choose|code: nat| code < table.len() && table[code as int] == string
}

/// No string stands under two codes.
pub open spec fn distinct_entries(table: Seq<Seq<u8>>) -> bool {
    forall|i: int, j: int| 0 <= i < j < table.len() ==> table[i] != table[j]
}

/// `table` starts with the alphabet, and every entry after it has at least
/// two bytes.
pub open spec fn extends_alphabet(table: Seq<Seq<u8>>) -> bool {
    &&& table.len() >= 256
    &&& forall|i: int| 0 <= i < 256 ==> #[trigger] table[i] == seq![i as u8]
    &&& forall|i: int| 256 <= i < table.len() ==> (#[trigger] table[i]).len() >= 2
}

/// `shorter` is an initial part of `longer`: every code bound in `shorter`
/// is bound to the same string in `longer`.
pub open spec fn grown_from(longer: Seq<Seq<u8>>, shorter: Seq<Seq<u8>>) -> bool {
    &&& shorter.len() <= longer.len()
    &&& forall|i: int| 0 <= i < shorter.len() ==> longer[i] == shorter[i]
}

/// The code assigned by a step that took the dictionary from `before` to
/// `after`: the first unused code of `before` if the step added an entry,
/// none if it did not.
pub open spec fn assigned_code(before: Seq<Seq<u8>>, after: Seq<Seq<u8>>) -> Option<nat> {
    if after.len() > before.len() {
        Some(before.len())
    } else {
        None
    }
}

/// What the encoder carries from one input byte to the next.
pub struct EncoderState {
    /// The dictionary built so far.
    pub table: Seq<Seq<u8>>,
    /// The current match: the end of the input read so far that no emitted
    /// code accounts for yet. It is empty only before the first byte.
    pub current: Seq<u8>,
    /// The codes emitted so far.
    pub codes: Seq<nat>,
}

/// The encoder before any input: the alphabet, an empty match, no output.
pub open spec fn encoder_start() -> EncoderState {
    EncoderState { table: alphabet(), current: Seq::empty(), codes: Seq::empty() }
}

/// One input byte. If the match extended by `symbol` is a known string, the
/// match grows and nothing is emitted. Otherwise the code of the match is
/// emitted, the extended match enters the dictionary under the first unused
/// code, and the match restarts at `symbol`.
pub open spec fn encoder_step(s: EncoderState, symbol: u8) -> EncoderState {
    let candidate = s.current.push(symbol);
    if s.table.contains(candidate) {
        EncoderState { table: s.table, current: candidate, codes: s.codes }
    } else {
        EncoderState {
            table: s.table.push(candidate),
            current: seq![symbol],
            codes: s.codes.push(code_of(s.table, s.current)),
        }
    }
}

/// The encoder after reading all of `data`, byte by byte from the start.
pub open spec fn encoder_run(data: Seq<u8>) -> EncoderState
    decreases data.len(),
{
    if data.len() == 0 {
        encoder_start()
    } else {
        encoder_step(encoder_run(data.drop_last()), data.last())
    }
}

/// The code sequence for `data`: what the run emitted, followed by the code
/// of the match that was pending at the end of the input.
pub open spec fn encode(data: Seq<u8>) -> Seq<nat> {
    let s = encoder_run(data);
    if s.current.len() == 0 {
        s.codes
    } else {
        s.codes.push(code_of(s.table, s.current))
    }
}

/// What the decoder carries from one code to the next.
pub struct DecoderState {
    /// The dictionary rebuilt so far.
    pub table: Seq<Seq<u8>>,
    /// The string of the code read last. It is empty only before the first
    /// code.
    pub previous: Seq<u8>,
    /// The bytes written so far.
    pub output: Seq<u8>,
}

/// The decoder before any input: the alphabet, no previous string, no output.
pub open spec fn decoder_start() -> DecoderState {
    DecoderState { table: alphabet(), previous: Seq::empty(), output: Seq::empty() }
}

/// Whether the decoder in state `s` can read `code`: it is bound already,
/// or it is the next code to be assigned and there is a previous string to
/// rebuild its entry from.
pub open spec fn accepts(s: DecoderState, code: nat) -> bool {
    code < s.table.len() || (code == s.table.len() && s.previous.len() > 0)
}

/// The string that `code` stands for in state `s`. A code that is not bound
/// yet names the entry that this very step is about to add: the previous
/// string followed by its own first byte.
pub open spec fn entry_of(s: DecoderState, code: nat) -> Seq<u8> {
    if code < s.table.len() {
        s.table[code as int]
    } else {
        s.previous.push(s.previous[0])
    }
}

/// One accepted code: its string is written out and becomes the previous
/// string, and, unless this was the first code, the old previous string
/// followed by the first byte of the new one enters the dictionary under
/// the first unused code.
pub open spec fn decoder_step(s: DecoderState, code: nat) -> DecoderState {
    let entry = entry_of(s, code);
    DecoderState {
        table: if s.previous.len() == 0 {
            s.table
        } else {
            s.table.push(s.previous.push(entry[0]))
        },
        previous: entry,
        output: s.output + entry,
    }
}

/// The decoder after reading all of `codes` from the start, or `None` if
/// one of them was not accepted.
pub open spec fn decoder_run(codes: Seq<nat>) -> Option<DecoderState>
    decreases codes.len(),
{
    if codes.len() == 0 {
        Some(decoder_start())
    } else {
        match decoder_run(codes.drop_last()) {
            Some(s) => if accepts(s, codes.last()) {
                Some(decoder_step(s, codes.last()))
            } else {
                None
            },
            None => None,
        }
    }
}

/// The bytes that `codes` stand for, or `None` for a malformed sequence.
pub open spec fn decode(codes: Seq<nat>) -> Option<Seq<u8>> {
    match decoder_run(codes) {
        Some(s) => Some(s.output),
        None => None,
    }
}

/// The closed form of what the decoder accepts: the code at position `i`
/// is below `256 + i`. The first code has to be a byte, and since every
/// later code adds one dictionary entry, the bound rises by one per
/// position.
pub open spec fn well_formed(codes: Seq<nat>) -> bool {
    forall|i: int| 0 <= i < codes.len() ==> #[trigger] codes[i] < 256 + i
}

/// `position` is where the decoder stops on `codes`: the first index whose
/// code is beyond what is assignable there.
pub open spec fn first_rejected(codes: Seq<nat>, position: int) -> bool {
    &&& 0 <= position < codes.len()
    &&& codes[position] >= 256 + position
    &&& well_formed(codes.take(position))
}

/// The number of dictionary entries once `n` codes have been read: the
/// first code adds none, each later one adds one.
pub open spec fn table_len_after(n: nat) -> nat {
    if n == 0 {
        256
    } else {
        (255 + n) as nat
    }
}

/// Reading one more byte is one more step of the encoder.
pub proof fn lemma_encoder_run_push(data: Seq<u8>, symbol: u8)
    ensures
        encoder_run(data.push(symbol)) == encoder_step(encoder_run(data), symbol),
{
    assert(data.push(symbol).drop_last() =~= data);
}

/// Reading one more code is one more step of the decoder, if it got that
/// far and accepts the code.
pub proof fn lemma_decoder_run_push(codes: Seq<nat>, code: nat)
    ensures
        decoder_run(codes.push(code)) == match decoder_run(codes) {
            Some(s) => if accepts(s, code) {
                Some(decoder_step(s, code))
            } else {
                None
            },
            None => None,
        },
{
    assert(codes.push(code).drop_last() =~= codes);
}

/// A string found in a dictionary without repeated entries has exactly one
/// code.
pub proof fn lemma_code_of_unique(table: Seq<Seq<u8>>, code: int)
    requires
        distinct_entries(table),
        0 <= code < table.len(),
    ensures
        code_of(table, table[code]) == code,
{
    let string = table[code];
    let known = code as nat;
    assert(known < table.len() && table[known as int] == string);
    let chosen = code_of(table, string);
    assert(chosen < table.len() && table[chosen as int] == string);
    if chosen < code {
        assert(table[chosen as int] != table[code]);
    } else if code < chosen {
        assert(table[code] != table[chosen as int]);
    }
}

/// What holds of the encoder after any input: its dictionary extends the
/// alphabet without repeating a string, it has one entry per emitted code
/// beyond the alphabet, it has emitted fewer codes than it has read bytes,
/// and its match, empty only before the first byte, is a dictionary entry.
pub proof fn lemma_encoder_invariant(data: Seq<u8>)
    ensures
        extends_alphabet(encoder_run(data).table),
        distinct_entries(encoder_run(data).table),
        encoder_run(data).table.len() == 256 + encoder_run(data).codes.len(),
        data.len() == 0 ==> encoder_run(data) == encoder_start(),
        data.len() > 0 ==> encoder_run(data).codes.len() < data.len(),
        data.len() > 0 ==> encoder_run(data).current.len() > 0,
        data.len() > 0 ==> encoder_run(data).table.contains(encoder_run(data).current),
    decreases data.len(),
{
    if data.len() > 0 {
        let before = encoder_run(data.drop_last());
        let symbol = data.last();
        let after = encoder_run(data);
        lemma_encoder_invariant(data.drop_last());
        let candidate = before.current.push(symbol);
        assert(before.table[symbol as int] == seq![symbol]);
        if before.current.len() == 0 {
            assert(candidate =~= seq![symbol]);
            assert(before.table.contains(candidate));
        }
        if !before.table.contains(candidate) {
            assert(after.table == before.table.push(candidate));
            assert(after.table[symbol as int] == seq![symbol]);
            assert(after.table.contains(after.current));
            assert forall|i: int, j: int| 0 <= i < j < after.table.len() implies after.table[i]
                != after.table[j] by {
                if j == before.table.len() {
                    assert(before.table[i] != candidate);
                } else {
                    assert(before.table[i] != before.table[j]);
                }
            }
        }
    } else {
        assert forall|i: int, j: int| 0 <= i < j < 256 implies alphabet()[i] != alphabet()[j] by {
            assert(alphabet()[i][0] == i as u8 && alphabet()[j][0] == j as u8);
        }
    }
}

/// What holds of the decoder after any accepted input: the size of its
/// dictionary depends on the number of codes alone, the dictionary extends
/// the alphabet, and the previous string is empty only before the first
/// code.
pub proof fn lemma_decoder_invariant(codes: Seq<nat>)
    requires
        decoder_run(codes) is Some,
    ensures
        decoder_run(codes.drop_last()) is Some || codes.len() == 0,
        decoder_run(codes)->0.table.len() == table_len_after(codes.len()),
        extends_alphabet(decoder_run(codes)->0.table),
        codes.len() == 0 ==> decoder_run(codes)->0 == decoder_start(),
        codes.len() > 0 ==> decoder_run(codes)->0.previous.len() > 0,
    decreases codes.len(),
{
    if codes.len() > 0 {
        lemma_decoder_invariant(codes.drop_last());
        let before = decoder_run(codes.drop_last())->0;
        let code = codes.last();
        let entry = entry_of(before, code);
        if code < before.table.len() {
            assert(before.table[code as int].len() >= 1);
        }
        assert(entry.len() > 0);
    }
}

/// The decoder gets through a code sequence exactly if each code is within
/// the bound that its position allows.
pub proof fn lemma_decodable_iff_well_formed(codes: Seq<nat>)
    ensures
        decoder_run(codes) is Some <==> well_formed(codes),
    decreases codes.len(),
{
    if codes.len() > 0 {
        let front = codes.drop_last();
        let code = codes.last();
        lemma_decodable_iff_well_formed(front);
        if decoder_run(front) is Some {
            lemma_decoder_invariant(front);
            assert(well_formed(front));
            if accepts(decoder_run(front)->0, code) {
                assert forall|i: int| 0 <= i < codes.len() implies #[trigger] codes[i] < 256
                    + i by {
                    if i < front.len() {
                        assert(codes[i] == front[i]);
                    }
                }
            } else {
                assert(codes[codes.len() - 1] >= 256 + (codes.len() - 1));
            }
        } else {
            let i = choose|i: int| 0 <= i < front.len() && !(#[trigger] front[i] < 256 + i);
            assert(codes[i] == front[i]);
        }
    }
}

} // verus!
