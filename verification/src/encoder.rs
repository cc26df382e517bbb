//! The encoder: from bytes to the codes of the longest known strings.
//!
//! The dictionary is not kept as a map from strings to codes. Every entry
//! beyond the alphabet is another entry followed by one byte, so it is filed
//! under the code of that prefix and the byte, packed into one integer key.
//! The current match is then a code, and extending it by a byte is a single
//! lookup.
//!
//! The model starts every run with an empty match. `compress` returns at
//! once on empty input and otherwise starts with the first byte as its
//! match, which is where the model stands after one byte.

use crate::laws::lemma_round_trip;
use crate::model::{
    alphabet, code_values, decode, distinct_entries, encode, encoder_run, extends_alphabet,
    lemma_code_of_unique, lemma_encoder_invariant, lemma_encoder_run_push, well_formed,
};
use std::collections::HashMap;
use vstd::prelude::*;

verus! {

/// The longest input that `compress` takes. A longer one could need a code
/// that does not fit in 32 bits.
pub const MAX_INPUT_LEN: usize = 0xFFFF_FF00;

/// The key under which the entry `prefix` followed by `symbol` is filed.
spec fn child_key(prefix: int, symbol: u8) -> u64 {
    (prefix * 256 + symbol) as u64
}

/// The encoder's dictionary.
struct Dictionary {
    /// For each entry beyond the alphabet, its code under the key of its
    /// prefix and last byte.
    children: HashMap<u64, u32>,
    /// The first unused code.
    next: u32,
    /// The strings, by code.
    table: Ghost<Seq<Seq<u8>>>,
}

impl Dictionary {
    /// The strings of the dictionary, by code.
    closed spec fn table(&self) -> Seq<Seq<u8>> {
        self.table@
    }

    /// The keyed map and the table say the same: the table extends the
    /// alphabet without repeating a string, every entry beyond the
    /// alphabet has its prefix in the table, and a key is present exactly
    /// for the pairs of prefix and byte whose string is in the table.
    closed spec fn wf(&self) -> bool {
        let table = self.table@;
        &&& table.len() == self.next
        &&& extends_alphabet(table)
        &&& distinct_entries(table)
        &&& forall|code: int|
            256 <= code < table.len() ==> table.contains(#[trigger] table[code].drop_last())
        &&& forall|key: u64| #[trigger]
            self.children@.contains_key(key) ==> {
                &&& key / 256 < table.len()
                &&& 256 <= self.children@[key] < table.len()
                &&& table[self.children@[key] as int] == table[key as int / 256].push(
                    (key % 256) as u8,
                )
            }
        &&& forall|prefix: int, symbol: u8|
            0 <= prefix < table.len() && table.contains(table[prefix].push(symbol))
                ==> self.children@.contains_key(#[trigger] child_key(prefix, symbol))
    }

    /// The dictionary that holds the alphabet and nothing else.
    fn new() -> (dictionary: Self)
        ensures
            dictionary.wf(),
            dictionary.table() == alphabet(),
    {
        let dictionary = Dictionary {
            children: HashMap::new(),
            next: 256,
            table: Ghost(alphabet()),
        };
        proof {
            lemma_encoder_invariant(Seq::empty());
            assert forall|prefix: int, symbol: u8|
                0 <= prefix < 256 implies !alphabet().contains(
                #[trigger] alphabet()[prefix].push(symbol),
            ) by {
                let string = alphabet()[prefix].push(symbol);
                assert forall|i: int| 0 <= i < 256 implies alphabet()[i] != string by {
                    assert(alphabet()[i].len() == 1);
                }
            }
        }
        dictionary
    }

    /// The code of entry `prefix` followed by `symbol`, if that string is
    /// in the dictionary.
    fn find(&self, prefix: u32, symbol: u8) -> (found: Option<u32>)
        requires
            self.wf(),
            prefix < self.table().len(),
        ensures
            match found {
                Some(code) => code < self.table().len() && self.table()[code as int]
                    == self.table()[prefix as int].push(symbol),
                None => !self.table().contains(self.table()[prefix as int].push(symbol)),
            },
    {
        let key: u64 = prefix as u64 * 256 + symbol as u64;
        assert(key == child_key(prefix as int, symbol));
        match self.children.get(&key) {
            Some(code) => Some(*code),
            None => None,
        }
    }

    /// Adds entry `prefix` followed by `symbol` under the first unused code.
    fn insert(&mut self, prefix: u32, symbol: u8)
        requires
            old(self).wf(),
            prefix < old(self).table().len(),
            old(self).table().len() < u32::MAX,
            !old(self).table().contains(old(self).table()[prefix as int].push(symbol)),
        ensures
            final(self).wf(),
            final(self).table() == old(self).table().push(
                old(self).table()[prefix as int].push(symbol),
            ),
    {
        let key: u64 = prefix as u64 * 256 + symbol as u64;
        let ghost before = self.table@;
        let ghost string = before[prefix as int].push(symbol);
        let ghost after = before.push(string);
        let ghost code = before.len() as int;
        assert(key == child_key(prefix as int, symbol));
        assert(key / 256 == prefix && key % 256 == symbol);
        self.children.insert(key, self.next);
        self.next = self.next + 1;
        self.table = Ghost(after);
        proof {
            let children = self.children@;
            assert(before[prefix as int].len() >= 1) by {
                if prefix < 256 {
                    assert(before[prefix as int] == seq![prefix as u8]);
                }
            }
            assert(extends_alphabet(after));
            assert forall|i: int, j: int| 0 <= i < j < after.len() implies after[i]
                != after[j] by {
                if j == code {
                    assert(before[i] != string);
                } else {
                    assert(before[i] != before[j]);
                }
            }
            assert forall|c: int| 256 <= c < after.len() implies after.contains(
                #[trigger] after[c].drop_last(),
            ) by {
                if c == code {
                    assert(string.drop_last() =~= before[prefix as int]);
                    assert(after[prefix as int] == string.drop_last());
                } else {
                    let w = choose|w: int|
                        0 <= w < before.len() && before[w] == before[c].drop_last();
                    assert(after[w] == after[c].drop_last());
                }
            }
            assert forall|k: u64| #[trigger] children.contains_key(k) implies {
                &&& k / 256 < after.len()
                &&& 256 <= children[k] < after.len()
                &&& after[children[k] as int] == after[k as int / 256].push((k % 256) as u8)
            } by {
                if k != key {
                    assert(old(self).children@.contains_key(k));
                }
            }
            assert forall|p: int, b: u8|
                0 <= p < after.len() && after.contains(
                    after[p].push(b),
                ) implies children.contains_key(#[trigger] child_key(p, b)) by {
                let longer = after[p].push(b);
                let w = choose|w: int| 0 <= w < after.len() && after[w] == longer;
                if p == code {
                    assert(w != code);
                    assert(before[w].len() >= 3);
                    assert(before.contains(before[w].drop_last()));
                    assert(before[w].drop_last() =~= string);
                } else if w == code {
                    assert(string.drop_last() =~= before[prefix as int]);
                    assert(longer.drop_last() =~= before[p]);
                    assert(string.last() == symbol && longer.last() == b);
                    if p < prefix {
                        assert(before[p] != before[prefix as int]);
                    } else if prefix < p {
                        assert(before[prefix as int] != before[p]);
                    }
                } else {
                    assert(before[w] == before[p].push(b));
                    assert(old(self).children@.contains_key(child_key(p, b)));
                }
            }
        }
    }
}

/// Encodes `data`.
///
/// The encoder keeps the longest string of the dictionary that ends the
/// input read so far. A byte that extends it to another dictionary string
/// is absorbed; any other byte has the code of the match emitted, the
/// extended match added to the dictionary under the first unused code, and
/// the match restarted at that byte. The code of the last match ends the
/// output. The codes are well formed, and decoding them gives `data` back.
pub fn compress(data: &[u8]) -> (codes: Vec<u32>)
    requires
        data@.len() <= MAX_INPUT_LEN,
    ensures
        code_values(codes@) == encode(data@),
        well_formed(code_values(codes@)),
        decode(code_values(codes@)) == Some(data@),
{
    let mut codes: Vec<u32> = Vec::new();
    proof {
        lemma_round_trip(data@);
    }
    if data.len() == 0 {
        return codes;
    }
    let mut dictionary = Dictionary::new();
    let mut current: u32 = data[0] as u32;
    let mut i: usize = 1;
    proof {
        let first = data@[0];
        lemma_encoder_run_push(Seq::empty(), first);
        assert(Seq::<u8>::empty().push(first) =~= data@.take(1));
        assert(alphabet()[first as int] == seq![first]);
    }
    while i < data.len()
        invariant
            1 <= i <= data.len(),
            data.len() <= MAX_INPUT_LEN,
            dictionary.wf(),
            dictionary.table() == encoder_run(data@.take(i as int)).table,
            code_values(codes@) == encoder_run(data@.take(i as int)).codes,
            current < dictionary.table().len(),
            dictionary.table()[current as int] == encoder_run(data@.take(i as int)).current,
        decreases data.len() - i,
    {
        let symbol: u8 = data[i];
        let ghost before = encoder_run(data@.take(i as int));
        proof {
            lemma_encoder_invariant(data@.take(i as int));
            lemma_encoder_run_push(data@.take(i as int), symbol);
            assert(data@.take(i as int).push(symbol) =~= data@.take(i + 1));
        }
        match dictionary.find(current, symbol) {
            Some(code) => {
                current = code;
            },
            None => {
                proof {
                    lemma_code_of_unique(before.table, current as int);
                }
                codes.push(current);
                dictionary.insert(current, symbol);
                current = symbol as u32;
            },
        }
        i += 1;
    }
    proof {
        assert(data@.take(i as int) =~= data@);
        lemma_encoder_invariant(data@);
        lemma_code_of_unique(dictionary.table(), current as int);
    }
    codes.push(current);
    codes
}

} // verus!
