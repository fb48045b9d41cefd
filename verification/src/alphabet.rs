//! The letters that label transitions and name subdirectories.

use vstd::prelude::*;

verus! {

/// Whether a short name may not hold `byte`.
pub open spec fn is_forbidden(byte: u8) -> bool {
    byte == 0x22 || byte == 0x2a || byte == 0x2b || byte == 0x2c || byte == 0x2e || byte == 0x2f
        || byte == 0x3a || byte == 0x3b || byte == 0x3c || byte == 0x3d || byte == 0x3e || byte
        == 0x3f || byte == 0x5b || byte == 0x5c || byte == 0x5d || byte == 0x7c
}

/// Whether `byte` can name a subdirectory: printable ASCII that short names
/// may hold. The space is among them; it is entered under a name of its own.
pub open spec fn is_name_letter(byte: u8) -> bool {
    0x20 <= byte <= 0x7e && !is_forbidden(byte)
}

/// Whether `byte` is a letter of the default alphabet: a name letter that is
/// neither a lower-case letter, nor a backquote, nor a tilde.
pub open spec fn is_default_letter(byte: u8) -> bool {
    (0x20 <= byte < 0x61 || 0x7b <= byte < 0x7e) && !is_forbidden(byte)
}

/// Whether every letter of `alphabet` can name a subdirectory.
pub open spec fn is_name_alphabet(alphabet: Seq<u8>) -> bool {
    forall|i: int| 0 <= i < alphabet.len() ==> is_name_letter(#[trigger] alphabet[i])
}

/// Whether a short name may not hold `byte`.
pub fn forbidden(byte: u8) -> (no: bool)
    ensures
        no == is_forbidden(byte),
{
    byte == 0x22 || byte == 0x2a || byte == 0x2b || byte == 0x2c || byte == 0x2e || byte == 0x2f
        || byte == 0x3a || byte == 0x3b || byte == 0x3c || byte == 0x3d || byte == 0x3e || byte
        == 0x3f || byte == 0x5b || byte == 0x5c || byte == 0x5d || byte == 0x7c
}

/// Whether every letter of `alphabet` can name a subdirectory.
pub fn is_valid_alphabet(alphabet: &[u8]) -> (valid: bool)
    ensures
        valid == is_name_alphabet(alphabet@),
{
    let mut index: usize = 0;
    while index < alphabet.len()
        invariant
            index <= alphabet@.len(),
            forall|i: int| 0 <= i < index ==> is_name_letter(#[trigger] alphabet@[i]),
        decreases alphabet@.len() - index,
    {
        let byte: u8 = alphabet[index];
        if byte < 0x20 || byte > 0x7e || forbidden(byte) {
            assert(!is_name_letter(alphabet@[index as int]));
            return false;
        }
        index += 1;
    }
    true
}

/// The default alphabet, in rising order.
pub fn default_alphabet() -> (alphabet: Vec<u8>)
    ensures
        forall|byte: u8| alphabet@.contains(byte) <==> is_default_letter(byte),
        forall|i: int, j: int| 0 <= i < j < alphabet@.len() ==> alphabet@[i] < alphabet@[j],
        is_name_alphabet(alphabet@),
{
    let mut alphabet: Vec<u8> = Vec::new();
    let mut byte: u8 = 0x20;
    while byte < 0x7e
        invariant
            0x20 <= byte <= 0x7e,
            forall|other: u8|
                alphabet@.contains(other) <==> is_default_letter(other) && other < byte,
            forall|i: int| 0 <= i < alphabet@.len() ==> #[trigger] alphabet@[i] < byte,
            is_name_alphabet(alphabet@),
            forall|i: int, j: int| 0 <= i < j < alphabet@.len() ==> alphabet@[i] < alphabet@[j],
        decreases 0x7e - byte,
    {
        if (byte < 0x61 || byte >= 0x7b) && !forbidden(byte) {
            let ghost before = alphabet@;
            alphabet.push(byte);
            assert forall|other: u8|
                alphabet@.contains(other) <==> is_default_letter(other) && other < byte + 1 by {
                if before.contains(other) {
                    let i = choose|i: int| 0 <= i < before.len() && before[i] == other;
                    assert(alphabet@[i] == other);
                }
                if other == byte {
                    assert(alphabet@[before.len() as int] == other);
                }
            }
        }
        byte += 1;
    }
    alphabet
}

} // verus!
