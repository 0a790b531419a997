//! A codepage that only knows ASCII.

use vstd::prelude::*;

verus! {

/// The character that stands for a byte that is not ASCII.
pub const REPLACEMENT_CHARACTER: char = '\u{FFFD}';

/// A Windows Codepage replacement, which only supports ascii.
#[derive(Debug, Default, Clone, Copy)]
pub struct Codepage;

/// The character that byte `b` decodes to: itself if it is ASCII, else the
/// replacement character.
pub open spec fn decoded_char(b: u8) -> char {
    if b < 128 {
        b as char
    } else {
        REPLACEMENT_CHARACTER
    }
}

/// An ASCII byte decodes to the character with its code; every other byte
/// decodes to U+FFFD, so a decoded character is ASCII exactly when its byte is.
pub proof fn lemma_decoded_char(b: u8)
    ensures
        decoded_char(b) == if b < 128 {
            b as char
        } else {
            '\u{FFFD}'
        },
        (decoded_char(b) as u32) < 128 <==> b < 128,
        b >= 128 ==> decoded_char(b) as u32 == 0xFFFD,
        b < 128 ==> decoded_char(b) as u32 == b as u32,
{
}

/// A new, empty string with room for `capacity` bytes.
///
/// Trusted: calls `String::with_capacity`, which std documents as creating a
/// new empty `String`; only the emptiness is stated.
#[verifier::external_body]
fn string_with_capacity(capacity: usize) -> (s: String)
    ensures
        s@ == Seq::<char>::empty(),
{
    String::with_capacity(capacity)
}

/// Append `c` to `s`.
///
/// Trusted: calls `String::push`, which std documents as appending the given
/// char to the end of the string.
#[verifier::external_body]
fn string_push(s: &mut String, c: char)
    ensures
        final(s)@ == old(s)@.push(c),
{
    s.push(c)
}

impl Codepage {
    /// Decode bytes into a string: ASCII bytes stand for themselves, every
    /// other byte becomes the replacement character.
    pub fn decode(&self, v: &[u8]) -> (r: String)
        requires
            v@.len() * 2 <= usize::MAX,
        ensures
            r@ == v@.map_values(|b: u8| decoded_char(b)),
            r@.len() == v@.len(),
            forall|i: int|
                0 <= i < v@.len() ==> #[trigger] r@[i] == if v@[i] < 128 {
                    v@[i] as char
                } else {
                    '\u{FFFD}'
                },
    {
        let mut result = string_with_capacity(v.len() * 2);
        let mut i: usize = 0;
        while i < v.len()
            invariant
                i <= v@.len(),
                result@ == v@.subrange(0, i as int).map_values(|b: u8| decoded_char(b)),
            decreases v@.len() - i,
        {
            let c = v[i];
            if c < 128 {
                string_push(&mut result, c as char);
            } else {
                string_push(&mut result, REPLACEMENT_CHARACTER);
            }
            proof {
                assert(v@.subrange(0, i + 1) =~= v@.subrange(0, i as int).push(c));
            }
            i = i + 1;
            proof {
                assert(result@ =~= v@.subrange(0, i as int).map_values(|b: u8| decoded_char(b)));
            }
        }
        proof {
            assert(v@.subrange(0, v@.len() as int) =~= v@);
            assert forall|i: int| 0 <= i < v@.len() implies #[trigger] result@[i] == if v@[i] < 128 {
                v@[i] as char
            } else {
                '\u{FFFD}'
            } by {
                lemma_decoded_char(v@[i]);
            }
        }
        result
    }

    /// Encode a character as its ASCII byte, if it is ASCII.
    pub fn encode_char_checked(&self, c: char) -> (r: Option<u8>)
        ensures
            r == if (c as u32) < 128 {
                Some(c as u8)
            } else {
                None::<u8>
            },
    {
        if (c as u32) < 128 {
            Some(c as u8)
        } else {
            None
        }
    }
}

} // verus!
