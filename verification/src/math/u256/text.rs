//! The textual form of an identifier.

use super::U256;
use vstd::prelude::*;

verus! {

/// The upper-case hexadecimal digit of a value below sixteen.
pub open spec fn hex_digit(v: u8) -> char {
    if v < 10 {
        (48u8 + v) as char
    } else {
        (55u8 + v) as char
    }
}

/// The text of `n` bytes: two upper-case hexadecimal digits for each,
/// with a colon between one byte and the next.
pub open spec fn hex_text(bytes: Seq<u8>, n: nat) -> Seq<char>
    decreases n,
{
    if n == 0 {
        Seq::empty()
    } else {
        let head = hex_text(bytes, (n - 1) as nat);
        let sep = if n == 1 {
            Seq::<char>::empty()
        } else {
            seq![':']
        };
        head + sep + seq![hex_digit(bytes[n - 1] / 16), hex_digit(bytes[n - 1] % 16)]
    }
}

/// `String::from_iter` of std on characters: the string made of them.
#[verifier::external_body]
fn string_of(chars: &Vec<char>) -> (text: String)
    ensures
        text@ == chars@,
{
    String::from_iter(chars.iter())
}

/// The upper-case hexadecimal digit of `v`.
fn digit(v: u8) -> (c: char)
    requires
        v < 16,
    ensures
        c == hex_digit(v),
{
    if v < 10 {
        (48u8 + v) as char
    } else {
        (55u8 + v) as char
    }
}

impl U256 {
    /// The thirty-two bytes as upper-case hexadecimal pairs joined by colons.
    pub fn to_string(&self) -> (text: String)
        ensures
            text@ == hex_text(self@, 32),
    {
        let mut chars: Vec<char> = Vec::with_capacity(95);
        let mut i: usize = 0;
        while i < 32
            invariant
                i <= 32,
                chars@ == hex_text(self@, i as nat),
            decreases 32 - i,
        {
            if i > 0 {
                chars.push(':');
            }
            let b = self.0[i];
            chars.push(digit(b / 16));
            chars.push(digit(b % 16));
            proof {
                let head = hex_text(self@, i as nat);
                let sep = if i == 0 { Seq::<char>::empty() } else { seq![':'] };
                assert(chars@ =~= head + sep + seq![hex_digit(b / 16), hex_digit(b % 16)]);
            }
            i += 1;
        }
        string_of(&chars)
    }
}

} // verus!
