//! The fixed-shift (Caesar) cipher: every letter moves the same number of
//! places within its own case's alphabet, wrapping modulo 26.

use vstd::arithmetic::div_mod::{
    lemma_add_mod_noop, lemma_fundamental_div_mod, lemma_mod_add_multiples_vanish,
    lemma_mod_multiples_vanish, lemma_mod_twice, lemma_small_mod,
};
use vstd::prelude::*;

use crate::algorithms::Cipher;
use crate::text::{is_letter, is_lowercase, letter, lowercase, push_char, uppercase};
use crate::utils::CipherError;

verus! {

/// The character `c` shifted `off` places forward within its own case's
/// alphabet (backward for a negative `off`), wrapping modulo 26; any other
/// character is left as it is.
pub open spec fn shift_char(c: char, off: int) -> char {
    if uppercase(c) {
        ((65 + (c as int - 65 + off) % 26) as u32) as char
    } else if lowercase(c) {
        ((97 + (c as int - 97 + off) % 26) as u32) as char
    } else {
        c
    }
}

/// A whole text shifted character by character.
pub open spec fn shift_text(s: Seq<char>, off: int) -> Seq<char> {
    Seq::new(s.len(), |i: int| shift_char(s[i], off))
}

/// Holds the offset of a fixed-shift cipher.
pub struct CeasarData(u8);

proof fn lemma_shift_congruent(c: char, a: int, b: int)
    requires
        a % 26 == b % 26,
    ensures
        shift_char(c, a) == shift_char(c, b),
{
    lemma_add_mod_noop(c as int - 65, a, 26);
    lemma_add_mod_noop(c as int - 65, b, 26);
    lemma_add_mod_noop(c as int - 97, a, 26);
    lemma_add_mod_noop(c as int - 97, b, 26);
}

impl CeasarData {
    /// The configured shift offset.
    pub closed spec fn offset(&self) -> u8 {
        self.0
    }

    /// Wraps an offset into a fixed-shift cipher.
    pub fn new(offset: u8) -> (r: CeasarData)
        ensures
            r.offset() == offset,
    {
        CeasarData(offset)
    }

    /// Shifts a single letter `offset` places through its own case's
    /// alphabet, wrapping in either direction.
    pub fn shift_ascii(character: char, offset: i8) -> (r: char)
        requires
            letter(character),
        ensures
            r == shift_char(character, offset as int),
    {
        let base: u32 = if is_lowercase(character) {
            97
        } else {
            65
        };
        let u = character as u32;
        let o: u32 = if offset >= 0 {
            (offset as u32) % 26
        } else {
            let neg: u32 = (-(offset as i32)) as u32;
            (26 - (neg % 26)) % 26
        };
        proof {
            if offset < 0 {
                let neg = -(offset as int);
                let r0 = neg % 26;
                lemma_fundamental_div_mod(neg, 26);
                lemma_mod_multiples_vanish(-(neg / 26), -r0, 26);
                lemma_mod_add_multiples_vanish(-r0, 26);
                assert(offset as int % 26 == (26 - r0) % 26);
            }
            lemma_mod_twice(offset as int, 26);
            lemma_small_mod(o as nat, 26);
            lemma_shift_congruent(character, o as int, offset as int);
        }
        let pos = (u - base + o) % 26;
        let code = base + pos;
        (code as u8) as char
    }
}

impl Cipher for CeasarData {
    open spec fn wf(&self) -> bool {
        true
    }

    /// Shifts every letter of `data` forward by the configured offset.
    fn encrypt(&self, data: &str) -> (r: String)
        ensures
            r@.len() == data@.len(),
            r@ == shift_text(data@, self.offset() as int),
    {
        let o = self.0 % 26;
        proof {
            lemma_mod_twice(self.0 as int, 26);
        }
        let n = data.unicode_len();
        let mut out = String::new();
        let mut i: usize = 0;
        while i < n
            invariant
                i <= n,
                n == data@.len(),
                o == self.0 % 26,
                out@.len() == i as int,
                forall|m: int|
                    0 <= m < i as int ==> out@[m] == shift_char(data@[m], self.offset() as int),
            decreases n - i,
        {
            let c = data.get_char(i);
            if is_letter(c) {
                let s = CeasarData::shift_ascii(c, o as i8);
                proof {
                    lemma_shift_congruent(c, o as int, self.offset() as int);
                }
                push_char(&mut out, s);
            } else {
                push_char(&mut out, c);
            }
            i += 1;
        }
        proof {
            assert(out@ =~= shift_text(data@, self.offset() as int));
        }
        out
    }

    /// Shifts every letter of `data` backward by the configured offset;
    /// never fails.
    fn decrypt(&self, data: &str) -> (r: Result<String, CipherError>)
        ensures
            r matches Ok(s) && s@ == shift_text(data@, -(self.offset() as int)),
    {
        let o = self.0 % 26;
        let back = (26 - o) % 26;
        proof {
            let off = self.offset() as int;
            let r0 = off % 26;
            lemma_fundamental_div_mod(off, 26);
            lemma_mod_multiples_vanish(-(off / 26), -r0, 26);
            lemma_mod_add_multiples_vanish(-r0, 26);
            assert((-off) % 26 == (26 - r0) % 26);
            lemma_mod_twice(-off, 26);
            assert(back as int % 26 == (-off) % 26);
        }
        let n = data.unicode_len();
        let mut out = String::new();
        let mut i: usize = 0;
        while i < n
            invariant
                i <= n,
                n == data@.len(),
                back as int % 26 == (-(self.offset() as int)) % 26,
                back < 26,
                out@.len() == i as int,
                forall|m: int|
                    0 <= m < i as int ==> out@[m] == shift_char(data@[m], -(self.offset() as int)),
            decreases n - i,
        {
            let c = data.get_char(i);
            if is_letter(c) {
                let s = CeasarData::shift_ascii(c, back as i8);
                proof {
                    lemma_shift_congruent(c, back as int, -(self.offset() as int));
                }
                push_char(&mut out, s);
            } else {
                push_char(&mut out, c);
            }
            i += 1;
        }
        proof {
            assert(out@ =~= shift_text(data@, -(self.offset() as int)));
        }
        Ok(out)
    }
}

/// Law: shifting a text forward by any offset and then backward by the same
/// offset restores it exactly; characters other than letters are never
/// changed by a shift, and every letter keeps its case.
pub proof fn lemma_shift_round_trip(s: Seq<char>, off: int)
    ensures
        shift_text(shift_text(s, off), -off) == s,
        forall|i: int| 0 <= i < s.len() && !letter(s[i]) ==> shift_text(s, off)[i] == s[i],
        forall|i: int|
            0 <= i < s.len() ==> uppercase(#[trigger] shift_text(s, off)[i]) == uppercase(s[i])
                && lowercase(shift_text(s, off)[i]) == lowercase(s[i]),
{
    assert forall|i: int| 0 <= i < s.len() implies shift_char(shift_char(s[i], off), -off)
        == s[i] by {
        lemma_shift_char_round_trip(s[i], off);
    }
    assert forall|i: int| 0 <= i < s.len() implies uppercase(#[trigger] shift_text(s, off)[i])
        == uppercase(s[i]) && lowercase(shift_text(s, off)[i]) == lowercase(s[i]) by {
        lemma_shift_char_case(s[i], off);
    }
    assert(shift_text(shift_text(s, off), -off) =~= s);
}

proof fn lemma_shift_char_case(c: char, off: int)
    ensures
        uppercase(shift_char(c, off)) == uppercase(c),
        lowercase(shift_char(c, off)) == lowercase(c),
{
    if uppercase(c) {
        lemma_mod_bound_26(c as int - 65 + off);
    } else if lowercase(c) {
        lemma_mod_bound_26(c as int - 97 + off);
    }
}

proof fn lemma_mod_bound_26(x: int)
    ensures
        0 <= x % 26 < 26,
{
}

proof fn lemma_shift_char_round_trip(c: char, off: int)
    ensures
        shift_char(shift_char(c, off), -off) == c,
{
    lemma_shift_char_case(c, off);
    if uppercase(c) {
        let x = c as int - 65;
        let e = (x + off) % 26;
        lemma_mod_bound_26(x + off);
        lemma_small_mod(e as nat, 26);
        lemma_add_mod_noop(e, -off, 26);
        lemma_add_mod_noop(x + off, -off, 26);
        lemma_small_mod(x as nat, 26);
        assert((e + (-off)) % 26 == x);
    } else if lowercase(c) {
        let x = c as int - 97;
        let e = (x + off) % 26;
        lemma_mod_bound_26(x + off);
        lemma_small_mod(e as nat, 26);
        lemma_add_mod_noop(e, -off, 26);
        lemma_add_mod_noop(x + off, -off, 26);
        lemma_small_mod(x as nat, 26);
        assert((e + (-off)) % 26 == x);
    }
}

} // verus!
