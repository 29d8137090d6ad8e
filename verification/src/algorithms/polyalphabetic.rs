//! The repeating-key polyalphabetic (Vigenère-style) cipher: every input
//! position is paired with a key group, cycling through the table, and
//! letters are combined with the key character by modular addition on a
//! single 52-symbol ring ('A'..'Z' then 'a'..'z').

use vstd::arithmetic::div_mod::{
    lemma_mod_add_multiples_vanish, lemma_small_mod, lemma_sub_mod_noop,
};
use vstd::prelude::*;

use crate::algorithms::Cipher;
use crate::text::{is_letter, is_uppercase, letter, push_char, uppercase};
use crate::utils::{CipherError, Key};

verus! {

/// The position of a letter on the 52-symbol ring.
pub open spec fn ring_pos(c: char) -> int {
    if uppercase(c) {
        c as int - 65
    } else {
        c as int - 97 + 26
    }
}

/// The letter standing at a ring position.
pub open spec fn ring_char(p: int) -> char {
    if p < 26 {
        ((65 + p) as u32) as char
    } else {
        ((97 + p - 26) as u32) as char
    }
}

/// One character enciphered under key character `k`; anything but a letter
/// passes through unchanged.
pub open spec fn poly_enc_char(p: char, k: char) -> char {
    if letter(p) {
        ring_char((ring_pos(p) + ring_pos(k)) % 52)
    } else {
        p
    }
}

/// One character deciphered under key character `k`.
pub open spec fn poly_dec_char(c: char, k: char) -> char {
    if letter(c) {
        ring_char((ring_pos(c) - ring_pos(k) + 52) % 52)
    } else {
        c
    }
}

/// Every character of every group is an ASCII letter.
pub open spec fn alphabetic_groups(gs: Seq<Seq<char>>) -> bool {
    forall|k: int, m: int|
        0 <= k < gs.len() && 0 <= m < gs[k].len() ==> letter(#[trigger] gs[k][m])
}

/// The key character paired with input position `i`: the first character of
/// group `i` modulo the group count. Every input position advances the
/// cycle, whether or not its character is a letter.
pub open spec fn poly_key_char(gs: Seq<Seq<char>>, i: int) -> char {
    gs[i % (gs.len() as int)][0]
}

/// The whole text enciphered against the cycling key.
pub open spec fn poly_enc_text(gs: Seq<Seq<char>>, s: Seq<char>) -> Seq<char> {
    Seq::new(s.len(), |i: int| poly_enc_char(s[i], poly_key_char(gs, i)))
}

/// The whole text deciphered against the cycling key.
pub open spec fn poly_dec_text(gs: Seq<Seq<char>>, s: Seq<char>) -> Seq<char> {
    Seq::new(s.len(), |i: int| poly_dec_char(s[i], poly_key_char(gs, i)))
}

/// Holds the validated key table of a polyalphabetic cipher.
pub struct PolyalphabeticData(Key);

fn ring_pos_of(c: char) -> (r: u32)
    requires
        letter(c),
    ensures
        r as int == ring_pos(c),
        r < 52,
{
    let u = c as u32;
    if is_uppercase(c) {
        u - 65
    } else {
        u - 97 + 26
    }
}

fn ring_char_of(p: u32) -> (r: char)
    requires
        p < 52,
    ensures
        r == ring_char(p as int),
{
    if p < 26 {
        ((65 + p) as u8) as char
    } else {
        ((97 + p - 26) as u8) as char
    }
}

impl PolyalphabeticData {
    /// The table's groups.
    pub closed spec fn groups(&self) -> Seq<Seq<char>> {
        self.0.groups()
    }

    /// Validates and wraps a key table: succeeds exactly when every
    /// character of every group is a letter, and rejects anything else with
    /// `NonAlphabeticKey`.
    pub fn new(code: Key) -> (r: Result<PolyalphabeticData, CipherError>)
        ensures
            alphabetic_groups(code.groups()) <==> r is Ok,
            r matches Ok(d) ==> d.groups() == code.groups(),
            r matches Err(e) ==> e == CipherError::NonAlphabeticKey,
    {
        let ghost gs = code.groups();
        let mut k: usize = 0;
        while k < code.data.len()
            invariant
                k <= code.data.len(),
                gs == code.groups(),
                forall|a: int, m: int|
                    0 <= a < k as int && 0 <= m < gs[a].len() ==> letter(#[trigger] gs[a][m]),
            decreases code.data.len() - k,
        {
            let g = code.data[k].as_str();
            proof {
                assert(g@ == gs[k as int]);
            }
            let glen = g.unicode_len();
            let mut m: usize = 0;
            while m < glen
                invariant
                    m <= glen,
                    k < code.data.len(),
                    g@ == gs[k as int],
                    glen == gs[k as int].len(),
                    gs == code.groups(),
                    forall|b: int| 0 <= b < m as int ==> letter(#[trigger] gs[k as int][b]),
                decreases glen - m,
            {
                if !is_letter(g.get_char(m)) {
                    return Err(CipherError::NonAlphabeticKey);
                }
                m += 1;
            }
            k += 1;
        }
        Ok(PolyalphabeticData(code))
    }
}

proof fn lemma_mod_bound(x: int, n: int)
    requires
        n > 0,
    ensures
        0 <= x % n < n,
{
}

proof fn lemma_ring_char_pos(p: int)
    requires
        0 <= p < 52,
    ensures
        letter(ring_char(p)),
        ring_pos(ring_char(p)) == p,
{
}

impl Cipher for PolyalphabeticData {
    /// The cycle must be non-empty, every group must have a first character,
    /// and the key may hold letters only.
    open spec fn wf(&self) -> bool {
        &&& self.groups().len() > 0
        &&& forall|k: int| 0 <= k < self.groups().len() ==> (#[trigger] self.groups()[k]).len() > 0
        &&& alphabetic_groups(self.groups())
    }

    /// Adds, on the 52-symbol ring, each letter's position and the position
    /// of the first character of its cycling key group.
    fn encrypt(&self, data: &str) -> (r: String)
        ensures
            r@.len() == data@.len(),
            r@ == poly_enc_text(self.groups(), data@),
    {
        let n = data.unicode_len();
        let ng = self.0.data.len();
        let mut out = String::new();
        let mut i: usize = 0;
        while i < n
            invariant
                i <= n,
                n == data@.len(),
                self.wf(),
                ng == self.groups().len(),
                out@.len() == i as int,
                forall|m: int|
                    0 <= m < i as int ==> out@[m] == poly_enc_char(
                        data@[m],
                        poly_key_char(self.groups(), m),
                    ),
            decreases n - i,
        {
            proof {
                lemma_mod_bound(i as int, ng as int);
            }
            let c = data.get_char(i);
            if is_letter(c) {
                let g = self.0.data[i % ng].as_str();
                proof {
                    assert(g@ == self.groups()[(i as int) % (ng as int)]);
                    assert(g@.len() > 0 && forall|m: int| 0 <= m < g@.len() ==> letter(g@[m]));
                }
                let kc = g.get_char(0);
                let e = ring_char_of((ring_pos_of(c) + ring_pos_of(kc)) % 52);
                push_char(&mut out, e);
            } else {
                push_char(&mut out, c);
            }
            i += 1;
        }
        proof {
            assert(out@ =~= poly_enc_text(self.groups(), data@));
        }
        out
    }

    /// Subtracts, on the 52-symbol ring, the cycling key character's
    /// position from each letter's position; never fails.
    fn decrypt(&self, data: &str) -> (r: Result<String, CipherError>)
        ensures
            r matches Ok(s) && s@ == poly_dec_text(self.groups(), data@),
    {
        let n = data.unicode_len();
        let ng = self.0.data.len();
        let mut out = String::new();
        let mut i: usize = 0;
        while i < n
            invariant
                i <= n,
                n == data@.len(),
                self.wf(),
                ng == self.groups().len(),
                out@.len() == i as int,
                forall|m: int|
                    0 <= m < i as int ==> out@[m] == poly_dec_char(
                        data@[m],
                        poly_key_char(self.groups(), m),
                    ),
            decreases n - i,
        {
            proof {
                lemma_mod_bound(i as int, ng as int);
            }
            let c = data.get_char(i);
            if is_letter(c) {
                let g = self.0.data[i % ng].as_str();
                proof {
                    assert(g@ == self.groups()[(i as int) % (ng as int)]);
                    assert(g@.len() > 0 && forall|m: int| 0 <= m < g@.len() ==> letter(g@[m]));
                }
                let kc = g.get_char(0);
                let e = ring_char_of((ring_pos_of(c) + 52 - ring_pos_of(kc)) % 52);
                push_char(&mut out, e);
            } else {
                push_char(&mut out, c);
            }
            i += 1;
        }
        proof {
            assert(out@ =~= poly_dec_text(self.groups(), data@));
        }
        Ok(out)
    }
}

/// Law: deciphering an enciphered text against the same key restores it
/// exactly, for every text and every all-alphabetic key with non-empty
/// groups; characters other than letters pass through unchanged while still
/// advancing the key cycle.
pub proof fn lemma_poly_round_trip(gs: Seq<Seq<char>>, s: Seq<char>)
    requires
        gs.len() > 0,
        forall|k: int| 0 <= k < gs.len() ==> (#[trigger] gs[k]).len() > 0,
        alphabetic_groups(gs),
    ensures
        poly_dec_text(gs, poly_enc_text(gs, s)) == s,
        forall|i: int|
            0 <= i < s.len() && !letter(s[i]) ==> #[trigger] poly_enc_text(gs, s)[i] == s[i],
{
    assert forall|i: int| 0 <= i < s.len() implies poly_dec_char(
        poly_enc_char(s[i], poly_key_char(gs, i)),
        poly_key_char(gs, i),
    ) == s[i] by {
        lemma_mod_bound(i, gs.len() as int);
        lemma_poly_char_round_trip(s[i], poly_key_char(gs, i));
    }
    assert(poly_dec_text(gs, poly_enc_text(gs, s)) =~= s);
}

proof fn lemma_poly_char_round_trip(p: char, k: char)
    requires
        letter(k),
    ensures
        poly_dec_char(poly_enc_char(p, k), k) == p,
{
    if letter(p) {
        let a = ring_pos(p);
        let b = ring_pos(k);
        let t = (a + b) % 52;
        lemma_mod_bound(a + b, 52);
        lemma_ring_char_pos(t);
        lemma_small_mod(t as nat, 52);
        lemma_small_mod(b as nat, 52);
        lemma_small_mod(a as nat, 52);
        lemma_sub_mod_noop(a + b, b, 52);
        lemma_mod_add_multiples_vanish(t - b, 52);
        assert((t - b + 52) % 52 == a);
        lemma_ring_char_pos(a);
        assert(ring_char(a) == p);
    }
}

} // verus!
