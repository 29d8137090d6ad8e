//! The homophonic one-to-many substitution cipher: every plaintext letter
//! owns a group of cipher characters, encryption draws one of them at
//! random per occurrence, and decryption looks the character up again by a
//! deterministic first-match scan over the groups.

use vstd::arithmetic::div_mod::{lemma_mod_multiples_vanish, lemma_small_mod};
use vstd::prelude::*;

use crate::algorithms::Cipher;
use crate::random::rand_index;
use crate::text::{ascii_char, is_ascii_char, is_lowercase, is_wschar, letter, lowercase,
    push_char, wschar};
use crate::utils::{CipherError, Key};

verus! {

/// A character the cipher substitutes: ASCII and not whitespace. Everything
/// else passes through unchanged.
pub open spec fn subst_char(c: char) -> bool {
    ascii_char(c) && !wschar(c)
}

/// The index of the group a substituted character is drawn from: lowercase
/// characters map through the second half of the first 52 groups, everything
/// else through the first half.
pub open spec fn hom_index(c: char) -> int {
    if lowercase(c) {
        (c as int - 97) % 52 + 26
    } else {
        (c as int - 65) % 52
    }
}

/// `c` is a possible encryption of `p` under the groups `gs`.
pub open spec fn hom_subst_ok(gs: Seq<Seq<char>>, p: char, c: char) -> bool {
    if subst_char(p) {
        gs[hom_index(p)].contains(c)
    } else {
        c == p
    }
}

/// The index of the first group containing `c`, or the group count when no
/// group does.
pub open spec fn first_group(gs: Seq<Seq<char>>, c: char) -> int
    decreases gs.len(),
{
    if gs.len() == 0 {
        0
    } else if gs[0].contains(c) {
        0
    } else {
        1 + first_group(gs.drop_first(), c)
    }
}

/// Some group of `gs` contains `c`.
pub open spec fn hom_found(gs: Seq<Seq<char>>, c: char) -> bool {
    first_group(gs, c) < gs.len()
}

/// The plaintext character a ciphertext character decrypts to: `'A'` plus
/// the index of its group for the first 26 groups, `'a'` plus the index
/// wrapped into the alphabet for the rest.
pub open spec fn hom_plain_char(gs: Seq<Seq<char>>, c: char) -> char {
    let gi = first_group(gs, c);
    if gi < 26 {
        ((65 + gi) as u32) as char
    } else {
        ((97 + (gi - 26) % 26) as u32) as char
    }
}

/// Every substituted character of `s` appears in some group.
pub open spec fn hom_decryptable(gs: Seq<Seq<char>>, s: Seq<char>) -> bool {
    forall|i: int| 0 <= i < s.len() && subst_char(#[trigger] s[i]) ==> hom_found(gs, s[i])
}

/// The whole text deciphered by first-match lookup.
pub open spec fn hom_dec_text(gs: Seq<Seq<char>>, s: Seq<char>) -> Seq<char> {
    Seq::new(
        s.len(),
        |i: int|
            if subst_char(s[i]) {
                hom_plain_char(gs, s[i])
            } else {
                s[i]
            },
    )
}

/// Holds the validated key table of a homophonic cipher.
pub struct HomophonicData(Key);

proof fn lemma_first_group_props(gs: Seq<Seq<char>>, c: char)
    ensures
        0 <= first_group(gs, c) <= gs.len(),
        first_group(gs, c) < gs.len() ==> gs[first_group(gs, c)].contains(c),
        forall|k: int| 0 <= k < first_group(gs, c) ==> !(#[trigger] gs[k]).contains(c),
    decreases gs.len(),
{
    if gs.len() > 0 && !gs[0].contains(c) {
        lemma_first_group_props(gs.drop_first(), c);
        let f = first_group(gs, c);
        assert forall|k: int| 0 <= k < f implies !(#[trigger] gs[k]).contains(c) by {
            if k > 0 {
                assert(gs.drop_first()[k - 1] == gs[k]);
            }
        }
        if f < gs.len() {
            assert(gs.drop_first()[f - 1] == gs[f]);
        }
    }
}

impl HomophonicData {
    /// The table's groups.
    pub closed spec fn groups(&self) -> Seq<Seq<char>> {
        self.0.groups()
    }

    /// Validates and wraps a key table: fails with `KeyTooShort` when the
    /// table has fewer than 52 groups, and otherwise with `KeyNotUnique`
    /// when its uniqueness flag is off.
    pub fn new(code: Key) -> (r: Result<HomophonicData, CipherError>)
        ensures
            (code.groups().len() >= 52 && code.unique) <==> r is Ok,
            r matches Ok(d) ==> d.groups() == code.groups(),
            r matches Err(e) ==> e == if code.groups().len() < 52 {
                CipherError::KeyTooShort
            } else {
                CipherError::KeyNotUnique
            },
    {
        if code.data.len() < 52 {
            return Err(CipherError::KeyTooShort);
        }
        if !code.unique {
            return Err(CipherError::KeyNotUnique);
        }
        Ok(HomophonicData(code))
    }
}

/// Scans for the first group containing `c`; the group count means none
/// does.
fn find_first_group(data: &Vec<String>, c: char) -> (r: usize)
    ensures
        r as int == first_group(data.deep_view(), c),
{
    let ghost gs = data.deep_view();
    let n = data.len();
    let mut gi: usize = 0;
    while gi < n
        invariant
            gi <= n,
            n == data@.len(),
            gs == data.deep_view(),
            forall|k: int| 0 <= k < gi as int ==> !(#[trigger] gs[k]).contains(c),
        decreases n - gi,
    {
        if str_contains(data[gi].as_str(), c) {
            proof {
                assert(gs[gi as int] == data@[gi as int]@);
                lemma_first_group_props(gs, c);
            }
            return gi;
        }
        proof {
            assert(gs[gi as int] == data@[gi as int]@);
        }
        gi += 1;
    }
    proof {
        lemma_first_group_props(gs, c);
    }
    n
}

/// Whether the group holds the character.
fn str_contains(g: &str, c: char) -> (r: bool)
    ensures
        r == g@.contains(c),
{
    let n = g.unicode_len();
    let mut j: usize = 0;
    while j < n
        invariant
            j <= n,
            n == g@.len(),
            forall|m: int| 0 <= m < j as int ==> g@[m] != c,
        decreases n - j,
    {
        if g.get_char(j) == c {
            return true;
        }
        j += 1;
    }
    false
}

impl Cipher for HomophonicData {
    /// The table must reach all 52 letter groups and each of them must have
    /// at least one character to draw.
    open spec fn wf(&self) -> bool {
        &&& self.groups().len() >= 52
        &&& forall|k: int| 0 <= k < 52 ==> (#[trigger] self.groups()[k]).len() > 0
    }

    /// Replaces every ASCII non-whitespace character with a character drawn
    /// at random from its group; which one is drawn is left open, so this
    /// contract holds of every outcome.
    fn encrypt(&self, data: &str) -> (r: String)
        ensures
            r@.len() == data@.len(),
            forall|i: int|
                0 <= i < data@.len() ==> hom_subst_ok(self.groups(), data@[i], #[trigger] r@[i]),
    {
        let ghost gs = self.groups();
        let n = data.unicode_len();
        let mut out = String::new();
        let mut i: usize = 0;
        while i < n
            invariant
                i <= n,
                n == data@.len(),
                self.wf(),
                gs == self.groups(),
                out@.len() == i as int,
                forall|m: int|
                    0 <= m < i as int ==> hom_subst_ok(gs, data@[m], #[trigger] out@[m]),
            decreases n - i,
        {
            let c = data.get_char(i);
            if is_ascii_char(c) && !is_wschar(c) {
                let u = c as u32;
                let gi: usize = if is_lowercase(c) {
                    ((u - 97) as usize) % 52 + 26
                } else {
                    (((u + 455) as usize) % 52)
                };
                proof {
                    if lowercase(c) {
                        lemma_small_mod((c as int - 97) as nat, 52);
                    } else {
                        lemma_mod_multiples_vanish(10, c as int - 65, 52);
                    }
                    assert(gi as int == hom_index(c));
                }
                let group = self.0.data[gi].as_str();
                proof {
                    assert(group@ == gs[gi as int]);
                }
                let glen = group.unicode_len();
                let idx = rand_index(glen);
                let ch = group.get_char(idx);
                proof {
                    assert(gs[gi as int][idx as int] == ch);
                    assert(gs[gi as int].contains(ch));
                }
                push_char(&mut out, ch);
            } else {
                push_char(&mut out, c);
            }
            i += 1;
        }
        out
    }

    /// Looks every ASCII non-whitespace character up by a first-match scan
    /// over the groups and emits the letter of the group found; fails with
    /// `UnmappableCipherChar` exactly when some character appears in no
    /// group.
    fn decrypt(&self, data: &str) -> (r: Result<String, CipherError>)
        ensures
            r is Ok <==> hom_decryptable(self.groups(), data@),
            r matches Ok(s) ==> s@ == hom_dec_text(self.groups(), data@),
            r matches Err(e) ==> e == CipherError::UnmappableCipherChar,
    {
        let ghost gs = self.groups();
        let n = data.unicode_len();
        let ng = self.0.data.len();
        let mut out = String::new();
        let mut i: usize = 0;
        while i < n
            invariant
                i <= n,
                n == data@.len(),
                ng == gs.len(),
                gs == self.groups(),
                out@.len() == i as int,
                forall|m: int|
                    0 <= m < i as int && subst_char(#[trigger] data@[m]) ==> hom_found(
                        gs,
                        data@[m],
                    ),
                forall|m: int|
                    0 <= m < i as int ==> #[trigger] out@[m] == hom_dec_text(gs, data@)[m],
            decreases n - i,
        {
            let c = data.get_char(i);
            if is_ascii_char(c) && !is_wschar(c) {
                let gi = find_first_group(&self.0.data, c);
                proof {
                    lemma_first_group_props(gs, c);
                }
                if gi == ng {
                    return Err(CipherError::UnmappableCipherChar);
                }
                let p: char = if gi < 26 {
                    ((65 + gi) as u8) as char
                } else {
                    ((97 + (gi - 26) % 26) as u8) as char
                };
                proof {
                    assert(p == hom_plain_char(gs, c));
                }
                push_char(&mut out, p);
            } else {
                push_char(&mut out, c);
            }
            i += 1;
        }
        proof {
            assert(out@ =~= hom_dec_text(gs, data@));
        }
        Ok(out)
    }
}

/// No character appears in two different groups of the table.
pub open spec fn char_unique_groups(gs: Seq<Seq<char>>) -> bool {
    forall|a: int, b: int, c: char|
        #![trigger gs[a].contains(c), gs[b].contains(c)]
        0 <= a < b < gs.len() && gs[a].contains(c) ==> !gs[b].contains(c)
}

/// A table with character-level uniqueness never holds one character in
/// two different groups, so first-match lookup is unambiguous.
pub proof fn lemma_distinct_table_char_unique(gs: Seq<Seq<char>>)
    requires
        crate::utils::distinct_table_chars(gs),
    ensures
        char_unique_groups(gs),
{
    assert forall|a: int, b: int, c: char|
        0 <= a < b < gs.len() && #[trigger] gs[a].contains(c) implies !(#[trigger] gs[b].contains(
        c,
    )) by {
        if gs[b].contains(c) {
            let i = choose|i: int| 0 <= i < gs[a].len() && gs[a][i] == c;
            let j = choose|j: int| 0 <= j < gs[b].len() && gs[b][j] == c;
            assert(gs[a][i] != gs[b][j]);
        }
    }
}

/// Law: whatever characters the random draws picked, a homophonic
/// encryption of a text of letters and whitespace decrypts back to that
/// text, provided no character appears in two groups of the table and the
/// first 52 groups hold only ASCII non-whitespace characters.
pub proof fn lemma_homophonic_round_trip(gs: Seq<Seq<char>>, plain: Seq<char>, cipher: Seq<char>)
    requires
        gs.len() >= 52,
        char_unique_groups(gs),
        forall|k: int, m: int|
            0 <= k < 52 && 0 <= m < gs[k].len() ==> subst_char(#[trigger] gs[k][m]),
        forall|i: int| 0 <= i < plain.len() ==> letter(#[trigger] plain[i]) || wschar(plain[i]),
        cipher.len() == plain.len(),
        forall|i: int| 0 <= i < plain.len() ==> hom_subst_ok(gs, plain[i], #[trigger] cipher[i]),
    ensures
        hom_decryptable(gs, cipher),
        hom_dec_text(gs, cipher) == plain,
{
    assert forall|i: int| 0 <= i < cipher.len() && subst_char(#[trigger] cipher[i]) implies
        hom_found(gs, cipher[i]) && hom_plain_char(gs, cipher[i]) == plain[i] by {
        lemma_homophonic_char(gs, plain[i], cipher[i]);
    }
    assert forall|i: int| 0 <= i < cipher.len() && !subst_char(#[trigger] cipher[i]) implies
        cipher[i] == plain[i] by {
        if letter(plain[i]) {
            lemma_homophonic_char(gs, plain[i], cipher[i]);
        }
    }
    assert(hom_dec_text(gs, cipher) =~= plain);
}

proof fn lemma_homophonic_char(gs: Seq<Seq<char>>, p: char, c: char)
    requires
        gs.len() >= 52,
        char_unique_groups(gs),
        forall|k: int, m: int|
            0 <= k < 52 && 0 <= m < gs[k].len() ==> subst_char(#[trigger] gs[k][m]),
        letter(p) || wschar(p),
        hom_subst_ok(gs, p, c),
    ensures
        letter(p) ==> subst_char(c) && hom_found(gs, c) && hom_plain_char(gs, c) == p,
        wschar(p) ==> c == p && !subst_char(c),
{
    if letter(p) {
        let gi = hom_index(p);
        if lowercase(p) {
            lemma_small_mod((p as int - 97) as nat, 52);
        } else {
            lemma_small_mod((p as int - 65) as nat, 52);
        }
        assert(0 <= gi < 52);
        assert(gs[gi].contains(c));
        let m = choose|m: int| 0 <= m < gs[gi].len() && gs[gi][m] == c;
        assert(subst_char(c));
        lemma_first_group_props(gs, c);
        let f = first_group(gs, c);
        assert(f < gs.len());
        if f < gi {
            assert(!gs[gi].contains(c));
            assert(false);
        }
        if f > gi {
            assert(!gs[gi].contains(c));
            assert(false);
        }
        assert(f == gi);
        if lowercase(p) {
            lemma_small_mod((p as int - 97) as nat, 26);
            assert(hom_plain_char(gs, c) as int == 97 + (p as int - 97));
        } else {
            assert(hom_plain_char(gs, c) as int == 65 + (p as int - 65));
        }
    }
}

} // verus!
