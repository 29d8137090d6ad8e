use std::collections::HashSet;

use szyfry::algorithms::ceasar::CeasarData;
use szyfry::algorithms::{Cipher, HomophonicData, PolyalphabeticData};
use szyfry::utils::{CipherError, Key, KeyRule};

#[test]
fn shift_round_trip_all_offsets() {
    let text = "Mixed CASE text, with 123 digits & marks! xyz XYZ";
    for offset in 0..=255u8 {
        let cipher = CeasarData::new(offset);
        let encrypted = cipher.encrypt(text);
        assert_eq!(encrypted.chars().count(), text.chars().count());
        for (p, c) in text.chars().zip(encrypted.chars()) {
            if p.is_ascii_alphabetic() {
                assert_eq!(p.is_ascii_uppercase(), c.is_ascii_uppercase());
            } else {
                assert_eq!(p, c);
            }
        }
        let decrypted = cipher.decrypt(&encrypted).unwrap();
        assert_eq!(decrypted, text);
    }
}

#[test]
fn shift_exact_values() {
    let cipher = CeasarData::new(27);
    assert_eq!(cipher.encrypt("abz AZ"), "bca BA");
    assert_eq!(CeasarData::shift_ascii('a', -2), 'y');
    assert_eq!(CeasarData::shift_ascii('C', 1), 'D');
    assert_eq!(CeasarData::shift_ascii('z', 3), 'c');
}

#[test]
fn key_uniqueness_flags() {
    let dup = Key::read("ab\ncd\nab", KeyRule::Row).unwrap();
    assert!(!dup.unique);
    let distinct = Key::read("ab\nbc", KeyRule::Row).unwrap();
    assert!(distinct.unique);
}

#[test]
fn homophonic_rejects_bad_keys() {
    let mut short = String::new();
    for i in 0..51u8 {
        if i > 0 {
            short.push('\n');
        }
        short.push((b'A' + i % 26) as char);
        short.push((b'A' + i / 26) as char);
    }
    let key = Key::read(&short, KeyRule::Row).unwrap();
    assert_eq!(key.data.len(), 51);
    assert!(matches!(
        HomophonicData::new(key),
        Err(CipherError::KeyTooShort)
    ));

    let mut doubled = String::new();
    for i in 0..52u8 {
        if i > 0 {
            doubled.push('\n');
        }
        let i = if i == 51 { 0 } else { i };
        doubled.push((b'A' + i % 26) as char);
        doubled.push((b'A' + i / 26) as char);
    }
    let key = Key::read(&doubled, KeyRule::Row).unwrap();
    assert_eq!(key.data.len(), 52);
    assert!(!key.unique);
    assert!(matches!(
        HomophonicData::new(key),
        Err(CipherError::KeyNotUnique)
    ));
}

#[test]
fn polyalphabetic_rejects_nonalphabetic() {
    let key = Key::read("ab1\ncd", KeyRule::Row).unwrap();
    assert!(matches!(
        PolyalphabeticData::new(key),
        Err(CipherError::NonAlphabeticKey)
    ));
}

#[test]
fn homophonic_identity_key_and_unmappable() {
    let mut source = String::new();
    for c in ('A'..='Z').chain('a'..='z') {
        source.push(c);
        source.push('\n');
    }
    let key = Key::read(&source, KeyRule::Row).unwrap();
    assert_eq!(key.data.len(), 52);
    let algorithm = HomophonicData::new(key).unwrap();
    assert_eq!(algorithm.encrypt("Ala ma kota"), "Ala ma kota");
    assert_eq!(algorithm.decrypt("Ala ma kota").unwrap(), "Ala ma kota");
    assert!(matches!(
        algorithm.decrypt("0"),
        Err(CipherError::UnmappableCipherChar)
    ));
}

#[test]
fn poly_cycle_advances_on_nonletters() {
    let key = Key::read("B\nC", KeyRule::Row).unwrap();
    let algorithm = PolyalphabeticData::new(key).unwrap();
    assert_eq!(algorithm.encrypt("a!b"), "b!c");
    assert_eq!(algorithm.decrypt("b!c").unwrap(), "a!b");
    assert_eq!(algorithm.encrypt("z"), "A");
}

#[test]
fn transposed_layouts_consistent() {
    let source = "ab\ncd";
    let row = Key::read(source, KeyRule::Row).unwrap();
    let col = Key::read(source, KeyRule::Column).unwrap();
    assert_eq!(row.data, vec!["ab".to_string(), "cd".to_string()]);
    assert_eq!(col.data, vec!["ac".to_string(), "bd".to_string()]);
    assert_eq!(row.to_text(), source);
    assert_eq!(col.to_text(), source);
}

#[test]
fn read_edge_cases() {
    let empty = Key::read("", KeyRule::Row).unwrap();
    assert_eq!(empty.data.len(), 0);
    assert!(empty.unique);
    assert_eq!(empty.to_text(), "");

    let ws = Key::read("a b\n", KeyRule::Row).unwrap();
    assert_eq!(ws.data, vec!["ab".to_string()]);

    let colskip = Key::read("a c\nxyz", KeyRule::Column).unwrap();
    assert_eq!(
        colskip.data,
        vec!["ax".to_string(), "y".to_string(), "cz".to_string()]
    );
}

#[test]
fn generate_unique_table() {
    let pool: Vec<char> = ('A'..='Z').chain('a'..='z').chain('0'..='9').collect();
    let key = Key::generate(KeyRule::Row, 10, 3, pool.clone(), true);
    assert_eq!(key.data.len(), 10);
    assert!(key.unique);
    let mut seen = HashSet::new();
    for g in &key.data {
        assert!(!g.is_empty() && g.chars().count() <= 3);
        for c in g.chars() {
            assert!(pool.contains(&c));
            assert!(seen.insert(c));
        }
    }
}

#[test]
fn generate_non_unique_table() {
    let pool: Vec<char> = ('a'..='f').collect();
    let key = Key::generate(KeyRule::Column, 4, 2, pool.clone(), false);
    assert_eq!(key.data.len(), 4);
    for g in &key.data {
        let n = g.chars().count();
        assert!(1 <= n && n <= 2);
        for c in g.chars() {
            assert!(pool.contains(&c));
        }
    }
}

#[test]
fn generated_homophonic_round_trip() {
    let pool: Vec<char> = ('!'..='~').collect();
    let key = Key::generate(KeyRule::Row, 52, 2, pool, true);
    let algorithm = HomophonicData::new(key).unwrap();
    let data = "Ala ma kota";
    for _ in 0..20 {
        let encrypted = algorithm.encrypt(data);
        assert_eq!(algorithm.decrypt(&encrypted).unwrap(), data);
    }
}
