use szyfry::algorithms::{Cipher, PolyalphabeticData};
use szyfry::utils::{Key, KeyRule};

#[test]
fn polyalphabetic_encrypt_decrypt_ckey() {
    let data: &str = "Ala ma kota";
    let source: &str = "abc\ndef\nghi";
    let code: Key = Key::read(source, KeyRule::Column).unwrap();
    let algorithm: PolyalphabeticData = PolyalphabeticData::new(code).unwrap();

    let encrypted: String = algorithm.encrypt(data);
    let decrypted: String = algorithm.decrypt(&encrypted).unwrap();

    assert_eq!(decrypted, data);
}

#[test]
fn polyalphabetic_encrypt_decrypt_lkey() {
    let data: &str = "Ala ma kota";
    let source: &str = "Lorem\nipsum\ndolor\nsit\namet";
    let code: Key = Key::read(source, KeyRule::Row).unwrap();
    let algorithm: PolyalphabeticData = PolyalphabeticData::new(code).unwrap();

    let encrypted: String = algorithm.encrypt(data);
    let decrypted: String = algorithm.decrypt(&encrypted).unwrap();

    assert_eq!(decrypted, data);
}
