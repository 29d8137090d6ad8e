use szyfry::algorithms::{Cipher, HomophonicData};
use szyfry::utils::{Key, KeyRule};

#[test]
fn homophonic_encrypt_decrypt_ckey() {
    let data: &str = "Ala ma kota";
    let source: &str = r#";dPqy($epXwQ0/v+=HW#mx.B6s`Nt)1Ar-z4|u8G^jEOJ,3Kl7@b
 a  R      !{kn    9& YZ hS >gV_  Ci\ 5"*} %UcMT    
 '  o        FD    <  Lf    I           :  ?] 2[    "#;
    let code: Key = Key::read(source, KeyRule::Column).unwrap();
    let algorithm: HomophonicData = HomophonicData::new(code).unwrap();

    let encrypted: String = algorithm.encrypt(data);
    let decrypted: String = algorithm.decrypt(&encrypted).unwrap();

    assert_eq!(decrypted, data);
}

#[test]
fn homophonic_encrypt_decrypt_lkey() {
    let data: &str = "Ala ma kota";
    let source: &str = r#"Y}=
wR*
bD
S#M
su
%
/
Px
oC
F4
`g,
OA
aGt
y>E
85
6B
flc
W
9
7^T
1I
e
2
Uj
.
3
H
@
vNK
_kQ
\
<(|
{-?
iZ)
;
p
X
m]J
&V0
[
$n
:
z
d
+
q
L
r
'
!
h
""#;
    let code: Key = Key::read(source, KeyRule::Row).unwrap();
    let algorithm: HomophonicData = HomophonicData::new(code).unwrap();

    let encrypted: String = algorithm.encrypt(data);
    let decrypted: String = algorithm.decrypt(&encrypted).unwrap();

    assert_eq!(decrypted, data);
}
