use hpr_xtask::digest::{hex_of, same_file, sha256};

#[test]
fn a_digest_is_written_in_lowercase_hexadecimal() {
    assert_eq!(
        sha256(b"abc"),
        "ba7816bf8f01cfea414140de5dae2223b00361a396177a9cb410ff61f20015ad"
    );
    assert_eq!(
        sha256(b""),
        "e3b0c44298fc1c149afbf4c8996fb92427ae41e4649b934ca495991b7852b855"
    );
    assert_eq!(hex_of(&[0, 9, 10, 255]), "00090aff");
    assert_eq!(hex_of(&[]), "");
}

#[test]
fn a_file_is_the_one_recorded_when_its_digest_is() {
    let abc = "ba7816bf8f01cfea414140de5dae2223b00361a396177a9cb410ff61f20015ad";
    assert!(same_file(b"abc", abc));
    assert!(!same_file(b"abc", &abc.to_uppercase()));
    assert!(!same_file(b"ab", abc));
}
