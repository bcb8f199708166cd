use dope_tls::staging::{
    AEAD_CONFIDENTIALITY_LIMIT, AEAD_TAG_LEN, HEADER_LEN, MAX_CIPHERTEXT_BODY, MAX_PLAINTEXT_BODY,
    MAX_TLS_RECORD, TLS13_RECORD_OVERHEAD, TLS_STAGING_CAP,
};
use shin::wire::record;

#[test]
fn egress_is_right_sized_to_one_record() {
    assert!(
        TLS_STAGING_CAP >= MAX_TLS_RECORD,
        "egress must fit one full TLS record"
    );
    assert!(
        TLS_STAGING_CAP <= 32 * 1024,
        "egress must not be a 32/64 KiB bulk buffer"
    );
}

#[test]
fn sizes_are_those_of_the_engine() {
    assert_eq!(HEADER_LEN, record::HEADER_LEN);
    assert_eq!(MAX_PLAINTEXT_BODY, record::MAX_PLAINTEXT_BODY);
    assert_eq!(MAX_CIPHERTEXT_BODY, record::MAX_CIPHERTEXT_BODY);
    assert_eq!(MAX_TLS_RECORD, 16_645);
    assert_eq!(TLS_STAGING_CAP, 24_837);
    assert_eq!(TLS13_RECORD_OVERHEAD, HEADER_LEN + 1 + AEAD_TAG_LEN);
    assert_eq!(AEAD_CONFIDENTIALITY_LIMIT, 1 << 23);
}
