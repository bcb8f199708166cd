use dope_tls::der::Der;

#[test]
fn long_form_lengths_round_trip() {
    let mut out = Vec::new();
    Der::write_len(&mut out, 127);
    assert_eq!(out, [0x7f]);

    out.clear();
    Der::write_len(&mut out, 200);
    assert_eq!(out, [0x81, 0xc8]);

    out.clear();
    Der::write_len(&mut out, 0xABCD);
    assert_eq!(out, [0x82, 0xab, 0xcd]);

    out.clear();
    Der::write_len(&mut out, 0xABCDEF);
    assert_eq!(out, [0x83, 0xab, 0xcd, 0xef]);
}

#[test]
fn four_byte_form_for_16_mib_and_above() {
    let mut out = Vec::new();
    Der::write_len(&mut out, 0x100_0000);
    assert_eq!(out, [0x84, 0x01, 0x00, 0x00, 0x00]);

    out.clear();
    let len = 0x0123_4567usize;
    Der::write_len(&mut out, len);
    assert_eq!(out, [0x84, 0x01, 0x23, 0x45, 0x67]);
    let decoded = ((out[1] as usize) << 24)
        | ((out[2] as usize) << 16)
        | ((out[3] as usize) << 8)
        | out[4] as usize;
    assert_eq!(decoded, len);
}

#[test]
fn a_sequence_has_its_header_in_front() {
    assert_eq!(Der::wrap_sequence(&[]), [0x30, 0x00]);
    assert_eq!(Der::wrap_sequence(&[1, 2, 3]), [0x30, 0x03, 1, 2, 3]);
    let long = vec![7u8; 300];
    let wrapped = Der::wrap_sequence(&long);
    assert_eq!(wrapped[..4], [0x30, 0x82, 0x01, 0x2c]);
    assert_eq!(wrapped[4..], long[..]);
}
