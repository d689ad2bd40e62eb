use knoflik_sdr::si570::{
    registers, req_in, req_out, Si570, TuneError, REQ_GET_FREQ, REQ_SET_REGS,
};

const XTAL: u64 = 114_269_790_000;

#[test]
fn registry_sedi_s_quiskem() {
    let cases: &[(i64, [u8; 6])] = &[
        (1_000_000, [251, 194, 178, 4, 34, 22]),
        (3_700_000, [20, 66, 167, 181, 241, 10]),
        (7_300_000, [101, 194, 174, 225, 52, 141]),
        (14_200_000, [225, 194, 187, 223, 158, 235]),
        (21_200_000, [66, 66, 200, 107, 85, 16]),
        (28_500_000, [224, 194, 190, 86, 126, 32]),
    ];
    for &(freq, expected) in cases {
        let got = registers(freq * 1000, XTAL).expect("výpočet selhal");
        assert_eq!(got, expected, "neshoda na {freq} Hz");
    }
}

#[test]
fn mimo_rozsah_selze() {
    assert!(registers(500_000_000, XTAL).is_err());
    assert!(registers(0, XTAL).is_err());
}

#[test]
fn errors_tell_what_is_wrong() {
    assert_eq!(registers(0, XTAL), Err(TuneError::Invalid));
    assert_eq!(registers(-1, XTAL), Err(TuneError::Invalid));
    assert_eq!(registers(500_000_000, XTAL), Err(TuneError::OutOfRange));
}

#[test]
fn requests_go_to_the_vendor_part_of_the_device() {
    assert_eq!(req_out(), 0x40);
    assert_eq!(req_in(), 0xC0);
    let w = Si570 { xtal_millihz: XTAL, i2c_addr: 0x55 }.set_freq(7_300_000_000).unwrap();
    assert_eq!(w.request, REQ_SET_REGS);
    assert_eq!(w.data, [101, 194, 174, 225, 52, 141]);
}

#[test]
fn answers_are_read() {
    assert_eq!(Si570::version(&[12, 15], 2), "15.12");
    assert_eq!(Si570::freq(&[0, 0, 0x80, 0]), 0x80_0000);
    assert_eq!(Si570::version(&[12, 15], 1), "neznámá");
    assert_eq!(Si570::version_request().request_type, 0xC0);
    assert_eq!(Si570::freq_request().request, REQ_GET_FREQ);
}
