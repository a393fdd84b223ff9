use pingora_enclavia::config::Config;
use pingora_enclavia::measurement::HexError;

fn config(pcr0: &str, pcr1: &str, pcr2: &str) -> Config {
    Config {
        listen: "127.0.0.1:6188".to_string(),
        upstream_url: "wss://example/".to_string(),
        pcr0: pcr0.to_string(),
        pcr1: pcr1.to_string(),
        pcr2: pcr2.to_string(),
        debug_mode: true,
        enclave_host: Some("enclave".to_string()),
    }
}

#[test]
fn measurements_are_decoded_in_either_case() {
    let pcrs = config("00ff", "aBcD", "").pcrs().unwrap();
    assert_eq!(pcrs.pcr0, vec![0x00, 0xff]);
    assert_eq!(pcrs.pcr1, vec![0xab, 0xcd]);
    assert_eq!(pcrs.pcr2, Vec::<u8>::new());
    let copy = pcrs.clone();
    assert_eq!(copy.pcr1, vec![0xab, 0xcd]);
}

#[test]
fn an_odd_number_of_digits_is_an_error() {
    let e = config("00", "0", "00").pcrs().unwrap_err();
    assert_eq!(e, HexError::OddLength);
    assert_eq!(e.message(), "Odd number of digits");
    // The number of bytes is looked at before the digits.
    assert_eq!(config("xyz", "", "").pcrs().unwrap_err(), HexError::OddLength);
}

#[test]
fn the_first_bad_character_is_reported() {
    let e = config("00", "00", "0a0gzz").pcrs().unwrap_err();
    assert_eq!(e, HexError::InvalidHexCharacter { c: 'g', index: 3 });
    assert_eq!(e.message(), "Invalid character 'g' at position 3");
    let e = config("\n0", "", "").pcrs().unwrap_err();
    assert_eq!(e.message(), "Invalid character '\\n' at position 0");
}

#[test]
fn positions_count_bytes() {
    let e = config("00\u{e9}", "", "").pcrs().unwrap_err();
    assert_eq!(e, HexError::InvalidHexCharacter { c: '\u{c3}', index: 2 });
}

#[test]
fn the_first_bad_measurement_decides() {
    let e = config("0", "zz", "0").pcrs().unwrap_err();
    assert_eq!(e, HexError::OddLength);
    let e = config("00", "zz", "0").pcrs().unwrap_err();
    assert_eq!(e, HexError::InvalidHexCharacter { c: 'z', index: 0 });
}

#[test]
fn a_length_error_has_a_text() {
    assert_eq!(HexError::InvalidStringLength.message(), "Invalid string length");
}

#[test]
fn a_copy_of_a_configuration_is_the_same() {
    let copy = config("00", "11", "22").clone();
    assert_eq!(copy.listen, "127.0.0.1:6188");
    assert_eq!(copy.upstream_url, "wss://example/");
    assert_eq!(copy.pcrs().unwrap().pcr2, vec![0x22]);
    assert!(copy.debug_mode);
    assert_eq!(copy.enclave_host.as_deref(), Some("enclave"));
}
