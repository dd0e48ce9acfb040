use bincode::Options;
use wasm_plugin_framework::codec::{CodecConfig, CodecError, DEFAULT_LIMIT};
use wasm_plugin_framework::{A, B};

fn a(test: &str, test2: u64) -> A {
    A { test: test.to_string(), test2 }
}

fn b(test: &str, test2: &str) -> B {
    B { test: test.to_string(), test2: test2.to_string() }
}

#[test]
fn default_limit_is_the_largest_u32() {
    assert_eq!(CodecConfig::default().limit, u32::MAX as u64);
    assert_eq!(DEFAULT_LIMIT, 4294967295);
    assert_eq!(CodecConfig::new(7).limit, 7);
}

#[test]
fn a_encodes_to_exact_bytes() {
    let config = CodecConfig::default();
    assert_eq!(a("Ada", 36).into_bytes(&config), Ok(vec![3, b'A', b'd', b'a', 36]));
    assert_eq!(a("", 0).into_bytes(&config), Ok(vec![0, 0]));
    assert_eq!(a("", 250).into_bytes(&config), Ok(vec![0, 250]));
    assert_eq!(a("", 251).into_bytes(&config), Ok(vec![0, 251, 251, 0]));
    assert_eq!(a("", 0xffff).into_bytes(&config), Ok(vec![0, 251, 0xff, 0xff]));
    assert_eq!(a("", 0x1_0000).into_bytes(&config), Ok(vec![0, 252, 0, 0, 1, 0]));
    assert_eq!(a("", 0xffff_ffff).into_bytes(&config), Ok(vec![0, 252, 0xff, 0xff, 0xff, 0xff]));
    assert_eq!(
        a("", 0x1_0000_0000).into_bytes(&config),
        Ok(vec![0, 253, 0, 0, 0, 0, 1, 0, 0, 0])
    );
    assert_eq!(
        a("Hey Ho", 1000000000000000000u64).into_bytes(&config),
        Ok(vec![6, 72, 101, 121, 32, 72, 111, 253, 0, 0, 100, 167, 179, 182, 224, 13])
    );
}

#[test]
fn b_encodes_to_exact_bytes() {
    let config = CodecConfig::default();
    assert_eq!(
        b("Hello, Ada", "").into_bytes(&config),
        Ok(vec![10, b'H', b'e', b'l', b'l', b'o', b',', b' ', b'A', b'd', b'a', 0])
    );
    assert_eq!(b("é", "ß").into_bytes(&config), Ok(vec![2, 0xc3, 0xa9, 2, 0xc3, 0x9f]));
}

#[test]
fn long_string_length_takes_the_wide_form() {
    let config = CodecConfig::default();
    let text = "x".repeat(300);
    let bytes = b(&text, "").into_bytes(&config).unwrap();
    assert_eq!(bytes.len(), 3 + 300 + 1);
    assert_eq!(&bytes[..3], &[251, 44, 1]);
    assert_eq!(B::from_bytes(&bytes, &config), Ok(b(&text, "")));
}

#[test]
fn encoding_agrees_with_the_derived_layout() {
    let config = CodecConfig::default();
    let options = bincode::DefaultOptions::new().with_limit(u32::MAX as u64);
    for (text, number) in [("", 0u64), ("Ada", 36), ("plugin", 70000), ("ünï", u64::MAX)] {
        let expected = options.serialize(&(text.to_string(), number)).unwrap();
        assert_eq!(a(text, number).into_bytes(&config), Ok(expected));
    }
}

#[test]
fn a_round_trips() {
    let config = CodecConfig::default();
    for value in [a("", 0), a("Ada", 36), a("a\0b", 251), a("日本語", u64::MAX)] {
        let bytes = value.into_bytes(&config).unwrap();
        assert_eq!(A::from_bytes(&bytes, &config), Ok(value));
    }
}

#[test]
fn b_round_trips() {
    let config = CodecConfig::default();
    for value in [b("", ""), b("Hello, Ada", "x"), b("AAAAAAAAAAAAAAAAAAAAA", "https://www.youtube.com/watch?v=dQw4w9WgXcQ")] {
        let bytes = value.into_bytes(&config).unwrap();
        assert_eq!(B::from_bytes(&bytes, &config), Ok(value));
    }
}

#[test]
fn encode_fails_over_the_limit() {
    assert_eq!(a("Ada", 36).into_bytes(&CodecConfig::new(5)), Ok(vec![3, 65, 100, 97, 36]));
    assert_eq!(a("Ada", 36).into_bytes(&CodecConfig::new(4)), Err(CodecError::SizeLimitExceeded));
    assert_eq!(a("Ada", 36).into_bytes(&CodecConfig::new(0)), Err(CodecError::SizeLimitExceeded));
    assert_eq!(b("ab", "c").into_bytes(&CodecConfig::new(4)), Err(CodecError::SizeLimitExceeded));
    assert_eq!(b("ab", "c").into_bytes(&CodecConfig::new(5)), Ok(vec![2, 97, 98, 1, 99]));
}

#[test]
fn decode_fails_over_the_limit() {
    let bytes = vec![3, 65, 100, 97, 36];
    assert_eq!(A::from_bytes(&bytes, &CodecConfig::new(4)), Err(CodecError::SizeLimitExceeded));
    assert_eq!(A::from_bytes(&bytes, &CodecConfig::new(5)), Ok(a("Ada", 36)));
    assert_eq!(B::from_bytes(&[1, 97, 0], &CodecConfig::new(2)), Err(CodecError::SizeLimitExceeded));
}

#[test]
fn decode_rejects_truncated_input() {
    let config = CodecConfig::default();
    assert_eq!(A::from_bytes(&[], &config), Err(CodecError::DecodeError));
    assert_eq!(A::from_bytes(&[3, 65, 100], &config), Err(CodecError::DecodeError));
    assert_eq!(A::from_bytes(&[3, 65, 100, 97], &config), Err(CodecError::DecodeError));
    assert_eq!(A::from_bytes(&[0, 251, 1], &config), Err(CodecError::DecodeError));
    assert_eq!(A::from_bytes(&[0, 253, 1, 2, 3, 4, 5, 6, 7], &config), Err(CodecError::DecodeError));
    assert_eq!(B::from_bytes(&[1, 97], &config), Err(CodecError::DecodeError));
    assert_eq!(B::from_bytes(&[1, 97, 2, 98], &config), Err(CodecError::DecodeError));
}

#[test]
fn decode_rejects_trailing_bytes() {
    let config = CodecConfig::default();
    assert_eq!(A::from_bytes(&[0, 1, 0], &config), Err(CodecError::DecodeError));
    assert_eq!(B::from_bytes(&[0, 0, 0], &config), Err(CodecError::DecodeError));
}

#[test]
fn decode_rejects_malformed_input() {
    let config = CodecConfig::default();
    // not UTF-8
    assert_eq!(A::from_bytes(&[1, 0xff, 0], &config), Err(CodecError::DecodeError));
    assert_eq!(B::from_bytes(&[2, 0xc3, 0x28, 0], &config), Err(CodecError::DecodeError));
    // markers that stand for no integer form
    assert_eq!(A::from_bytes(&[0, 254, 0, 0, 0, 0, 0, 0, 0, 0, 0, 0, 0, 0, 0, 0, 0, 0], &config), Err(CodecError::DecodeError));
    assert_eq!(A::from_bytes(&[0, 255], &config), Err(CodecError::DecodeError));
    // a length far beyond the input
    assert_eq!(
        A::from_bytes(&[253, 0xff, 0xff, 0xff, 0xff, 0xff, 0xff, 0xff, 0x7f, 0], &config),
        Err(CodecError::DecodeError)
    );
}

#[test]
fn decode_accepts_wide_forms_of_small_numbers() {
    let config = CodecConfig::default();
    assert_eq!(A::from_bytes(&[0, 251, 5, 0], &config), Ok(a("", 5)));
    assert_eq!(A::from_bytes(&[0, 252, 5, 0, 0, 0], &config), Ok(a("", 5)));
    assert_eq!(A::from_bytes(&[0, 253, 5, 0, 0, 0, 0, 0, 0, 0], &config), Ok(a("", 5)));
    assert_eq!(A::from_bytes(&[251, 1, 0, 97, 7], &config), Ok(a("a", 7)));
}

#[test]
fn limit_admits_lengths_up_to_itself() {
    let config = CodecConfig::new(5);
    assert!(config.admits(0));
    assert!(config.admits(5));
    assert!(!config.admits(6));
    assert!(CodecConfig::new(0).admits(0));
    assert!(!CodecConfig::new(0).admits(1));
    assert!(CodecConfig::default().admits(u32::MAX as usize));
}
