use byte_style_encoder::error::ByteStyleError;
use byte_style_encoder::words::{Word, Words};
use byte_style_encoder::{decode_from_byte_style, encode_to_byte_style};

const REFERENCE_WORDS: &str = "多元兼容 始终创业 开放谦逊 开放谦逊 始终创业 多元兼容 开放谦逊 多元兼容 始终创业 多元兼容 务实敢为 开放谦逊 多元兼容 务实敢为 开放谦逊 始终创业 务实敢为 追求极致 始终创业 始终创业 追求极致 开放谦逊 多元兼容 开放谦逊 务实敢为 始终创业 开放谦逊 始终创业 开放谦逊 始终创业 始终创业 开放谦逊 追求极致";

#[test]
fn test_encode() {
    let bytes = "已删除".as_bytes();
    let encoded = Words::parse_from_bits(bytes).to_string();
    assert_eq!(encoded, "多元兼容 始终创业 开放谦逊 开放谦逊 始终创业 多元兼容 开放谦逊 多元兼容 始终创业 多元兼容 务实敢为 开放谦逊 多元兼容 务实敢为 开放谦逊 始终创业 务实敢为 追求极致 始终创业 始终创业 追求极致 开放谦逊 多元兼容 开放谦逊 务实敢为 始终创业 开放谦逊 始终创业 开放谦逊 始终创业 始终创业 开放谦逊 追求极致");
}

#[test]
fn test_decode() {
    println!("{:?}", "已删除".as_bytes());
    let words = "多元兼容 始终创业 开放谦逊 开放谦逊 始终创业 多元兼容 开放谦逊 多元兼容 始终创业 多元兼容 务实敢为 开放谦逊 多元兼容 务实敢为 开放谦逊 始终创业 务实敢为 追求极致 始终创业 始终创业 追求极致 开放谦逊 多元兼容 开放谦逊 务实敢为 始终创业 开放谦逊 始终创业 开放谦逊 始终创业 始终创业 开放谦逊 追求极致";
    let decoded_bytes = Words::parse_from_byte_style(words).unwrap().to_bytes();
    let decoded = String::from_utf8(decoded_bytes).unwrap();
    assert_eq!(decoded, "已删除");
}

#[test]
fn round_trip_ascii() {
    let input = "The quick brown fox jumps over the lazy dog";
    let encoded = encode_to_byte_style(input).unwrap();
    let decoded = decode_from_byte_style(&encoded).unwrap();
    assert_eq!(decoded, input);
}

#[test]
fn round_trip_cjk() {
    let input = "已删除";
    let encoded = encode_to_byte_style(input).unwrap();
    assert_eq!(encoded, REFERENCE_WORDS);
    let decoded = decode_from_byte_style(&encoded).unwrap();
    assert_eq!(decoded, input);
}

#[test]
fn encode_is_deterministic() {
    let input = "determinism check 123";
    assert_eq!(
        encode_to_byte_style(input).unwrap(),
        encode_to_byte_style(input).unwrap()
    );
    let encoded = encode_to_byte_style(input).unwrap();
    assert_eq!(
        decode_from_byte_style(&encoded).unwrap(),
        decode_from_byte_style(&encoded).unwrap()
    );
}

#[test]
fn empty_input() {
    assert_eq!(encode_to_byte_style("").unwrap(), "");
    assert_eq!(decode_from_byte_style("").unwrap(), "");
    assert_eq!(decode_from_byte_style(" \t\r\n  ").unwrap(), "");
}

#[test]
fn whitespace_tolerance() {
    let single = "追求极致 开放谦逊 开放谦逊 始终创业";
    let padded = "  追求极致\t\t开放谦逊 \n 开放谦逊   始终创业\r\n";
    let none = "追求极致开放谦逊开放谦逊始终创业";
    let expected = decode_from_byte_style(single).unwrap();
    assert_eq!(decode_from_byte_style(padded).unwrap(), expected);
    assert_eq!(decode_from_byte_style(none).unwrap(), expected);
}

#[test]
fn unrecognized_token() {
    match decode_from_byte_style("hello") {
        Err(ByteStyleError::Parse(m)) => assert_eq!(m, "hello"),
        other => panic!("expected a parse error, got {:?}", other),
    }
    match decode_from_byte_style("多元兼容 xyz") {
        Err(ByteStyleError::Parse(m)) => assert_eq!(m, "xyz"),
        other => panic!("expected a parse error, got {:?}", other),
    }
    // A truncated code word is unrecognized too.
    assert!(matches!(
        decode_from_byte_style("多元兼"),
        Err(ByteStyleError::Parse(_))
    ));
}

#[test]
fn invalid_utf8_is_a_distinct_error() {
    // The bit-codes 10 000 000 repack to the lone byte 0x80, which is not
    // valid UTF-8.
    assert!(matches!(
        decode_from_byte_style("始终创业 追求极致 追求极致"),
        Err(ByteStyleError::FromUtf8)
    ));
}

#[test]
fn padding_drops_incomplete_byte() {
    // A lone symbol accumulates fewer than eight bits: all are dropped.
    assert_eq!(decode_from_byte_style("追求极致").unwrap(), "");
    assert_eq!(decode_from_byte_style("多元兼容").unwrap(), "");
    let none: Vec<u8> = Words::parse_from_byte_style("追求极致")
        .unwrap()
        .to_bytes();
    assert_eq!(none, Vec::<u8>::new());
}

#[test]
fn trailing_two_zero_bits_use_the_short_rule() {
    // 0x04 spells 000 001 00: the final two bits take the 2-bit rule for the
    // first symbol, whose code replays as three bits; the extra bit is
    // dropped on the way back.
    let encoded = Words::parse_from_bits(&[0x04]).to_string();
    assert_eq!(encoded, "追求极致 务实敢为 追求极致");
    let back = Words::parse_from_byte_style(&encoded).unwrap().to_bytes();
    assert_eq!(back, vec![0x04]);
}

#[test]
fn trailing_single_bit_uses_the_fallback_rule() {
    // 0x0b spells 000 01 01 1: the final lone bit takes the 1-bit fallback.
    let encoded = Words::parse_from_bits(&[0x0b]).to_string();
    assert_eq!(encoded, "追求极致 开放谦逊 开放谦逊 始终创业");
    let back = Words::parse_from_byte_style(&encoded).unwrap().to_bytes();
    assert_eq!(back, vec![0x0b]);
}

#[test]
fn round_trip_all_single_bytes() {
    for b in 0u8..=255 {
        let encoded = Words::parse_from_bits(&[b]).to_string();
        let back = Words::parse_from_byte_style(&encoded).unwrap().to_bytes();
        assert_eq!(back, vec![b], "byte {:#04x}", b);
    }
}

#[test]
fn word_text_forms() {
    assert_eq!(Word::A.to_string(), "追求极致");
    assert_eq!(Word::B.to_string(), "务实敢为");
    assert_eq!(Word::C.to_string(), "开放谦逊");
    assert_eq!(Word::D.to_string(), "始终创业");
    assert_eq!(Word::E.to_string(), "多元兼容");
}

#[test]
fn error_messages() {
    assert_eq!(
        ByteStyleError::FromUtf8.message(),
        "string decode as utf-8 failed"
    );
    assert_eq!(
        ByteStyleError::Parse("abc".to_owned()).message(),
        "parse failed: abc"
    );
}
