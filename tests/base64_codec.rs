use rcli::decode;
use rcli::encode;
use rcli::parse_base64_format;
use rcli::Base64DecodeOpts;
use rcli::Base64EncodeOpts;
use rcli::Base64Format;
use rcli::Base64SubCommand;
use rcli::ConvertError;

fn enc(data: &[u8], f: Base64Format) -> String {
    String::from_utf8(encode(data, f)).unwrap()
}

#[test]
fn encode_six_bytes_standard() {
    assert_eq!(enc(&[0, 1, 2, 3, 4, 5], Base64Format::Standard), "AAECAwQF");
}

#[test]
fn decode_six_bytes_standard() {
    assert_eq!(decode(b"AAECAwQF", Base64Format::Standard), Ok(vec![0, 1, 2, 3, 4, 5]));
}

#[test]
fn decode_not_base64_fails() {
    assert_eq!(decode(b"not base64!!", Base64Format::Standard), Err(ConvertError::Decode));
}

#[test]
fn encode_padding_standard() {
    assert_eq!(enc(b"", Base64Format::Standard), "");
    assert_eq!(enc(b"f", Base64Format::Standard), "Zg==");
    assert_eq!(enc(b"fo", Base64Format::Standard), "Zm8=");
    assert_eq!(enc(b"foo", Base64Format::Standard), "Zm9v");
    assert_eq!(enc(b"foobar", Base64Format::Standard), "Zm9vYmFy");
    assert_eq!(enc(b"hello world", Base64Format::Standard), "aGVsbG8gd29ybGQ=");
}

#[test]
fn encode_url_safe_has_no_padding() {
    assert_eq!(enc(b"f", Base64Format::UrlSafe), "Zg");
    assert_eq!(enc(b"fo", Base64Format::UrlSafe), "Zm8");
    assert_eq!(enc(b"foo", Base64Format::UrlSafe), "Zm9v");
}

#[test]
fn alphabets_differ_in_two_symbols() {
    let data = [0xfbu8, 0xff, 0xbf];
    assert_eq!(enc(&data, Base64Format::Standard), "+/+/");
    assert_eq!(enc(&data, Base64Format::UrlSafe), "-_-_");
}

#[test]
fn alphabet_isolation_on_all_bytes() {
    let data: Vec<u8> = (0..=255u8).collect();
    let s = enc(&data, Base64Format::Standard);
    assert!(!s.contains('-') && !s.contains('_'));
    let u = enc(&data, Base64Format::UrlSafe);
    assert!(!u.contains('+') && !u.contains('/') && !u.contains('='));
}

#[test]
fn round_trip_many_lengths() {
    for f in [Base64Format::Standard, Base64Format::UrlSafe] {
        for n in 0..40usize {
            let data: Vec<u8> = (0..n).map(|i| (i * 37 + 11) as u8).collect();
            let t = encode(&data, f);
            assert_eq!(decode(&t, f), Ok(data));
        }
    }
}

#[test]
fn decode_rejects_foreign_characters() {
    assert_eq!(decode(b"Zm9-", Base64Format::Standard), Err(ConvertError::Decode));
    assert_eq!(decode(b"Zm9+", Base64Format::UrlSafe), Err(ConvertError::Decode));
    assert_eq!(decode(b"Zm9v\n", Base64Format::Standard), Err(ConvertError::Decode));
    assert_eq!(decode(b"Zg==", Base64Format::UrlSafe), Err(ConvertError::Decode));
}

#[test]
fn decode_rejects_bad_length_and_padding() {
    assert_eq!(decode(b"Zm9", Base64Format::Standard), Err(ConvertError::Decode));
    assert_eq!(decode(b"Z", Base64Format::UrlSafe), Err(ConvertError::Decode));
    assert_eq!(decode(b"Zh==", Base64Format::Standard), Err(ConvertError::Decode));
    assert_eq!(decode(b"Zg==Zg==", Base64Format::Standard), Err(ConvertError::Decode));
    assert_eq!(decode(b"Zm8", Base64Format::UrlSafe), Ok(b"fo".to_vec()));
}

#[test]
fn parse_base64_tokens() {
    assert_eq!(parse_base64_format("standard"), Ok(Base64Format::Standard));
    assert_eq!(parse_base64_format("urlsafe"), Ok(Base64Format::UrlSafe));
    assert_eq!(parse_base64_format("Standard"), Err(ConvertError::InvalidFormat));
    assert_eq!(parse_base64_format(""), Err(ConvertError::InvalidFormat));
    assert_eq!(Base64Format::Standard.as_str(), "standard");
    assert_eq!(Base64Format::UrlSafe.as_str(), "urlsafe");
}

#[test]
fn subcommand_dispatch() {
    let e = Base64SubCommand::Encode(Base64EncodeOpts {
        input: "-".to_string(),
        format: Base64Format::Standard,
    });
    assert_eq!(e.run(b"hi"), Ok(b"aGk=".to_vec()));
    assert_eq!(e.input(), "-");
    let d = Base64SubCommand::Decode(Base64DecodeOpts {
        input: "in.txt".to_string(),
        format: Base64Format::UrlSafe,
    });
    assert_eq!(d.run(b"aGk"), Ok(b"hi".to_vec()));
    assert_eq!(d.run(b"aGk="), Err(ConvertError::Decode));
    assert_eq!(d.input(), "in.txt");
}

#[test]
fn format_tokens_parse_through_from_str() {
    assert_eq!("urlsafe".parse::<Base64Format>(), Ok(Base64Format::UrlSafe));
    assert_eq!("base64url".parse::<Base64Format>(), Err(ConvertError::InvalidFormat));
    assert_eq!("yaml".parse::<rcli::OutputFormat>(), Ok(rcli::OutputFormat::Yaml));
    assert_eq!("YAML".parse::<rcli::OutputFormat>(), Err(ConvertError::InvalidFormat));
}

#[test]
fn decode_accepts_only_canonical_trailing_bits() {
    assert_eq!(decode(b"Zg==", Base64Format::Standard), Ok(b"f".to_vec()));
    assert_eq!(decode(b"Zm9=", Base64Format::Standard), Err(ConvertError::Decode));
    assert_eq!(decode(b"Zm8=", Base64Format::Standard), Ok(b"fo".to_vec()));
    assert_eq!(decode(b"", Base64Format::Standard), Ok(vec![]));
    assert_eq!(decode(b"", Base64Format::UrlSafe), Ok(vec![]));
}
