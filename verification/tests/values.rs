use fastnode::error::Error;
use fastnode::index::path::{escape, field_valid, is_wildcard};
use fastnode::index::value::{
    hex, is_sortable, number_key, number_token, token, token_sort_bytes, unhex,
};
use fastnode::json::{Json, Number};
use fastnode::text::{decimal, join_segment, less_bytes, not_blank, signed_decimal};

fn num(s: &str) -> Number {
    Number { literal: s.to_string() }
}

fn key(s: &str) -> Vec<u8> {
    number_key(&num(s)).unwrap()
}

#[test]
fn hex_writes_two_lowercase_digits_per_byte() {
    assert_eq!(hex(&[0x00, 0xab, 0x1f, 0xff]), "00ab1fff");
    assert_eq!(hex(&[]), "");
}

#[test]
fn unhex_reads_what_hex_wrote() {
    let bytes: Vec<u8> = vec![0, 1, 0x7f, 0x80, 0xfe, 0xff];
    assert_eq!(unhex(&hex(&bytes)), Ok(bytes));
    assert_eq!(unhex("ABcd"), Ok(vec![0xab, 0xcd]));
    assert_eq!(unhex(""), Ok(vec![]));
}

#[test]
fn unhex_errors() {
    assert_eq!(unhex("abc"), Err(Error::OddHexLength));
    assert_eq!(unhex("zz"), Err(Error::InvalidHex));
    assert_eq!(unhex("0g"), Err(Error::InvalidHex));
    // a leading plus sign is read as by u8::from_str_radix
    assert_eq!(unhex("+a"), Ok(vec![10]));
}

#[test]
fn number_key_of_one() {
    assert_eq!(key("1"), vec![2, 0x80, 0, 0, 0, 0, 0, 0, 1, 0x31, 0]);
}

#[test]
fn equal_numbers_written_differently_share_a_key() {
    let one = key("1");
    assert_eq!(key("1.0"), one);
    assert_eq!(key("1e0"), one);
    assert_eq!(key("10e-1"), one);
    assert_eq!(key("0.1E1"), one);
    assert_eq!(key("1.000"), one);
}

#[test]
fn zero_has_one_key() {
    assert_eq!(key("0"), vec![1]);
    assert_eq!(key("0.000"), vec![1]);
    assert_eq!(key("-0"), vec![1]);
    assert_eq!(key("0e99"), vec![1]);
}

#[test]
fn negative_keys_are_complemented() {
    assert_eq!(
        key("-1"),
        vec![0, 0x7f, 0xff, 0xff, 0xff, 0xff, 0xff, 0xff, 0xfe, 0xce, 0xff]
    );
}

#[test]
fn fraction_key_has_magnitude_zero() {
    assert_eq!(key("0.5"), vec![2, 0x80, 0, 0, 0, 0, 0, 0, 0, 0x35, 0]);
}

#[test]
fn number_keys_sort_by_value() {
    let ordered = [
        "-1e30", "-100", "-2.5", "-1", "-0.001", "0", "0.001", "0.5", "1", "2", "9.99", "10",
        "18446744073709551615", "18446744073709551616", "1e300",
    ];
    for w in ordered.windows(2) {
        let (a, b) = (key(w[0]), key(w[1]));
        assert!(a < b, "{} should sort before {}", w[0], w[1]);
        assert!(less_bytes(&a, &b));
        assert!(!less_bytes(&b, &a));
    }
}

#[test]
fn big_integers_keep_full_precision() {
    assert_ne!(key("9007199254740993"), key("9007199254740992"));
    assert!(key("9007199254740992") < key("9007199254740993"));
}

#[test]
fn exponent_out_of_range() {
    assert_eq!(
        number_key(&num("1e9223372036854775807")),
        Err(Error::ExponentOutOfRange)
    );
    assert_eq!(
        number_key(&num("1e99999999999999999999")),
        Err(Error::ExponentOutOfRange)
    );
    assert!(number_key(&num("1e9223372036854775806")).is_ok());
}

#[test]
fn number_token_prefixes_the_hex_key() {
    assert_eq!(number_token(&[1]), "n:01");
    assert_eq!(number_token(&key("1")), "n:0280000000000000013100");
}

#[test]
fn scalar_tokens() {
    assert_eq!(token(&Json::Null), Ok(("z:".to_string(), None)));
    assert_eq!(token(&Json::Bool(true)), Ok(("b:1".to_string(), None)));
    assert_eq!(token(&Json::Bool(false)), Ok(("b:0".to_string(), None)));
    assert_eq!(
        token(&Json::Str("Paris".to_string())),
        Ok(("s:Paris".to_string(), None))
    );
    assert_eq!(
        token(&Json::Number(num("0"))),
        Ok(("n:01".to_string(), Some(vec![1])))
    );
}

#[test]
fn arrays_and_objects_have_no_token() {
    assert_eq!(token(&Json::Array(vec![])), Err(Error::NotScalar));
    assert_eq!(token(&Json::Object(vec![])), Err(Error::NotScalar));
}

#[test]
fn sortable_tokens() {
    assert!(is_sortable("n:01"));
    assert!(is_sortable("s:abc"));
    assert!(!is_sortable("b:1"));
    assert!(!is_sortable("z:"));
    assert_eq!(token_sort_bytes("n:0102"), Ok(vec![1, 2]));
    assert_eq!(token_sort_bytes("s:é"), Ok("é".as_bytes().to_vec()));
    assert_eq!(token_sort_bytes("b:1"), Err(Error::NotSortable));
    assert_eq!(token_sort_bytes("n:0"), Err(Error::OddHexLength));
}

#[test]
fn fields_are_type_or_pointers() {
    assert_eq!(field_valid("@type"), Ok(()));
    assert_eq!(field_valid(""), Ok(()));
    assert_eq!(field_valid("/city"), Ok(()));
    assert_eq!(field_valid("/jobs/*/company"), Ok(()));
    assert_eq!(field_valid("/a~0b/c~1d"), Ok(()));
    assert_eq!(field_valid("/~2"), Ok(()));
    assert_eq!(field_valid("city"), Err(Error::FieldNotPointer));
    assert_eq!(field_valid("/a~3"), Err(Error::FieldBadEscape));
    assert_eq!(field_valid("/a~"), Err(Error::FieldBadEscape));
    assert_eq!(field_valid("/a~2"), Err(Error::FieldTildeTwoNotWhole));
}

#[test]
fn wildcard_segments() {
    assert!(is_wildcard("/jobs/*/company"));
    assert!(is_wildcard("/*"));
    assert!(!is_wildcard("/jobs/a*/company"));
    assert!(!is_wildcard("/~2"));
    assert!(!is_wildcard("@type"));
}

#[test]
fn escape_keys_into_segments() {
    assert_eq!(escape("*"), "~2");
    assert_eq!(escape("a/b"), "a~1b");
    assert_eq!(escape("a~b"), "a~0b");
    assert_eq!(escape("~/"), "~0~1");
    assert_eq!(escape("**"), "**");
}

#[test]
fn text_helpers() {
    assert_eq!(decimal(0), "0");
    assert_eq!(decimal(18446744073709551615), "18446744073709551615");
    assert_eq!(signed_decimal(-42), "-42");
    assert_eq!(signed_decimal(i64::MIN), "-9223372036854775808");
    assert_eq!(join_segment("/a", "b"), "/a/b");
    assert!(not_blank(" x "));
    assert!(!not_blank(" \t\n"));
}

#[test]
fn the_first_escape_fault_is_reported() {
    assert_eq!(field_valid("/a~3/~2x"), Err(Error::FieldBadEscape));
    assert_eq!(field_valid("/~2x/a~3"), Err(Error::FieldTildeTwoNotWhole));
    assert_eq!(field_valid("x~3"), Err(Error::FieldNotPointer));
}

#[test]
fn number_tokens_sort_as_their_keys() {
    let values = ["-1000", "-2.5", "-0.001", "0", "0.001", "2", "10", "1e3", "9007199254740993"];
    for a in values.iter() {
        for b in values.iter() {
            let (ka, kb) = (key(a), key(b));
            assert_eq!(number_token(&ka) < number_token(&kb), ka < kb);
            assert_eq!(number_token(&ka) == number_token(&kb), ka == kb);
        }
    }
    assert!(number_token(&key("2")) < number_token(&key("10")));
}

#[test]
fn escaped_keys_are_plain_segments() {
    let keys = ["*", "a/b~c", "~2", "/", "~", "**", "", "x*"];
    for k in keys.iter() {
        let e = escape(k);
        assert!(!e.contains('/'));
        let f = format!("/{}", e);
        assert_eq!(field_valid(&f), Ok(()));
        assert!(!is_wildcard(&f));
        for k2 in keys.iter() {
            if k != k2 {
                assert_ne!(escape(k), escape(k2));
            }
        }
    }
    assert_eq!(escape("a/b~c"), "a~1b~0c");
}
