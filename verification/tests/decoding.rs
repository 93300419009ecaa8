use bencode::{
    parse_bencode, parse_bencode_dictionary, parse_bencode_dictionary_with, parse_bencode_integer,
    parse_bencode_integer_with, parse_bencode_list, parse_bencode_list_with,
    parse_bencode_string, parse_bencode_with, BDictionary, BInteger, BList, BString,
    BencodeValue, DecodeError, NumeralMode,
};

fn text(content: &[u8]) -> BencodeValue<'_> {
    BencodeValue::String(BString { content })
}

fn number(value: i64) -> BencodeValue<'static> {
    BencodeValue::Integer(BInteger { value })
}

#[test]
fn empty_input_is_an_unexpected_end() {
    assert_eq!(parse_bencode(b""), Err(DecodeError::UnexpectedEnd));
}

#[test]
fn unknown_tag_is_rejected() {
    assert_eq!(parse_bencode(b"x"), Err(DecodeError::InvalidTag));
    assert_eq!(parse_bencode(b"e"), Err(DecodeError::InvalidTag));
    assert_eq!(parse_bencode(b"+3:foo"), Err(DecodeError::InvalidTag));
    assert_eq!(parse_bencode(b"-1e"), Err(DecodeError::InvalidTag));
    assert_eq!(parse_bencode(b" i1e"), Err(DecodeError::InvalidTag));
}

#[test]
fn string_without_separator() {
    assert_eq!(parse_bencode(b"3foo"), Err(DecodeError::MissingSeparator));
    assert_eq!(parse_bencode(b"3"), Err(DecodeError::MissingSeparator));
    assert_eq!(parse_bencode_string(b""), Err(DecodeError::MissingSeparator));
}

#[test]
fn string_with_a_length_that_is_no_numeral() {
    assert_eq!(parse_bencode(b"3x:foo"), Err(DecodeError::InvalidLength));
    assert_eq!(parse_bencode(b"3 :foo"), Err(DecodeError::InvalidLength));
    assert_eq!(parse_bencode_string(b":foo"), Err(DecodeError::InvalidLength));
    assert_eq!(parse_bencode_string(b"x:foo"), Err(DecodeError::InvalidLength));
    assert_eq!(parse_bencode_string(b"-1:foo"), Err(DecodeError::InvalidLength));
    assert_eq!(parse_bencode_string(b"-0:"), Err(DecodeError::InvalidLength));
    assert_eq!(parse_bencode_string(b"+:foo"), Err(DecodeError::InvalidLength));
    assert_eq!(parse_bencode_string(b"+3:foo"), Err(DecodeError::InvalidLength));
    assert_eq!(parse_bencode_string(b"+0:"), Err(DecodeError::InvalidLength));
    assert_eq!(parse_bencode_string(b"3+:foo"), Err(DecodeError::InvalidLength));
    assert_eq!(parse_bencode_string(b"\xff:foo"), Err(DecodeError::InvalidLength));
}

#[test]
fn string_with_a_length_beyond_usize() {
    assert_eq!(
        parse_bencode(b"340282366920938463463374607431768211456:a"),
        Err(DecodeError::InvalidLength)
    );
}

#[test]
fn string_with_the_largest_length_is_truncated() {
    let data = format!("{}:a", usize::MAX);
    assert_eq!(parse_bencode(data.as_bytes()), Err(DecodeError::TruncatedString));
}

#[test]
fn truncated_string() {
    assert_eq!(parse_bencode(b"5:ab"), Err(DecodeError::TruncatedString));
    assert_eq!(parse_bencode(b"1:"), Err(DecodeError::TruncatedString));
}

#[test]
fn empty_string() {
    let (rest, value) = parse_bencode(b"0:").unwrap();
    assert_eq!(value, text(b""));
    assert!(rest.is_empty());
}

#[test]
fn string_leaves_what_follows_it() {
    let (rest, value) = parse_bencode(b"3:foobar").unwrap();
    assert_eq!(value, text(b"foo"));
    assert_eq!(rest, b"bar");
}

#[test]
fn string_holds_any_bytes() {
    let (rest, value) = parse_bencode(b"4:\xff\x00:e").unwrap();
    assert_eq!(value, text(&[0xff, 0x00, b':', b'e']));
    assert!(rest.is_empty());
}

#[test]
fn string_length_may_have_leading_zeros_but_no_sign() {
    let (rest, value) = parse_bencode(b"03:foo").unwrap();
    assert_eq!(value, text(b"foo"));
    assert!(rest.is_empty());

    let (rest, value) = parse_bencode_string(b"003:foo!").unwrap();
    assert_eq!(value, text(b"foo"));
    assert_eq!(rest, b"!");

    assert_eq!(parse_bencode_string(b"+3:foo!"), Err(DecodeError::InvalidLength));
    assert_eq!(parse_bencode_string(b"-3:foo!"), Err(DecodeError::InvalidLength));
}

#[test]
fn string_body_alone() {
    let (rest, value) = parse_bencode_string(b"3:foo").unwrap();
    assert_eq!(value, text(b"foo"));
    assert!(rest.is_empty());
}

#[test]
fn negative_integer_and_zero() {
    assert_eq!(parse_bencode(b"i-3e").unwrap().1, number(-3));
    assert_eq!(parse_bencode(b"i0e").unwrap().1, number(0));
}

#[test]
fn integer_numerals_that_are_not_canonical_are_read() {
    assert_eq!(parse_bencode(b"i03e").unwrap().1, number(3));
    assert_eq!(parse_bencode(b"i-0e").unwrap().1, number(0));
    assert_eq!(parse_bencode(b"i+5e").unwrap().1, number(5));
    assert_eq!(parse_bencode(b"i-007e").unwrap().1, number(-7));
    assert_eq!(
        parse_bencode(b"i000000000000000000000000000000000012e").unwrap().1,
        number(12)
    );
}

#[test]
fn integer_bounds() {
    assert_eq!(
        parse_bencode(b"i9223372036854775807e").unwrap().1,
        number(i64::MAX)
    );
    assert_eq!(
        parse_bencode(b"i-9223372036854775808e").unwrap().1,
        number(i64::MIN)
    );
    assert_eq!(
        parse_bencode(b"i9223372036854775808e"),
        Err(DecodeError::InvalidInteger)
    );
    assert_eq!(
        parse_bencode(b"i-9223372036854775809e"),
        Err(DecodeError::InvalidInteger)
    );
    assert_eq!(
        parse_bencode(b"i18446744073709551616e"),
        Err(DecodeError::InvalidInteger)
    );
    assert_eq!(
        parse_bencode(b"i99999999999999999999999999999999999999999e"),
        Err(DecodeError::InvalidInteger)
    );
}

#[test]
fn integer_without_end() {
    assert_eq!(parse_bencode(b"i56"), Err(DecodeError::InvalidInteger));
    assert_eq!(parse_bencode(b"i"), Err(DecodeError::InvalidInteger));
    assert_eq!(parse_bencode_integer(b""), Err(DecodeError::InvalidInteger));
}

#[test]
fn integer_that_is_no_numeral() {
    assert_eq!(parse_bencode(b"ie"), Err(DecodeError::InvalidInteger));
    assert_eq!(parse_bencode(b"i-e"), Err(DecodeError::InvalidInteger));
    assert_eq!(parse_bencode(b"i+e"), Err(DecodeError::InvalidInteger));
    assert_eq!(parse_bencode(b"i--1e"), Err(DecodeError::InvalidInteger));
    assert_eq!(parse_bencode(b"i+-1e"), Err(DecodeError::InvalidInteger));
    assert_eq!(parse_bencode(b"i1-e"), Err(DecodeError::InvalidInteger));
    assert_eq!(parse_bencode(b"i 1e"), Err(DecodeError::InvalidInteger));
    assert_eq!(parse_bencode(b"i1_0e"), Err(DecodeError::InvalidInteger));
    assert_eq!(parse_bencode(b"i1.5e"), Err(DecodeError::InvalidInteger));
    assert_eq!(parse_bencode(b"i\xffe"), Err(DecodeError::InvalidInteger));
}

#[test]
fn integer_body_alone() {
    let (rest, value) = parse_bencode_integer(b"56e3:foo").unwrap();
    assert_eq!(value, number(56));
    assert_eq!(rest, b"3:foo");
}

#[test]
fn integer_round_trip_of_canonical_numerals() {
    let samples = [
        0,
        1,
        -1,
        9,
        10,
        -10,
        56,
        100,
        -101,
        1234567890,
        -987654321012345678,
        i64::MAX,
        i64::MIN,
    ];
    for n in samples {
        let encoded = format!("i{}e", n);
        let (rest, value) = parse_bencode(encoded.as_bytes()).unwrap();
        assert_eq!(value, number(n));
        assert!(rest.is_empty());
    }
}

#[test]
fn decoding_stops_after_one_element() {
    let (rest, value) = parse_bencode(b"i1ei2e").unwrap();
    assert_eq!(value, number(1));
    assert_eq!(rest, b"i2e");

    let (rest, value) = parse_bencode(b"leee").unwrap();
    assert_eq!(value, BencodeValue::List(BList { items: vec![] }));
    assert_eq!(rest, b"ee");
}

#[test]
fn empty_list_and_empty_dictionary() {
    let (rest, value) = parse_bencode(b"le").unwrap();
    assert_eq!(value, BencodeValue::List(BList { items: vec![] }));
    assert!(rest.is_empty());

    let (rest, value) = parse_bencode(b"de").unwrap();
    assert_eq!(value, BencodeValue::Dictionary(BDictionary::new()));
    assert!(rest.is_empty());
}

#[test]
fn nested_lists_keep_their_order() {
    let (rest, value) = parse_bencode(b"lli1ei2eeleli3eee").unwrap();
    assert!(rest.is_empty());
    assert_eq!(
        value,
        BencodeValue::List(BList {
            items: vec![
                BencodeValue::List(BList {
                    items: vec![number(1), number(2)]
                }),
                BencodeValue::List(BList { items: vec![] }),
                BencodeValue::List(BList {
                    items: vec![number(3)]
                }),
            ]
        })
    );
}

#[test]
fn unterminated_list() {
    assert_eq!(parse_bencode(b"l"), Err(DecodeError::UnterminatedList));
    assert_eq!(parse_bencode(b"l3:foo"), Err(DecodeError::UnterminatedList));
    assert_eq!(parse_bencode(b"lli1ee"), Err(DecodeError::UnterminatedList));
    assert_eq!(parse_bencode_list(b""), Err(DecodeError::UnterminatedList));
}

#[test]
fn failure_of_an_element_is_the_failure_of_the_list() {
    assert_eq!(parse_bencode(b"l3:fo"), Err(DecodeError::TruncatedString));
    assert_eq!(parse_bencode(b"lxe"), Err(DecodeError::InvalidTag));
    assert_eq!(parse_bencode(b"li1eiee"), Err(DecodeError::InvalidInteger));
    assert_eq!(parse_bencode(b"ld"), Err(DecodeError::UnterminatedDictionary));
}

#[test]
fn list_body_alone() {
    let (rest, value) = parse_bencode_list(b"3:fooei7e").unwrap();
    assert_eq!(
        value,
        BencodeValue::List(BList {
            items: vec![text(b"foo")]
        })
    );
    assert_eq!(rest, b"i7e");
}

#[test]
fn unterminated_dictionary() {
    assert_eq!(parse_bencode(b"d"), Err(DecodeError::UnterminatedDictionary));
    assert_eq!(
        parse_bencode(b"d1:a3:foo"),
        Err(DecodeError::UnterminatedDictionary)
    );
    assert_eq!(
        parse_bencode_dictionary(b""),
        Err(DecodeError::UnterminatedDictionary)
    );
}

#[test]
fn dictionary_key_without_a_value() {
    assert_eq!(parse_bencode(b"d1:a"), Err(DecodeError::UnterminatedDictionary));
    assert_eq!(parse_bencode(b"d1:a1:b1:c"), Err(DecodeError::UnterminatedDictionary));
    assert_eq!(parse_bencode(b"d1:ae"), Err(DecodeError::InvalidTag));
}

#[test]
fn dictionary_key_that_is_no_byte_string() {
    assert_eq!(parse_bencode(b"di1e3:fooe"), Err(DecodeError::InvalidLength));
    assert_eq!(parse_bencode(b"dle3:fooe"), Err(DecodeError::InvalidLength));
    assert_eq!(parse_bencode(b"di1ee"), Err(DecodeError::MissingSeparator));
    assert_eq!(parse_bencode(b"dxe"), Err(DecodeError::MissingSeparator));
    assert_eq!(parse_bencode(b"d5:ab"), Err(DecodeError::TruncatedString));
}

#[test]
fn failure_of_a_value_is_the_failure_of_the_dictionary() {
    assert_eq!(parse_bencode(b"d1:aiee"), Err(DecodeError::InvalidInteger));
    assert_eq!(parse_bencode(b"d1:al"), Err(DecodeError::UnterminatedList));
    assert_eq!(parse_bencode(b"d1:a2:b"), Err(DecodeError::TruncatedString));
}

#[test]
fn dictionary_key_that_comes_again_is_bound_anew() {
    let (rest, value) = parse_bencode(b"d1:a3:foo1:b1:x1:a3:bare").unwrap();
    assert!(rest.is_empty());

    let mut dict = BDictionary::new();
    dict.insert(BString { content: b"a" }, text(b"bar"));
    dict.insert(BString { content: b"b" }, text(b"x"));
    assert_eq!(value, BencodeValue::Dictionary(dict));
}

#[test]
fn dictionary_keys_in_any_order_give_the_same_dictionary() {
    let (_, sorted) = parse_bencode(b"d1:ai1e2:abi2e1:bi3ee").unwrap();
    let (_, unsorted) = parse_bencode(b"d1:bi3e1:ai1e2:abi2ee").unwrap();
    assert_eq!(sorted, unsorted);

    let (_, other) = parse_bencode(b"d1:bi3e1:ai1e2:abi4ee").unwrap();
    assert_ne!(sorted, other);
}

#[test]
fn dictionary_key_length_with_a_sign_is_refused() {
    assert_eq!(parse_bencode(b"d+1:a1:be"), Err(DecodeError::InvalidLength));
    assert_eq!(parse_bencode_dictionary(b"+1:a1:be"), Err(DecodeError::InvalidLength));
    assert_eq!(parse_bencode(b"d1:a1:b+1:c1:de"), Err(DecodeError::InvalidLength));
    assert_eq!(parse_bencode(b"d-1:a1:be"), Err(DecodeError::InvalidLength));
    assert_eq!(
        parse_bencode_with(b"d+1:a1:be", NumeralMode::Strict),
        Err(DecodeError::InvalidLength)
    );

    let (rest, value) = parse_bencode(b"d01:a1:be").unwrap();
    assert!(rest.is_empty());
    let mut dict = BDictionary::new();
    dict.insert(BString { content: b"a" }, text(b"b"));
    assert_eq!(value, BencodeValue::Dictionary(dict));
}

#[test]
fn strict_mode_reads_canonical_integers() {
    let strict = NumeralMode::Strict;
    assert_eq!(parse_bencode_with(b"i0e", strict).unwrap().1, number(0));
    assert_eq!(parse_bencode_with(b"i-3e", strict).unwrap().1, number(-3));
    assert_eq!(parse_bencode_with(b"i56e", strict).unwrap().1, number(56));
    assert_eq!(parse_bencode_with(b"i100e", strict).unwrap().1, number(100));
    assert_eq!(
        parse_bencode_with(b"i9223372036854775807e", strict).unwrap().1,
        number(i64::MAX)
    );
    assert_eq!(
        parse_bencode_with(b"i-9223372036854775808e", strict).unwrap().1,
        number(i64::MIN)
    );
    let (rest, value) = parse_bencode_integer_with(b"-10e!", strict).unwrap();
    assert_eq!(value, number(-10));
    assert_eq!(rest, b"!");
}

#[test]
fn strict_mode_refuses_integers_that_are_not_canonical() {
    let strict = NumeralMode::Strict;
    let refused: [&[u8]; 10] = [
        b"i03e",
        b"i-0e",
        b"i+5e",
        b"i+0e",
        b"i00e",
        b"i-007e",
        b"i-e",
        b"ie",
        b"i9223372036854775808e",
        b"i1",
    ];
    for data in refused {
        assert_eq!(
            parse_bencode_with(data, strict),
            Err(DecodeError::InvalidInteger)
        );
        assert_eq!(
            parse_bencode_integer_with(&data[1..], strict),
            Err(DecodeError::InvalidInteger)
        );
    }
}

#[test]
fn lenient_mode_is_the_mode_of_the_plain_functions() {
    let inputs: [&[u8]; 9] = [
        b"i03e",
        b"i-0e",
        b"i+5e",
        b"i7e",
        b"li03ee",
        b"d1:ai-0ee",
        b"d3:foo3:bar4:listl6:angela5:jamesee",
        b"ie",
        b"",
    ];
    for data in inputs {
        assert_eq!(parse_bencode_with(data, NumeralMode::Lenient), parse_bencode(data));
        assert_eq!(
            parse_bencode_integer_with(data, NumeralMode::Lenient),
            parse_bencode_integer(data)
        );
        assert_eq!(
            parse_bencode_list_with(data, NumeralMode::Lenient),
            parse_bencode_list(data)
        );
        assert_eq!(
            parse_bencode_dictionary_with(data, NumeralMode::Lenient),
            parse_bencode_dictionary(data)
        );
    }
}

#[test]
fn strict_mode_reaches_the_integers_inside_lists_and_dictionaries() {
    let strict = NumeralMode::Strict;
    assert_eq!(
        parse_bencode_with(b"li1ei02ee", strict),
        Err(DecodeError::InvalidInteger)
    );
    assert_eq!(
        parse_bencode_with(b"d1:ali-0eee", strict),
        Err(DecodeError::InvalidInteger)
    );
    assert_eq!(
        parse_bencode_list_with(b"i+1ee", strict),
        Err(DecodeError::InvalidInteger)
    );
    assert_eq!(
        parse_bencode_dictionary_with(b"1:ai01ee", strict),
        Err(DecodeError::InvalidInteger)
    );
    assert_eq!(parse_bencode(b"li1ei02ee").unwrap().1, parse_bencode(b"li1ei2ee").unwrap().1);
}

#[test]
fn what_is_read_strictly_is_read_leniently_to_the_same() {
    let inputs: [&[u8]; 8] = [
        b"i0e",
        b"i-42e!",
        b"4:spam",
        b"03:foo",
        b"le",
        b"li1e3:fooli-2eee",
        b"d1:ai1e1:bd1:cleee tail",
        b"d3:foo3:bar4:listl6:angela5:jamesee",
    ];
    for data in inputs {
        let strict = parse_bencode_with(data, NumeralMode::Strict);
        assert!(strict.is_ok());
        assert_eq!(strict, parse_bencode(data));
    }
}

#[test]
fn nested_dictionary() {
    let (rest, value) = parse_bencode(b"d1:ad1:bleee!").unwrap();
    assert_eq!(rest, b"!");

    let mut inner = BDictionary::new();
    inner.insert(
        BString { content: b"b" },
        BencodeValue::List(BList { items: vec![] }),
    );
    let mut outer = BDictionary::new();
    outer.insert(BString { content: b"a" }, BencodeValue::Dictionary(inner));
    assert_eq!(value, BencodeValue::Dictionary(outer));
}

#[test]
fn dictionary_body_alone() {
    let (rest, value) = parse_bencode_dictionary(b"1:a3:fooe").unwrap();
    assert!(rest.is_empty());

    let mut dict = BDictionary::new();
    dict.insert(BString { content: b"a" }, text(b"foo"));
    assert_eq!(value, BencodeValue::Dictionary(dict));
}

#[test]
fn decoding_twice_gives_equal_trees() {
    let inputs: [&[u8]; 6] = [
        b"d3:foo3:bar4:listl6:angela5:jamesee",
        b"li1ei2ee tail",
        b"i-42e",
        b"4:spam",
        b"d1:a",
        b"",
    ];
    assert_eq!(parse_bencode(inputs[4]), Err(DecodeError::UnterminatedDictionary));
    for data in inputs {
        let copy = data.to_vec();
        assert_eq!(parse_bencode(data), parse_bencode(data));
        assert_eq!(parse_bencode(data), parse_bencode(&copy));
    }
}

#[test]
fn deep_nesting_is_decoded() {
    let depth = 200;
    let mut data = vec![b'l'; depth];
    data.extend(vec![b'e'; depth]);
    let (rest, mut value) = parse_bencode(&data).unwrap();
    assert!(rest.is_empty());
    for _ in 1..depth {
        value = match value {
            BencodeValue::List(BList { mut items }) => {
                assert_eq!(items.len(), 1);
                items.pop().unwrap()
            }
            other => panic!("not a list: {:?}", other),
        };
    }
    assert_eq!(value, BencodeValue::List(BList { items: vec![] }));
}

#[test]
fn messages_of_decoding_failures() {
    assert_eq!(DecodeError::UnexpectedEnd.message(), "Unexpected end of input");
    assert_eq!(DecodeError::InvalidTag.message(), "Invalid bencode data format");
    assert_eq!(DecodeError::MissingSeparator.message(), "Invalid BString format");
    assert_eq!(DecodeError::InvalidLength.message(), "Failed to parse len");
    assert_eq!(DecodeError::TruncatedString.message(), "Missing some String bytes");
    assert_eq!(DecodeError::InvalidInteger.message(), "Failed to parse num");
    assert_eq!(DecodeError::UnterminatedList.message(), "Unterminated list");
    assert_eq!(
        DecodeError::UnterminatedDictionary.message(),
        "Unterminated Dictionary"
    );
}

#[test]
fn element_is_decoded_from_its_own_bytes() {
    let elements: [&[u8]; 7] = [
        b"i-42e",
        b"0:",
        b"4:spam",
        b"le",
        b"l4:spami7ee",
        b"de",
        b"d3:foo3:bar4:listl6:angela5:jamesee",
    ];
    let tails: [&[u8]; 4] = [b"", b"e", b"i1e", b"\xff tail"];
    for element in elements {
        let (rest, alone) = parse_bencode(element).unwrap();
        assert!(rest.is_empty());
        for tail in tails {
            let mut data = element.to_vec();
            data.extend_from_slice(tail);
            let (rest, value) = parse_bencode(&data).unwrap();
            assert_eq!(value, alone);
            assert_eq!(rest, tail);
        }
        for shorter in 0..element.len() {
            assert!(parse_bencode(&element[..shorter]).is_err());
        }
    }
}
