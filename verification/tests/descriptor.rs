use formatf::high::{
    parse_number, ConvFlags, ConvKind, LenModifier, NumeralError, ParseError,
    ParsedConversionSpecification,
};
use formatf::parser::{
    is_conversion_specifier, is_flag, is_length_modifier, next_token, scan_specification,
    skip_run, ByteClass, Token,
};
use formatf::visit::ConversionSpecification;

fn spec<'a>(
    flags: &'a [u8],
    field_width: &'a [u8],
    precision: &'a [u8],
    length: &'a [u8],
    specifier: &'a [u8],
) -> ConversionSpecification<'a> {
    ConversionSpecification { flags, field_width, precision, length, specifier }
}

#[test]
fn full_specification_parses() {
    let parsed =
        ParsedConversionSpecification::try_parse(spec(b"-0", b"12", b".7", b"ll", b"d")).unwrap();
    assert_eq!(parsed.conv_kind, ConvKind::SignDecInt);
    assert_eq!(parsed.len_modifier, LenModifier::Longer);
    assert_eq!(parsed.min_width, 12);
    assert_eq!(parsed.prec, Some(7));
    assert!(parsed.flags.adj_left && parsed.flags.pad_zero);
    assert!(!parsed.flags.alt && !parsed.flags.pos_space && !parsed.flags.force_sign);
    assert!(parsed.is_supported());
}

#[test]
fn empty_fields_have_defaults() {
    let parsed = ParsedConversionSpecification::try_parse(spec(b"", b"", b"", b"", b"s")).unwrap();
    assert_eq!(parsed.conv_kind, ConvKind::String);
    assert_eq!(parsed.len_modifier, LenModifier::Absent);
    assert_eq!(parsed.min_width, 0);
    assert_eq!(parsed.prec, None);
    assert_eq!(parsed.flags, ConvFlags::default());
}

#[test]
fn dot_alone_is_precision_zero() {
    let parsed = ParsedConversionSpecification::try_parse(spec(b"", b"", b".", b"", b"s")).unwrap();
    assert_eq!(parsed.prec, Some(0));
}

#[test]
fn specifier_decides_first() {
    let r = ParsedConversionSpecification::try_parse(spec(b"aa", b"x", b"y", b"??", b""));
    assert_eq!(r.unwrap_err(), ParseError::MissingSpecifier);
    let r = ParsedConversionSpecification::try_parse(spec(b"aa", b"x", b"y", b"??", b"f"));
    assert_eq!(r.unwrap_err(), ParseError::UnknownSpecifier);
    let r = ParsedConversionSpecification::try_parse(spec(b"a", b"x", b"y", b"??", b"d"));
    assert_eq!(r.unwrap_err(), ParseError::UnknownFlag(b'a'));
    let r = ParsedConversionSpecification::try_parse(spec(b"", b"x", b"y", b"??", b"d"));
    assert_eq!(r.unwrap_err(), ParseError::UnknownLenModifier);
    let r = ParsedConversionSpecification::try_parse(spec(b"", b"x", b"y", b"", b"d"));
    assert_eq!(r.unwrap_err(), ParseError::InvalidWidth(Some(NumeralError::InvalidDigit)));
    let r = ParsedConversionSpecification::try_parse(spec(b"", b"1", b"y", b"", b"d"));
    assert_eq!(r.unwrap_err(), ParseError::InvalidPrec(None));
    let r = ParsedConversionSpecification::try_parse(spec(b"", b"1", b".y", b"", b"d"));
    assert_eq!(r.unwrap_err(), ParseError::InvalidPrec(Some(NumeralError::InvalidDigit)));
}

#[test]
fn flags_are_set_one_by_one() {
    let all = ConvFlags::from_bytes(b"#0- +'I").unwrap();
    assert!(all.alt && all.pad_zero && all.adj_left && all.pos_space);
    assert!(all.force_sign && all.comma_groups && all.alt_digits);
    assert!(!all.is_supported());
    let one = ConvFlags::from_bytes(b"+").unwrap();
    assert!(one.force_sign && !one.alt && !one.pad_zero && one.is_supported());
    assert_eq!(ConvFlags::from_bytes(b"").unwrap(), ConvFlags::default());
    assert!(!ConvFlags::from_bytes(b"'").unwrap().is_supported());
    assert!(!ConvFlags::from_bytes(b"I").unwrap().is_supported());
}

#[test]
fn first_bad_flag_decides() {
    assert_eq!(ConvFlags::from_bytes(b"--").unwrap_err(), ParseError::DuplicateFlag(b'-'));
    assert_eq!(ConvFlags::from_bytes(b"-x-").unwrap_err(), ParseError::UnknownFlag(b'x'));
    assert_eq!(ConvFlags::from_bytes(b"-+-x").unwrap_err(), ParseError::DuplicateFlag(b'-'));
    assert_eq!(ConvFlags::from_bytes(b"1").unwrap_err(), ParseError::UnknownFlag(b'1'));
}

#[test]
fn length_modifiers_are_recognised() {
    assert_eq!(LenModifier::from_bytes(b"").unwrap(), LenModifier::Absent);
    assert_eq!(LenModifier::from_bytes(b"l").unwrap(), LenModifier::Long);
    assert_eq!(LenModifier::from_bytes(b"ll").unwrap(), LenModifier::Longer);
    assert_eq!(LenModifier::from_bytes(b"j").unwrap(), LenModifier::Longest);
    assert_eq!(LenModifier::from_bytes(b"h").unwrap(), LenModifier::Short);
    assert_eq!(LenModifier::from_bytes(b"hh").unwrap(), LenModifier::Shorter);
    assert_eq!(LenModifier::from_bytes(b"L").unwrap(), LenModifier::LongDouble);
    assert_eq!(LenModifier::from_bytes(b"z").unwrap(), LenModifier::Size);
    assert_eq!(LenModifier::from_bytes(b"Z").unwrap(), LenModifier::Size);
    assert_eq!(LenModifier::from_bytes(b"t").unwrap(), LenModifier::PtrDiff);
    assert_eq!(LenModifier::from_bytes(b"q").unwrap_err(), ParseError::UnknownLenModifier);
    assert_eq!(LenModifier::from_bytes(b"lh").unwrap_err(), ParseError::UnknownLenModifier);
    assert_eq!(LenModifier::from_bytes(b"lll").unwrap_err(), ParseError::UnknownLenModifier);
}

#[test]
fn kinds_are_recognised() {
    assert_eq!(ConvKind::from_bytes(b"d"), Some(ConvKind::SignDecInt));
    assert_eq!(ConvKind::from_bytes(b"i"), Some(ConvKind::SignDecInt));
    assert_eq!(ConvKind::from_bytes(b"s"), Some(ConvKind::String));
    assert_eq!(ConvKind::from_bytes(b""), None);
    assert_eq!(ConvKind::from_bytes(b"u"), None);
    assert_eq!(ConvKind::from_bytes(b"ds"), None);
}

#[test]
fn numerals_are_read() {
    assert_eq!(parse_number(b"0"), Ok(0));
    assert_eq!(parse_number(b"007"), Ok(7));
    assert_eq!(parse_number(b"1234"), Ok(1234));
    assert_eq!(parse_number(b"+15"), Ok(15));
    assert_eq!(parse_number(usize::MAX.to_string().as_bytes()), Ok(usize::MAX));
    assert_eq!(parse_number(b""), Err(NumeralError::Empty));
    assert_eq!(parse_number(b"+"), Err(NumeralError::InvalidDigit));
    assert_eq!(parse_number(b"-1"), Err(NumeralError::InvalidDigit));
    assert_eq!(parse_number(b"12a"), Err(NumeralError::InvalidDigit));
    assert_eq!(parse_number(b"1 2"), Err(NumeralError::InvalidDigit));
    let mut big = usize::MAX.to_string().into_bytes();
    let last = big.len() - 1;
    big[last] += 1;
    assert_eq!(parse_number(&big), Err(NumeralError::PosOverflow));
    assert_eq!(parse_number(b"99999999999999999999999999999"), Err(NumeralError::PosOverflow));
}

#[test]
fn byte_classes_follow_printf() {
    for &c in b"#0+- 'I".iter() {
        assert!(is_flag(c));
    }
    assert!(!is_flag(b'1') && !is_flag(b'd') && !is_flag(0));
    for &c in b"diouxXeEfFgGaAcsCSpnm".iter() {
        assert!(is_conversion_specifier(c));
    }
    assert!(!is_conversion_specifier(b'h') && !is_conversion_specifier(b'%'));
    assert!(!is_conversion_specifier(0));
    for &c in b"hlqLjzZt".iter() {
        assert!(is_length_modifier(c));
    }
    assert!(!is_length_modifier(b'd') && !is_length_modifier(b'H'));
    assert!(ByteClass::Literal.admits(b'a') && !ByteClass::Literal.admits(b'%'));
    assert!(ByteClass::Precision.admits(b'.') && !ByteClass::Width.admits(b'.'));
    assert!(ByteClass::Width.admits(b'0') && ByteClass::Width.admits(b'9'));
    assert!(!ByteClass::Width.admits(b'/') && !ByteClass::Width.admits(b':'));
}

#[test]
fn runs_and_fields_are_found() {
    let s = b"ab%-012.34lld rest";
    assert_eq!(skip_run(s, 0, ByteClass::Literal), 2);
    assert_eq!(skip_run(s, 2, ByteClass::Literal), 2);
    let raw = scan_specification(s, 3);
    assert_eq!(raw.flags, 3);
    assert_eq!(raw.field_width, 5);
    assert_eq!(raw.precision, 7);
    assert_eq!(raw.length, 10);
    assert_eq!(raw.conv_spec, 12);
    assert_eq!(raw.end, 13);
    let cut = b"x%5";
    let raw = scan_specification(cut, 2);
    assert_eq!((raw.field_width, raw.precision, raw.length, raw.conv_spec, raw.end), (2, 3, 3, 3, 3));
}

#[test]
fn tokens_are_read_one_by_one() {
    let s = b"a%%%5s%";
    match next_token(s, 0) {
        (Some(Token::Bytes(b)), 1) => assert_eq!(b, b"a"),
        _ => panic!("a literal run was expected"),
    }
    assert!(matches!(next_token(s, 1), (Some(Token::Percent), 3)));
    match next_token(s, 3) {
        (Some(Token::Spec(spec)), 6) => {
            assert_eq!(spec.flags, b"");
            assert_eq!(spec.field_width, b"5");
            assert_eq!(spec.precision, b"");
            assert_eq!(spec.length, b"");
            assert_eq!(spec.specifier, b"s");
        }
        _ => panic!("a conversion specification was expected"),
    }
    assert!(matches!(next_token(s, 6), (None, 7)));
}

#[test]
fn fields_that_are_no_text_are_invalid_without_a_reason() {
    let junk: [u8; 2] = [0xFF, b'1'];
    let r = ParsedConversionSpecification::try_parse(spec(b"", &junk, b"", b"", b"d"));
    assert_eq!(r.unwrap_err(), ParseError::InvalidWidth(None));
    let dotted: [u8; 3] = [b'.', 0xC3, 0x28];
    let r = ParsedConversionSpecification::try_parse(spec(b"", b"", &dotted, b"", b"d"));
    assert_eq!(r.unwrap_err(), ParseError::InvalidPrec(None));
    let text = "\u{e9}".as_bytes();
    let r = ParsedConversionSpecification::try_parse(spec(b"", text, b"", b"", b"d"));
    assert_eq!(r.unwrap_err(), ParseError::InvalidWidth(Some(NumeralError::InvalidDigit)));
    let r = ParsedConversionSpecification::try_parse(spec(b"", b"+7", b".+3", b"", b"s")).unwrap();
    assert_eq!((r.min_width, r.prec), (7, Some(3)));
}
