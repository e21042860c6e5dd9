use formatf::format::FormatToError;
use formatf::high::{NumeralError, ParseError};
use formatf::{format_to, BinSink, SliceSink, Value, VecSink};

fn render(template: &[u8], args: &[Value]) -> Vec<u8> {
    formatf::format(template, args).unwrap()
}

fn failure(template: &[u8], args: &[Value]) -> FormatToError<core::convert::Infallible> {
    formatf::format(template, args).unwrap_err().into_error()
}

#[test]
fn template_without_percent_is_copied() {
    assert_eq!(render(b"", &[]), b"");
    assert_eq!(render(b"plain text, no directives", &[]), b"plain text, no directives");
    let raw: [u8; 5] = [0, 255, 128, 10, 7];
    assert_eq!(render(&raw, &[Value::Int(1)]), raw);
}

#[test]
fn escaped_percents_render_one_each() {
    assert_eq!(render(b"%%", &[]), b"%");
    assert_eq!(render(b"%%%%%%", &[]), b"%%%");
    assert_eq!(render(b"100%% sure", &[]), b"100% sure");
    assert_eq!(render(b"%d%%", &[Value::Int(7)]), b"7%");
    assert_eq!(render(b"%%%d", &[Value::Int(7)]), b"%7");
}

#[test]
fn adjacent_conversions_are_both_read() {
    assert_eq!(render(b"%d%s", &[Value::Int(1), Value::String(b"x")]), b"1x");
    assert_eq!(render(b"%d%%x", &[Value::Int(1)]), b"1%x");
}

#[test]
fn trailing_percent_is_dropped() {
    assert_eq!(render(b"abc%", &[]), b"abc");
    assert_eq!(render(b"%", &[]), b"");
}

#[test]
fn decimal_text_reads_back() {
    let values: [i128; 9] = [0, 1, -1, 9, 10, -10, 1234567890123456789, i128::MAX, i128::MIN];
    for &x in values.iter() {
        let out = render(b"%jd", &[Value::Int(x)]);
        let text = String::from_utf8(out).unwrap();
        assert_eq!(text.parse::<i128>().unwrap(), x);
    }
    assert_eq!(render(b"%jd", &[Value::Int(i128::MIN)]), b"-170141183460469231731687303715884105728");
    assert_eq!(render(b"%d", &[Value::Int(-42)]), b"-42");
    assert_eq!(render(b"%i", &[Value::Int(0)]), b"0");
}

#[test]
fn width_pads_to_the_least_width() {
    assert_eq!(render(b"%5d", &[Value::Int(42)]), b"   42");
    assert_eq!(render(b"%-5d|", &[Value::Int(42)]), b"42   |");
    assert_eq!(render(b"%05d", &[Value::Int(42)]), b"00042");
    assert_eq!(render(b"%-05d", &[Value::Int(42)]), b"42000");
    assert_eq!(render(b"%05d", &[Value::Int(-42)]), b"00-42");
    assert_eq!(render(b"%2d", &[Value::Int(12345)]), b"12345");
    assert_eq!(render(b"%10s", &[Value::String(b"hi")]).len(), 10);
    assert_eq!(render(b"%0d", &[Value::Int(3)]), b"3");
}

#[test]
fn precision_cuts_byte_strings() {
    assert_eq!(render(b"%.2s", &[Value::String(b"hello")]), b"he");
    assert_eq!(render(b"%.9s", &[Value::String(b"hello")]), b"hello");
    assert_eq!(render(b"%.0s", &[Value::String(b"hello")]), b"");
    assert_eq!(render(b"%.s", &[Value::String(b"hello")]), b"");
    assert_eq!(render(b"%5.1s", &[Value::String(b"abc")]), b"    a");
    assert_eq!(render(b"%-5.1s|", &[Value::String(b"abc")]), b"a    |");
    let raw: [u8; 3] = [0xE2, 0x82, 0xAC];
    assert_eq!(render(b"%.2s", &[Value::String(&raw)]), &raw[..2]);
}

#[test]
fn zero_flag_on_a_string_is_invalid() {
    assert!(matches!(failure(b"%05s", &[Value::String(b"x")]), FormatToError::Invalid));
    assert!(matches!(failure(b"%#s", &[Value::String(b"x")]), FormatToError::Invalid));
}

#[test]
fn sign_flags_are_taken_and_do_nothing() {
    assert_eq!(render(b"%+d", &[Value::Int(5)]), b"5");
    assert_eq!(render(b"% d", &[Value::Int(5)]), b"5");
}

#[test]
fn missing_arguments_fail() {
    assert!(matches!(failure(b"%d", &[]), FormatToError::NotEnoughArguments));
    assert!(matches!(
        failure(b"%d and %s", &[Value::Int(1)]),
        FormatToError::NotEnoughArguments
    ));
    let err = formatf::format(b"%d and %s", &[Value::Int(1)]).unwrap_err();
    assert_eq!(err.buf(), b"1 and ");
}

#[test]
fn excess_arguments_are_ignored() {
    assert_eq!(render(b"%d", &[Value::Int(1), Value::Int(2)]), b"1");
    assert_eq!(render(b"none", &[Value::String(b"unused")]), b"none");
}

#[test]
fn length_modifiers_bound_the_value() {
    assert!(matches!(failure(b"%hhd", &[Value::Int(200)]), FormatToError::NumOverflow));
    assert_eq!(render(b"%hhd", &[Value::Int(127)]), b"127");
    assert_eq!(render(b"%hhd", &[Value::Int(-128)]), b"-128");
    assert!(matches!(failure(b"%hhd", &[Value::Int(-129)]), FormatToError::NumOverflow));
    assert_eq!(render(b"%hd", &[Value::Int(32767)]), b"32767");
    assert!(matches!(failure(b"%hd", &[Value::Int(32768)]), FormatToError::NumOverflow));
    assert_eq!(render(b"%d", &[Value::Int(2147483647)]), b"2147483647");
    assert!(matches!(failure(b"%d", &[Value::Int(2147483648)]), FormatToError::NumOverflow));
    assert_eq!(render(b"%ld", &[Value::Int(i64::MAX as i128)]), b"9223372036854775807");
    assert_eq!(render(b"%lld", &[Value::Int(i64::MIN as i128)]), b"-9223372036854775808");
    assert!(matches!(
        failure(b"%lld", &[Value::Int(i64::MAX as i128 + 1)]),
        FormatToError::NumOverflow
    ));
    assert_eq!(
        render(b"%zd", &[Value::Int(isize::MAX as i128)]),
        isize::MAX.to_string().as_bytes()
    );
    assert!(matches!(
        failure(b"%Zd", &[Value::Int(isize::MAX as i128 + 1)]),
        FormatToError::NumOverflow
    ));
}

#[test]
fn unimplemented_features_are_unsupported() {
    assert!(matches!(failure(b"%'d", &[Value::Int(1)]), FormatToError::Unsupported));
    assert!(matches!(failure(b"%Id", &[Value::Int(1)]), FormatToError::Unsupported));
    assert!(matches!(failure(b"%Ld", &[Value::Int(1)]), FormatToError::Unsupported));
    assert!(matches!(failure(b"%td", &[Value::Int(1)]), FormatToError::Unsupported));
}

#[test]
fn kinds_must_match() {
    assert!(matches!(failure(b"%d", &[Value::String(b"x")]), FormatToError::BadType));
    assert!(matches!(failure(b"%s", &[Value::Int(1)]), FormatToError::BadType));
}

#[test]
fn malformed_specifications_are_parse_errors() {
    assert!(matches!(
        failure(b"%5", &[Value::Int(1)]),
        FormatToError::Spec(ParseError::MissingSpecifier)
    ));
    assert!(matches!(
        failure(b"%=", &[Value::Int(1)]),
        FormatToError::Spec(ParseError::MissingSpecifier)
    ));
    assert!(matches!(
        failure(b"%x", &[Value::Int(1)]),
        FormatToError::Spec(ParseError::UnknownSpecifier)
    ));
    assert!(matches!(
        failure(b"%dd", &[Value::Int(1)]),
        FormatToError::Spec(ParseError::UnknownSpecifier)
    ));
    assert!(matches!(
        failure(b"%00d", &[Value::Int(1)]),
        FormatToError::Spec(ParseError::DuplicateFlag(b'0'))
    ));
    assert!(matches!(
        failure(b"%qd", &[Value::Int(1)]),
        FormatToError::Spec(ParseError::UnknownLenModifier)
    ));
    assert!(matches!(
        failure(b"%hld", &[Value::Int(1)]),
        FormatToError::Spec(ParseError::UnknownLenModifier)
    ));
    assert!(matches!(
        failure(b"%.5.5d", &[Value::Int(1)]),
        FormatToError::Spec(ParseError::InvalidPrec(Some(NumeralError::InvalidDigit)))
    ));
    assert!(matches!(
        failure(b"%99999999999999999999999999d", &[Value::Int(1)]),
        FormatToError::Spec(ParseError::InvalidWidth(Some(NumeralError::PosOverflow)))
    ));
}

#[test]
fn an_error_stops_the_output() {
    let err = formatf::format(b"ab%xcd%d", &[Value::Int(1)]).unwrap_err();
    assert!(matches!(err.error(), FormatToError::Spec(ParseError::UnknownSpecifier)));
    assert_eq!(err.buf(), b"ab");
    let mut err = formatf::format(b"12%s34", &[Value::Int(1)]).unwrap_err();
    let buf = std::mem::take(err.buf_mut());
    assert_eq!(buf, b"12");
    assert_eq!(err.buf(), b"");
    assert!(matches!(err.into_error(), FormatToError::BadType));
    let err = formatf::format(b"xy%d", &[]).unwrap_err();
    assert_eq!(err.into_buf(), b"xy");
}

#[test]
fn vec_sink_appends() {
    let mut sink = VecSink(b"> ".to_vec());
    format_to(b"%s!", &[Value::String(b"hey")], &mut sink).unwrap();
    assert_eq!(sink.0, b"> hey!");
    sink.put(b"?").unwrap();
    assert_eq!(sink.0, b"> hey!?");
}

#[test]
fn slice_sink_fills_the_slice() {
    let mut buf = [b'.'; 8];
    {
        let mut sink = SliceSink(&mut buf);
        format_to(b"%3d|%s", &[Value::Int(7), Value::String(b"ab")], &mut sink).unwrap();
        assert_eq!(sink.0.len(), 2);
    }
    assert_eq!(&buf, b"  7|ab..");
}

#[test]
fn slice_sink_fails_when_full() {
    let mut buf = [b'.'; 4];
    {
        let mut sink = SliceSink(&mut buf);
        let res = format_to(b"ab%s", &[Value::String(b"cde")], &mut sink);
        assert!(matches!(res, Err(FormatToError::Sink(formatf::SliceTooSmall))));
        assert_eq!(sink.0.len(), 2);
    }
    assert_eq!(&buf, b"ab..");
    let mut small = [0u8; 2];
    {
        let mut sink = SliceSink(&mut small);
        let res = format_to(b"%5d", &[Value::Int(42)], &mut sink);
        assert!(matches!(res, Err(FormatToError::Sink(formatf::SliceTooSmall))));
        assert_eq!(sink.0.len(), 0);
    }
    assert_eq!(small, [b' ', b' ']);
}

#[test]
fn an_error_of_the_engine_leaves_the_sink_alone() {
    let mut sink = Limited { chunks: Vec::new(), left: 0 };
    let res = format_to(b"%d", &[], &mut sink);
    assert!(matches!(res, Err(FormatToError::NotEnoughArguments)));
    let res = format_to(b"%hhd", &[Value::Int(200)], &mut sink);
    assert!(matches!(res, Err(FormatToError::NumOverflow)));
    let res = format_to(b"%Ld", &[Value::Int(0)], &mut sink);
    assert!(matches!(res, Err(FormatToError::Unsupported)));
    let res = format_to(b"%s", &[Value::Int(0)], &mut sink);
    assert!(matches!(res, Err(FormatToError::BadType)));
    let res = format_to(b"%05s", &[Value::String(b"x")], &mut sink);
    assert!(matches!(res, Err(FormatToError::Invalid)));
    let res = format_to(b"", &[], &mut sink);
    assert!(res.is_ok());
    assert!(sink.chunks.is_empty());
    let res = format_to(b"x", &[], &mut sink);
    assert!(matches!(res, Err(FormatToError::Sink(0))));
}

#[test]
fn the_argument_position_moves_by_one() {
    let args = [Value::Int(5), Value::String(b"five")];
    let mut sink = Limited { chunks: Vec::new(), left: 1 };
    let mut fmt = formatf::format::Formatter { sink: &mut sink, args: &args, error: None, next_arg: 0 };
    fmt.pass(b"%d%3s%d");
    assert!(matches!(fmt.error, Some(FormatToError::Sink(1))));
    assert_eq!(fmt.next_arg, 2);
}

#[test]
fn errors_describe_themselves() {
    let sink: FormatToError<()> = FormatToError::Sink(());
    assert_eq!(sink.description(), "sink error");
    let e: FormatToError<()> = FormatToError::Spec(ParseError::MissingSpecifier);
    assert_eq!(e.description(), "invalid conversion specifier");
    let e: FormatToError<()> = FormatToError::ExcessArgs;
    assert_eq!(e.description(), "format string did not use all given args");
    let e: FormatToError<()> = FormatToError::NotEnoughArguments;
    assert_eq!(e.description(), "format string requested arguments that were not provided");
    let e: FormatToError<()> = FormatToError::Unsupported;
    assert_eq!(e.description(), "this feature is not implemented yet");
    let e: FormatToError<()> = FormatToError::BadType;
    assert_eq!(e.description(), "argument type not compatible with conversion specifier");
    let e: FormatToError<()> = FormatToError::Invalid;
    assert_eq!(e.description(), "invalid format string");
    let e: FormatToError<()> = FormatToError::NumOverflow;
    assert_eq!(e.description(), "numeric overflow");
    assert_eq!(ParseError::MissingSpecifier.description(), "conversion specifier missing");
    assert_eq!(ParseError::UnknownSpecifier.description(), "unknown conversion specifier");
    assert_eq!(
        ParseError::UnknownFlag(b'a').description(),
        "conversion specifier contains unknown flag"
    );
    assert_eq!(
        ParseError::DuplicateFlag(b'0').description(),
        "conversion specifier contains duplicated flag"
    );
    assert_eq!(
        ParseError::InvalidPrec(None).description(),
        "conversion specifier contains invalid precision"
    );
    assert_eq!(
        ParseError::InvalidWidth(None).description(),
        "conversion specifier contains invalid width"
    );
    assert_eq!(
        ParseError::UnknownLenModifier.description(),
        "conversion specifier contains unknown length modifier"
    );
    assert_eq!(ParseError::Unsupported.description(), "this feature is not supported");
}

/// A sink that records each chunk and fails once it has taken `left` of them.
struct Limited {
    chunks: Vec<Vec<u8>>,
    left: usize,
}

impl BinSink for Limited {
    type Err = usize;

    fn put(&mut self, data: &[u8]) -> Result<(), usize> {
        if self.left == 0 {
            return Err(self.chunks.len());
        }
        self.left -= 1;
        self.chunks.push(data.to_vec());
        Ok(())
    }
}

#[test]
fn padding_is_written_byte_by_byte() {
    let mut sink = Limited { chunks: Vec::new(), left: 100 };
    format_to(b"a%4d%-3s.", &[Value::Int(42), Value::String(b"x")], &mut sink).unwrap();
    let expected: Vec<Vec<u8>> = vec![
        b"a".to_vec(),
        b" ".to_vec(),
        b" ".to_vec(),
        b"42".to_vec(),
        b"x".to_vec(),
        b" ".to_vec(),
        b" ".to_vec(),
        b".".to_vec(),
    ];
    assert_eq!(sink.chunks, expected);
}

#[test]
fn a_failing_sink_stops_the_pass() {
    let mut sink = Limited { chunks: Vec::new(), left: 2 };
    let res = format_to(b"a%4d%s", &[Value::Int(42), Value::String(b"x")], &mut sink);
    assert!(matches!(res, Err(FormatToError::Sink(2))));
    let expected: Vec<Vec<u8>> = vec![b"a".to_vec(), b" ".to_vec()];
    assert_eq!(sink.chunks, expected);
    assert_eq!(sink.left, 0);
}

#[test]
fn a_formatter_can_be_driven_as_a_visitor() {
    let args = [Value::Int(5), Value::String(b"five")];
    let mut sink = VecSink(Vec::new());
    {
        let mut fmt = formatf::format::Formatter { sink: &mut sink, args: &args, error: None, next_arg: 0 };
        formatf::visit::visit(b"%d is %s, 100%%", &mut fmt);
        assert!(fmt.error.is_none());
        assert_eq!(fmt.next_arg, 2);
    }
    assert_eq!(sink.0, b"5 is five, 100%");
    let mut sink = VecSink(Vec::new());
    {
        let mut fmt = formatf::format::Formatter { sink: &mut sink, args: &args, error: None, next_arg: 0 };
        formatf::visit::visit(b"%s first, never %d", &mut fmt);
        assert!(matches!(fmt.error, Some(FormatToError::BadType)));
        assert_eq!(fmt.next_arg, 1);
    }
    assert_eq!(sink.0, b"");
}

#[test]
fn a_reference_to_a_sink_is_a_sink() {
    let mut sink = VecSink(Vec::new());
    {
        let mut by_reference = &mut sink;
        format_to(b"%s-%d", &[Value::String(b"a"), Value::Int(1)], &mut by_reference).unwrap();
        by_reference.put(b"!").unwrap();
    }
    assert_eq!(sink.0, b"a-1!");
}
