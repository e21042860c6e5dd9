use formatf::Value;

#[test]
fn basic() {
    let res = formatf::format(b"He%s=%d", &[Value::String(b"ll"), Value::Int(4)]).unwrap();
    assert_eq!(res, b"Hell=4");
}

#[test]
fn padding_simple_string() {
    let args_hi = [Value::String(b"hi")];
    let args_loop = [Value::String(b"loop")];
    {
        let fmt = b"%3s";
        let res = formatf::format(fmt, &args_hi).unwrap();
        assert_eq!(res, b" hi");
        let res = formatf::format(fmt, &args_loop).unwrap();
        assert_eq!(res, b"loop");
    }
    {
        let fmt = b"%-3s";
        let res = formatf::format(fmt, &args_hi).unwrap();
        assert_eq!(res, b"hi ");
        let res = formatf::format(fmt, &args_loop).unwrap();
        assert_eq!(res, b"loop");
    }
}

#[test]
fn padding_simple_int() {
    let args_small = [Value::Int(42)];
    let args_big = [Value::Int(1234)];
    {
        let fmt = b"%03d";
        let res = formatf::format(fmt, &args_small).unwrap();
        assert_eq!(res, b"042");
        let res = formatf::format(fmt, &args_big).unwrap();
        assert_eq!(res, b"1234");
    }
    {
        let fmt = b"%3d";
        let res = formatf::format(fmt, &args_small).unwrap();
        assert_eq!(res, b" 42");
        let res = formatf::format(fmt, &args_big).unwrap();
        assert_eq!(res, b"1234");
    }
}
