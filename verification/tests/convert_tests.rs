use bufunits::host::Host;

struct TestHost {
    data: Option<Vec<u8>>,
    sent: Vec<Vec<u8>>,
    errors: Vec<String>,
}

impl Host for TestHost {
    fn get_data(&mut self, len: usize) -> Vec<u8> {
        self.data.take().unwrap_or(vec![0u8; len])
    }
    fn send(&mut self, v: &[u8]) -> bool {
        self.sent.push(v.to_vec());
        true
    }
    fn error(&mut self, msg: &str) {
        self.errors.push(msg.to_string());
    }
}

fn check_conversion(input: &[u8], expected: &rmpv::Value) {
    let mut host = TestHost { data: Some(input.to_vec()), sent: vec![], errors: vec![] };
    bufunits::convert::receive_from_host(&mut host, input.len());
    assert!(host.errors.is_empty(), "unexpected error: {:?}", host.errors);
    assert_eq!(host.sent.len(), 1);
    let mut expected_bytes = Vec::new();
    rmpv::encode::write_value(&mut expected_bytes, expected).unwrap();
    assert_eq!(expected_bytes.as_slice(), host.sent[0].as_slice());
}

#[test]
fn null_becomes_nil() {
    check_conversion(b"null", &rmpv::Value::Nil);
}

#[test]
fn false_becomes_false() {
    check_conversion(b"false", &rmpv::Value::Boolean(false));
}

#[test]
fn true_becomes_true() {
    check_conversion(b"true", &rmpv::Value::Boolean(true));
}

#[test]
fn empty_object_becomes_empty_map() {
    check_conversion(b"{}", &rmpv::Value::Map(Vec::new()));
}

#[test]
fn object_becomes_map() {
    check_conversion(
        b"{\"null\": null, \"false\": false, \"true\": true, \"number\": 42, \"string\": \"asdf\", \"array\": [], \"object\": {}}",
        &rmpv::Value::Map(vec![
            (rmpv::Value::from("array"), rmpv::Value::Array(Vec::new())),
            (rmpv::Value::from("false"), rmpv::Value::Boolean(false)),
            (rmpv::Value::from("null"), rmpv::Value::Nil),
            (rmpv::Value::from("number"), rmpv::Value::F64(42_f64)),
            (rmpv::Value::from("object"), rmpv::Value::Map(Vec::new())),
            (rmpv::Value::from("string"), rmpv::Value::from("asdf")),
            (rmpv::Value::from("true"), rmpv::Value::Boolean(true)),
        ]),
    );
}

#[test]
fn integer_and_float_forms_encode_alike() {
    let a = bufunits::convert::process_input(b"42").unwrap();
    let b = bufunits::convert::process_input(b"42.0").unwrap();
    assert_eq!(a, b);
    let mut expected = Vec::new();
    rmpv::encode::write_value(&mut expected, &rmpv::Value::F64(42.0)).unwrap();
    assert_eq!(a, expected);
}

#[test]
fn strings_and_arrays_round_trip() {
    check_conversion(
        b"[\"asdf\", 1.5, true]",
        &rmpv::Value::Array(vec![
            rmpv::Value::from("asdf"),
            rmpv::Value::F64(1.5),
            rmpv::Value::Boolean(true),
        ]),
    );
}

#[test]
fn malformed_input_reports_one_error_and_no_output() {
    let mut host = TestHost { data: Some(b"{not json".to_vec()), sent: vec![], errors: vec![] };
    bufunits::convert::receive_from_host(&mut host, 9);
    assert_eq!(host.errors.len(), 1);
    assert!(host.sent.is_empty());
}

#[test]
fn decode_error_variant_on_bad_input() {
    let r = bufunits::convert::process_input(b"");
    assert!(matches!(r, Err(bufunits::convert::ConvertError::Decode(_))));
}
