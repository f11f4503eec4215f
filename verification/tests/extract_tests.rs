use bufunits::host::Host;

struct TestHost {
    data: Option<Vec<u8>>,
    sent: Vec<Vec<u8>>,
    errors: Vec<String>,
}

impl Host for TestHost {
    fn get_data(&mut self, len: usize) -> Vec<u8> {
        self.data.take().unwrap_or(vec![0u8; len])
    }
    fn send(&mut self, v: &[u8]) -> bool {
        self.sent.push(v.to_vec());
        true
    }
    fn error(&mut self, msg: &str) {
        self.errors.push(msg.to_string());
    }
}

const LINE: &str = "192.168.0.1 example.com frank [10/Oct/2023:13:55:36 -0700] \
\"GET /index.html HTTP/1.1\" 200 2326 \"http://ref.example\" \"curl/8\" 10.0.0.1";

fn record_with_message(msg: &str) -> Vec<u8> {
    let mut m = serde_json::Map::new();
    m.insert("message".to_string(), serde_json::Value::String(msg.to_string()));
    serde_json::to_vec(&serde_json::Value::Object(m)).unwrap()
}

fn run(input: &[u8]) -> TestHost {
    let mut host = TestHost { data: Some(input.to_vec()), sent: vec![], errors: vec![] };
    bufunits::extract::receive_from_host(&mut host, input.len());
    host
}

fn field<'a>(v: &'a serde_json::Value, k: &str) -> &'a str {
    v.get(k).and_then(serde_json::Value::as_str).expect(k)
}

#[test]
fn lib_it_works() {
    run(b"");
}

#[test]
fn matching_line_adds_fields_and_epoch_time() {
    let input = record_with_message(LINE);
    let host = run(&input);
    assert!(host.errors.is_empty());
    assert_eq!(host.sent.len(), 1);
    let out: serde_json::Value = serde_json::from_slice(&host.sent[0]).unwrap();
    assert_eq!(field(&out, "message"), LINE);
    assert_eq!(field(&out, "remote"), "192.168.0.1");
    assert_eq!(field(&out, "host"), "example.com");
    assert_eq!(field(&out, "user"), "frank");
    assert_eq!(field(&out, "time"), "1696971336");
    assert_eq!(field(&out, "method"), "GET");
    assert_eq!(field(&out, "path"), "/index.html");
    assert_eq!(field(&out, "code"), "200");
    assert_eq!(field(&out, "size"), "2326");
    assert_eq!(field(&out, "referer"), "http://ref.example");
    assert_eq!(field(&out, "agent"), "curl/8");
    assert_eq!(field(&out, "http_x_forwarded_for"), "10.0.0.1");
}

#[test]
fn unparsable_time_keeps_raw_text() {
    let line = "192.168.0.1 example.com frank [notatime] \"GET / HTTP/1.1\" 200 5";
    let input = record_with_message(line);
    let host = run(&input);
    assert_eq!(host.sent.len(), 1);
    let out: serde_json::Value = serde_json::from_slice(&host.sent[0]).unwrap();
    assert_eq!(field(&out, "time"), "notatime");
    assert_eq!(field(&out, "code"), "200");
}

#[test]
fn non_matching_message_passes_through() {
    let input = record_with_message("hello there");
    let host = run(&input);
    assert!(host.errors.is_empty());
    assert_eq!(host.sent.len(), 1);
    assert_eq!(host.sent[0], input);
}

#[test]
fn missing_message_passes_through() {
    let input = b"{\"other\": 3}".to_vec();
    let host = run(&input);
    assert_eq!(host.sent.len(), 1);
    assert_eq!(host.sent[0], input);
}

#[test]
fn non_object_passes_through() {
    let input = b"[1, 2]".to_vec();
    let host = run(&input);
    assert!(host.errors.is_empty());
    assert_eq!(host.sent.len(), 1);
    assert_eq!(host.sent[0], input);
}

#[test]
fn nothing_to_do_is_not_an_error() {
    let r = bufunits::extract::process_input(b"{\"message\": 7}");
    assert!(matches!(r, Ok(None)));
}

#[test]
fn malformed_record_reports_one_error_and_no_output() {
    let host = run(b"{not json");
    assert_eq!(host.errors.len(), 1);
    assert!(host.sent.is_empty());
}

#[test]
fn reapplying_extraction_is_stable() {
    let input = record_with_message(LINE);
    let first = run(&input).sent.remove(0);
    let second = run(&first).sent.remove(0);
    assert_eq!(first, second);
}
