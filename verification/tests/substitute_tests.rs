use bufunits::substitute::{process_input, receive_from_host};

struct TestHost {
    data: Option<Vec<u8>>,
    sent: Vec<Vec<u8>>,
    errors: Vec<String>,
}

impl bufunits::host::Host for TestHost {
    fn get_data(&mut self, len: usize) -> Vec<u8> {
        self.data.take().unwrap_or(vec![0u8; len])
    }
    fn send(&mut self, v: &[u8]) -> bool {
        self.sent.push(v.to_vec());
        true
    }
    fn error(&mut self, msg: &str) {
        self.errors.push(msg.to_string());
    }
}

#[test]
fn it_works() {
    assert_eq!(process_input(b"xagent"), Vec::from("x\u{1F575}\u{FE0F}"));
}

#[test]
fn empty_input_empty_output() {
    assert_eq!(process_input(b""), Vec::<u8>::new());
}

#[test]
fn unmatched_bytes_copied() {
    assert_eq!(process_input(b"zzz"), Vec::from("zzz"));
}

#[test]
fn first_listed_entry_wins() {
    // "agent" is listed before "eye"; at a position where both could start,
    // the listed order decides.
    assert_eq!(process_input(b"agenteye"), Vec::from("\u{1F575}\u{FE0F}\u{1F441}"));
}

#[test]
fn no_rescan_after_advance() {
    // "path" is consumed whole; the "host" that straddles the boundary is
    // never assembled from already-consumed bytes.
    assert_eq!(process_input(b"pathost"), Vec::from("\u{1F6E3}ost"));
    // a pattern that only completes mid-scan is found where it starts
    assert_eq!(process_input(b"agagent"), Vec::from("ag\u{1F575}\u{FE0F}"));
}

#[test]
fn unit_sends_substituted_buffer() {
    let mut host = TestHost { data: Some(b"space log".to_vec()), sent: vec![], errors: vec![] };
    receive_from_host(&mut host, 9);
    assert_eq!(host.sent.len(), 1);
    assert_eq!(host.sent[0], Vec::from("\u{1F680} \u{1FAB5}"));
    assert!(host.errors.is_empty());
}
