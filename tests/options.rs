use word_counter::options::{parse_args, Request};

fn args(list: &[&str]) -> Vec<String> {
    list.iter().map(|a| a.to_string()).collect()
}

#[test]
fn missing_path_is_refused() {
    assert!(parse_args(&args(&[])).is_none());
}

#[test]
fn path_alone_asks_for_word_count() {
    let inv = parse_args(&args(&["notes.txt"])).unwrap();
    assert_eq!(inv.path, "notes.txt");
    assert_eq!(inv.requests.len(), 1);
    assert!(matches!(inv.requests[0], Request::WordCount));
}

#[test]
fn flags_become_requests_in_order() {
    let inv = parse_args(&args(&["f.txt", "--word", "Hello", "--stats", "--bogus"])).unwrap();
    assert_eq!(inv.path, "f.txt");
    assert_eq!(inv.requests.len(), 3);
    assert!(matches!(&inv.requests[0], Request::Word(w) if w == "Hello"));
    assert!(matches!(inv.requests[1], Request::Stats));
    assert!(matches!(&inv.requests[2], Request::UnknownFlag(f) if f == "--bogus"));
}

#[test]
fn word_flag_without_word_is_reported() {
    let inv = parse_args(&args(&["f.txt", "--stats", "--word"])).unwrap();
    assert_eq!(inv.requests.len(), 2);
    assert!(matches!(inv.requests[0], Request::Stats));
    assert!(matches!(inv.requests[1], Request::MissingWord));
}

#[test]
fn word_flag_takes_a_flag_as_its_word() {
    let inv = parse_args(&args(&["f.txt", "--word", "--stats"])).unwrap();
    assert_eq!(inv.requests.len(), 1);
    assert!(matches!(&inv.requests[0], Request::Word(w) if w == "--stats"));
}
