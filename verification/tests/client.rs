use kv_store::client::{delete_url, get_report, get_url, parse_command, put_report, put_url, script_lines, unknown_report, Command, SMOKE_SCRIPT};
use kv_store::handler;
use kv_store::utils::{GetResponse, PutResponse};

fn put(key: &str, value: &str) -> Option<Command> {
    Some(Command::Put { key: key.to_string(), value: value.to_string() })
}

fn get(key: &str) -> Option<Command> {
    Some(Command::Get { key: key.to_string() })
}

#[test]
fn the_smoke_script_sets_and_asks() {
    let commands: Vec<_> = script_lines(SMOKE_SCRIPT).iter().map(|l| parse_command(l)).collect();
    assert_eq!(
        commands,
        vec![put("foo", "hello"), put("bar", "world"), get("foo"), get("bar"), get("missing_key")]
    );
}

#[test]
fn commands_are_told_by_their_first_word() {
    assert_eq!(parse_command("pUt a b c  d"), put("a", "b c  d"));
    assert_eq!(parse_command("PUT  b"), put("", "b"));
    assert_eq!(parse_command("get a b"), get("a"));
    assert_eq!(parse_command("GET "), get(""));
    assert_eq!(parse_command("PUT a"), None);
    assert_eq!(parse_command("GET"), None);
    for line in ["DELETE a", " GET a", "GETS a", "PU", "", "P\u{fc}T a b"] {
        assert_eq!(parse_command(line), Some(Command::Unknown { line: line.to_string() }));
    }
}

#[test]
fn no_other_characters_make_the_words() {
    for c in '\u{80}'..='\u{10ffff}' {
        let capitals: String = c.to_uppercase().collect();
        assert!(!capitals.chars().all(|d| "PUTGE".contains(d)), "{c:?}");
    }
    for c in '\u{0}'..='\u{7f}' {
        for (word, rest) in [("PUT", "UT"), ("GET", "ET")] {
            let line = format!("{c}{rest} a b");
            let known = !matches!(parse_command(&line), Some(Command::Unknown { .. }));
            let first = line.splitn(3, ' ').next().unwrap().to_uppercase();
            if c != ' ' {
                assert_eq!(known, first == "PUT" || first == "GET", "{line} {word}");
            }
        }
    }
}

#[test]
fn blank_lines_are_skipped() {
    assert_eq!(script_lines("\n  \nGET a\r\n\t\nx"), vec!["GET a", "x"]);
    assert!(script_lines("").is_empty());
}

#[test]
fn addresses_name_the_key() {
    assert_eq!(get_url("http://h:1", "k"), "http://h:1/get/k");
    assert_eq!(put_url("http://h:1", "k"), "http://h:1/put/k");
    assert_eq!(delete_url("http://h:1", "k"), "http://h:1/delete/k");
}

#[test]
fn reports_say_what_came_back() {
    let response = PutResponse { message: "Key set".to_string() };
    assert_eq!(put_report("k", "v", &response), "PUT k = v → Key set");
    let response = GetResponse { value: "v".to_string(), error: "".to_string() };
    assert_eq!(get_report("k", &response), "GET k → v");
    let response = GetResponse { value: "".to_string(), error: "Key k not found".to_string() };
    assert_eq!(get_report("k", &response), "GET k → error: Key k not found");
    assert_eq!(unknown_report("x y"), "Unknown operation: x y");
}

#[test]
fn responses_carry_a_status() {
    let (status, response) = handler::get_key(Ok("v".to_string()));
    assert_eq!((status, response.value.as_str(), response.error.as_str()), (200, "v", ""));
    let (status, response) = handler::get_key(Err("Key k not found".to_string()));
    assert_eq!(
        (status, response.value.as_str(), response.error.as_str()),
        (404, "", "Key k not found")
    );
    assert_eq!(handler::put_key().0, 200);
    assert_eq!(handler::put_key().1.message, "Key set");
    assert_eq!(handler::delete_key().0, 200);
    assert_eq!(handler::delete_key().1.message, "Key deleted");
}
