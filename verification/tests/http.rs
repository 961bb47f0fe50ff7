use gamestore::http::{redact, Response};

#[test]
fn a_query_string_is_never_kept() {
    assert_eq!(
        redact("https://auth.gog.com/token?client_secret=shhh&code=abc"),
        "https://auth.gog.com/token?<redacted>"
    );
    assert_eq!(redact("https://auth.gog.com/token"), "https://auth.gog.com/token");
}

#[test]
fn success_is_the_2xx_range() {
    let response = |status| Response {
        status,
        body: String::new(),
    };

    assert!(response(200).is_success());
    assert!(response(204).is_success());
    assert!(!response(302).is_success());
    assert!(!response(400).is_success());
    assert!(response(299).is_success());
    assert!(!response(199).is_success());
}

#[test]
fn only_the_first_question_mark_cuts() {
    assert_eq!(redact("a?b?c"), "a?<redacted>");
    assert_eq!(redact("?"), "?<redacted>");
}
