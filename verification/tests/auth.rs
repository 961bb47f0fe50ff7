use std::cell::RefCell;

use gamestore::auth::{
    describe_failure, encode, exchange_code, extract_code, read_token_response, refresh, Credentials,
    TokenSet,
    AUTH_ENDPOINT, TOKEN_ENDPOINT,
};
use gamestore::http::{HttpClient, Response};
use gamestore::time::Timestamp;
use gamestore::{Error, Result};

/// The error of a result whose success value has no `Debug`.
fn failure<T>(result: Result<T>) -> Error {
    match result {
        Ok(_) => panic!("expected an error"),
        Err(error) => error,
    }
}


struct FakeHttp {
    response: Response,
    seen: RefCell<Vec<String>>,
}

impl FakeHttp {
    fn new(status: u16, body: &str) -> Self {
        Self {
            response: Response {
                status,
                body: body.to_string(),
            },
            seen: RefCell::new(Vec::new()),
        }
    }

    fn last_url(&self) -> String {
        self.seen.borrow().last().cloned().unwrap_or_default()
    }
}

impl HttpClient for FakeHttp {
    fn get(&self, url: &str) -> Result<Response> {
        self.seen.borrow_mut().push(url.to_string());
        Ok(self.response.clone())
    }

    fn get_authorized(&self, url: &str, _bearer: Option<&str>) -> Result<Response> {
        self.get(url)
    }
}

fn credentials() -> Credentials {
    Credentials::new("46899977096215655", "secret-value")
}

const TOKEN_BODY: &str = r#"{
    "access_token": "an-access-token",
    "refresh_token": "a-refresh-token",
    "user_id": "51000000000000000",
    "session_id": "a-session",
    "expires_in": 3600,
    "token_type": "bearer",
    "scope": ""
}"#;

#[test]
fn the_authorization_url_carries_the_encoded_redirect() {
    let url = credentials().authorization_url();

    assert!(url.starts_with(AUTH_ENDPOINT), "{url}");
    assert!(url.contains("client_id=46899977096215655"), "{url}");
    assert!(url.contains("response_type=code"), "{url}");
    assert!(
        url.contains("redirect_uri=https%3A%2F%2Fembed.gog.com%2Fon_login_success%3Forigin%3Dclient"),
        "{url}"
    );
}

#[test]
fn the_code_comes_out_of_a_pasted_address() {
    let code =
        extract_code("https://embed.gog.com/on_login_success?origin=client&code=abcdef1234567890 ")
            .unwrap();

    assert_eq!(code, "abcdef1234567890");
}

#[test]
fn a_bare_code_is_accepted_too() {
    assert_eq!(extract_code(" abcdef1234567890\n").unwrap(), "abcdef1234567890");
}

#[test]
fn a_denied_login_reports_what_gog_said() {
    let error = extract_code(
        "https://embed.gog.com/on_login_success?error=access_denied&error_description=User%20said%20no",
    )
    .unwrap_err();

    assert!(error.to_string().contains("access_denied"), "{error:?}");
    assert!(error.to_string().contains("User said no"), "{error:?}");
}

#[test]
fn an_address_without_a_code_says_what_to_do() {
    let error = extract_code("https://embed.gog.com/on_login_success?origin=client").unwrap_err();

    assert!(error.to_string().contains("`code`"), "{error:?}");
}

#[test]
fn garbage_is_not_mistaken_for_a_code() {
    for input in ["", "   ", "nope", "not a code at all"] {
        assert!(extract_code(input).is_err(), "accepted {input:?}");
    }
}

#[test]
fn exchanging_a_code_asks_for_the_authorization_code_grant() {
    let http = FakeHttp::new(200, TOKEN_BODY);

    let tokens = exchange_code(&http, &credentials(), "abcdef1234567890").unwrap();

    let url = http.last_url();
    assert!(url.starts_with(TOKEN_ENDPOINT), "{url}");
    assert!(url.contains("grant_type=authorization_code"), "{url}");
    assert!(url.contains("code=abcdef1234567890"), "{url}");
    assert!(url.contains("client_secret=secret-value"), "{url}");
    assert_eq!(tokens.access_token, "an-access-token");
    assert_eq!(tokens.refresh_token, "a-refresh-token");
    assert_eq!(tokens.user_id, "51000000000000000");
    assert_eq!(tokens.session_id.as_deref(), Some("a-session"));
}

#[test]
fn refreshing_asks_for_the_refresh_token_grant() {
    let http = FakeHttp::new(200, TOKEN_BODY);

    refresh(&http, &credentials(), "a-refresh-token").unwrap();

    let url = http.last_url();
    assert!(url.contains("grant_type=refresh_token"), "{url}");
    assert!(url.contains("refresh_token=a-refresh-token"), "{url}");
}

#[test]
fn expiry_is_computed_from_expires_in_with_a_minute_of_margin() {
    let now = Timestamp::from_secs(1_000_000);
    let response = read_token_response(TOKEN_BODY).unwrap();

    let tokens = TokenSet::from_response(response, now);

    assert_eq!(tokens.expires_at, Timestamp::from_secs(1_000_000 + 3600));
    assert!(!tokens.is_expired(now));
    assert!(!tokens.is_expired(Timestamp::from_secs(1_000_000 + 3500)));
    assert!(tokens.is_expired(Timestamp::from_secs(1_000_000 + 3550)));
    assert!(tokens.is_expired(Timestamp::from_secs(1_000_000 + 7200)));
}

#[test]
fn a_rejected_exchange_reports_gogs_own_message() {
    let http = FakeHttp::new(400, r#"{"error":"invalid_grant","error_description":"Code has expired"}"#);

    let error = failure(exchange_code(&http, &credentials(), "abcdef1234567890"));

    assert!(error.to_string().contains("invalid_grant"), "{error:?}");
    assert!(error.to_string().contains("Code has expired"), "{error:?}");
}

#[test]
fn an_unreadable_token_response_is_an_error_not_a_panic() {
    let http = FakeHttp::new(200, "<html>maintenance</html>");

    let error = failure(exchange_code(&http, &credentials(), "abcdef1234567890"));

    assert!(error.to_string().contains("could not be read"), "{error:?}");
}

#[test]
fn neither_secrets_nor_tokens_show_up_in_debug_output() {
    let http = FakeHttp::new(200, TOKEN_BODY);
    let tokens = exchange_code(&http, &credentials(), "abcdef1234567890").unwrap();

    let credentials = credentials().debug_text();
    let tokens = tokens.debug_text();

    assert!(!credentials.contains("secret-value"), "{credentials}");
    assert!(!tokens.contains("an-access-token"), "{tokens}");
    assert!(!tokens.contains("a-refresh-token"), "{tokens}");
    assert!(!tokens.contains("a-session"), "{tokens}");
    assert!(tokens.contains("51000000000000000"), "{tokens}");
}

#[test]
fn encoding_keeps_only_the_unreserved_characters() {
    assert_eq!(encode("a-b.c_d~e"), "a-b.c_d~e");
    assert_eq!(encode("a b/c?d=é"), "a%20b%2Fc%3Fd%3D%C3%A9");
    assert_eq!(encode(""), "");
}

#[test]
fn a_code_is_decoded_out_of_the_query() {
    assert_eq!(extract_code("https://x/y?code=abcd%2Defgh").unwrap(), "abcd-efgh");
}

#[test]
fn a_code_with_spaces_inside_is_refused_before_any_request() {
    let http = FakeHttp::new(200, TOKEN_BODY);

    let error = failure(exchange_code(&http, &credentials(), "two words"));

    assert!(matches!(error, gamestore::Error::Auth(_)), "{error:?}");
    assert!(http.seen.borrow().is_empty());
}

#[test]
fn a_custom_redirect_is_used_in_the_authorization_url() {
    let url = credentials().with_redirect_uri("http://localhost:1/cb").authorization_url();

    assert!(url.contains("redirect_uri=http%3A%2F%2Flocalhost%3A1%2Fcb"), "{url}");
}

#[test]
fn a_token_response_without_a_session_still_reads() {
    let response = read_token_response(
        r#"{"access_token":"a","refresh_token":"r","user_id":"u","expires_in":5}"#,
    )
    .unwrap();

    assert_eq!(response.session_id, None);
    assert_eq!(response.expires_in, 5);
    assert!(read_token_response("{}").is_err());
}

#[test]
fn a_token_response_says_which_field_is_wrong() {
    assert_eq!(
        read_token_response(r#"{"refresh_token":"r","user_id":"u","expires_in":5}"#).err().as_deref(),
        Some("missing field `access_token`")
    );
    assert_eq!(
        read_token_response(r#"{"access_token":"a","refresh_token":"r","user_id":"u","expires_in":"5"}"#)
            .err()
            .as_deref(),
        Some("`expires_in` is not a whole number of seconds")
    );
    assert_eq!(
        read_token_response(r#"{"access_token":"a","refresh_token":"r","user_id":7,"expires_in":5}"#)
            .err()
            .as_deref(),
        Some("`user_id` is not a string")
    );
    assert_eq!(read_token_response("nope").err().as_deref(), Some("the response is not a JSON object"));
}

#[test]
fn a_rejection_carries_gogs_error_alone_when_there_is_no_description() {
    let response = Response { status: 400, body: r#"{"error":"invalid_grant"}"#.to_string() };

    assert_eq!(describe_failure(&response), "GOG rejected the request (400): invalid_grant");
    let bare = Response { status: 503, body: "down".to_string() };
    assert_eq!(describe_failure(&bare), "GOG rejected the request (503)");
}
