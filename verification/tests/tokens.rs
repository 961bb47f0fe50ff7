use std::cell::RefCell;
use std::rc::Rc;

use gamestore::auth::{Credentials, TokenSet};
use gamestore::http::{redact, HttpClient, Response};
use gamestore::time::Timestamp;
use gamestore::tokens::{MemoryStore, Session, TokenStore};
use gamestore::{Error, Result};

/// Answers with scripted responses, first to last, and records every URL asked
/// for where the test can still see it.
struct ScriptedHttp {
    responses: RefCell<Vec<Response>>,
    calls: Rc<RefCell<Vec<String>>>,
}

impl ScriptedHttp {
    fn new(responses: &[(u16, &str)]) -> Self {
        Self {
            responses: RefCell::new(
                responses
                    .iter()
                    .rev()
                    .map(|(status, body)| Response {
                        status: *status,
                        body: body.to_string(),
                    })
                    .collect(),
            ),
            calls: Rc::new(RefCell::new(Vec::new())),
        }
    }
}

impl HttpClient for ScriptedHttp {
    fn get(&self, url: &str) -> Result<Response> {
        self.calls.borrow_mut().push(url.to_string());
        self.responses.borrow_mut().pop().ok_or_else(|| Error::Http {
            url: redact(url),
            reason: "the test ran out of scripted responses".to_string(),
        })
    }

    fn get_authorized(&self, url: &str, _bearer: Option<&str>) -> Result<Response> {
        self.get(url)
    }
}

fn token_body(access: &str, refresh: &str, expires_in: u64) -> String {
    format!(
        r#"{{"access_token":"{access}","refresh_token":"{refresh}",
            "user_id":"51000000000000000","session_id":"a-session",
            "expires_in":{expires_in},"token_type":"bearer"}}"#
    )
}

fn credentials() -> Credentials {
    Credentials::new("an-id", "a-secret")
}

const T0: Timestamp = Timestamp { secs: 0, nanos: 0 };

fn tokens_expiring_at(seconds: u64, refresh_token: &str) -> TokenSet {
    TokenSet {
        access_token: "stored".to_string(),
        refresh_token: refresh_token.to_string(),
        user_id: "51000000000000000".to_string(),
        session_id: None,
        expires_at: Timestamp::from_secs(seconds),
    }
}

/// A session whose store already holds `tokens`, restored and ready, and the
/// record of the URLs its client is asked for.
fn restored_session(
    tokens: TokenSet,
    http: ScriptedHttp,
) -> (Session<ScriptedHttp, MemoryStore>, Rc<RefCell<Vec<String>>>) {
    let calls = Rc::clone(&http.calls);
    let store = MemoryStore::default();
    store.save(&tokens).unwrap();
    let mut session = Session::new(credentials(), http, store);
    assert!(session.restore().unwrap());
    (session, calls)
}

#[test]
fn logging_in_stores_the_session() {
    let http = ScriptedHttp::new(&[(200, &token_body("first", "refresh-1", 3600))]);
    let mut session = Session::new(credentials(), http, MemoryStore::default());

    session
        .log_in("https://embed.gog.com/on_login_success?code=abcdef1234567890")
        .unwrap();

    assert_eq!(session.user_id(), Some("51000000000000000"));
    let stored = session.store().load().unwrap().unwrap();
    assert_eq!(stored.access_token, "first");
}

#[test]
fn a_stored_session_comes_back_and_a_valid_token_is_not_refreshed() {
    let (mut session, calls) =
        restored_session(tokens_expiring_at(3600, "refresh-1"), ScriptedHttp::new(&[]));

    assert_eq!(session.access_token_at(T0).unwrap(), "stored");
    assert_eq!(calls.borrow().len(), 0);
}

#[test]
fn an_empty_store_restores_to_nothing_and_refuses_to_pretend() {
    let mut session = Session::new(credentials(), ScriptedHttp::new(&[]), MemoryStore::default());

    assert!(!session.restore().unwrap());
    assert!(matches!(session.access_token_at(T0).unwrap_err(), Error::NotLoggedIn));
}

#[test]
fn an_expiring_token_is_refreshed_and_the_rotation_is_stored() {
    let (mut session, calls) = restored_session(
        tokens_expiring_at(3600, "refresh-1"),
        ScriptedHttp::new(&[(200, &token_body("second", "refresh-2", 3600))]),
    );

    // Inside the one minute margin, so it counts as due.
    let token = session.access_token_at(Timestamp::from_secs(3590)).unwrap();

    assert_eq!(token, "second");
    assert_eq!(calls.borrow().len(), 1);
    assert!(
        calls.borrow()[0].contains("grant_type=refresh_token"),
        "the refresh has to use the refresh grant"
    );
    let stored = session.store().load().unwrap().unwrap();
    assert_eq!(stored.access_token, "second");
    assert_eq!(
        stored.refresh_token, "refresh-2",
        "the rotated refresh token has to replace the old one, or the next refresh fails"
    );
}

#[test]
fn a_revoked_refresh_token_discards_the_stored_session() {
    let (mut session, _calls) = restored_session(
        tokens_expiring_at(3600, "refresh-1"),
        ScriptedHttp::new(&[(400, r#"{"error":"invalid_grant","error_description":"Token revoked"}"#)]),
    );

    let error = session.access_token_at(Timestamp::from_secs(4000)).unwrap_err();

    assert!(error.to_string().contains("Token revoked"), "{error:?}");
    assert!(error.to_string().contains("gamestore login"), "{error:?}");
    assert!(session.store().load().unwrap().is_none());
    assert_eq!(session.user_id(), None);
}

#[test]
fn a_network_failure_during_refresh_keeps_the_session() {
    let (mut session, _calls) =
        restored_session(tokens_expiring_at(3600, "refresh-1"), ScriptedHttp::new(&[]));

    let error = session.access_token_at(Timestamp::from_secs(4000)).unwrap_err();

    assert!(matches!(error, Error::Http { .. }), "{error:?}");
    assert!(
        session.store().load().unwrap().is_some(),
        "a flaky network must not log the user out"
    );
}

#[test]
fn logging_out_clears_both_the_session_and_the_store() {
    let http = ScriptedHttp::new(&[(200, &token_body("first", "refresh-1", 3600))]);
    let mut session = Session::new(credentials(), http, MemoryStore::default());
    session.log_in("abcdef1234567890").unwrap();

    session.log_out().unwrap();

    assert!(session.store().load().unwrap().is_none());
    assert_eq!(session.user_id(), None);
}

#[test]
fn a_round_trip_through_the_memory_store_keeps_every_field() {
    let tokens = TokenSet {
        access_token: "a".to_string(),
        refresh_token: "r".to_string(),
        user_id: "51000000000000000".to_string(),
        session_id: Some("s".to_string()),
        expires_at: Timestamp::from_secs(1234),
    };
    let store = MemoryStore::default();

    store.save(&tokens).unwrap();

    assert!(store.load().unwrap() == Some(tokens));
    store.clear().unwrap();
    assert!(store.load().unwrap().is_none());
}

#[test]
fn a_session_knows_its_credentials_and_expiry() {
    let (session, _calls) =
        restored_session(tokens_expiring_at(3600, "refresh-1"), ScriptedHttp::new(&[]));

    assert_eq!(session.credentials().client_id, "an-id");
    assert_eq!(session.expires_at(), Some(Timestamp::from_secs(3600)));
    assert!(session.store().describe().contains("memory"));
}

#[test]
fn a_pasted_address_that_was_denied_never_reaches_gog() {
    let http = ScriptedHttp::new(&[]);
    let calls = Rc::clone(&http.calls);
    let mut session = Session::new(credentials(), http, MemoryStore::default());

    let error = session.log_in("https://x/y?error=access_denied").unwrap_err();

    assert!(matches!(error, Error::Auth(_)), "{error:?}");
    assert!(calls.borrow().is_empty());
    assert_eq!(session.user_id(), None);
}

/// A store that keeps nothing: every save fails.
struct ReadOnlyStore;

impl TokenStore for ReadOnlyStore {
    fn load(&self) -> Result<Option<TokenSet>> {
        Ok(None)
    }

    fn save(&self, _tokens: &TokenSet) -> Result<()> {
        Err(Error::TokenStore("the store is read-only".to_string()))
    }

    fn clear(&self) -> Result<()> {
        Ok(())
    }

    fn describe(&self) -> String {
        "read-only".to_string()
    }
}

#[test]
fn a_login_whose_tokens_cannot_be_stored_changes_nothing() {
    let http = ScriptedHttp::new(&[(200, &token_body("first", "refresh-1", 3600))]);
    let calls = http.calls.clone();
    let mut session = Session::new(credentials(), http, ReadOnlyStore);

    let error = session.log_in("abcdef1234567890").unwrap_err();

    assert!(matches!(error, Error::TokenStore(_)), "{error:?}");
    assert_eq!(error.to_string(), "the store is read-only");
    assert_eq!(session.user_id(), None);
    assert_eq!(calls.borrow().len(), 1);
    assert!(calls.borrow()[0].contains("grant_type=authorization_code"));
    assert!(calls.borrow()[0].contains("code=abcdef1234567890"));
}
