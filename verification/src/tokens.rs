//! Keeping the GOG session, and its access token fresh.
//!
//! The store is a trait: the platform keyring is the real backend, and tests use
//! an in-memory one.

use vstd::cell::invcell::InvCell;
use vstd::predicate::Predicate;
use vstd::prelude::*;

use crate::auth::{
    exchange_code, exchanged_by, extract_code, extracted, refresh, refreshed_by, token_expired, Credentials,
    TokenSet,
};
use crate::error::{Error, Result};
use crate::http::HttpClient;
use crate::text::{joined, owned};
use crate::time::{now, Timestamp};

verus! {

/// Service name the tokens are stored under.
pub const KEYRING_SERVICE: &'static str = "gamestore";

/// Somewhere to keep a GOG session between runs.
pub trait TokenStore {
    /// Whether `answer` is what this store gave for a load. What a store holds is
    /// up to the store; a store that does not say leaves every answer possible.
    closed spec fn loaded(&self, answer: Result<Option<TokenSet>>) -> bool {
        true
    }

    /// Whether `answer` is what this store gave when asked to keep `tokens`.
    closed spec fn saved(&self, tokens: TokenSet, answer: Result<()>) -> bool {
        true
    }

    /// Whether `answer` is what this store gave when asked to forget its session.
    closed spec fn cleared(&self, answer: Result<()>) -> bool {
        true
    }

    /// The stored session, or `None` when there is none.
    fn load(&self) -> (answer: Result<Option<TokenSet>>)
        ensures
            self.loaded(answer),
    ;

    /// Replace the stored session.
    fn save(&self, tokens: &TokenSet) -> (answer: Result<()>)
        ensures
            self.saved(*tokens, answer),
    ;

    /// Forget the stored session. Clearing an empty store is not an error.
    fn clear(&self) -> (answer: Result<()>)
        ensures
            self.cleared(answer),
    ;

    /// Where this store keeps things, for `gamestore info`.
    fn describe(&self) -> String;
}

/// Any session may be kept in memory.
pub struct AnySession;

impl Predicate<Option<TokenSet>> for AnySession {
    open spec fn predicate(&self, tokens: Option<TokenSet>) -> bool {
        true
    }
}

/// A store that keeps the session for the lifetime of the process. For tests, and
/// for a run that deliberately keeps nothing.
pub struct MemoryStore {
    tokens: InvCell<Option<TokenSet>, AnySession>,
}

impl Default for MemoryStore {
    /// An empty store.
    fn default() -> (store: MemoryStore) {
        MemoryStore { tokens: InvCell::new(None, Ghost(AnySession)) }
    }
}

impl TokenStore for MemoryStore {
    fn load(&self) -> (result: Result<Option<TokenSet>>)
        ensures
            result is Ok,
    {
        let current = self.tokens.replace(None);
        let copy = current.clone();
        self.tokens.set(current);
        Ok(copy)
    }

    fn save(&self, tokens: &TokenSet) -> (result: Result<()>)
        ensures
            result is Ok,
    {
        self.tokens.set(Some(tokens.clone()));
        Ok(())
    }

    fn clear(&self) -> (result: Result<()>)
        ensures
            result is Ok,
    {
        self.tokens.set(None);
        Ok(())
    }

    fn describe(&self) -> (text: String)
        ensures
            text@ == "memory (this run only)"@,
    {
        owned("memory (this run only)")
    }
}

/// What a refused refresh answers, after `reason`, GOG's own account of it.
pub open spec fn discarded(reason: Seq<char>) -> Seq<char> {
    reason + "; the stored session was discarded, run `gamestore login` again"@
}

/// Whether a login whose exchange gave `exchanged`, by a session that held
/// `before` and keeps its tokens in `store`, ends holding `after` and answers
/// `result`: the new tokens are saved and then held; a failed exchange or save
/// changes nothing and is the answer.
pub open spec fn login_settled<S: TokenStore>(
    store: S,
    before: Option<TokenSet>,
    exchanged: Result<TokenSet>,
    after: Option<TokenSet>,
    result: Result<()>,
) -> bool {
    match exchanged {
        Ok(fresh) => exists|answer: Result<()>|
            #[trigger] store.saved(fresh, answer) && match answer {
                Ok(_) => after == Some(fresh) && result is Ok,
                Err(error) => after == before && result == Err::<(), Error>(error),
            },
        Err(error) => after == before && result == Err::<(), Error>(error),
    }
}

/// Whether a refresh that gave `refreshed`, by a session that held `before` and
/// keeps its tokens in `store`, ends holding `after` and answers `result`: fresh
/// tokens are saved and then used, and a failed save changes nothing and is the
/// answer; a refresh GOG refused discards the session, here and then in the
/// store, and says so; any other failure keeps the session and is the answer.
pub open spec fn refresh_settled<S: TokenStore>(
    store: S,
    before: Option<TokenSet>,
    refreshed: Result<TokenSet>,
    after: Option<TokenSet>,
    result: Result<String>,
) -> bool {
    match refreshed {
        Ok(fresh) => exists|answer: Result<()>|
            #[trigger] store.saved(fresh, answer) && match answer {
                Ok(_) => after == Some(fresh) && result == Ok::<String, Error>(fresh.access_token),
                Err(error) => after == before && result == Err::<String, Error>(error),
            },
        Err(Error::Auth(reason)) => after is None && exists|answer: Result<()>|
            #[trigger] store.cleared(answer) && match answer {
                Ok(_) => result matches Err(Error::Auth(message)) && message@ == discarded(reason@),
                Err(error) => result == Err::<String, Error>(error),
            },
        Err(error) => after == before && result == Err::<String, Error>(error),
    }
}

/// An authenticated GOG session: the tokens, where they live, and the refresh that
/// keeps them usable.
pub struct Session<H: HttpClient, S: TokenStore> {
    credentials: Credentials,
    http: H,
    store: S,
    tokens: Option<TokenSet>,
}

impl<H: HttpClient, S: TokenStore> Session<H, S> {
    /// The session's tokens, when it has some.
    pub closed spec fn tokens(&self) -> Option<TokenSet> {
        self.tokens
    }

    /// The credentials the session authenticates with.
    pub closed spec fn spec_credentials(&self) -> Credentials {
        self.credentials
    }

    /// The client the session sends its requests through.
    pub closed spec fn spec_http(&self) -> H {
        self.http
    }

    /// Whether `after` and `result` are what asking `before` for an access token
    /// at `now` gives: with no session, [`Error::NotLoggedIn`]; a token with more
    /// than a minute left, as it is; a due one, what [`refresh_settled`] makes of
    /// trading in the session's refresh token, as [`refreshed_by`] says.
    pub open spec fn access_outcome(before: Self, after: Self, now: Timestamp, result: Result<String>) -> bool {
        match before.tokens() {
            None => result matches Err(Error::NotLoggedIn) && after.tokens() is None,
            Some(tokens) => if !token_expired(tokens.expires_at, now) {
                result == Ok::<String, Error>(tokens.access_token) && after.tokens() == before.tokens()
            } else {
                exists|refreshed: Result<TokenSet>|
                    #[trigger] refreshed_by(before.spec_http(), before.spec_credentials(), tokens.refresh_token@, refreshed)
                        && refresh_settled(before.spec_store(), before.tokens(), refreshed, after.tokens(), result)
            },
        }
    }

    /// A session that has not looked at the store yet.
    pub fn new(credentials: Credentials, http: H, store: S) -> (session: Self)
        ensures
            session.tokens() is None,
            session.spec_credentials() == credentials,
            session.spec_http() == http,
            session.spec_store() == store,
    {
        Session { credentials, http, store, tokens: None }
    }

    /// Load the stored session. Returns whether there was one.
    pub fn restore(&mut self) -> (result: Result<bool>)
        ensures
            final(self).spec_credentials() == old(self).spec_credentials(),
            final(self).spec_http() == old(self).spec_http(),
            final(self).spec_store() == old(self).spec_store(),
            exists|answer: Result<Option<TokenSet>>|
                #[trigger] old(self).spec_store().loaded(answer) && match answer {
                    Ok(tokens) => final(self).tokens() == tokens && result == Ok::<bool, Error>(tokens is Some),
                    Err(error) => final(self).tokens() == old(self).tokens() && result == Err::<bool, Error>(error),
                },
    {
        let answer = self.store.load();
        proof {
            assert(old(self).spec_store().loaded(answer));
        }
        match answer {
            Ok(tokens) => {
                self.tokens = tokens;
                Ok(self.tokens.is_some())
            },
            Err(error) => Err(error),
        }
    }

    /// Complete a login from what the user pasted, and store the result.
    ///
    /// Nothing changes unless the exchange and the store both succeed.
    pub fn log_in(&mut self, pasted: &str) -> (result: Result<()>)
        ensures
            final(self).spec_credentials() == old(self).spec_credentials(),
            final(self).spec_http() == old(self).spec_http(),
            final(self).spec_store() == old(self).spec_store(),
            extracted(pasted@) matches Err(message) ==> (result matches Err(Error::Auth(m))
                && m@ == message),
            extracted(pasted@) matches Ok(code) ==> exists|exchanged: Result<TokenSet>|
                #[trigger] exchanged_by(old(self).spec_http(), old(self).spec_credentials(), code, exchanged)
                    && login_settled(old(self).spec_store(), old(self).tokens(), exchanged, final(self).tokens(), result),
            result is Err ==> final(self).tokens() == old(self).tokens(),
    {
        let code = match extract_code(pasted) {
            Ok(code) => code,
            Err(error) => return Err(error),
        };
        let exchanged = exchange_code(&self.http, &self.credentials, code.as_str());
        let ghost outcome = exchanged;
        let result = match exchanged {
            Ok(tokens) => {
                let answer = self.store.save(&tokens);
                proof {
                    assert(self.store.saved(tokens, answer));
                }
                match answer {
                    Ok(()) => {
                        self.tokens = Some(tokens);
                        Ok(())
                    },
                    Err(error) => Err(error),
                }
            },
            Err(error) => Err(error),
        };
        proof {
            assert(exchanged_by(old(self).spec_http(), old(self).spec_credentials(), code@, outcome));
            assert(login_settled(old(self).spec_store(), old(self).tokens(), outcome, self.tokens(), result));
        }
        result
    }

    /// Forget the session, here and in the store.
    pub fn log_out(&mut self) -> (result: Result<()>)
        ensures
            final(self).spec_credentials() == old(self).spec_credentials(),
            final(self).spec_http() == old(self).spec_http(),
            final(self).spec_store() == old(self).spec_store(),
            final(self).tokens() is None,
            exists|answer: Result<()>| #[trigger] old(self).spec_store().cleared(answer) && result == answer,
    {
        self.tokens = None;
        self.store.clear()
    }

    /// The credentials this session authenticates with.
    pub fn credentials(&self) -> (credentials: &Credentials)
        ensures
            *credentials == self.spec_credentials(),
    {
        &self.credentials
    }

    /// Where the session keeps its tokens.
    pub closed spec fn spec_store(&self) -> S {
        self.store
    }

    /// Where this session's tokens are kept.
    pub fn store(&self) -> (store: &S)
        ensures
            *store == self.spec_store(),
    {
        &self.store
    }

    /// The GOG user id, when there is a session.
    pub fn user_id(&self) -> (user: Option<&str>)
        ensures
            match self.tokens() {
                Some(tokens) => user matches Some(id) && id@ == tokens.user_id@,
                None => user is None,
            },
    {
        match &self.tokens {
            Some(tokens) => Some(tokens.user_id.as_str()),
            None => None,
        }
    }

    /// When the current access token stops being accepted.
    pub fn expires_at(&self) -> (expiry: Option<Timestamp>)
        ensures
            match self.tokens() {
                Some(tokens) => expiry == Some(tokens.expires_at),
                None => expiry is None,
            },
    {
        match &self.tokens {
            Some(tokens) => Some(tokens.expires_at),
            None => None,
        }
    }

    /// A usable access token, refreshing and re-storing it if it is due.
    pub fn access_token(&mut self) -> (result: Result<String>)
        ensures
            final(self).spec_credentials() == old(self).spec_credentials(),
            final(self).spec_http() == old(self).spec_http(),
            final(self).spec_store() == old(self).spec_store(),
            exists|at: Timestamp| #[trigger] Self::access_outcome(*old(self), *final(self), at, result),
            result matches Ok(token) ==> final(self).tokens() matches Some(tokens) && tokens.access_token == token,
    {
        self.access_token_at(now())
    }

    /// [`Session::access_token`] with an explicit clock.
    ///
    /// With no session this is [`Error::NotLoggedIn`]. A token with more than a
    /// minute left is handed out as it is. A due one is refreshed: the new tokens
    /// are stored before they are used; a refresh GOG refuses discards the session,
    /// here and in the store, since keeping it only makes the next run fail the
    /// same way; any other failure keeps the session.
    pub fn access_token_at(&mut self, now: Timestamp) -> (result: Result<String>)
        ensures
            final(self).spec_credentials() == old(self).spec_credentials(),
            final(self).spec_http() == old(self).spec_http(),
            final(self).spec_store() == old(self).spec_store(),
            Self::access_outcome(*old(self), *final(self), now, result),
            result matches Ok(token) ==> final(self).tokens() matches Some(tokens) && tokens.access_token == token,
    {
        let tokens = match &self.tokens {
            Some(tokens) => tokens,
            None => return Err(Error::NotLoggedIn),
        };
        if !tokens.is_expired(now) {
            return Ok(tokens.access_token.clone());
        }
        // GOG rotates the refresh token, so what comes back replaces what went in.
        let refreshed = refresh(&self.http, &self.credentials, tokens.refresh_token.as_str());
        let ghost outcome = refreshed;
        let result = match refreshed {
            Ok(refreshed) => {
                let answer = self.store.save(&refreshed);
                proof {
                    assert(self.store.saved(refreshed, answer));
                }
                match answer {
                    Ok(()) => {
                        let access_token = refreshed.access_token.clone();
                        self.tokens = Some(refreshed);
                        Ok(access_token)
                    },
                    Err(error) => Err(error),
                }
            },
            Err(Error::Auth(reason)) => {
                self.tokens = None;
                let answer = self.store.clear();
                proof {
                    assert(self.store.cleared(answer));
                }
                match answer {
                    Ok(()) => Err(
                        Error::Auth(
                            joined(
                                reason.as_str(),
                                "; the stored session was discarded, run `gamestore login` again",
                            ),
                        ),
                    ),
                    Err(error) => Err(error),
                }
            },
            Err(other) => Err(other),
        };
        proof {
            let before = old(self).tokens().unwrap();
            assert(refreshed_by(old(self).spec_http(), old(self).spec_credentials(), before.refresh_token@, outcome));
            assert(refresh_settled(old(self).spec_store(), old(self).tokens(), outcome, self.tokens(), result));
        }
        result
    }
}

/// Law: after a refresh, the session answers with a token only when the refresh
/// gave fresh tokens and they were stored, and then it holds exactly those; a
/// refresh GOG refused always leaves no session and an error, naming GOG's reason
/// and `gamestore login` when the store was cleared; any other failed refresh
/// keeps the session as it was and is the answer.
pub proof fn lemma_refresh_settles<S: TokenStore>(
    store: S,
    before: Option<TokenSet>,
    refreshed: Result<TokenSet>,
    after: Option<TokenSet>,
    result: Result<String>,
)
    requires
        refresh_settled(store, before, refreshed, after, result),
    ensures
        result matches Ok(token) ==> (refreshed matches Ok(fresh) && after == Some(fresh) && token
            == fresh.access_token),
        refreshed matches Err(Error::Auth(_)) ==> (after is None && result is Err),
        (refreshed matches Err(Error::Auth(_)) && forall|answer: Result<()>| #[trigger] store.cleared(answer)
            ==> answer is Ok) ==> (result matches Err(Error::Auth(message)) && message@ == refreshed->Err_0->Auth_0@
            + "; the stored session was discarded, run `gamestore login` again"@),
        (refreshed is Err && !(refreshed->Err_0 is Auth)) ==> (after == before && result == Err::<String, Error>(
            refreshed->Err_0,
        )),
{
}

} // verus!
