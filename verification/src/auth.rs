//! GOG OAuth2 authorization code flow.
//!
//! GOG publishes no device authorization grant, and the client credentials in use
//! have their `redirect_uri` fixed on GOG's side, so nothing can hand the
//! authorization code back to this machine on its own: the user logs in in a
//! browser and pastes what they land on. This module only obtains and refreshes
//! the tokens; keeping them is [`crate::tokens`]'s job.

use vstd::prelude::*;
use vstd::utf8::*;

use crate::error::{Error, Result};
use crate::http::{find_char, first_index_of, lemma_first_index_of, HttpClient, Response};
use crate::json::{
    member, member_leaf, members_at, optional_text, optional_text_leaf, required_text, required_text_leaf,
    json_members_at, whole_number, whole_number_of, Leaf, Scalar,
};
use crate::time::{add_secs, as_nanos, now, plus_secs, Timestamp};
use crate::text::{
    chars_of, debug_quoted, debug_string, decimal, decimal_string, joined, owned, push_char,
    same_chars, slice_chars, string_of, trim_chars, trimmed,
};

verus! {

/// Where the user logs in.
pub const AUTH_ENDPOINT: &'static str = "https://auth.gog.com/auth";
/// Where a code or a refresh token is exchanged for an access token.
pub const TOKEN_ENDPOINT: &'static str = "https://auth.gog.com/token";
/// The redirect the GOG Galaxy client credentials are registered with. The login
/// lands here with `?code=…` in the address, which is what the user pastes back.
pub const GALAXY_REDIRECT_URI: &'static str = "https://embed.gog.com/on_login_success?origin=client";
/// Environment variable holding the OAuth2 client id.
pub const CLIENT_ID_ENV: &'static str = "GOG_CLIENT_ID";
/// Environment variable holding the OAuth2 client secret.
pub const CLIENT_SECRET_ENV: &'static str = "GOG_CLIENT_SECRET";

// ---------------------------------------------------------------------------
// Percent-encoding of query values.

/// The RFC 3986 unreserved characters, which a query value keeps as they are:
/// letters, digits and `-._~`. GOG compares the `redirect_uri` against the one the
/// client is registered with, so the value it sees is the obvious spelling.
pub open spec fn unreserved(b: u8) -> bool {
    ||| 48 <= b <= 57
    ||| 65 <= b <= 90
    ||| 97 <= b <= 122
    ||| b == 45
    ||| b == 46
    ||| b == 95
    ||| b == 126
}

/// The uppercase hexadecimal digit for `d`.
pub open spec fn upper_hex(d: nat) -> char {
    if d < 10 {
        ((48 + d) as u8) as char
    } else {
        ((55 + d) as u8) as char
    }
}

/// A byte escaped as `%` and two uppercase hexadecimal digits.
pub open spec fn escaped_byte(b: u8) -> Seq<char> {
    seq!['%', upper_hex((b / 16) as nat), upper_hex((b % 16) as nat)]
}

/// Bytes as a query value: unreserved ones as themselves, every other one escaped.
pub open spec fn percent_encoded(bytes: Seq<u8>) -> Seq<char>
    decreases bytes.len(),
{
    if bytes.len() == 0 {
        Seq::empty()
    } else {
        percent_encoded(bytes.drop_last()) + if unreserved(bytes.last()) {
            seq![bytes.last() as char]
        } else {
            escaped_byte(bytes.last())
        }
    }
}

/// Text as a query value: its UTF-8 bytes, percent-encoded.
pub open spec fn url_encoded(text: Seq<char>) -> Seq<char> {
    percent_encoded(encode_utf8(text))
}

/// The escape for one byte.
///
/// Trusted: `percent_encoding::percent_encode_byte`, which looks the byte up in a
/// table of `%00` to `%FF` with uppercase digits.
#[verifier::external_body]
fn percent_encode_byte(byte: u8) -> (escaped: &'static str)
    ensures
        escaped@ == escaped_byte(byte),
{
    percent_encoding::percent_encode_byte(byte)
}

/// `value` as a query value.
pub fn encode(value: &str) -> (encoded: String)
    ensures
        encoded@ == url_encoded(value@),
{
    let bytes = value.as_bytes();
    let mut encoded = String::new();
    let mut i: usize = 0;
    while i < bytes.len()
        invariant
            i <= bytes.len(),
            bytes@ == encode_utf8(value@),
            encoded@ == percent_encoded(bytes@.take(i as int)),
        decreases bytes.len() - i,
    {
        let b = bytes[i];
        let unreserved_byte = (48 <= b && b <= 57) || (65 <= b && b <= 90) || (97 <= b && b <= 122)
            || b == 45 || b == 46 || b == 95 || b == 126;
        if unreserved_byte {
            push_char(&mut encoded, b as char);
        } else {
            encoded.append(percent_encode_byte(b));
        }
        proof {
            assert(bytes@.take(i + 1).drop_last() =~= bytes@.take(i as int));
            assert(bytes@.take(i + 1).last() == b);
        }
        i = i + 1;
    }
    proof {
        assert(bytes@.take(i as int) =~= bytes@);
    }
    encoded
}

/// What percent-decoding `text` gives: each `%` and two hexadecimal digits become
/// the byte they spell, and the bytes are read as UTF-8, with anything that is not
/// UTF-8 replaced.
pub uninterp spec fn percent_decoded(text: Seq<char>) -> Seq<char>;

/// A query value, decoded.
///
/// Trusted: `percent_encoding::percent_decode_str` followed by its
/// `decode_utf8_lossy`, whose result depends on the text alone.
#[verifier::external_body]
fn decode(value: &str) -> (decoded: String)
    ensures
        decoded@ == percent_decoded(value@),
{
    percent_encoding::percent_decode_str(value).decode_utf8_lossy().into_owned()
}

// ---------------------------------------------------------------------------
// Client credentials.

/// OAuth2 client credentials.
///
/// Which credentials to use is still open: ship the well-known GOG Galaxy ones as
/// other clients do, or make the user supply their own. Nothing is baked in, so
/// both answers stay available.
#[derive(Clone, PartialEq, Eq)]
pub struct Credentials {
    pub client_id: String,
    pub client_secret: String,
    pub redirect_uri: String,
}

/// The address to open in a browser to log in.
pub open spec fn authorization_address(client_id: Seq<char>, redirect_uri: Seq<char>) -> Seq<char> {
    AUTH_ENDPOINT@ + "?client_id="@ + url_encoded(client_id) + "&redirect_uri="@ + url_encoded(
        redirect_uri,
    ) + "&response_type=code&layout=client2"@
}

impl Credentials {
    /// Credentials with the redirect the Galaxy client is registered with.
    pub fn new(client_id: &str, client_secret: &str) -> (credentials: Credentials)
        ensures
            credentials.client_id@ == client_id@,
            credentials.client_secret@ == client_secret@,
            credentials.redirect_uri@ == GALAXY_REDIRECT_URI@,
    {
        Credentials {
            client_id: owned(client_id),
            client_secret: owned(client_secret),
            redirect_uri: owned(GALAXY_REDIRECT_URI),
        }
    }

    /// Use a different redirect than [`GALAXY_REDIRECT_URI`].
    pub fn with_redirect_uri(self, redirect_uri: &str) -> (credentials: Credentials)
        ensures
            credentials.client_id == self.client_id,
            credentials.client_secret == self.client_secret,
            credentials.redirect_uri@ == redirect_uri@,
    {
        Credentials { redirect_uri: owned(redirect_uri), ..self }
    }

    /// The URL to open in a browser to log in.
    pub fn authorization_url(&self) -> (url: String)
        ensures
            url@ == authorization_address(self.client_id@, self.redirect_uri@),
    {
        let id = encode(self.client_id.as_str());
        let redirect = encode(self.redirect_uri.as_str());
        let url = joined(AUTH_ENDPOINT, "?client_id=");
        let url = joined(url.as_str(), id.as_str());
        let url = joined(url.as_str(), "&redirect_uri=");
        let url = joined(url.as_str(), redirect.as_str());
        joined(url.as_str(), "&response_type=code&layout=client2")
    }

    /// The credentials as `{:?}` would show them, with the secret replaced by
    /// `<redacted>`: the secret is never printed.
    pub fn debug_text(&self) -> (text: String)
        ensures
            text@ == "Credentials { client_id: "@ + debug_quoted(self.client_id@)
                + ", client_secret: \"<redacted>\", redirect_uri: "@ + debug_quoted(
                self.redirect_uri@,
            ) + " }"@,
    {
        let id = debug_string(self.client_id.as_str());
        let redirect = debug_string(self.redirect_uri.as_str());
        let text = joined("Credentials { client_id: ", id.as_str());
        let text = joined(text.as_str(), ", client_secret: \"<redacted>\", redirect_uri: ");
        let text = joined(text.as_str(), redirect.as_str());
        joined(text.as_str(), " }")
    }
}

// ---------------------------------------------------------------------------
// The code the user pastes back.

/// A character an authorization code can hold: an ASCII letter or digit, `-`, `_`
/// or `.`.
pub open spec fn code_char(c: char) -> bool {
    ||| '0' <= c <= '9'
    ||| 'a' <= c <= 'z'
    ||| 'A' <= c <= 'Z'
    ||| c == '-'
    ||| c == '_'
    ||| c == '.'
}

/// Whether text looks like an authorization code: eight characters or more, all
/// of them ones a code can hold.
pub open spec fn plausible_code(code: Seq<char>) -> bool {
    code.len() >= 8 && forall|i: int| 0 <= i < code.len() ==> code_char(#[trigger] code[i])
}

/// What checking a candidate code gives: the code without surrounding white space
/// when it looks like one, else the message saying what to paste instead.
pub open spec fn validated(code: Seq<char>) -> core::result::Result<Seq<char>, Seq<char>> {
    if plausible_code(trimmed(code)) {
        Ok(trimmed(code))
    } else {
        Err(
            "that does not look like an authorization code; paste the whole address you landed on, or just the value of `code`"@,
        )
    }
}

/// `text` cut at every `sep`, as `str::split` cuts it.
pub open spec fn split_on(text: Seq<char>, sep: char) -> Seq<Seq<char>>
    decreases text.len(),
{
    match first_index_of(text, sep) {
        Some(i) => {
            proof {
                lemma_first_index_of(text, sep);
            }
            seq![text.take(i)] + split_on(text.skip(i + 1), sep)
        },
        None => seq![text],
    }
}

/// A query piece as a key and its decoded value, when it holds a `=`.
pub open spec fn pair_of(piece: Seq<char>) -> Option<(Seq<char>, Seq<char>)> {
    match first_index_of(piece, '=') {
        Some(i) => Some((piece.take(i), percent_decoded(piece.skip(i + 1)))),
        None => None,
    }
}

/// The value of the last piece whose key is `key`.
pub open spec fn last_value(pieces: Seq<Seq<char>>, key: Seq<char>) -> Option<Seq<char>>
    decreases pieces.len(),
{
    if pieces.len() == 0 {
        None
    } else {
        match pair_of(pieces.last()) {
            Some((k, v)) if k == key => Some(v),
            _ => last_value(pieces.drop_last(), key),
        }
    }
}

/// What the user pasted, read: the authorization code, or the message to show.
///
/// A pasted address is read by its query: an `error` there is GOG's answer and
/// wins; otherwise its `code` is the code. Anything without a `?` is taken as the
/// bare code.
pub open spec fn extracted(pasted: Seq<char>) -> core::result::Result<Seq<char>, Seq<char>> {
    let input = trimmed(pasted);
    if input.len() == 0 {
        Err("nothing was pasted"@)
    } else {
        match first_index_of(input, '?') {
            None => validated(input),
            Some(i) => {
                let pieces = split_on(input.skip(i + 1), '&');
                match last_value(pieces, "error"@) {
                    Some(error) => Err(
                        match last_value(pieces, "error_description"@) {
                            Some(description) => error + ": "@ + description,
                            None => error,
                        },
                    ),
                    None => match last_value(pieces, "code"@) {
                        Some(code) => validated(code),
                        None => Err(
                            "that address has no `code` in it; log in again and paste the address you land on"@,
                        ),
                    },
                }
            },
        }
    }
}

/// Whether an exec result is the outcome `expected`, with its message as an
/// [`Error::Auth`].
pub open spec fn auth_outcome(result: Result<String>, expected: core::result::Result<Seq<char>, Seq<char>>) -> bool {
    match result {
        Ok(text) => expected == Ok::<Seq<char>, Seq<char>>(text@),
        Err(Error::Auth(message)) => expected == Err::<Seq<char>, Seq<char>>(message@),
        Err(_) => false,
    }
}

/// The first occurrence of `c` is at `i` when `i` holds it and nothing before does.
proof fn lemma_first_index_is(text: Seq<char>, c: char, i: int)
    requires
        0 <= i <= text.len(),
        forall|j: int| 0 <= j < i ==> text[j] != c,
        i < text.len() ==> text[i] == c,
    ensures
        first_index_of(text, c) == if i < text.len() {
            Some(i)
        } else {
            None::<int>
        },
{
    lemma_first_index_of(text, c);
}

/// Check a candidate code.
fn validate_code(code: &[char]) -> (result: Result<String>)
    ensures
        auth_outcome(result, validated(code@)),
{
    let code = trim_chars(code);
    let mut plausible = code.len() >= 8;
    let mut i: usize = 0;
    while i < code.len()
        invariant
            i <= code@.len(),
            plausible == (code@.len() >= 8 && forall|j: int| 0 <= j < i ==> code_char(#[trigger] code@[j])),
        decreases code@.len() - i,
    {
        let c = code[i];
        let ok = ('0' <= c && c <= '9') || ('a' <= c && c <= 'z') || ('A' <= c && c <= 'Z') || c == '-'
            || c == '_' || c == '.';
        if !ok {
            plausible = false;
        }
        i = i + 1;
    }
    if plausible {
        Ok(string_of(code.as_slice()))
    } else {
        Err(
            Error::Auth(
                owned(
                    "that does not look like an authorization code; paste the whole address you landed on, or just the value of `code`",
                ),
            ),
        )
    }
}

/// Pull the authorization code out of what the user pasted: either the whole
/// address they landed on, or the bare code.
pub fn extract_code(input: &str) -> (result: Result<String>)
    ensures
        auth_outcome(result, extracted(input@)),
{
    let pasted = chars_of(input);
    let input = trim_chars(pasted.as_slice());
    if input.len() == 0 {
        return Err(Error::Auth(owned("nothing was pasted")));
    }
    let i = match find_char(input.as_slice(), '?') {
        Some(i) => i,
        None => return validate_code(input.as_slice()),
    };
    proof {
        lemma_first_index_of(input@, '?');
    }
    let query = slice_chars(input.as_slice(), i + 1, input.len());
    assert(query@ =~= input@.skip(i + 1));
    let code_key = chars_of("code");
    let error_key = chars_of("error");
    let description_key = chars_of("error_description");
    let mut code: Option<String> = None;
    let mut error: Option<String> = None;
    let mut description: Option<String> = None;
    let ghost mut done: Seq<Seq<char>> = Seq::empty();
    let mut pos: usize = 0;
    let mut more = true;
    proof {
        reveal_strlit("code");
        reveal_strlit("error");
        reveal_strlit("error_description");
        assert("code"@.len() != "error"@.len());
        assert("code"@.len() != "error_description"@.len());
        assert("error"@.len() != "error_description"@.len());
        assert(query@.skip(0) =~= query@);
        assert(done + split_on(query@.skip(0), '&') =~= split_on(query@, '&'));
    }
    while more
        invariant
            pos <= query@.len(),
            code_key@ == "code"@,
            error_key@ == "error"@,
            description_key@ == "error_description"@,
            "code"@ != "error"@,
            "code"@ != "error_description"@,
            "error"@ != "error_description"@,
            more ==> split_on(query@, '&') == done + split_on(query@.skip(pos as int), '&'),
            !more ==> split_on(query@, '&') == done,
            code matches Some(c) ==> last_value(done, "code"@) == Some(c@),
            code is None ==> last_value(done, "code"@) is None,
            error matches Some(e) ==> last_value(done, "error"@) == Some(e@),
            error is None ==> last_value(done, "error"@) is None,
            description matches Some(d) ==> last_value(done, "error_description"@) == Some(d@),
            description is None ==> last_value(done, "error_description"@) is None,
        decreases query@.len() - pos + if more { 1int } else { 0int },
    {
        let mut j: usize = pos;
        while j < query.len() && query[j] != '&'
            invariant
                pos <= j <= query@.len(),
                forall|k: int| pos <= k < j ==> query@[k] != '&',
            decreases query@.len() - j,
        {
            j = j + 1;
        }
        let piece = slice_chars(query.as_slice(), pos, j);
        let ghost rest = query@.skip(pos as int);
        proof {
            lemma_first_index_is(rest, '&', j - pos);
            if j < query.len() {
                assert(rest.take(j - pos) =~= piece@);
                assert(rest.skip(j - pos + 1) =~= query@.skip(j + 1));
            } else {
                assert(rest =~= piece@);
            }
        }
        match find_char(piece.as_slice(), '=') {
            Some(k) => {
                proof {
                    lemma_first_index_of(piece@, '=');
                }
                let key = slice_chars(piece.as_slice(), 0, k);
                let raw = slice_chars(piece.as_slice(), k + 1, piece.len());
                let raw = string_of(raw.as_slice());
                let value = decode(raw.as_str());
                proof {
                    assert(key@ =~= piece@.take(k as int));
                    assert(raw@ =~= piece@.skip(k + 1));
                }
                if same_chars(key.as_slice(), code_key.as_slice()) {
                    code = Some(value);
                } else if same_chars(key.as_slice(), error_key.as_slice()) {
                    error = Some(value);
                } else if same_chars(key.as_slice(), description_key.as_slice()) {
                    description = Some(value);
                }
            },
            None => {},
        }
        proof {
            assert((done.push(piece@)).drop_last() =~= done);
            assert((done.push(piece@)).last() == piece@);
            if j < query.len() {
                assert(done + split_on(rest, '&') =~= done.push(piece@) + split_on(query@.skip(j + 1), '&'));
            } else {
                assert(done + split_on(rest, '&') =~= done.push(piece@));
            }
            done = done.push(piece@);
        }
        if j < query.len() {
            pos = j + 1;
        } else {
            more = false;
        }
    }
    match error {
        Some(error) => {
            let message = match description {
                Some(description) => {
                    let text = joined(error.as_str(), ": ");
                    joined(text.as_str(), description.as_str())
                },
                None => error,
            };
            Err(Error::Auth(message))
        },
        None => match code {
            Some(code) => validate_code(chars_of(code.as_str()).as_slice()),
            None => Err(
                Error::Auth(
                    owned(
                        "that address has no `code` in it; log in again and paste the address you land on",
                    ),
                ),
            ),
        },
    }
}

// ---------------------------------------------------------------------------
// Tokens.

/// Tokens for an authenticated session.
#[derive(Clone, PartialEq, Eq)]
pub struct TokenSet {
    pub access_token: String,
    pub refresh_token: String,
    pub user_id: String,
    pub session_id: Option<String>,
    /// When the access token stops being accepted.
    pub expires_at: Timestamp,
}

/// The fields of GOG's token response that a session keeps.
#[derive(Clone, PartialEq, Eq)]
pub struct TokenResponse {
    pub access_token: String,
    pub refresh_token: String,
    pub user_id: String,
    pub session_id: Option<String>,
    /// Seconds until the access token stops being accepted.
    pub expires_in: u64,
}

/// Whether an access token that expires at `expires_at` needs refreshing at
/// `now`: it has expired, or has less than a minute left, so a request does not
/// start on a token that expires mid-flight.
pub open spec fn token_expired(expires_at: Timestamp, now: Timestamp) -> bool {
    as_nanos(expires_at) < as_nanos(now) || as_nanos(expires_at) - as_nanos(now) < 60_000_000_000
}

impl TokenSet {
    /// Whether the access token needs refreshing at `now`, with a minute of margin.
    pub fn is_expired(&self, now: Timestamp) -> (expired: bool)
        ensures
            expired == token_expired(self.expires_at, now),
    {
        let expires = self.expires_at.nanos_since_epoch();
        let current = now.nanos_since_epoch();
        if expires < current {
            return true;
        }
        expires - current < 60_000_000_000u128
    }

    /// The tokens a response carries, received at `now`.
    pub fn from_response(response: TokenResponse, now: Timestamp) -> (tokens: TokenSet)
        ensures
            tokens.access_token == response.access_token,
            tokens.refresh_token == response.refresh_token,
            tokens.user_id == response.user_id,
            tokens.session_id == response.session_id,
            tokens.expires_at == plus_secs(now, response.expires_in),
    {
        TokenSet {
            access_token: response.access_token,
            refresh_token: response.refresh_token,
            user_id: response.user_id,
            session_id: response.session_id,
            expires_at: add_secs(now, response.expires_in),
        }
    }

    /// The tokens as `{:?}` would show them, with every token replaced by
    /// `<redacted>`: only the user id and the expiry are printed.
    pub fn debug_text(&self) -> (text: String)
        ensures
            text@ == "TokenSet { access_token: \"<redacted>\", refresh_token: \"<redacted>\", user_id: "@
                + debug_quoted(self.user_id@) + ", session_id: "@ + (if self.session_id is Some {
                "Some(\"<redacted>\")"@
            } else {
                "None"@
            }) + ", expires_at: Timestamp { secs: "@ + decimal(self.expires_at.secs as nat)
                + ", nanos: "@ + decimal(self.expires_at.nanos as nat) + " } }"@,
    {
        let user = debug_string(self.user_id.as_str());
        let text = joined(
            "TokenSet { access_token: \"<redacted>\", refresh_token: \"<redacted>\", user_id: ",
            user.as_str(),
        );
        let text = joined(text.as_str(), ", session_id: ");
        let text = match &self.session_id {
            Some(_) => joined(text.as_str(), "Some(\"<redacted>\")"),
            None => joined(text.as_str(), "None"),
        };
        let text = joined(text.as_str(), ", expires_at: Timestamp { secs: ");
        let secs = decimal_string(self.expires_at.secs);
        let text = joined(text.as_str(), secs.as_str());
        let text = joined(text.as_str(), ", nanos: ");
        let nanos = decimal_string(self.expires_at.nanos as u64);
        let text = joined(text.as_str(), nanos.as_str());
        joined(text.as_str(), " } }")
    }
}

/// What GOG's token response `body` holds: the access token, the refresh token,
/// the user id, the session id when there is one, and the access token's lifetime
/// in seconds; or why it cannot be read.
pub open spec fn token_response_read(body: Seq<char>) -> core::result::Result<
    (Seq<char>, Seq<char>, Seq<char>, Option<Seq<char>>, u64),
    Seq<char>,
> {
    match json_members_at(body, ""@) {
        None => Err("the response is not a JSON object"@),
        Some(members) => match required_text_leaf(members, "access_token"@) {
            Err(reason) => Err(reason),
            Ok(access) => match required_text_leaf(members, "refresh_token"@) {
                Err(reason) => Err(reason),
                Ok(refresh) => match required_text_leaf(members, "user_id"@) {
                    Err(reason) => Err(reason),
                    Ok(user) => match optional_text_leaf(members, "session_id"@) {
                        Err(reason) => Err(reason),
                        Ok(session) => match member_leaf(members, "expires_in"@) {
                            None => Err("missing field `expires_in`"@),
                            Some(Leaf::Number(text)) => match whole_number(text) {
                                Some(seconds) => Ok((access, refresh, user, session, seconds)),
                                None => Err("`expires_in` is not a whole number of seconds"@),
                            },
                            Some(_) => Err("`expires_in` is not a whole number of seconds"@),
                        },
                    },
                },
            },
        },
    }
}

/// Whether a read token response holds the fields `read` gives.
pub open spec fn response_holds(
    response: TokenResponse,
    read: (Seq<char>, Seq<char>, Seq<char>, Option<Seq<char>>, u64),
) -> bool {
    &&& response.access_token@ == read.0
    &&& response.refresh_token@ == read.1
    &&& response.user_id@ == read.2
    &&& match (response.session_id, read.3) {
        (Some(id), Some(expected)) => id@ == expected,
        (None, None) => true,
        _ => false,
    }
    &&& response.expires_in == read.4
}

/// Read GOG's token response, or say why it cannot be read.
pub fn read_token_response(body: &str) -> (result: core::result::Result<TokenResponse, String>)
    ensures
        match (result, token_response_read(body@)) {
            (Ok(response), Ok(read)) => response_holds(response, read),
            (Err(reason), Err(expected)) => reason@ == expected,
            _ => false,
        },
{
    let members = match members_at(body, "") {
        Some(members) => members,
        None => return Err(owned("the response is not a JSON object")),
    };
    let access_token = match required_text(members.as_slice(), "access_token") {
        Ok(text) => text,
        Err(reason) => return Err(reason),
    };
    let refresh_token = match required_text(members.as_slice(), "refresh_token") {
        Ok(text) => text,
        Err(reason) => return Err(reason),
    };
    let user_id = match required_text(members.as_slice(), "user_id") {
        Ok(text) => text,
        Err(reason) => return Err(reason),
    };
    let session_id = match optional_text(members.as_slice(), "session_id") {
        Ok(text) => text,
        Err(reason) => return Err(reason),
    };
    let expires_in = match member(members.as_slice(), "expires_in") {
        None => return Err(owned("missing field `expires_in`")),
        Some(Scalar::Number(text)) => match whole_number_of(text.as_str()) {
            Some(seconds) => seconds,
            None => return Err(owned("`expires_in` is not a whole number of seconds")),
        },
        Some(_) => return Err(owned("`expires_in` is not a whole number of seconds")),
    };
    Ok(TokenResponse { access_token, refresh_token, user_id, session_id, expires_in })
}

/// How a rejection is described: the status, then GOG's `error` and
/// `error_description` when its body carries them.
pub open spec fn rejection_prefix(status: u16) -> Seq<char> {
    "GOG rejected the request ("@ + decimal(status as nat) + ")"@
}

/// What a rejection's body adds to its description: GOG's `error`, and its
/// `error_description` after it, when the body is an object carrying them as
/// strings.
pub open spec fn failure_detail(body: Seq<char>) -> Seq<char> {
    match json_members_at(body, ""@) {
        Some(members) => match (optional_text_leaf(members, "error"@), optional_text_leaf(members, "error_description"@)) {
            (Ok(Some(error)), Ok(Some(description))) => ": "@ + error + ": "@ + description,
            (Ok(Some(error)), Ok(None)) => ": "@ + error,
            _ => Seq::empty(),
        },
        None => Seq::empty(),
    }
}

/// Describe a non-2xx token response.
pub fn describe_failure(response: &Response) -> (message: String)
    ensures
        message@ == rejection_prefix(response.status) + failure_detail(response.body@),
{
    let status = decimal_string(response.status as u64);
    let prefix = joined("GOG rejected the request (", status.as_str());
    let prefix = joined(prefix.as_str(), ")");
    let detail = match members_at(response.body.as_str(), "") {
        Some(members) => match (optional_text(members.as_slice(), "error"), optional_text(members.as_slice(), "error_description")) {
            (Ok(Some(error)), Ok(Some(description))) => {
                let text = joined(": ", error.as_str());
                let text = joined(text.as_str(), ": ");
                joined(text.as_str(), description.as_str())
            },
            (Ok(Some(error)), Ok(None)) => joined(": ", error.as_str()),
            _ => String::new(),
        },
        None => String::new(),
    };
    joined(prefix.as_str(), detail.as_str())
}

/// The message for a token response that cannot be read.
pub open spec fn unreadable_response(reason: Seq<char>) -> Seq<char> {
    "GOG returned a token response that could not be read ("@ + reason + "); the flow may have changed"@
}

/// Whether `tokens` are what a successful token response `body`, received at
/// `now`, holds: its tokens, user and session, and an expiry its lifetime after
/// `now`.
pub open spec fn tokens_read_from(tokens: TokenSet, body: Seq<char>, now: Timestamp) -> bool {
    match token_response_read(body) {
        Ok(read) => {
            &&& tokens.access_token@ == read.0
            &&& tokens.refresh_token@ == read.1
            &&& tokens.user_id@ == read.2
            &&& match (tokens.session_id, read.3) {
                (Some(id), Some(expected)) => id@ == expected,
                (None, None) => true,
                _ => false,
            }
            &&& tokens.expires_at == plus_secs(now, read.4)
        },
        Err(_) => false,
    }
}

/// Whether `result` is what the token response `response`, received at `now`,
/// gives: GOG's refusal for a non-2xx status, described as [`describe_failure`]
/// describes it; otherwise the tokens its body holds, or why it holds none.
pub open spec fn tokens_from_response(response: Response, now: Timestamp, result: Result<TokenSet>) -> bool {
    if !(200 <= response.status < 300) {
        result matches Err(Error::Auth(message)) && message@ == rejection_prefix(response.status)
            + failure_detail(response.body@)
    } else {
        match (result, token_response_read(response.body@)) {
            (Ok(tokens), Ok(_)) => tokens_read_from(tokens, response.body@, now),
            (Err(Error::Auth(message)), Err(reason)) => message@ == unreadable_response(reason),
            _ => false,
        }
    }
}

/// Whether `result` is what a token request that was answered with `answer`,
/// its clock read at `now` before it was sent, gives: a failed request's error as
/// it came, or what [`tokens_from_response`] reads from the response.
pub open spec fn token_outcome(answer: Result<Response>, now: Timestamp, result: Result<TokenSet>) -> bool {
    match answer {
        Ok(response) => tokens_from_response(response, now, result),
        Err(error) => result == Err::<TokenSet, Error>(error),
    }
}

/// The tokens in a response received at `now`, or why there are none: a non-2xx
/// status is GOG's refusal, described by [`describe_failure`]; a body that is not
/// a token response is an error too.
pub fn token_set_from(response: &Response, now: Timestamp) -> (result: Result<TokenSet>)
    ensures
        tokens_from_response(*response, now, result),
{
    if !response.is_success() {
        return Err(Error::Auth(describe_failure(response)));
    }
    match read_token_response(response.body.as_str()) {
        Ok(parsed) => Ok(TokenSet::from_response(parsed, now)),
        Err(reason) => {
            let message = joined("GOG returned a token response that could not be read (", reason.as_str());
            Err(Error::Auth(joined(message.as_str(), "); the flow may have changed")))
        },
    }
}

/// The token endpoint's address for exchanging `code`.
pub open spec fn exchange_address(credentials: Credentials, code: Seq<char>) -> Seq<char> {
    TOKEN_ENDPOINT@ + "?client_id="@ + url_encoded(credentials.client_id@) + "&client_secret="@
        + url_encoded(credentials.client_secret@) + "&grant_type=authorization_code&code="@
        + url_encoded(code) + "&redirect_uri="@ + url_encoded(credentials.redirect_uri@)
}

/// The token endpoint's address for trading in `refresh_token`.
pub open spec fn refresh_address(credentials: Credentials, refresh_token: Seq<char>) -> Seq<char> {
    TOKEN_ENDPOINT@ + "?client_id="@ + url_encoded(credentials.client_id@) + "&client_secret="@
        + url_encoded(credentials.client_secret@) + "&grant_type=refresh_token&refresh_token="@
        + url_encoded(refresh_token)
}

/// The address that exchanges `code` for tokens.
pub fn exchange_url(credentials: &Credentials, code: &str) -> (url: String)
    ensures
        url@ == exchange_address(*credentials, code@),
{
    let id = encode(credentials.client_id.as_str());
    let secret = encode(credentials.client_secret.as_str());
    let code = encode(code);
    let redirect = encode(credentials.redirect_uri.as_str());
    let url = joined(TOKEN_ENDPOINT, "?client_id=");
    let url = joined(url.as_str(), id.as_str());
    let url = joined(url.as_str(), "&client_secret=");
    let url = joined(url.as_str(), secret.as_str());
    let url = joined(url.as_str(), "&grant_type=authorization_code&code=");
    let url = joined(url.as_str(), code.as_str());
    let url = joined(url.as_str(), "&redirect_uri=");
    joined(url.as_str(), redirect.as_str())
}

/// The address that trades `refresh_token` for fresh tokens.
pub fn refresh_url(credentials: &Credentials, refresh_token: &str) -> (url: String)
    ensures
        url@ == refresh_address(*credentials, refresh_token@),
{
    let id = encode(credentials.client_id.as_str());
    let secret = encode(credentials.client_secret.as_str());
    let token = encode(refresh_token);
    let url = joined(TOKEN_ENDPOINT, "?client_id=");
    let url = joined(url.as_str(), id.as_str());
    let url = joined(url.as_str(), "&client_secret=");
    let url = joined(url.as_str(), secret.as_str());
    let url = joined(url.as_str(), "&grant_type=refresh_token&refresh_token=");
    joined(url.as_str(), token.as_str())
}

/// Whether `result` is what exchanging `code` through `http` gives: the refusal
/// of a code that does not look like one, or else what [`token_outcome`] makes of
/// the answer `http` gave for [`exchange_address`] of the validated code, sent
/// with no bearer.
pub open spec fn exchanged_by<H: HttpClient>(http: H, credentials: Credentials, code: Seq<char>, result: Result<TokenSet>) -> bool {
    match validated(code) {
        Err(message) => result matches Err(Error::Auth(m)) && m@ == message,
        Ok(valid) => exists|answer: Result<Response>, at: Timestamp|
            #![trigger token_outcome(answer, at, result)]
            http.answered(exchange_address(credentials, valid), None, answer) && token_outcome(answer, at, result),
    }
}

/// Whether `result` is what trading in `refresh_token` through `http` gives: what
/// [`token_outcome`] makes of the answer `http` gave for [`refresh_address`],
/// sent with no bearer.
pub open spec fn refreshed_by<H: HttpClient>(http: H, credentials: Credentials, refresh_token: Seq<char>, result: Result<TokenSet>) -> bool {
    exists|answer: Result<Response>, at: Timestamp|
        #![trigger token_outcome(answer, at, result)]
        http.answered(refresh_address(credentials, refresh_token), None, answer) && token_outcome(answer, at, result)
}

/// Exchange an authorization code for tokens: a code that does not look like one
/// is refused before anything is sent, and otherwise [`exchange_url`] is
/// requested and its answer read by [`token_set_from`], the expiry counted from
/// just before the request.
pub fn exchange_code<H: HttpClient>(http: &H, credentials: &Credentials, code: &str) -> (result: Result<TokenSet>)
    ensures
        exchanged_by(*http, *credentials, code@, result),
        result matches Ok(tokens) ==> validated(code@) is Ok && exists|body: Seq<char>, at: Timestamp| #[trigger] tokens_read_from(tokens, body, at),
{
    let code = match validate_code(chars_of(code).as_slice()) {
        Ok(code) => code,
        Err(error) => return Err(error),
    };
    let url = exchange_url(credentials, code.as_str());
    let at = now();
    let answer = http.get(url.as_str());
    let result = match answer {
        Ok(response) => token_set_from(&response, at),
        Err(error) => Err(error),
    };
    proof {
        assert(token_outcome(answer, at, result));
        if result is Ok {
            assert(tokens_read_from(result->Ok_0, answer->Ok_0.body@, at));
        }
    }
    result
}

/// Trade a refresh token for a fresh access token: [`refresh_url`] is requested
/// and its answer read by [`token_set_from`], the expiry counted from just before
/// the request. GOG rotates the refresh token, so the one that comes back
/// replaces the one that went in.
pub fn refresh<H: HttpClient>(http: &H, credentials: &Credentials, refresh_token: &str) -> (result: Result<TokenSet>)
    ensures
        refreshed_by(*http, *credentials, refresh_token@, result),
        result matches Ok(tokens) ==> exists|body: Seq<char>, at: Timestamp| #[trigger] tokens_read_from(tokens, body, at),
{
    let url = refresh_url(credentials, refresh_token);
    let at = now();
    let answer = http.get(url.as_str());
    let result = match answer {
        Ok(response) => token_set_from(&response, at),
        Err(error) => Err(error),
    };
    proof {
        assert(token_outcome(answer, at, result));
        if result is Ok {
            assert(tokens_read_from(result->Ok_0, answer->Ok_0.body@, at));
        }
    }
    result
}

/// Law: a pasted code is accepted exactly when, without its surrounding white
/// space, it has eight characters or more, each an ASCII letter or digit, `-`,
/// `_` or `.`; an accepted code is that trimmed text, unchanged.
pub proof fn lemma_code_acceptance(code: Seq<char>)
    ensures
        (trimmed(code).len() >= 8 && forall|i: int|
            0 <= i < trimmed(code).len() ==> {
                let c = #[trigger] trimmed(code)[i];
                ||| ('0' <= c && c <= '9')
                ||| ('a' <= c && c <= 'z')
                ||| ('A' <= c && c <= 'Z')
                ||| c == '-'
                ||| c == '_'
                ||| c == '.'
            }) <==> validated(code) == Ok::<Seq<char>, Seq<char>>(trimmed(code)),
        validated(code) matches Ok(accepted) ==> accepted == trimmed(code),
{
}

/// Law: both token requests send the same credentials, the client id and then
/// the client secret, each percent-encoded, after the token endpoint; the
/// authorization-code grant then names the code and the redirect, the refresh
/// grant the refresh token.
pub proof fn lemma_token_requests_carry_credentials(credentials: Credentials, code: Seq<char>, refresh_token: Seq<char>)
    ensures
        exchange_address(credentials, code) == TOKEN_ENDPOINT@ + "?client_id="@ + url_encoded(
            credentials.client_id@,
        ) + "&client_secret="@ + url_encoded(credentials.client_secret@)
            + "&grant_type=authorization_code&code="@ + url_encoded(code) + "&redirect_uri="@
            + url_encoded(credentials.redirect_uri@),
        refresh_address(credentials, refresh_token) == TOKEN_ENDPOINT@ + "?client_id="@ + url_encoded(
            credentials.client_id@,
        ) + "&client_secret="@ + url_encoded(credentials.client_secret@)
            + "&grant_type=refresh_token&refresh_token="@ + url_encoded(refresh_token),
{
}

/// Bytes that need no escape are sent as the characters they are.
proof fn lemma_unreserved_bytes_as_is(bytes: Seq<u8>)
    requires
        forall|i: int| 0 <= i < bytes.len() ==> unreserved(#[trigger] bytes[i]),
    ensures
        percent_encoded(bytes) == Seq::new(bytes.len(), |i: int| bytes[i] as char),
    decreases bytes.len(),
{
    if bytes.len() > 0 {
        let front = bytes.drop_last();
        assert forall|i: int| 0 <= i < front.len() implies unreserved(#[trigger] front[i]) by {
            assert(front[i] == bytes[i]);
        }
        lemma_unreserved_bytes_as_is(front);
        assert(unreserved(bytes[bytes.len() - 1]));
        assert(percent_encoded(bytes) =~= Seq::new(bytes.len(), |i: int| bytes[i] as char));
    }
}

/// Law: text made only of ASCII letters, digits, `-`, `.`, `_` and `~` goes into
/// a query exactly as it is.
pub proof fn lemma_plain_text_sent_as_is(text: Seq<char>)
    requires
        forall|i: int|
            0 <= i < text.len() ==> {
                let c = #[trigger] text[i];
                ||| ('0' <= c && c <= '9')
                ||| ('a' <= c && c <= 'z')
                ||| ('A' <= c && c <= 'Z')
                ||| c == '-'
                ||| c == '.'
                ||| c == '_'
                ||| c == '~'
            },
    ensures
        url_encoded(text) == text,
{
    assert(is_ascii_chars(text));
    is_ascii_chars_encode_utf8(text);
    let bytes = encode_utf8(text);
    assert forall|i: int| 0 <= i < bytes.len() implies unreserved(#[trigger] bytes[i]) by {
        assert(bytes[i] == text[i] as u8);
    }
    lemma_unreserved_bytes_as_is(bytes);
    assert forall|i: int| 0 <= i < text.len() implies (bytes[i] as char) == text[i] by {
        assert(bytes[i] == text[i] as u8);
    }
    assert(url_encoded(text) =~= text);
}

/// Law: any other ASCII character goes into a query as `%` and its code in two
/// uppercase hexadecimal digits.
pub proof fn lemma_other_ascii_escaped(c: char)
    requires
        c <= '\u{7f}',
        !('0' <= c && c <= '9'),
        !('a' <= c && c <= 'z'),
        !('A' <= c && c <= 'Z'),
        c != '-',
        c != '.',
        c != '_',
        c != '~',
    ensures
        url_encoded(seq![c]) == seq!['%', "0123456789ABCDEF"@[(c as u8 / 16) as int], "0123456789ABCDEF"@[(c as u8 % 16) as int]],
{
    reveal_strlit("0123456789ABCDEF");
    let text = seq![c];
    assert(is_ascii_chars(text));
    is_ascii_chars_encode_utf8(text);
    let bytes = encode_utf8(text);
    assert(bytes.len() == 1);
    assert(bytes[0] == c as u8);
    assert(bytes.drop_last() =~= Seq::<u8>::empty());
    assert(!unreserved(bytes.last()));
    let b = c as u8;
    assert(bytes.last() == b);
    assert(percent_encoded(bytes.drop_last()) =~= Seq::<char>::empty());
    assert(percent_encoded(bytes) =~= escaped_byte(b));
    assert(b / 16 < 8);
    let hex = "0123456789ABCDEF"@;
    assert(upper_hex((b / 16) as nat) == hex[(b / 16) as int]);
    assert(upper_hex((b % 16) as nat) == hex[(b % 16) as int]);
}

/// Law: an access token counts as expired from one minute before its expiry on:
/// with a minute or more left it is handed out, with less it is refreshed.
pub proof fn lemma_expiry_margin(expires_at: Timestamp, now: Timestamp)
    ensures
        expires_at.secs * 1_000_000_000 + expires_at.nanos >= now.secs * 1_000_000_000 + now.nanos
            + 60_000_000_000 ==> !token_expired(expires_at, now),
        expires_at.secs * 1_000_000_000 + expires_at.nanos < now.secs * 1_000_000_000 + now.nanos
            + 60_000_000_000 ==> token_expired(expires_at, now),
{
}

} // verus!
