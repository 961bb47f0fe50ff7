//! The HTTP client, behind a trait.
//!
//! Every request gamestore makes goes through [`HttpClient`], so the auth flow is
//! testable without a network, and the transport can be swapped without touching
//! it.

use vstd::prelude::*;

use crate::error::Result;
use crate::text::{chars_of, joined, string_of};

verus! {

/// What a request came back with. Non-2xx statuses are returned, not raised: the
/// GOG endpoints put their error details in the body.
#[derive(Debug, Clone, PartialEq, Eq)]
pub struct Response {
    pub status: u16,
    pub body: String,
}

impl Response {
    /// Whether the status is 2xx.
    pub fn is_success(&self) -> (success: bool)
        ensures
            success == (200 <= self.status < 300),
    {
        200 <= self.status && self.status < 300
    }
}

/// Optional text as its characters.
pub open spec fn optional_text_view(text: Option<&str>) -> Option<Seq<char>> {
    match text {
        Some(text) => Some(text@),
        None => None,
    }
}

/// Minimal HTTP surface: enough for OAuth2 and the GOG JSON APIs.
pub trait HttpClient {
    /// Whether `answer` is what this client gave for a GET of `url`, sent with
    /// `bearer` as its bearer token when there is one. Which answer a request gets
    /// is up to the client and the server; this is what ties an answer to the
    /// request it answers. A client that does not say leaves every answer
    /// possible.
    closed spec fn answered(&self, url: Seq<char>, bearer: Option<Seq<char>>, answer: Result<Response>) -> bool {
        true
    }

    /// GET `url` and read the whole body.
    fn get(&self, url: &str) -> (answer: Result<Response>)
        ensures
            self.answered(url@, None, answer),
    ;

    /// GET `url` with `bearer`, when there is one, as an `Authorization: Bearer`
    /// token, and read the whole body.
    fn get_authorized(&self, url: &str, bearer: Option<&str>) -> (answer: Result<Response>)
        ensures
            self.answered(url@, optional_text_view(bearer), answer),
    ;
}

/// Where `c` first occurs in `text`.
pub open spec fn first_index_of(text: Seq<char>, c: char) -> Option<int>
    decreases text.len(),
{
    if text.len() == 0 {
        None
    } else {
        match first_index_of(text.drop_last(), c) {
            Some(i) => Some(i),
            None => if text.last() == c {
                Some(text.len() - 1)
            } else {
                None
            },
        }
    }
}

/// The first occurrence is the first index holding `c`.
pub proof fn lemma_first_index_of(text: Seq<char>, c: char)
    ensures
        first_index_of(text, c) matches Some(i) ==> 0 <= i < text.len() && text[i] == c && forall|j: int|
            0 <= j < i ==> #[trigger] text[j] != c,
        first_index_of(text, c) is None ==> forall|j: int| 0 <= j < text.len() ==> #[trigger] text[j] != c,
    decreases text.len(),
{
    if text.len() > 0 {
        let front = text.drop_last();
        lemma_first_index_of(front, c);
        assert forall|j: int| 0 <= j < front.len() implies front[j] == text[j] by {}
    }
}

/// Where `c` first occurs in `chars`.
pub fn find_char(chars: &[char], c: char) -> (found: Option<usize>)
    ensures
        match found {
            Some(i) => first_index_of(chars@, c) == Some(i as int),
            None => first_index_of(chars@, c) is None,
        },
{
    proof {
        lemma_first_index_of(chars@, c);
    }
    let mut i: usize = 0;
    while i < chars.len()
        invariant
            i <= chars.len(),
            forall|j: int| 0 <= j < i ==> chars@[j] != c,
        decreases chars.len() - i,
    {
        if chars[i] == c {
            proof {
                lemma_first_index_of(chars@, c);
            }
            return Some(i);
        }
        i = i + 1;
    }
    proof {
        lemma_first_index_of(chars@, c);
    }
    None
}

/// A URL with its query string replaced by `<redacted>`.
pub open spec fn redacted(url: Seq<char>) -> Seq<char> {
    match first_index_of(url, '?') {
        Some(i) => url.take(i) + "?<redacted>"@,
        None => url,
    }
}

/// Strip the query string, so an authorization code or a token never reaches a log
/// or an error message.
pub fn redact(url: &str) -> (safe: String)
    ensures
        safe@ == redacted(url@),
{
    let chars = chars_of(url);
    match find_char(chars.as_slice(), '?') {
        Some(i) => {
            proof {
                lemma_first_index_of(chars@, '?');
            }
            let mut base: Vec<char> = Vec::new();
            let mut j: usize = 0;
            while j < i
                invariant
                    j <= i,
                    i <= chars@.len(),
                    base@ == chars@.take(j as int),
                decreases i - j,
            {
                base.push(chars[j]);
                j = j + 1;
                assert(base@ =~= chars@.take(j as int));
            }
            let base = string_of(base.as_slice());
            joined(base.as_str(), "?<redacted>")
        },
        None => string_of(chars.as_slice()),
    }
}

} // verus!
