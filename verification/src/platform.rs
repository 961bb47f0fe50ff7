//! What genuinely differs between Linux and Windows.
//!
//! The platform modules stay thin on purpose: they own Steam and Proton
//! integration, nothing else.

use vstd::prelude::*;

use crate::config::Paths;
use crate::error::{Error, Result};
use crate::text::{joined_path, owned};

verus! {

/// A host platform gamestore can install games on.
pub trait Platform {
    /// Short identifier used in logs and in `gamestore info`.
    fn id(&self) -> &'static str;

    /// Root of the Steam installation this platform should write shortcuts into,
    /// with `lookup` reading the environment.
    fn steam_root<F: Fn(&str) -> Option<String>>(&self, lookup: F) -> Result<String>
        requires
            forall|key: &str| call_requires(lookup, (key,)),
    ;

    /// Whether games run through the Proton that Steam manages.
    fn uses_proton(&self) -> bool;

    /// Where installed games go by default.
    fn default_install_root(&self, paths: &Paths) -> (root: String)
        default_ensures
            root@ == joined_path(paths.data_dir@, "games"@),
    {
        paths.install_root()
    }
}

/// Stand-in for platforms with no Steam integration, so the program still builds
/// (and says something useful) on, for example, macOS.
#[derive(Debug, Default, Clone, Copy)]
pub struct UnsupportedPlatform;

impl Platform for UnsupportedPlatform {
    fn id(&self) -> (id: &'static str)
        ensures
            id@ == "unsupported"@,
    {
        "unsupported"
    }

    fn steam_root<F: Fn(&str) -> Option<String>>(&self, lookup: F) -> (result: Result<String>)
        ensures
            result matches Err(Error::Unsupported(what)) && what@ == "Steam integration"@,
    {
        Err(Error::Unsupported(owned("Steam integration")))
    }

    fn uses_proton(&self) -> (proton: bool)
        ensures
            !proton,
    {
        false
    }
}

/// Environment variable pointing at a Steam installation, for setups the
/// platform modules cannot guess.
pub const STEAM_ROOT_ENV: &'static str = "STEAM_ROOT";

/// Whether `path` names a directory.
///
/// Trusted: `std::path::Path::is_dir`, whose answer depends on the file system at
/// the moment of the call, so nothing is claimed of it.
#[verifier::external_body]
fn is_dir(path: &str) -> bool {
    std::path::Path::new(path).is_dir()
}

/// Strings as their characters.
pub open spec fn texts(strings: Seq<String>) -> Seq<Seq<char>> {
    Seq::new(strings.len(), |k: int| strings[k]@)
}

/// The first candidate whose answer is yes, answers going with candidates in
/// order; `None` when no answer is yes.
pub open spec fn first_marked(candidates: Seq<Seq<char>>, answers: Seq<bool>) -> Option<Seq<char>>
    decreases answers.len(),
{
    if answers.len() == 0 || candidates.len() == 0 {
        None
    } else if answers[0] {
        Some(candidates[0])
    } else {
        first_marked(candidates.drop_first(), answers.drop_first())
    }
}

/// Candidates whose answers are all no can be skipped.
proof fn lemma_first_marked_skip(candidates: Seq<Seq<char>>, answers: Seq<bool>, i: int)
    requires
        0 <= i <= candidates.len(),
        i <= answers.len(),
        forall|j: int| 0 <= j < i ==> !answers[j],
    ensures
        first_marked(candidates, answers) == first_marked(candidates.skip(i), answers.skip(i)),
    decreases i,
{
    if i == 0 {
        assert(candidates.skip(0) =~= candidates);
        assert(answers.skip(0) =~= answers);
    } else {
        assert(!answers[0]);
        lemma_first_marked_skip(candidates.drop_first(), answers.drop_first(), i - 1);
        assert(candidates.drop_first().skip(i - 1) =~= candidates.skip(i));
        assert(answers.drop_first().skip(i - 1) =~= answers.skip(i));
    }
}

/// The first candidate whose answer, at the same position, is yes.
pub fn first_dir(candidates: &[String], answers: &[bool]) -> (found: Option<String>)
    ensures
        match found {
            Some(path) => first_marked(texts(candidates@), answers@) == Some(path@),
            None => first_marked(texts(candidates@), answers@) is None,
        },
{
    let ghost names = texts(candidates@);
    let mut i: usize = 0;
    while i < candidates.len() && i < answers.len()
        invariant
            i <= candidates@.len(),
            i <= answers@.len(),
            names == texts(candidates@),
            forall|j: int| 0 <= j < i ==> !answers@[j],
        decreases candidates@.len() - i,
    {
        if answers[i] {
            let path = candidates[i].clone();
            proof {
                lemma_first_marked_skip(names, answers@, i as int);
                assert(answers@.skip(i as int)[0]);
                assert(names.skip(i as int)[0] == path@);
            }
            return Some(path);
        }
        i = i + 1;
    }
    proof {
        lemma_first_marked_skip(names, answers@, i as int);
    }
    None
}

/// The first candidate that is a directory on disk: the answers come from
/// asking the disk about each candidate in turn, stopping at the first yes.
pub fn first_existing(candidates: Vec<String>) -> (found: Option<String>)
    ensures
        found matches Some(path) ==> exists|i: int| 0 <= i < candidates@.len() && candidates@[i]@ == path@,
        candidates@.len() == 0 ==> found is None,
        exists|answers: Seq<bool>| answers.len() == candidates@.len() && #[trigger] first_marked(texts(candidates@), answers)
            == match found {
            Some(path) => Some(path@),
            None => None,
        },
{
    let ghost names = texts(candidates@);
    let ghost mut asked: Seq<bool> = Seq::empty();
    let mut i: usize = 0;
    while i < candidates.len()
        invariant
            i <= candidates@.len(),
            names == texts(candidates@),
            asked.len() == i,
            forall|j: int| 0 <= j < i ==> !asked[j],
        decreases candidates@.len() - i,
    {
        if is_dir(candidates[i].as_str()) {
            let path = candidates[i].clone();
            proof {
                let answers = asked.push(true) + Seq::new((candidates@.len() - i - 1) as nat, |k: int| false);
                assert forall|j: int| 0 <= j < i implies !answers[j] by {
                    assert(answers[j] == asked[j]);
                }
                lemma_first_marked_skip(names, answers, i as int);
                assert(answers.skip(i as int)[0]);
                assert(names.skip(i as int)[0] == path@);
                assert(candidates@[i as int]@ == path@);
                assert(first_marked(texts(candidates@), answers) == Some(path@));
            }
            return Some(path);
        }
        proof {
            asked = asked.push(false);
        }
        i = i + 1;
    }
    proof {
        lemma_first_marked_skip(names, asked, i as int);
        assert(first_marked(texts(candidates@), asked) is None);
    }
    None
}

} // verus!
