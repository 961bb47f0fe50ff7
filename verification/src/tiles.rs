//! gamestore itself as a Steam tile: which accounts to write it into, and the
//! shortcut it is.

use vstd::prelude::*;

use crate::error::{Error, Result};
use crate::linux::SteamUser;
use crate::shortcuts::Shortcut;
use crate::text::{decimal, decimal_string, joined, owned};

verus! {

/// What to register, and what the tile should run.
#[derive(Debug, Clone)]
pub struct Tile {
    /// Display name, which is half of what the appid is derived from.
    pub name: String,
    /// The gamestore arguments the tile runs.
    pub command: String,
    /// Whether to go through the terminal-opening launcher.
    pub terminal: bool,
}

/// The account ids of `users`, in decimal, separated by `, `.
pub open spec fn listed_ids(users: Seq<SteamUser>) -> Seq<char>
    decreases users.len(),
{
    if users.len() == 0 {
        Seq::empty()
    } else if users.len() == 1 {
        decimal(users[0].id as nat)
    } else {
        listed_ids(users.drop_last()) + ", "@ + decimal(users.last().id as nat)
    }
}

/// The users whose account id is `id`, in order.
pub open spec fn users_with_id(users: Seq<SteamUser>, id: u32) -> Seq<SteamUser>
    decreases users.len(),
{
    if users.len() == 0 {
        Seq::empty()
    } else if users.last().id == id {
        users_with_id(users.drop_last(), id).push(users.last())
    } else {
        users_with_id(users.drop_last(), id)
    }
}

/// Which accounts a command writes into, or the message explaining why none can be
/// chosen: with no account there is nothing to write into; a named account is
/// taken when it is there; with no name, every account when asked for all of them
/// or when there is only one.
pub open spec fn picked(users: Seq<SteamUser>, id: Option<u32>, all: bool) -> core::result::Result<Seq<SteamUser>, Seq<char>> {
    if users.len() == 0 {
        Err(
            "no Steam account has a profile on this machine yet; start Steam, log in once, and run this again"@,
        )
    } else {
        match id {
            Some(id) => if users_with_id(users, id).len() == 0 {
                Err(
                    "no Steam account "@ + decimal(id as nat) + " on this machine; the ones under userdata/ are: "@
                        + listed_ids(users),
                )
            } else {
                Ok(users_with_id(users, id))
            },
            None => if all || users.len() == 1 {
                Ok(users)
            } else {
                Err(
                    "this machine has "@ + decimal(users.len()) + " Steam accounts ("@ + listed_ids(users)
                        + "); pass --user <id> for one of them, or --all-users for every one"@,
                )
            },
        }
    }
}

/// The account ids, listed.
fn list_ids(users: &Vec<SteamUser>) -> (listed: String)
    ensures
        listed@ == listed_ids(users@),
{
    let mut listed = String::new();
    let mut i: usize = 0;
    proof {
        assert(users@.take(0) =~= Seq::<SteamUser>::empty());
    }
    while i < users.len()
        invariant
            i <= users@.len(),
            listed@ == listed_ids(users@.take(i as int)),
        decreases users@.len() - i,
    {
        let number = decimal_string(users[i].id as u64);
        proof {
            assert(users@.take(i + 1).drop_last() =~= users@.take(i as int));
        }
        if i == 0 {
            listed = number;
            proof {
                assert(users@.take(1)[0] == users@[0]);
            }
        } else {
            listed = joined(joined(listed.as_str(), ", ").as_str(), number.as_str());
        }
        i = i + 1;
    }
    proof {
        assert(users@.take(i as int) =~= users@);
    }
    listed
}

/// The Steam accounts a command should write into.
///
/// With one account on the machine the choice makes itself. With several it does
/// not: whether a game installed by one Steam user should appear for all of them
/// is an open question, and guessing here would answer it by accident.
pub fn pick_users(users: Vec<SteamUser>, id: Option<u32>, all: bool) -> (result: Result<Vec<SteamUser>>)
    ensures
        match (result, picked(users@, id, all)) {
            (Ok(chosen), Ok(expected)) => chosen@ == expected,
            (Err(Error::Steam(message)), Err(expected)) => message@ == expected,
            _ => false,
        },
{
    if users.len() == 0 {
        return Err(
            Error::Steam(
                owned(
                    "no Steam account has a profile on this machine yet; start Steam, log in once, and run this again",
                ),
            ),
        );
    }
    let listed = list_ids(&users);
    match id {
        Some(id) => {
            let ghost all_users = users@;
            let mut rest = users;
            let mut found: Vec<SteamUser> = Vec::new();
            let ghost mut i: int = 0;
            proof {
                assert(all_users.take(0) =~= Seq::<SteamUser>::empty());
                assert(all_users.skip(0) =~= all_users);
            }
            while rest.len() > 0
                invariant
                    0 <= i <= all_users.len(),
                    rest@ == all_users.skip(i),
                    found@ == users_with_id(all_users.take(i), id),
                decreases rest@.len(),
            {
                let user = rest.remove(0);
                proof {
                    assert(user == all_users[i]);
                    assert(all_users.skip(i).remove(0) =~= all_users.skip(i + 1));
                    assert(all_users.take(i + 1).drop_last() =~= all_users.take(i));
                }
                if user.id == id {
                    found.push(user);
                }
                proof {
                    i = i + 1;
                }
            }
            proof {
                assert(all_users.take(i) =~= all_users);
            }
            if found.len() == 0 {
                let number = decimal_string(id as u64);
                let message = joined("no Steam account ", number.as_str());
                let message = joined(message.as_str(), " on this machine; the ones under userdata/ are: ");
                return Err(Error::Steam(joined(message.as_str(), listed.as_str())));
            }
            Ok(found)
        },
        None => {
            if all || users.len() == 1 {
                return Ok(users);
            }
            let count = decimal_string(users.len() as u64);
            let message = joined("this machine has ", count.as_str());
            let message = joined(message.as_str(), " Steam accounts (");
            let message = joined(message.as_str(), listed.as_str());
            Err(
                Error::Steam(
                    joined(
                        message.as_str(),
                        "); pass --user <id> for one of them, or --all-users for every one",
                    ),
                ),
            )
        },
    }
}

/// The directory holding `path`, as `std::path::Path::parent` gives it; `None`
/// for a root or an empty path.
pub uninterp spec fn parent_path(path: Seq<char>) -> Option<Seq<char>>;

/// The directory holding `path`.
///
/// Trusted: `std::path::Path::parent`, read as text, whose result depends on the
/// path alone.
#[verifier::external_body]
fn parent_of(path: &str) -> (parent: Option<String>)
    ensures
        match parent {
            Some(dir) => parent_path(path@) == Some(dir@),
            None => parent_path(path@) is None,
        },
{
    std::path::Path::new(path).parent().map(|dir| dir.to_string_lossy().into_owned())
}

/// The shortcut gamestore registers for itself: it runs the launcher when there
/// is one, else the binary, from the binary's directory, with the tile's command
/// as its launch options.
pub fn shortcut(tile: &Tile, binary: &str, launcher: Option<&str>) -> (shortcut: Shortcut)
    ensures
        shortcut.app_name@ == tile.name@,
        shortcut.exe@ == match launcher {
            Some(path) => path@,
            None => binary@,
        },
        shortcut.start_dir@ == match parent_path(binary@) {
            Some(dir) => dir,
            None => "/"@,
        },
        shortcut.launch_options@ == tile.command@,
        shortcut.icon@ == Seq::<char>::empty(),
{
    let exe = match launcher {
        Some(path) => owned(path),
        None => owned(binary),
    };
    let start_dir = match parent_of(binary) {
        Some(dir) => dir,
        None => owned("/"),
    };
    Shortcut {
        app_name: tile.name.clone(),
        exe,
        start_dir,
        launch_options: tile.command.clone(),
        icon: String::new(),
    }
}

/// The users with an id are exactly those of `users` that have it.
proof fn lemma_users_with_id(users: Seq<SteamUser>, id: u32)
    ensures
        forall|i: int| 0 <= i < users_with_id(users, id).len() ==> #[trigger] users_with_id(users, id)[i].id == id,
        forall|i: int| 0 <= i < users_with_id(users, id).len() ==> users.contains(#[trigger] users_with_id(users, id)[i]),
        forall|j: int| 0 <= j < users.len() && #[trigger] users[j].id == id ==> users_with_id(users, id).contains(users[j]),
    decreases users.len(),
{
    if users.len() > 0 {
        let front = users.drop_last();
        lemma_users_with_id(front, id);
        let earlier = users_with_id(front, id);
        assert forall|i: int| 0 <= i < users_with_id(users, id).len() implies users.contains(
            #[trigger] users_with_id(users, id)[i],
        ) by {
            if i < earlier.len() {
                let k = choose|k: int| 0 <= k < front.len() && front[k] == earlier[i];
                assert(users[k] == front[k]);
            } else {
                assert(users[users.len() - 1] == users.last());
            }
        }
        assert forall|j: int| 0 <= j < users.len() && #[trigger] users[j].id == id implies users_with_id(
            users,
            id,
        ).contains(users[j]) by {
            if j < front.len() {
                assert(front[j] == users[j]);
                let k = choose|k: int| 0 <= k < earlier.len() && earlier[k] == users[j];
                assert(users_with_id(users, id)[k] == users[j]);
            } else {
                assert(users_with_id(users, id).last() == users[j]);
            }
        }
    }
}

/// Law: with no account nothing is picked; a named account picks every account
/// with that id and no other, and is refused only when no account has it; with no
/// name, every account is picked when all are asked for or there is only one, and
/// with several and no choice the command refuses rather than guess.
pub proof fn lemma_pick_users(users: Seq<SteamUser>, id: Option<u32>, all: bool)
    ensures
        users.len() == 0 ==> picked(users, id, all) is Err,
        users.len() > 0 && id is None && (all || users.len() == 1) ==> picked(users, id, all) == Ok::<
            Seq<SteamUser>,
            Seq<char>,
        >(users),
        users.len() > 1 && id is None && !all ==> picked(users, id, all) is Err,
        users.len() > 0 && id is Some ==> match picked(users, id, all) {
            Ok(chosen) => {
                &&& chosen.len() > 0
                &&& forall|i: int| 0 <= i < chosen.len() ==> #[trigger] chosen[i].id == id.unwrap()
                &&& forall|i: int| 0 <= i < chosen.len() ==> users.contains(#[trigger] chosen[i])
                &&& forall|j: int| 0 <= j < users.len() && #[trigger] users[j].id == id.unwrap() ==> chosen.contains(users[j])
            },
            Err(_) => forall|j: int| 0 <= j < users.len() ==> #[trigger] users[j].id != id.unwrap(),
        },
{
    if let Some(x) = id {
        lemma_users_with_id(users, x);
        if users_with_id(users, x).len() == 0 {
            assert forall|j: int| 0 <= j < users.len() implies #[trigger] users[j].id != x by {
                if users[j].id == x {
                    assert(users_with_id(users, x).contains(users[j]));
                }
            }
        }
    }
}

} // verus!
