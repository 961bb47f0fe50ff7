//! The Linux side: where Steam is installed, and where each Steam user's files are.

use vstd::prelude::*;

use crate::error::{Error, Result};
use crate::platform::{first_existing, Platform, STEAM_ROOT_ENV};
use crate::text::{decimal, decimal_string, join_path, joined, joined_path, owned};

verus! {

/// Steam on Linux, native or Flatpak.
#[derive(Debug, Default, Clone, Copy)]
pub struct LinuxPlatform;

/// Standard directories of the current user.
#[verifier::external_type_specification]
#[verifier::external_body]
pub struct ExBaseDirs(directories::BaseDirs);

/// The current user's standard directories, when there is a home directory.
///
/// Trusted: `directories::BaseDirs::new`, which reads the environment, so nothing
/// is claimed of the result.
#[verifier::external_body]
fn base_dirs() -> Option<directories::BaseDirs> {
    directories::BaseDirs::new()
}

/// The home directory of a set of standard directories.
///
/// Trusted: `directories::BaseDirs::home_dir`, read as text (lossily, for a path
/// that is not UTF-8).
#[verifier::external_body]
fn home_dir_of(dirs: &directories::BaseDirs) -> String {
    dirs.home_dir().to_string_lossy().into_owned()
}

impl Platform for LinuxPlatform {
    fn id(&self) -> (id: &'static str)
        ensures
            id@ == "linux"@,
    {
        "linux"
    }

    fn steam_root<F: Fn(&str) -> Option<String>>(&self, lookup: F) -> (result: Result<String>)
        ensures
            result matches Err(error) ==> error is MissingDirectory || error is SteamNotFound,
            result matches Ok(root) ==> (exists|set: String| call_ensures(lookup, (STEAM_ROOT_ENV,), Some(set)) && set == root)
                || (exists|home: Seq<char>, i: int| 0 <= i < 4 && root@ == #[trigger] root_candidates(home)[i]),
    {
        let home = match base_dirs() {
            Some(dirs) => home_dir_of(&dirs),
            None => return Err(Error::MissingDirectory(owned("home"))),
        };
        steam_root_in(home.as_str(), lookup)
    }

    fn uses_proton(&self) -> (proton: bool)
        ensures
            proton,
    {
        true
    }
}

/// The Steam locations to try, in order, under `home`.
pub open spec fn root_candidates(home: Seq<char>) -> Seq<Seq<char>> {
    seq![
        joined_path(home, ".steam/steam"@),
        joined_path(home, ".local/share/Steam"@),
        joined_path(home, ".steam/root"@),
        joined_path(home, ".var/app/com.valvesoftware.Steam/.local/share/Steam"@),
    ]
}

/// Steam locations to try, in order, under `home`: the native ones first, then
/// the Flatpak one, which Bazzite installs by default.
pub fn steam_root_candidates(home: &str) -> (candidates: Vec<String>)
    ensures
        candidates@.len() == 4,
        forall|i: int| 0 <= i < 4 ==> #[trigger] candidates@[i]@ == root_candidates(home@)[i],
{
    let candidates = vec![
        join_path(home, ".steam/steam"),
        join_path(home, ".local/share/Steam"),
        join_path(home, ".steam/root"),
        join_path(home, ".var/app/com.valvesoftware.Steam/.local/share/Steam"),
    ];
    candidates
}

/// Resolve the Steam root under `home`: `STEAM_ROOT` wins when `lookup` finds it,
/// else the first candidate that is a directory, else [`Error::SteamNotFound`].
pub fn steam_root_in<F: Fn(&str) -> Option<String>>(home: &str, lookup: F) -> (result: Result<String>)
    requires
        call_requires(lookup, (STEAM_ROOT_ENV,)),
    ensures
        forall|root: String| #[trigger] call_ensures(lookup, (STEAM_ROOT_ENV,), Some(root)) && (forall|other: Option<String>| call_ensures(lookup, (STEAM_ROOT_ENV,), other) ==> other == Some(root)) ==> result == Ok::<String, Error>(root),
        result matches Ok(root) ==> (exists|set: String| call_ensures(lookup, (STEAM_ROOT_ENV,), Some(set)) && set == root)
            || (exists|i: int| 0 <= i < 4 && root@ == #[trigger] root_candidates(home@)[i]),
        result matches Err(error) ==> error is SteamNotFound,
{
    match lookup(STEAM_ROOT_ENV) {
        Some(root) => Ok(root),
        None => match first_existing(steam_root_candidates(home)) {
            Some(root) => Ok(root),
            None => Err(Error::SteamNotFound),
        },
    }
}

/// Suffix of the untouched copy taken before the first write.
pub const BACKUP_SUFFIX: &'static str = ".gamestore-backup";

/// Whether saving a shortcuts file first copies it to its backup: only when the
/// file is there and no backup is yet, so the backup keeps the file as gamestore
/// first found it and is never overwritten.
pub fn needs_backup(file_exists: bool, backup_exists: bool) -> (copy: bool)
    ensures
        copy == (file_exists && !backup_exists),
{
    file_exists && !backup_exists
}

/// One Steam account with a local profile on this machine.
#[derive(Debug, Clone, PartialEq, Eq)]
pub struct SteamUser {
    /// The account id, which is the directory name under `userdata/`.
    pub id: u32,
    /// `<steam root>/userdata/<id>`.
    pub dir: String,
}

impl SteamUser {
    /// `<steam root>/userdata/<id>/config`.
    pub fn config_dir(&self) -> (dir: String)
        ensures
            dir@ == joined_path(self.dir@, "config"@),
    {
        join_path(self.dir.as_str(), "config")
    }

    /// The shortcuts file, whether or not it exists yet.
    pub fn shortcuts_file(&self) -> (file: String)
        ensures
            file@ == joined_path(joined_path(self.dir@, "config"@), "shortcuts.vdf"@),
    {
        join_path(self.config_dir().as_str(), "shortcuts.vdf")
    }

    /// Where Steam keeps tile artwork for this user.
    pub fn grid_dir(&self) -> (dir: String)
        ensures
            dir@ == joined_path(joined_path(self.dir@, "config"@), "grid"@),
    {
        join_path(self.config_dir().as_str(), "grid")
    }

    /// The copy taken before gamestore first wrote the shortcuts file.
    pub fn shortcuts_backup(&self) -> (file: String)
        ensures
            file@ == joined_path(joined_path(self.dir@, "config"@), "shortcuts.vdf"@ + BACKUP_SUFFIX@),
    {
        let name = joined("shortcuts.vdf", BACKUP_SUFFIX);
        join_path(self.config_dir().as_str(), name.as_str())
    }
}

/// Whether every character is an ASCII digit.
pub open spec fn all_digits(text: Seq<char>) -> bool {
    forall|i: int| 0 <= i < text.len() ==> '0' <= #[trigger] text[i] <= '9'
}

/// The number ASCII digits spell.
pub open spec fn digits_value(text: Seq<char>) -> int
    decreases text.len(),
{
    if text.len() == 0 {
        0
    } else {
        digits_value(text.drop_last()) * 10 + (text.last() as int - 48)
    }
}

/// What `str::parse::<u32>` reads from `text`: an optional `+`, then one or more
/// ASCII digits spelling a number that fits.
pub open spec fn parsed_u32(text: Seq<char>) -> Option<u32> {
    let digits = if text.len() > 0 && text[0] == '+' {
        text.drop_first()
    } else {
        text
    };
    if digits.len() > 0 && all_digits(digits) && digits_value(digits) <= u32::MAX {
        Some(digits_value(digits) as u32)
    } else {
        None
    }
}

/// Read a directory name as an account id.
pub fn parse_account_id(name: &str) -> (id: Option<u32>)
    ensures
        id == parsed_u32(name@),
{
    let chars = crate::text::chars_of(name);
    let start: usize = if chars.len() > 0 && chars[0] == '+' {
        1
    } else {
        0
    };
    let ghost digits = chars@.skip(start as int);
    proof {
        if start == 1 {
            assert(digits =~= chars@.drop_first());
        } else {
            assert(digits =~= chars@);
        }
        assert(digits.take(0) =~= Seq::<char>::empty());
    }
    if chars.len() == start {
        return None;
    }
    let mut value: u64 = 0;
    let mut i: usize = start;
    while i < chars.len()
        invariant
            start <= i <= chars@.len(),
            chars@ == name@,
            start <= 1,
            start == 1 <==> (chars@.len() > 0 && chars@[0] == '+'),
            digits == chars@.skip(start as int),
            all_digits(digits.take(i - start)),
            value == digits_value(digits.take(i - start)),
            value <= u32::MAX,
        decreases chars@.len() - i,
    {
        let c = chars[i];
        if c < '0' || c > '9' {
            proof {
                assert(digits[i - start] == c);
                assert(!all_digits(digits));
            }
            return None;
        }
        proof {
            assert(digits.take(i + 1 - start).drop_last() =~= digits.take(i - start));
            assert(digits.take(i + 1 - start).last() == c);
        }
        let digit = (c as u32 - 48) as u64;
        let next = value * 10 + digit;
        if next > 0xFFFF_FFFFu64 {
            proof {
                assert(digits_value(digits.take(i + 1 - start)) == next);
                if all_digits(digits) {
                    lemma_digits_grow(digits, i + 1 - start);
                    assert(digits_value(digits) > u32::MAX);
                }
                if start == 1 {
                    assert(digits =~= name@.drop_first());
                } else {
                    assert(digits =~= name@);
                }
            }
            return None;
        }
        value = next;
        i = i + 1;
    }
    proof {
        assert(digits.take(i - start) =~= digits);
    }
    Some(value as u32)
}

/// A number spelled by more digits is no smaller than one spelled by fewer.
pub(crate) proof fn lemma_digits_grow(digits: Seq<char>, n: int)
    requires
        0 <= n <= digits.len(),
        all_digits(digits),
    ensures
        digits_value(digits) >= digits_value(digits.take(n)),
        digits_value(digits.take(n)) >= 0,
    decreases digits.len(),
{
    if n < digits.len() {
        lemma_digits_grow(digits.drop_last(), n);
        assert(digits.drop_last().take(n) =~= digits.take(n));
        assert(all_digits(digits.drop_last()));
    } else {
        assert(digits.take(n) =~= digits);
        lemma_digits_nonnegative(digits);
    }
}

/// Digits spell a number no smaller than zero.
proof fn lemma_digits_nonnegative(digits: Seq<char>)
    requires
        all_digits(digits),
    ensures
        digits_value(digits) >= 0,
    decreases digits.len(),
{
    if digits.len() > 0 {
        assert(all_digits(digits.drop_last()));
        lemma_digits_nonnegative(digits.drop_last());
    }
}

/// Whether a `userdata` entry is a person's account: a directory whose name reads
/// as an id other than zero. `userdata/0` and `userdata/anonymous` are Steam's own
/// placeholders; writing a tile into them would create a shortcut nobody can see.
#[verifier::opaque]
pub open spec fn account_entry(entry: (String, bool)) -> bool {
    &&& entry.1
    &&& parsed_u32(entry.0@) matches Some(id) && id != 0
}

/// Whether `user` is the account a `userdata` entry stands for.
#[verifier::opaque]
pub open spec fn user_of_entry(userdata: Seq<char>, entry: (String, bool), user: SteamUser) -> bool {
    &&& account_entry(entry)
    &&& parsed_u32(entry.0@) == Some(user.id)
    &&& user.dir@ == joined_path(userdata, entry.0@)
}

/// Put `user` among users sorted by id, after those with the same id.
fn insert_by_id(users: &mut Vec<SteamUser>, user: SteamUser)
    requires
        forall|i: int, j: int| 0 <= i < j < old(users)@.len() ==> (#[trigger] old(users)@[i]).id <= (#[trigger] old(users)@[j]).id,
    ensures
        forall|i: int, j: int| 0 <= i < j < final(users)@.len() ==> (#[trigger] final(users)@[i]).id <= (#[trigger] final(users)@[j]).id,
        final(users)@.len() == old(users)@.len() + 1,
        final(users)@.contains(user),
        forall|i: int| 0 <= i < old(users)@.len() ==> final(users)@.contains(#[trigger] old(users)@[i]),
        forall|j: int| 0 <= j < final(users)@.len() ==> #[trigger] final(users)@[j] == user || old(users)@.contains(final(users)@[j]),
{
    let id = user.id;
    let mut p: usize = 0;
    while p < users.len() && users[p].id <= id
        invariant
            p <= users@.len(),
            forall|q: int| 0 <= q < p ==> (#[trigger] users@[q]).id <= id,
        decreases users@.len() - p,
    {
        p = p + 1;
    }
    let ghost before = users@;
    users.insert(p, user);
    proof {
        assert(users@[p as int] == user);
        assert forall|a: int, b: int| 0 <= a < b < users@.len() implies (#[trigger] users@[a]).id <= (
            #[trigger] users@[b]).id by {
            if a < p && b < p {
                assert(users@[a] == before[a] && users@[b] == before[b]);
            } else if a < p && b == p {
                assert(users@[a] == before[a]);
            } else if a < p {
                assert(users@[a] == before[a] && users@[b] == before[b - 1]);
            } else if a == p {
                assert(users@[b] == before[b - 1]);
                if p < before.len() {
                    assert(before[p as int].id > id);
                }
            } else {
                assert(users@[a] == before[a - 1] && users@[b] == before[b - 1]);
            }
        }
        assert forall|i: int| 0 <= i < before.len() implies users@.contains(#[trigger] before[i]) by {
            if i < p {
                assert(users@[i] == before[i]);
            } else {
                assert(users@[i + 1] == before[i]);
            }
        }
        assert forall|j: int| 0 <= j < users@.len() implies #[trigger] users@[j] == user || before.contains(users@[j]) by {
            if j < p {
                assert(users@[j] == before[j]);
            } else if j > p {
                assert(users@[j] == before[j - 1]);
            }
        }
    }
}

/// Add the account a `userdata` entry stands for, when it stands for one.
fn add_entry(users: &mut Vec<SteamUser>, userdata: &str, entry: &(String, bool))
    requires
        forall|i: int, j: int| 0 <= i < j < old(users)@.len() ==> (#[trigger] old(users)@[i]).id <= (#[trigger] old(users)@[j]).id,
    ensures
        forall|i: int, j: int| 0 <= i < j < final(users)@.len() ==> (#[trigger] final(users)@[i]).id <= (#[trigger] final(users)@[j]).id,
        forall|x: SteamUser| #[trigger] old(users)@.contains(x) ==> final(users)@.contains(x),
        forall|j: int| 0 <= j < final(users)@.len() ==> old(users)@.contains(#[trigger] final(users)@[j])
            || user_of_entry(userdata@, *entry, final(users)@[j]),
        account_entry(*entry) ==> exists|u: SteamUser| user_of_entry(userdata@, *entry, u) && final(users)@.contains(u),
        final(users)@.len() == old(users)@.len() + if account_entry(*entry) {
            1nat
        } else {
            0nat
        },
{
    reveal(account_entry);
    reveal(user_of_entry);
    let (name, is_dir) = entry;
    if *is_dir {
        match parse_account_id(name.as_str()) {
            Some(id) => if id != 0 {
                let user = SteamUser { id, dir: join_path(userdata, name.as_str()) };
                let ghost before = users@;
                proof {
                    assert(user_of_entry(userdata@, *entry, user));
                }
                insert_by_id(users, user);
                proof {
                    assert forall|x: SteamUser| #[trigger] before.contains(x) implies users@.contains(x) by {
                        let i = choose|i: int| 0 <= i < before.len() && before[i] == x;
                        assert(users@.contains(before[i]));
                    }
                }
                return;
            },
            None => {},
        }
    }
}

/// How many of `entries` are accounts.
pub open spec fn account_count(entries: Seq<(String, bool)>) -> nat
    decreases entries.len(),
{
    if entries.len() == 0 {
        0
    } else {
        account_count(entries.drop_last()) + if account_entry(entries.last()) {
            1nat
        } else {
            0nat
        }
    }
}

/// Whether every user stands for one of the first `count` entries.
#[verifier::opaque]
pub open spec fn users_from_entries(userdata: Seq<char>, entries: Seq<(String, bool)>, count: int, users: Seq<SteamUser>) -> bool {
    forall|i: int| #![trigger users[i]] 0 <= i < users.len() ==> exists|m: int| 0 <= m < count && user_of_entry(
        userdata,
        #[trigger] entries[m],
        users[i],
    )
}

/// Whether every account among the first `count` entries has its user.
#[verifier::opaque]
pub open spec fn entries_have_users(userdata: Seq<char>, entries: Seq<(String, bool)>, count: int, users: Seq<SteamUser>) -> bool {
    forall|m: int| 0 <= m < count && account_entry(#[trigger] entries[m]) ==> exists|u: SteamUser|
        user_of_entry(userdata, entries[m], u) && users.contains(u)
}

/// The Steam accounts with a profile under `<steam root>/userdata`, given the
/// entries found there as names and whether each is a directory: one user for
/// each entry that is an account, and no other.
///
/// Sorted by id so the order does not depend on the file system; entries that are
/// not accounts are skipped.
pub fn steam_users_from(steam_root: &str, entries: Vec<(String, bool)>) -> (users: Vec<SteamUser>)
    ensures
        forall|i: int, j: int| 0 <= i < j < users@.len() ==> (#[trigger] users@[i]).id <= (#[trigger] users@[j]).id,
        users_from_entries(joined_path(steam_root@, "userdata"@), entries@, entries@.len() as int, users@),
        entries_have_users(joined_path(steam_root@, "userdata"@), entries@, entries@.len() as int, users@),
        users@.len() == account_count(entries@),
{
    let userdata = join_path(steam_root, "userdata");
    let mut users: Vec<SteamUser> = Vec::new();
    let mut k: usize = 0;
    proof {
        reveal(users_from_entries);
        reveal(entries_have_users);
        assert(entries@.take(0) =~= Seq::<(String, bool)>::empty());
    }
    while k < entries.len()
        invariant
            k <= entries@.len(),
            userdata@ == joined_path(steam_root@, "userdata"@),
            forall|i: int, j: int| 0 <= i < j < users@.len() ==> (#[trigger] users@[i]).id <= (#[trigger] users@[j]).id,
            users_from_entries(userdata@, entries@, k as int, users@),
            entries_have_users(userdata@, entries@, k as int, users@),
            users@.len() == account_count(entries@.take(k as int)),
        decreases entries@.len() - k,
    {
        let ghost before = users@;
        add_entry(&mut users, userdata.as_str(), &entries[k]);
        proof {
            assert(entries@.take(k + 1).drop_last() =~= entries@.take(k as int));
            assert(entries@.take(k + 1).last() == entries@[k as int]);
            reveal(users_from_entries);
            reveal(entries_have_users);
            assert forall|i: int| #![trigger users@[i]] 0 <= i < users@.len() implies exists|m: int| 0 <= m < k + 1 && user_of_entry(
                userdata@,
                #[trigger] entries@[m],
                users@[i],
            ) by {
                if before.contains(users@[i]) {
                    let j = choose|j: int| 0 <= j < before.len() && before[j] == users@[i];
                    assert(before[j] == users@[i]);
                } else {
                    assert(user_of_entry(userdata@, entries@[k as int], users@[i]));
                }
            }
            assert forall|m: int| 0 <= m < k + 1 && account_entry(#[trigger] entries@[m]) implies exists|u: SteamUser|
                user_of_entry(userdata@, entries@[m], u) && users@.contains(u) by {
                if m < k {
                    let u = choose|u: SteamUser| user_of_entry(userdata@, entries@[m], u) && before.contains(u);
                    assert(users@.contains(u));
                }
            }
        }
        k = k + 1;
    }
    proof {
        assert(entries@.take(k as int) =~= entries@);
    }
    users
}

} // verus!
