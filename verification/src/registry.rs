//! What is installed on this machine, and how far along.
//!
//! The catalog says what the account owns; it cannot say what is on the disk. The
//! grid's badge, the uninstall path and the launch wrapper all need that second
//! answer, and this is where it lives. Unlike the catalog, this is not derived
//! data: a lost registry means gamestore no longer knows what it installed.

use vstd::prelude::*;
use vstd::utf8::*;

use crate::catalog::ProductId;
use crate::config::Paths;
use crate::order::{compare_bytes, lemma_lex_transitive, lemma_lex_trichotomy, lex_lt, Cmp};
use crate::text::{join_path, joined_path, owned};
use crate::time::{more_than_secs_between, more_than_secs_since, Timestamp};

verus! {

/// How long a claim on a transient entry is believed without other evidence, in
/// seconds.
///
/// The liveness check is what normally clears a dead claim; this is the backstop
/// for platforms where there is no cheap one. Generous on purpose: a real download
/// over a slow line can take hours, and clearing a live one is worse than leaving a
/// dead one an extra day.
pub const CLAIM_MAX_AGE: u64 = 86_400;

/// Where a game has got to.
#[derive(Debug, Clone, Copy, PartialEq, Eq, Structural)]
pub enum State {
    /// Owned, nothing on disk.
    NotInstalled,
    /// Asked for, not started.
    Queued,
    /// Fetching files.
    Downloading,
    /// Running the installer.
    Installing,
    /// Playable.
    Installed,
    /// Playable, but GOG has a newer build.
    UpdateAvailable,
    /// The last attempt failed; `failure` says why.
    Failed,
}

/// Whether a state means "a process is working on it right now".
pub open spec fn transient(state: State) -> bool {
    state is Queued || state is Downloading || state is Installing
}

/// Whether a state means the game can be launched.
pub open spec fn playable(state: State) -> bool {
    state is Installed || state is UpdateAvailable
}

impl State {
    /// Whether this state means "a process is working on it right now".
    ///
    /// These are the states that cannot survive the process that set them: nothing
    /// is downloading if nothing is running.
    pub fn is_transient(self) -> (working: bool)
        ensures
            working == transient(self),
    {
        match self {
            State::Queued | State::Downloading | State::Installing => true,
            _ => false,
        }
    }

    /// Whether the game can be launched.
    pub fn is_playable(self) -> (launchable: bool)
        ensures
            launchable == playable(self),
    {
        match self {
            State::Installed | State::UpdateAvailable => true,
            _ => false,
        }
    }
    /// How the library listing shows the state: `-` for a game that is not
    /// installed, else a word.
    pub fn label(self) -> (label: &'static str)
        ensures
            label@ == match self {
                State::NotInstalled => "-"@,
                State::Queued => "queued"@,
                State::Downloading => "downloading"@,
                State::Installing => "installing"@,
                State::Installed => "installed"@,
                State::UpdateAvailable => "update"@,
                State::Failed => "failed"@,
            },
    {
        match self {
            State::NotInstalled => "-",
            State::Queued => "queued",
            State::Downloading => "downloading",
            State::Installing => "installing",
            State::Installed => "installed",
            State::UpdateAvailable => "update",
            State::Failed => "failed",
        }
    }
}

/// Who is working on a transient entry.
#[derive(Debug, Clone, Copy, PartialEq, Eq, Structural)]
pub struct Claim {
    /// Process id that claimed it.
    pub pid: u32,
    /// When it was claimed.
    pub at: Timestamp,
}

/// One game's row in the registry.
#[derive(Debug, Clone, PartialEq, Eq)]
pub struct Entry {
    /// The GOG product id.
    pub id: ProductId,
    /// Where it has got to.
    pub state: State,
    /// Installed build or version, once there is one.
    pub build: Option<String>,
    /// Where the files are.
    pub install_path: Option<String>,
    /// The generated launch wrapper the Steam shortcut points at.
    pub wrapper_path: Option<String>,
    /// The Steam appid of the shortcut, so uninstall can find it again.
    pub steam_appid: Option<u32>,
    /// Last successful launch, for "last played" ordering.
    pub last_played: Option<Timestamp>,
    /// Why the last attempt failed, when it did.
    pub failure: Option<String>,
    /// Set while a process is working on it.
    pub claim: Option<Claim>,
}

/// A row for a game nothing has been done to yet.
pub open spec fn fresh_entry(id: ProductId) -> Entry {
    Entry {
        id,
        state: State::NotInstalled,
        build: None,
        install_path: None,
        wrapper_path: None,
        steam_appid: None,
        last_played: None,
        failure: None,
        claim: None,
    }
}

impl Entry {
    /// A row for a game nothing has been done to yet.
    pub fn new(id: ProductId) -> (entry: Entry)
        ensures
            entry == fresh_entry(id),
    {
        Entry {
            id,
            state: State::NotInstalled,
            build: None,
            install_path: None,
            wrapper_path: None,
            steam_appid: None,
            last_played: None,
            failure: None,
            claim: None,
        }
    }
}

/// An entry claimed for a transient operation by `pid` at `now`: any previous
/// failure is cleared.
pub open spec fn claimed(entry: Entry, state: State, pid: u32, now: Timestamp) -> Entry {
    Entry { state, failure: None, claim: Some(Claim { pid, at: now }), ..entry }
}

/// An entry recording a finished installation.
pub open spec fn installed(entry: Entry, build: String, install_path: String, steam_appid: u32) -> Entry {
    Entry {
        state: State::Installed,
        build: Some(build),
        install_path: Some(install_path),
        steam_appid: Some(steam_appid),
        failure: None,
        claim: None,
        ..entry
    }
}

/// An entry recording a failed attempt, keeping what is known so far.
pub open spec fn failed(entry: Entry, reason: String) -> Entry {
    Entry { state: State::Failed, failure: Some(reason), claim: None, ..entry }
}

/// An entry recording a successful launch at `now`.
pub open spec fn launched(entry: Entry, now: Timestamp) -> Entry {
    Entry { last_played: Some(now), ..entry }
}

/// The reason given for an entry whose process went away.
pub open spec fn interrupted_reason() -> Seq<char> {
    "interrupted before it finished \u{2014} the process that started it is gone; start it again"@
}

/// Whether `after` is `before` marked failed because its process went away.
pub open spec fn is_interrupted(before: Entry, after: Entry) -> bool {
    &&& after == Entry { state: State::Failed, failure: after.failure, claim: None, ..before }
    &&& after.failure matches Some(reason) && reason@ == interrupted_reason()
}

/// What reconciling does to one entry: a settled entry is left alone; a transient
/// one with no claim, or a claim older than [`CLAIM_MAX_AGE`], is marked
/// interrupted; one whose claim is younger is marked interrupted when `is_alive`
/// answered that its process is gone, and left alone when it answered it runs.
pub open spec fn reconciled<F: Fn(u32) -> bool>(
    before: Entry,
    after: Entry,
    now: Timestamp,
    is_alive: F,
) -> bool {
    if !transient(before.state) {
        after == before
    } else {
        match before.claim {
            None => is_interrupted(before, after),
            Some(claim) => if more_than_secs_between(claim.at, now, CLAIM_MAX_AGE) {
                is_interrupted(before, after)
            } else {
                ||| is_interrupted(before, after) && call_ensures(is_alive, (claim.pid,), false)
                ||| after == before && call_ensures(is_alive, (claim.pid,), true)
            },
        }
    }
}

/// The ids of the entries that changed between two runs of rows, in order.
pub open spec fn reset_ids(before: Seq<(ProductId, Entry)>, after: Seq<(ProductId, Entry)>) -> Seq<ProductId>
    decreases before.len(),
{
    if before.len() == 0 || after.len() == 0 {
        Seq::empty()
    } else {
        let earlier = reset_ids(before.drop_last(), after.drop_last());
        if after.last().1 != before.last().1 {
            earlier.push(before.last().1.id)
        } else {
            earlier
        }
    }
}

/// The bytes a product id sorts by.
pub open spec fn key_bytes(id: ProductId) -> Seq<u8> {
    encode_utf8(id@)
}

/// Rows in strictly increasing order of their keys.
pub open spec fn sorted_rows(rows: Seq<(ProductId, Entry)>) -> bool {
    forall|i: int, j: int|
        0 <= i < j < rows.len() ==> lex_lt(key_bytes(#[trigger] rows[i].0), key_bytes(
            #[trigger] rows[j].0,
        ))
}

/// Rows whose keys are all different.
pub open spec fn distinct_keys(rows: Seq<(ProductId, Entry)>) -> bool {
    forall|i: int, j: int|
        0 <= i < rows.len() && 0 <= j < rows.len() && i != j ==> (#[trigger] rows[i].0)@ != (
        #[trigger] rows[j].0)@
}

/// The rows as a map from product id to entry.
pub open spec fn rows_map(rows: Seq<(ProductId, Entry)>) -> Map<Seq<char>, Entry>
    decreases rows.len(),
{
    if rows.len() == 0 {
        Map::empty()
    } else {
        rows_map(rows.drop_last()).insert(rows.last().0@, rows.last().1)
    }
}

/// The entry a key has, or a fresh one when it has none.
pub open spec fn prior(map: Map<Seq<char>, Entry>, id: ProductId) -> Entry {
    if map.contains_key(id@) {
        map[id@]
    } else {
        fresh_entry(id)
    }
}

/// Sorted rows have distinct keys.
proof fn lemma_sorted_distinct(rows: Seq<(ProductId, Entry)>)
    requires
        sorted_rows(rows),
    ensures
        distinct_keys(rows),
{
    assert forall|i: int, j: int|
        0 <= i < rows.len() && 0 <= j < rows.len() && i != j implies (#[trigger] rows[i].0)@ != (
        #[trigger] rows[j].0)@ by {
        let (a, b) = if i < j {
            (i, j)
        } else {
            (j, i)
        };
        assert(lex_lt(key_bytes(rows[a].0), key_bytes(rows[b].0)));
        lemma_lex_trichotomy(key_bytes(rows[a].0), key_bytes(rows[b].0));
    }
}

/// The map of distinct-keyed rows holds exactly their pairs.
proof fn lemma_rows_map(rows: Seq<(ProductId, Entry)>)
    requires
        distinct_keys(rows),
    ensures
        forall|i: int|
            0 <= i < rows.len() ==> rows_map(rows).contains_key((#[trigger] rows[i].0)@)
                && rows_map(rows)[rows[i].0@] == rows[i].1,
        forall|k: Seq<char>|
            rows_map(rows).contains_key(k) ==> exists|i: int|
                0 <= i < rows.len() && (#[trigger] rows[i].0)@ == k,
    decreases rows.len(),
{
    if rows.len() > 0 {
        let front = rows.drop_last();
        assert(distinct_keys(front)) by {
            assert forall|i: int, j: int|
                0 <= i < front.len() && 0 <= j < front.len() && i != j implies (
                #[trigger] front[i].0)@ != (#[trigger] front[j].0)@ by {
                assert(front[i] == rows[i] && front[j] == rows[j]);
            }
        }
        lemma_rows_map(front);
        let last = rows.len() - 1;
        assert forall|i: int|
            0 <= i < rows.len() implies rows_map(rows).contains_key((#[trigger] rows[i].0)@)
                && rows_map(rows)[rows[i].0@] == rows[i].1 by {
            if i < last {
                assert(front[i] == rows[i]);
                assert(rows[i].0@ != rows[last].0@);
            }
        }
        assert forall|k: Seq<char>| rows_map(rows).contains_key(k) implies exists|i: int|
            0 <= i < rows.len() && (#[trigger] rows[i].0)@ == k by {
            if k != rows[last].0@ {
                assert(rows_map(front).contains_key(k));
                let i = choose|i: int| 0 <= i < front.len() && (#[trigger] front[i].0)@ == k;
                assert(rows[i] == front[i]);
            } else {
                assert(rows[last].0@ == k);
            }
        }
    }
}

/// Inserting a row under a new key inserts it in the map.
proof fn lemma_map_insert(rows: Seq<(ProductId, Entry)>, i: int, pair: (ProductId, Entry))
    requires
        distinct_keys(rows),
        0 <= i <= rows.len(),
        forall|j: int| 0 <= j < rows.len() ==> (#[trigger] rows[j].0)@ != pair.0@,
    ensures
        distinct_keys(rows.insert(i, pair)),
        rows_map(rows.insert(i, pair)) == rows_map(rows).insert(pair.0@, pair.1),
{
    let new = rows.insert(i, pair);
    assert forall|a: int, b: int|
        0 <= a < new.len() && 0 <= b < new.len() && a != b implies (#[trigger] new[a].0)@ != (
        #[trigger] new[b].0)@ by {
        if a != i && b != i {
            let ra = if a < i { a } else { a - 1 };
            let rb = if b < i { b } else { b - 1 };
            assert(new[a] == rows[ra] && new[b] == rows[rb]);
        } else if a == i {
            let rb = if b < i { b } else { b - 1 };
            assert(new[b] == rows[rb]);
        } else {
            let ra = if a < i { a } else { a - 1 };
            assert(new[a] == rows[ra]);
        }
    }
    lemma_rows_map(rows);
    lemma_rows_map(new);
    let expected = rows_map(rows).insert(pair.0@, pair.1);
    assert(new[i] == pair);
    assert forall|k: Seq<char>| #[trigger] rows_map(new).contains_key(k) <==> expected.contains_key(k) by {
        if rows_map(new).contains_key(k) {
            let j = choose|j: int| 0 <= j < new.len() && (#[trigger] new[j].0)@ == k;
            if j < i {
                assert(new[j] == rows[j]);
            } else if j > i {
                assert(new[j] == rows[j - 1]);
            }
        }
        if rows_map(rows).contains_key(k) {
            let j = choose|j: int| 0 <= j < rows.len() && (#[trigger] rows[j].0)@ == k;
            if j < i {
                assert(new[j] == rows[j]);
            } else {
                assert(new[j + 1] == rows[j]);
            }
        }
    }
    assert forall|k: Seq<char>| #[trigger] rows_map(new).contains_key(k) implies rows_map(new)[k] == expected[k] by {
        let j = choose|j: int| 0 <= j < new.len() && (#[trigger] new[j].0)@ == k;
        if j < i {
            assert(new[j] == rows[j]);
        } else if j > i {
            assert(new[j] == rows[j - 1]);
        }
    }
    assert(rows_map(new) =~= expected);
}

/// Removing a row removes its key from the map.
proof fn lemma_map_remove(rows: Seq<(ProductId, Entry)>, i: int)
    requires
        distinct_keys(rows),
        0 <= i < rows.len(),
    ensures
        distinct_keys(rows.remove(i)),
        rows_map(rows.remove(i)) == rows_map(rows).remove(rows[i].0@),
{
    let new = rows.remove(i);
    assert forall|a: int, b: int|
        0 <= a < new.len() && 0 <= b < new.len() && a != b implies (#[trigger] new[a].0)@ != (
        #[trigger] new[b].0)@ by {
        let ra = if a < i { a } else { a + 1 };
        let rb = if b < i { b } else { b + 1 };
        assert(new[a] == rows[ra] && new[b] == rows[rb]);
    }
    lemma_rows_map(rows);
    lemma_rows_map(new);
    let expected = rows_map(rows).remove(rows[i].0@);
    assert forall|k: Seq<char>| #[trigger] rows_map(new).contains_key(k) <==> expected.contains_key(k) by {
        if rows_map(new).contains_key(k) {
            let j = choose|j: int| 0 <= j < new.len() && (#[trigger] new[j].0)@ == k;
            let rj = if j < i { j } else { j + 1 };
            assert(new[j] == rows[rj]);
        }
        if expected.contains_key(k) {
            let j = choose|j: int| 0 <= j < rows.len() && (#[trigger] rows[j].0)@ == k;
            if j < i {
                assert(new[j] == rows[j]);
            } else {
                assert(new[j - 1] == rows[j]);
            }
        }
    }
    assert forall|k: Seq<char>| #[trigger] rows_map(new).contains_key(k) implies rows_map(new)[k] == expected[k] by {
        let j = choose|j: int| 0 <= j < new.len() && (#[trigger] new[j].0)@ == k;
        let rj = if j < i { j } else { j + 1 };
        assert(new[j] == rows[rj]);
    }
    assert(rows_map(new) =~= expected);
}

/// A map of distinct-keyed rows has as many keys as there are rows.
proof fn lemma_rows_map_len(rows: Seq<(ProductId, Entry)>)
    requires
        distinct_keys(rows),
    ensures
        rows_map(rows).dom().finite(),
        rows_map(rows).len() == rows.len(),
    decreases rows.len(),
{
    if rows.len() > 0 {
        let front = rows.drop_last();
        assert(distinct_keys(front)) by {
            assert forall|i: int, j: int|
                0 <= i < front.len() && 0 <= j < front.len() && i != j implies (
                #[trigger] front[i].0)@ != (#[trigger] front[j].0)@ by {
                assert(front[i] == rows[i] && front[j] == rows[j]);
            }
        }
        lemma_rows_map_len(front);
        lemma_rows_map(front);
        assert(!rows_map(front).contains_key(rows.last().0@)) by {
            if rows_map(front).contains_key(rows.last().0@) {
                let i = choose|i: int| 0 <= i < front.len() && (#[trigger] front[i].0)@ == rows.last().0@;
                assert(front[i] == rows[i]);
            }
        }
    }
}

/// Equal ids sort by equal bytes, and ids with equal bytes are equal.
proof fn lemma_key_bytes(a: ProductId, b: ProductId)
    ensures
        (key_bytes(a) == key_bytes(b)) == (a@ == b@),
{
    encode_utf8_decode_utf8(a@);
    encode_utf8_decode_utf8(b@);
}

/// Where `id` sits among sorted rows: at `i` before which every key is smaller and
/// from which every key is larger.
pub open spec fn slot_between(rows: Seq<(ProductId, Entry)>, i: int, id: ProductId) -> bool {
    &&& 0 <= i <= rows.len()
    &&& forall|j: int| 0 <= j < i ==> lex_lt(key_bytes(#[trigger] rows[j].0), key_bytes(id))
    &&& forall|j: int| i <= j < rows.len() ==> lex_lt(key_bytes(id), key_bytes(#[trigger] rows[j].0))
}

/// No row between which `id` sits has `id` as its key.
proof fn lemma_slot_absent(rows: Seq<(ProductId, Entry)>, i: int, id: ProductId)
    requires
        slot_between(rows, i, id),
    ensures
        forall|j: int| 0 <= j < rows.len() ==> (#[trigger] rows[j].0)@ != id@,
{
    assert forall|j: int| 0 <= j < rows.len() implies (#[trigger] rows[j].0)@ != id@ by {
        lemma_key_bytes(rows[j].0, id);
        lemma_lex_trichotomy(key_bytes(rows[j].0), key_bytes(id));
    }
}

/// Sorted rows with a new key put between its neighbours stay sorted.
proof fn lemma_sorted_insert(rows: Seq<(ProductId, Entry)>, i: int, pair: (ProductId, Entry))
    requires
        sorted_rows(rows),
        slot_between(rows, i, pair.0),
    ensures
        sorted_rows(rows.insert(i, pair)),
{
    let new = rows.insert(i, pair);
    assert forall|a: int, b: int| 0 <= a < b < new.len() implies lex_lt(
        key_bytes(#[trigger] new[a].0),
        key_bytes(#[trigger] new[b].0),
    ) by {
        if a < i && b < i {
            assert(new[a] == rows[a] && new[b] == rows[b]);
        } else if a < i && b == i {
            assert(new[a] == rows[a]);
        } else if a < i {
            assert(new[a] == rows[a] && new[b] == rows[b - 1]);
        } else if a == i {
            assert(new[b] == rows[b - 1]);
        } else {
            assert(new[a] == rows[a - 1] && new[b] == rows[b - 1]);
        }
    }
}

/// Sorted rows stay sorted with one removed.
proof fn lemma_sorted_remove(rows: Seq<(ProductId, Entry)>, i: int)
    requires
        sorted_rows(rows),
        0 <= i < rows.len(),
    ensures
        sorted_rows(rows.remove(i)),
{
    let new = rows.remove(i);
    assert forall|a: int, b: int| 0 <= a < b < new.len() implies lex_lt(
        key_bytes(#[trigger] new[a].0),
        key_bytes(#[trigger] new[b].0),
    ) by {
        let ra = if a < i { a } else { a + 1 };
        let rb = if b < i { b } else { b + 1 };
        assert(new[a] == rows[ra] && new[b] == rows[rb]);
    }
}

/// Everything gamestore has installed, or tried to, keyed by product id.
#[derive(Debug, Clone, PartialEq, Eq)]
pub struct Registry {
    entries: Vec<(ProductId, Entry)>,
}

impl View for Registry {
    type V = Map<Seq<char>, Entry>;

    closed spec fn view(&self) -> Map<Seq<char>, Entry> {
        rows_map(self.entries@)
    }
}

impl Default for Registry {
    /// An empty registry.
    fn default() -> (registry: Registry)
        ensures
            registry@ == Map::<Seq<char>, Entry>::empty(),
            registry.wf(),
    {
        Registry { entries: Vec::new() }
    }
}

impl Registry {
    /// The rows, in increasing order of their keys.
    pub closed spec fn rows(&self) -> Seq<(ProductId, Entry)> {
        self.entries@
    }

    /// Whether the rows are in strictly increasing order of their keys.
    pub closed spec fn wf(&self) -> bool {
        sorted_rows(self.entries@)
    }

    /// The rows of a well-formed registry are sorted by key and make up its map.
    pub proof fn lemma_rows(&self)
        requires
            self.wf(),
        ensures
            sorted_rows(self.rows()),
            distinct_keys(self.rows()),
            self@ == rows_map(self.rows()),
    {
        lemma_sorted_distinct(self.entries@);
    }

    /// Where the registry file lives.
    pub fn path(paths: &Paths) -> (path: String)
        ensures
            path@ == joined_path(paths.data_dir@, "registry.json"@),
    {
        join_path(paths.data_dir.as_str(), "registry.json")
    }

    /// Where `id`'s row is, or where it would go.
    fn locate(&self, id: &ProductId) -> (found: (usize, bool))
        requires
            self.wf(),
        ensures
            found.1 ==> found.0 < self.entries@.len() && self.entries@[found.0 as int].0@ == id@,
            !found.1 ==> slot_between(self.entries@, found.0 as int, *id),
    {
        let rows = &self.entries;
        let wanted = id.as_str().as_bytes();
        let mut i: usize = 0;
        while i < rows.len()
            invariant
                i <= rows.len(),
                rows@ == self.entries@,
                sorted_rows(rows@),
                wanted@ == key_bytes(*id),
                forall|j: int| 0 <= j < i ==> lex_lt(key_bytes(#[trigger] rows@[j].0), key_bytes(*id)),
            decreases rows.len() - i,
        {
            let key = rows[i].0.as_str().as_bytes();
            match compare_bytes(key, wanted) {
                Cmp::Less => {},
                Cmp::Equal => {
                    proof {
                        lemma_key_bytes(rows@[i as int].0, *id);
                    }
                    return (i, true);
                },
                Cmp::Greater => {
                    proof {
                        assert forall|j: int| i <= j < rows.len() implies lex_lt(
                            key_bytes(*id),
                            key_bytes(#[trigger] rows@[j].0),
                        ) by {
                            if j > i {
                                lemma_lex_transitive(
                                    key_bytes(*id),
                                    key_bytes(rows@[i as int].0),
                                    key_bytes(rows@[j].0),
                                );
                            }
                        }
                    }
                    return (i, false);
                },
            }
            i = i + 1;
        }
        (i, false)
    }

    /// Take `id`'s row out, or make a fresh entry for it: the entry, and where its
    /// row goes back.
    fn slot_out(&mut self, id: &ProductId) -> (taken: (usize, Entry))
        requires
            old(self).wf(),
        ensures
            final(self).wf(),
            final(self)@ == old(self)@.remove(id@),
            taken.1 == prior(old(self)@, *id),
            slot_between(final(self).entries@, taken.0 as int, *id),
    {
        let (i, found) = self.locate(id);
        proof {
            lemma_sorted_distinct(self.entries@);
            lemma_rows_map(self.entries@);
        }
        if found {
            let ghost rows = self.entries@;
            proof {
                lemma_map_remove(rows, i as int);
                lemma_sorted_remove(rows, i as int);
                lemma_key_bytes(rows[i as int].0, *id);
            }
            let (_, entry) = self.entries.remove(i);
            proof {
                let new = self.entries@;
                assert forall|j: int| i <= j < new.len() implies lex_lt(
                    key_bytes(*id),
                    key_bytes(#[trigger] new[j].0),
                ) by {
                    assert(new[j] == rows[j + 1]);
                }
                assert forall|j: int| 0 <= j < i implies lex_lt(
                    key_bytes(#[trigger] new[j].0),
                    key_bytes(*id),
                ) by {
                    assert(new[j] == rows[j]);
                }
            }
            (i, entry)
        } else {
            proof {
                lemma_slot_absent(self.entries@, i as int, *id);
                assert(!self@.contains_key(id@)) by {
                    if self@.contains_key(id@) {
                        let j = choose|j: int| 0 <= j < self.entries@.len() && (#[trigger] self.entries@[j].0)@ == id@;
                    }
                }
                assert(self@.remove(id@) =~= self@);
            }
            (i, Entry::new(id.duplicate()))
        }
    }

    /// Put `id`'s row back where [`Registry::slot_out`] said it goes.
    fn slot_in(&mut self, i: usize, id: &ProductId, entry: Entry)
        requires
            old(self).wf(),
            slot_between(old(self).entries@, i as int, *id),
        ensures
            final(self).wf(),
            final(self)@ == old(self)@.insert(id@, entry),
            i < final(self).entries@.len(),
            final(self).entries@[i as int].1 == entry,
    {
        let pair = (id.duplicate(), entry);
        proof {
            lemma_sorted_distinct(self.entries@);
            lemma_slot_absent(self.entries@, i as int, *id);
            lemma_map_insert(self.entries@, i as int, pair);
            lemma_sorted_insert(self.entries@, i as int, pair);
        }
        self.entries.insert(i, pair);
    }

    /// How many games have a row.
    pub fn len(&self) -> (count: usize)
        requires
            self.wf(),
        ensures
            count == self@.len(),
    {
        proof {
            lemma_sorted_distinct(self.entries@);
            lemma_rows_map_len(self.entries@);
        }
        self.entries.len()
    }

    /// Whether nothing has been installed or attempted.
    pub fn is_empty(&self) -> (empty: bool)
        requires
            self.wf(),
        ensures
            empty == (self@.len() == 0),
    {
        self.len() == 0
    }

    /// One game's row.
    pub fn get(&self, id: &ProductId) -> (entry: Option<&Entry>)
        requires
            self.wf(),
        ensures
            match entry {
                Some(found) => self@.contains_key(id@) && self@[id@] == *found,
                None => !self@.contains_key(id@),
            },
    {
        let (i, found) = self.locate(id);
        proof {
            lemma_sorted_distinct(self.entries@);
            lemma_rows_map(self.entries@);
        }
        if found {
            Some(&self.entries[i].1)
        } else {
            proof {
                lemma_slot_absent(self.entries@, i as int, *id);
                if self@.contains_key(id@) {
                    let j = choose|j: int| 0 <= j < self.entries@.len() && (#[trigger] self.entries@[j].0)@ == id@;
                }
            }
            None
        }
    }

    /// Every row's entry, in increasing order of product id.
    pub fn entries(&self) -> (entries: Vec<&Entry>)
        ensures
            entries@.len() == self.rows().len(),
            forall|i: int| 0 <= i < entries@.len() ==> *(#[trigger] entries@[i]) == self.rows()[i].1,
    {
        let mut entries: Vec<&Entry> = Vec::new();
        let mut i: usize = 0;
        while i < self.entries.len()
            invariant
                i <= self.entries@.len(),
                entries@.len() == i,
                forall|k: int| 0 <= k < i ==> *(#[trigger] entries@[k]) == self.entries@[k].1,
            decreases self.entries@.len() - i,
        {
            entries.push(&self.entries[i].1);
            i = i + 1;
        }
        entries
    }

    /// Every row, key and entry, in increasing order of product id.
    pub fn pairs(&self) -> (pairs: &[(ProductId, Entry)])
        ensures
            pairs@ == self.rows(),
    {
        self.entries.as_slice()
    }

    /// The state of a game, `NotInstalled` when it has no row at all.
    pub fn state_of(&self, id: &ProductId) -> (state: State)
        requires
            self.wf(),
        ensures
            state == (if self@.contains_key(id@) {
                self@[id@].state
            } else {
                State::NotInstalled
            }),
    {
        match self.get(id) {
            Some(entry) => entry.state,
            None => State::NotInstalled,
        }
    }

    /// Change a row, creating it when it is not there: `change` is handed the row's
    /// entry, or a fresh one, and what it gives back is stored.
    pub fn update<F: FnOnce(Entry) -> Entry>(&mut self, id: &ProductId, change: F) -> (entry: &Entry)
        requires
            old(self).wf(),
            call_requires(change, (prior(old(self)@, *id),)),
        ensures
            final(self).wf(),
            call_ensures(change, (prior(old(self)@, *id),), *entry),
            final(self)@ == old(self)@.insert(id@, *entry),
    {
        let (i, current) = self.slot_out(id);
        let changed = change(current);
        self.slot_in(i, id, changed);
        &self.entries[i].1
    }

    /// Take ownership of a game for a transient operation.
    ///
    /// The claim is what makes a crash recoverable: it records which process is
    /// working on the entry, so a later run can tell "being installed right now"
    /// from "was being installed when the machine was switched off".
    pub fn claim(&mut self, id: &ProductId, state: State, pid: u32, now: Timestamp)
        requires
            old(self).wf(),
            transient(state),
        ensures
            final(self).wf(),
            final(self)@ == old(self)@.insert(id@, claimed(prior(old(self)@, *id), state, pid, now)),
            final(self)@[id@].claim == Some(Claim { pid: pid, at: now }),
            final(self)@[id@].state == state,
            final(self)@[id@].failure is None,
    {
        let (i, mut entry) = self.slot_out(id);
        entry.state = state;
        entry.failure = None;
        entry.claim = Some(Claim { pid, at: now });
        self.slot_in(i, id, entry);
    }

    /// Record a finished installation.
    pub fn mark_installed(&mut self, id: &ProductId, build: String, install_path: String, steam_appid: u32)
        requires
            old(self).wf(),
        ensures
            final(self).wf(),
            final(self)@ == old(self)@.insert(
                id@,
                installed(prior(old(self)@, *id), build, install_path, steam_appid),
            ),
    {
        let (i, mut entry) = self.slot_out(id);
        entry.state = State::Installed;
        entry.build = Some(build);
        entry.install_path = Some(install_path);
        entry.steam_appid = Some(steam_appid);
        entry.failure = None;
        entry.claim = None;
        self.slot_in(i, id, entry);
    }

    /// Record a failed attempt, keeping what is known so far.
    pub fn mark_failed(&mut self, id: &ProductId, reason: String)
        requires
            old(self).wf(),
        ensures
            final(self).wf(),
            final(self)@ == old(self)@.insert(id@, failed(prior(old(self)@, *id), reason)),
    {
        let (i, mut entry) = self.slot_out(id);
        entry.state = State::Failed;
        entry.failure = Some(reason);
        entry.claim = None;
        self.slot_in(i, id, entry);
    }

    /// Record a successful launch.
    pub fn record_launch(&mut self, id: &ProductId, now: Timestamp)
        requires
            old(self).wf(),
        ensures
            final(self).wf(),
            final(self)@ == old(self)@.insert(id@, launched(prior(old(self)@, *id), now)),
    {
        let (i, mut entry) = self.slot_out(id);
        entry.last_played = Some(now);
        self.slot_in(i, id, entry);
    }

    /// Forget a game entirely. Returns whether it had a row.
    pub fn remove(&mut self, id: &ProductId) -> (removed: bool)
        requires
            old(self).wf(),
        ensures
            final(self).wf(),
            removed == old(self)@.contains_key(id@),
            final(self)@ == old(self)@.remove(id@),
    {
        let (i, found) = self.locate(id);
        proof {
            lemma_sorted_distinct(self.entries@);
            lemma_rows_map(self.entries@);
        }
        if found {
            proof {
                lemma_map_remove(self.entries@, i as int);
                lemma_sorted_remove(self.entries@, i as int);
            }
            let _ = self.entries.remove(i);
            true
        } else {
            proof {
                lemma_slot_absent(self.entries@, i as int, *id);
                if self@.contains_key(id@) {
                    let j = choose|j: int| 0 <= j < self.entries@.len() && (#[trigger] self.entries@[j].0)@ == id@;
                }
                assert(self@.remove(id@) =~= self@);
            }
            false
        }
    }

    /// Clear claims left behind by a process that is no longer running.
    ///
    /// This is what keeps a machine switched off mid-install from leaving a tile
    /// stuck on "Installing" forever. An entry whose claim is dead goes to
    /// [`State::Failed`] with a reason, which is a state the UI offers a retry from.
    /// A claim is dead when `is_alive` says its process is not running, or when it
    /// is older than [`CLAIM_MAX_AGE`]; a transient entry with no claim at all is
    /// treated as dead.
    ///
    /// Returns the games that were reset, in the order of their ids.
    pub fn reconcile_with<F: Fn(u32) -> bool>(&mut self, is_alive: F, now: Timestamp) -> (reset: Vec<ProductId>)
        requires
            old(self).wf(),
            forall|pid: u32| call_requires(is_alive, (pid,)),
        ensures
            final(self).wf(),
            final(self)@.dom() == old(self)@.dom(),
            forall|k: Seq<char>|
                #[trigger] old(self)@.contains_key(k) ==> reconciled(old(self)@[k], final(self)@[k], now, is_alive),
            final(self).rows().len() == old(self).rows().len(),
            forall|j: int| 0 <= j < old(self).rows().len() ==> (#[trigger] final(self).rows()[j]).0 == old(self).rows()[j].0,
            reset@ == reset_ids(old(self).rows(), final(self).rows()),
    {
        let ghost before = self.entries@;
        let mut reset: Vec<ProductId> = Vec::new();
        let mut i: usize = 0;
        proof {
            assert(before.take(0) =~= Seq::<(ProductId, Entry)>::empty());
            assert(self.entries@.take(0) =~= Seq::<(ProductId, Entry)>::empty());
        }
        while i < self.entries.len()
            invariant
                i <= self.entries@.len(),
                self.entries@.len() == before.len(),
                sorted_rows(before),
                forall|pid: u32| call_requires(is_alive, (pid,)),
                forall|j: int| 0 <= j < before.len() ==> (#[trigger] self.entries@[j]).0 == before[j].0,
                forall|j: int| i <= j < before.len() ==> #[trigger] self.entries@[j] == before[j],
                forall|j: int| 0 <= j < i ==> reconciled(before[j].1, (#[trigger] self.entries@[j]).1, now, is_alive),
                reset@ == reset_ids(before.take(i as int), self.entries@.take(i as int)),
            decreases before.len() - i,
        {
            let ghost current = self.entries@;
            let ghost reset_before = reset@;
            let state = self.entries[i].1.state;
            let mut dead = false;
            if state.is_transient() {
                dead = match self.entries[i].1.claim {
                    None => true,
                    Some(claim) => {
                        let alive = is_alive(claim.pid);
                        let too_old = more_than_secs_since(claim.at, now, CLAIM_MAX_AGE);
                        !alive || too_old
                    },
                };
            }
            if dead {
                let (key, mut entry) = self.entries.remove(i);
                entry.state = State::Failed;
                entry.failure = Some(owned(
                    "interrupted before it finished \u{2014} the process that started it is gone; start it again",
                ));
                entry.claim = None;
                let id = entry.id.duplicate();
                self.entries.insert(i, (key, entry));
                reset.push(id);
                proof {
                    assert(self.entries@ =~= current.update(i as int, (key, entry)));
                }
            }
            proof {
                let b = before.take(i + 1);
                let a = self.entries@.take(i + 1);
                assert(b.drop_last() =~= before.take(i as int));
                assert(a.drop_last() =~= self.entries@.take(i as int)) by {
                    assert(a.drop_last() =~= current.take(i as int));
                    assert(self.entries@.take(i as int) =~= current.take(i as int));
                }
                assert(b.last() == before[i as int]);
                assert(a.last() == self.entries@[i as int]);
                assert(reset_ids(b, a) == if a.last().1 != b.last().1 {
                    reset_ids(b.drop_last(), a.drop_last()).push(b.last().1.id)
                } else {
                    reset_ids(b.drop_last(), a.drop_last())
                });
                assert(reset_before == reset_ids(before.take(i as int), current.take(i as int)));
                assert(a.drop_last() =~= current.take(i as int));
                assert(reset_before == reset_ids(b.drop_last(), a.drop_last()));
                if dead {
                    assert(a.last().1.state != b.last().1.state);
                    assert(a.last().1 != b.last().1);
                    assert(reset@ =~= reset_before.push(b.last().1.id));
                    assert(reset@ == reset_ids(b, a));
                } else {
                    assert(a.last() == b.last());
                    assert(reset@ == reset_ids(b, a));
                }
            }
            i = i + 1;
        }
        proof {
            assert(before.take(i as int) =~= before);
            assert(self.entries@.take(i as int) =~= self.entries@);
            let after = self.entries@;
            assert(sorted_rows(after)) by {
                assert forall|a: int, b: int| 0 <= a < b < after.len() implies lex_lt(
                    key_bytes(#[trigger] after[a].0),
                    key_bytes(#[trigger] after[b].0),
                ) by {
                    assert(after[a].0 == before[a].0 && after[b].0 == before[b].0);
                }
            }
            lemma_sorted_distinct(before);
            lemma_sorted_distinct(after);
            lemma_rows_map(before);
            lemma_rows_map(after);
            assert forall|k: Seq<char>| #[trigger] rows_map(after).contains_key(k) <==> rows_map(before).contains_key(k) by {
                if rows_map(after).contains_key(k) {
                    let j = choose|j: int| 0 <= j < after.len() && (#[trigger] after[j].0)@ == k;
                    assert(before[j].0 == after[j].0);
                }
                if rows_map(before).contains_key(k) {
                    let j = choose|j: int| 0 <= j < before.len() && (#[trigger] before[j].0)@ == k;
                    assert(before[j].0 == after[j].0);
                }
            }
            assert(rows_map(after).dom() =~= rows_map(before).dom());
            assert forall|k: Seq<char>| #[trigger] rows_map(before).contains_key(k) implies reconciled(
                rows_map(before)[k],
                rows_map(after)[k],
                now,
                is_alive,
            ) by {
                let j = choose|j: int| 0 <= j < before.len() && (#[trigger] before[j].0)@ == k;
                assert(before[j].0 == after[j].0);
            }
        }
        reset
    }

    /// [`Registry::reconcile_with`] using this machine's liveness check,
    /// [`pid_is_alive`].
    pub fn reconcile(&mut self, now: Timestamp) -> (reset: Vec<ProductId>)
        requires
            old(self).wf(),
        ensures
            final(self).wf(),
            final(self)@.dom() == old(self)@.dom(),
            forall|k: Seq<char>|
                #[trigger] old(self)@.contains_key(k) ==> reconciled(old(self)@[k], final(self)@[k], now, pid_is_alive),
            reset@ == reset_ids(old(self).rows(), final(self).rows()),
    {
        self.reconcile_with(pid_is_alive, now)
    }
}

/// Whether `path` names something on disk.
///
/// Trusted: `std::path::Path::exists`, whose answer depends on the file system at
/// the moment of the call, so nothing is claimed of it.
#[verifier::external_body]
fn path_exists(path: &str) -> bool {
    std::path::Path::new(path).exists()
}

/// Whether a process is still running.
///
/// Where the system has a `/proc` (Linux), this is `/proc/<pid>` and it is exact.
/// Everywhere else there is no cheap check, so it answers "alive" and
/// [`CLAIM_MAX_AGE`] becomes what eventually clears a dead claim: the cost of being
/// wrong that way is a tile that stays busy for a day, where the other way round
/// is clobbering a download that is still running.
pub fn pid_is_alive(pid: u32) -> bool {
    let mounted = path_exists("/proc/self");
    let present = if mounted {
        let number = crate::text::decimal_string(pid as u64);
        let path = crate::text::joined("/proc/", number.as_str());
        path_exists(path.as_str())
    } else {
        false
    };
    alive_from(mounted, present)
}

/// Whether a process counts as alive, given whether the system has a `/proc` to
/// look in and whether the process has an entry there: without a `/proc` every
/// process counts as alive, the conservative answer; with one, exactly those
/// with an entry.
pub fn alive_from(proc_mounted: bool, entry_present: bool) -> (alive: bool)
    ensures
        alive == (!proc_mounted || entry_present),
{
    !proc_mounted || entry_present
}

/// Law: reconciling leaves every settled entry exactly as it was, whatever the
/// liveness check answers and however old its data is.
pub proof fn lemma_reconcile_keeps_settled<F: Fn(u32) -> bool>(
    before: Entry,
    after: Entry,
    now: Timestamp,
    is_alive: F,
)
    requires
        reconciled(before, after, now, is_alive),
        !transient(before.state),
    ensures
        after == before,
{
}

/// Law: after reconciling, an entry is transient only when it carries a claim no
/// older than [`CLAIM_MAX_AGE`] whose process the liveness check saw running;
/// every other transient entry is failed, with the interruption as its reason.
pub proof fn lemma_reconcile_outcome<F: Fn(u32) -> bool>(
    before: Entry,
    after: Entry,
    now: Timestamp,
    is_alive: F,
)
    requires
        reconciled(before, after, now, is_alive),
    ensures
        after.id == before.id,
        transient(after.state) ==> (after.claim matches Some(claim)
            && !more_than_secs_between(claim.at, now, CLAIM_MAX_AGE)
            && call_ensures(is_alive, (claim.pid,), true)),
        after != before ==> after.state == State::Failed,
        after != before ==> (after.claim is None),
        after != before ==> (after.failure matches Some(reason) && reason@ == interrupted_reason()),
{
}

/// Law: a claim always clears an earlier failure, and a recorded launch changes
/// nothing but the time of the last launch.
pub proof fn lemma_claim_and_launch(entry: Entry, state: State, pid: u32, now: Timestamp)
    ensures
        (claimed(entry, state, pid, now).failure is None),
        claimed(entry, state, pid, now).state == state,
        launched(entry, now).state == entry.state,
        launched(entry, now) == (Entry { last_played: Some(now), ..entry }),
{
}

/// Law: a claim records the process and the time it was given, puts the entry in
/// the state given and clears its failure, and leaves everything else the entry
/// knows as it was.
pub proof fn lemma_claim_records(entry: Entry, state: State, pid: u32, now: Timestamp)
    ensures
        claimed(entry, state, pid, now).claim == Some(Claim { pid: pid, at: now }),
        claimed(entry, state, pid, now).state == state,
        claimed(entry, state, pid, now).failure is None,
        claimed(entry, state, pid, now).id == entry.id,
        claimed(entry, state, pid, now).build == entry.build,
        claimed(entry, state, pid, now).install_path == entry.install_path,
        claimed(entry, state, pid, now).wrapper_path == entry.wrapper_path,
        claimed(entry, state, pid, now).steam_appid == entry.steam_appid,
        claimed(entry, state, pid, now).last_played == entry.last_played,
{
}

/// Law: work claimed by a process that is still running, reconciled no later than
/// [`CLAIM_MAX_AGE`] after the claim, is left alone: the entry stays exactly as
/// the claim left it.
pub proof fn lemma_live_claim_survives<F: Fn(u32) -> bool>(
    entry: Entry,
    state: State,
    pid: u32,
    now: Timestamp,
    later: Timestamp,
    after: Entry,
    is_alive: F,
)
    requires
        transient(state),
        !more_than_secs_between(now, later, CLAIM_MAX_AGE),
        forall|answer: bool| #[trigger] call_ensures(is_alive, (pid,), answer) ==> answer,
        reconciled(claimed(entry, state, pid, now), after, later, is_alive),
    ensures
        after == claimed(entry, state, pid, now),
{
}

/// Law: a finished installation records its build, path and shortcut, settles the
/// entry as installed with no failure and no claim, and keeps the rest; a failed
/// attempt settles it as failed with its reason and no claim, and keeps the rest,
/// build and path included; an interrupted one gives the reason that says so.
pub proof fn lemma_settling(entry: Entry, build: String, install_path: String, steam_appid: u32, reason: String)
    ensures
        installed(entry, build, install_path, steam_appid) == (Entry {
            state: State::Installed,
            build: Some(build),
            install_path: Some(install_path),
            steam_appid: Some(steam_appid),
            failure: None,
            claim: None,
            id: entry.id,
            wrapper_path: entry.wrapper_path,
            last_played: entry.last_played,
        }),
        failed(entry, reason) == (Entry {
            state: State::Failed,
            failure: Some(reason),
            claim: None,
            id: entry.id,
            build: entry.build,
            install_path: entry.install_path,
            wrapper_path: entry.wrapper_path,
            steam_appid: entry.steam_appid,
            last_played: entry.last_played,
        }),
        !transient(State::Installed) && !transient(State::Failed),
        transient(State::Queued) && transient(State::Downloading) && transient(State::Installing),
        interrupted_reason() == "interrupted before it finished \u{2014} the process that started it is gone; start it again"@,
{
}

} // verus!
