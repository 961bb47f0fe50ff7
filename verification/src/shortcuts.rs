//! The shortcuts gamestore adds to `shortcuts.vdf`, on top of the raw VDF tree.
//!
//! [`crate::vdf`] guarantees nothing is lost from the file; this module is what
//! guarantees nothing is lost from an entry. Updating a shortcut reads the entry
//! that is already there and changes only the fields gamestore owns, so a tag the
//! user added in Big Picture, or a `LaunchOptions` they edited by hand, survives a
//! reinstall.

use vstd::prelude::*;

use crate::error::{Error, Result};
use crate::steam::{quote_exe, shortcut_appid, spec_quote_exe, spec_shortcut_appid};
use crate::text::{decimal, decimal_string, owned};
use crate::vdf::{
    document_refusal, entries_tree, first_match, keys_match, lemma_entries_tree_index, lemma_entries_tree_update, lookup, parse as parse_vdf,
    read_document, tree_of, with_key_set, write as write_vdf, Tree, Value,
};

verus! {

/// The fields gamestore sets on a shortcut it owns.
#[derive(Debug, Clone, PartialEq, Eq, Default)]
pub struct Shortcut {
    /// Display name, as the tile shows it.
    pub app_name: String,
    /// Executable path, unquoted. It is stored quoted; see [`quote_exe`].
    pub exe: String,
    /// Working directory, unquoted.
    pub start_dir: String,
    /// Arguments appended after the executable.
    pub launch_options: String,
    /// Icon path, unquoted. Empty means Steam picks one.
    pub icon: String,
}

/// The appid Steam derives for a shortcut with these fields.
pub open spec fn shortcut_spec_appid(shortcut: Shortcut) -> u32 {
    spec_shortcut_appid(spec_quote_exe(shortcut.exe@), shortcut.app_name@)
}

impl Shortcut {
    /// The executable as it is stored in the file, and as the appid is derived.
    pub fn stored_exe(&self) -> (exe: String)
        ensures
            exe@ == spec_quote_exe(self.exe@),
    {
        quote_exe(self.exe.as_str())
    }

    /// The appid Steam derives for this shortcut.
    pub fn appid(&self) -> (appid: u32)
        ensures
            appid == shortcut_spec_appid(*self),
    {
        let exe = self.stored_exe();
        shortcut_appid(exe.as_str(), self.app_name.as_str())
    }
}

/// The string at `key` in an entry, or the empty string when there is none.
pub open spec fn text_field(entry: Tree, key: Seq<char>) -> Seq<char> {
    match lookup(entry, key) {
        Some(Tree::Text(text)) => text,
        _ => Seq::empty(),
    }
}

/// The appid an entry declares: its `appid` field read as unsigned, or, with no
/// such field, the one derived from its own `Exe` and `AppName`.
pub open spec fn entry_appid(entry: Tree) -> u32 {
    match lookup(entry, "appid"@) {
        Some(Tree::Int32(stored)) => stored as u32,
        _ => spec_shortcut_appid(text_field(entry, "Exe"@), text_field(entry, "AppName"@)),
    }
}

/// The shortcut entries of a document: the pairs of its `shortcuts` map, empty
/// when it has none.
pub open spec fn shortcut_list(document: Tree) -> Seq<(Seq<char>, Tree)> {
    match lookup(document, "shortcuts"@) {
        Some(Tree::Mapping(list)) => list,
        _ => Seq::empty(),
    }
}

/// Whether a document is a `shortcuts.vdf`: a map whose `shortcuts` key holds a
/// map.
pub open spec fn is_shortcuts_document(document: Tree) -> bool {
    document is Mapping && lookup(document, "shortcuts"@) matches Some(Tree::Mapping(_))
}

/// Whether a document's `shortcuts` key holds a map, which is what adding and
/// removing shortcuts edits.
pub open spec fn has_shortcut_map(document: Tree) -> bool {
    document is Mapping && lookup(document, "shortcuts"@) matches Some(Tree::Mapping(_))
}

/// Whether `bytes` are a `shortcuts.vdf`: a VDF document whose `shortcuts` key
/// holds a map.
pub open spec fn parses_as_shortcuts(bytes: Seq<u8>) -> bool {
    match read_document(bytes) {
        Some(entries) => is_shortcuts_document(Tree::Mapping(entries)),
        None => false,
    }
}

/// The document `shortcuts.vdf` holds when there are no shortcuts at all.
pub open spec fn empty_shortcuts() -> Tree {
    Tree::Mapping(seq![("shortcuts"@, Tree::Mapping(Seq::empty()))])
}

/// Where the first entry declaring `appid` is.
pub open spec fn appid_position(list: Seq<(Seq<char>, Tree)>, appid: u32) -> Option<int>
    decreases list.len(),
{
    if list.len() == 0 {
        None
    } else {
        match appid_position(list.drop_last(), appid) {
            Some(i) => Some(i),
            None => if entry_appid(list.last().1) == appid {
                Some(list.len() - 1)
            } else {
                None
            },
        }
    }
}

/// The first entry declaring `appid` is the first whose appid is `appid`.
pub proof fn lemma_appid_position(list: Seq<(Seq<char>, Tree)>, appid: u32)
    ensures
        appid_position(list, appid) matches Some(i) ==> 0 <= i < list.len() && entry_appid(
            list[i].1,
        ) == appid && forall|j: int| 0 <= j < i ==> entry_appid(#[trigger] list[j].1) != appid,
        appid_position(list, appid) is None ==> forall|j: int|
            0 <= j < list.len() ==> entry_appid(#[trigger] list[j].1) != appid,
    decreases list.len(),
{
    if list.len() > 0 {
        let front = list.drop_last();
        lemma_appid_position(front, appid);
        assert forall|j: int| 0 <= j < front.len() implies front[j] == list[j] by {}
    }
}

/// The display name of the first entry declaring `appid`.
pub open spec fn name_of_appid(document: Tree, appid: u32) -> Option<Seq<char>> {
    let list = shortcut_list(document);
    match appid_position(list, appid) {
        Some(i) => match lookup(list[i].1, "AppName"@) {
            Some(Tree::Text(name)) => Some(name),
            _ => None,
        },
        None => None,
    }
}

/// The appid an entry declares, falling back to deriving it from its own fields
/// when the field is missing.
pub fn stored_appid(entry: &Value) -> (appid: u32)
    ensures
        appid == entry_appid(entry@),
{
    if let Some(stored) = entry.get_i32("appid") {
        // Steam stores it as a signed 32-bit field, so the high bit reads negative.
        return #[verifier::truncate] (stored as u32);
    }
    let exe = match entry.get_str("Exe") {
        Some(text) => text,
        None => "",
    };
    let name = match entry.get_str("AppName") {
        Some(text) => text,
        None => "",
    };
    proof {
        assert(""@ =~= Seq::<char>::empty()) by {
            reveal_strlit("");
        }
    }
    shortcut_appid(exe, name)
}

/// A parsed `shortcuts.vdf`.
#[derive(Debug, Clone, PartialEq, Eq)]
pub struct Shortcuts {
    document: Value,
}

impl View for Shortcuts {
    type V = Tree;

    closed spec fn view(&self) -> Tree {
        self.document@
    }
}

/// An entry with the fields gamestore owns set from `shortcut`, every other key
/// left as it was.
#[verifier::opaque]
pub open spec fn applied(entry: Tree, shortcut: Shortcut, appid: u32) -> Tree {
    let entry = with_key_set(entry, "appid"@, Tree::Int32(appid as i32));
    let entry = with_key_set(entry, "AppName"@, Tree::Text(shortcut.app_name@));
    let entry = with_key_set(entry, "Exe"@, Tree::Text(spec_quote_exe(shortcut.exe@)));
    let entry = with_key_set(entry, "StartDir"@, Tree::Text(spec_quote_exe(shortcut.start_dir@)));
    let entry = with_key_set(entry, "icon"@, Tree::Text(shortcut.icon@));
    with_key_set(entry, "LaunchOptions"@, Tree::Text(shortcut.launch_options@))
}

/// An entry with the fields Steam writes on a shortcut it creates itself, in its
/// order, then an empty `tags` map.
#[verifier::opaque]
pub open spec fn with_defaults(entry: Tree) -> Tree {
    let entry = with_key_set(entry, "appid"@, Tree::Int32(0));
    let entry = with_key_set(entry, "AppName"@, Tree::Text(Seq::empty()));
    let entry = with_key_set(entry, "Exe"@, Tree::Text(Seq::empty()));
    let entry = with_key_set(entry, "StartDir"@, Tree::Text(Seq::empty()));
    let entry = with_key_set(entry, "icon"@, Tree::Text(Seq::empty()));
    let entry = with_key_set(entry, "ShortcutPath"@, Tree::Text(Seq::empty()));
    let entry = with_key_set(entry, "LaunchOptions"@, Tree::Text(Seq::empty()));
    let entry = with_key_set(entry, "IsHidden"@, Tree::Int32(0));
    let entry = with_key_set(entry, "AllowDesktopConfig"@, Tree::Int32(1));
    let entry = with_key_set(entry, "AllowOverlay"@, Tree::Int32(1));
    let entry = with_key_set(entry, "OpenVR"@, Tree::Int32(0));
    let entry = with_key_set(entry, "Devkit"@, Tree::Int32(0));
    let entry = with_key_set(entry, "DevkitGameID"@, Tree::Text(Seq::empty()));
    let entry = with_key_set(entry, "DevkitOverrideAppID"@, Tree::Int32(0));
    let entry = with_key_set(entry, "LastPlayTime"@, Tree::Int32(0));
    let entry = with_key_set(entry, "FlatpakAppID"@, Tree::Text(Seq::empty()));
    with_key_set(entry, "tags"@, Tree::Mapping(Seq::empty()))
}

/// The shortcut list after `shortcut` is added: the first entry declaring its appid
/// has gamestore's fields set, or, with none, a new entry keyed by its index is
/// appended with Steam's defaults and gamestore's fields.
pub open spec fn upserted(list: Seq<(Seq<char>, Tree)>, shortcut: Shortcut) -> Seq<
    (Seq<char>, Tree),
> {
    let appid = shortcut_spec_appid(shortcut);
    match appid_position(list, appid) {
        Some(i) => list.update(i, (list[i].0, applied(list[i].1, shortcut, appid))),
        None => list.push(
            (
                decimal(list.len()),
                applied(with_defaults(Tree::Mapping(Seq::empty())), shortcut, appid),
            ),
        ),
    }
}

/// The entries that do not declare `appid`, in order.
pub open spec fn kept(list: Seq<(Seq<char>, Tree)>, appid: u32) -> Seq<(Seq<char>, Tree)>
    decreases list.len(),
{
    if list.len() == 0 {
        Seq::empty()
    } else if entry_appid(list.last().1) == appid {
        kept(list.drop_last(), appid)
    } else {
        kept(list.drop_last(), appid).push(list.last())
    }
}

/// Entries keyed by their index, in decimal, from zero: Steam stops reading at the
/// first gap.
pub open spec fn renumbered(list: Seq<(Seq<char>, Tree)>) -> Seq<(Seq<char>, Tree)> {
    Seq::new(list.len(), |i: int| (decimal(i as nat), list[i].1))
}

/// A document whose `shortcuts` map is replaced by `list`.
pub open spec fn with_list(document: Tree, list: Seq<(Seq<char>, Tree)>) -> Tree {
    with_key_set(document, "shortcuts"@, Tree::Mapping(list))
}

/// The document after `shortcut` is added or updated.
pub open spec fn after_upsert(document: Tree, shortcut: Shortcut) -> Tree {
    with_list(document, upserted(shortcut_list(document), shortcut))
}

/// The document after the shortcuts declaring `appid` are removed: unchanged when
/// there are none, else without them and renumbered.
pub open spec fn after_remove(document: Tree, appid: u32) -> Tree {
    if appid_position(shortcut_list(document), appid) is Some {
        with_list(document, renumbered(kept(shortcut_list(document), appid)))
    } else {
        document
    }
}

/// Write the fields gamestore owns, leaving every other key untouched.
pub fn apply(entry: &mut Value, shortcut: &Shortcut, appid: u32)
    ensures
        final(entry)@ == applied(old(entry)@, *shortcut, appid),
{
    reveal(applied);
    entry.set("appid", Value::Int32(#[verifier::truncate] (appid as i32)));
    entry.set("AppName", Value::String(shortcut.app_name.clone()));
    entry.set("Exe", Value::String(shortcut.stored_exe()));
    entry.set("StartDir", Value::String(quote_exe(shortcut.start_dir.as_str())));
    entry.set("icon", Value::String(shortcut.icon.clone()));
    entry.set("LaunchOptions", Value::String(shortcut.launch_options.clone()));
}

/// Give a new entry the fields Steam writes on a shortcut it creates itself, in
/// its order. An existing entry keeps whatever it has.
pub fn fill_defaults(entry: &mut Value)
    ensures
        final(entry)@ == with_defaults(old(entry)@),
{
    reveal(with_defaults);
    entry.set("appid", Value::Int32(0));
    entry.set("AppName", Value::String(String::new()));
    entry.set("Exe", Value::String(String::new()));
    entry.set("StartDir", Value::String(String::new()));
    entry.set("icon", Value::String(String::new()));
    entry.set("ShortcutPath", Value::String(String::new()));
    entry.set("LaunchOptions", Value::String(String::new()));
    entry.set("IsHidden", Value::Int32(0));
    entry.set("AllowDesktopConfig", Value::Int32(1));
    entry.set("AllowOverlay", Value::Int32(1));
    entry.set("OpenVR", Value::Int32(0));
    entry.set("Devkit", Value::Int32(0));
    entry.set("DevkitGameID", Value::String(String::new()));
    entry.set("DevkitOverrideAppID", Value::Int32(0));
    entry.set("LastPlayTime", Value::Int32(0));
    entry.set("FlatpakAppID", Value::String(String::new()));
    entry.set("tags", Value::map());
}

/// Whether `result` is what parsing `bytes` as a `shortcuts.vdf` gives: the
/// document, when it is one whose `shortcuts` key holds a map; the VDF reader's
/// own refusal, when it is no document; and otherwise the refusal of a document
/// that is not a shortcuts file.
pub open spec fn parsed_shortcuts(bytes: Seq<u8>, result: Result<Shortcuts>) -> bool {
    &&& result is Ok <==> parses_as_shortcuts(bytes)
    &&& result matches Ok(shortcuts) ==> shortcuts@ == Tree::Mapping(read_document(bytes).unwrap())
    &&& result matches Err(error) ==> error is Vdf
    &&& document_refusal(bytes) matches Some(refusal) ==> (result matches Err(Error::Vdf(message))
        && message@ == refusal)
    &&& read_document(bytes) is Some && !parses_as_shortcuts(bytes) ==> (result matches Err(Error::Vdf(message))
        && message@ == "this does not look like a shortcuts.vdf: it has no \"shortcuts\" map"@)
}

impl Shortcuts {
    /// Parse a `shortcuts.vdf`: a VDF document whose `shortcuts` key holds a map.
    pub fn parse(bytes: &[u8]) -> (result: Result<Shortcuts>)
        ensures
            parsed_shortcuts(bytes@, result),
    {
        let document = match parse_vdf(bytes) {
            Ok(document) => document,
            Err(error) => return Err(error),
        };
        let holds_map = match document.get("shortcuts") {
            Some(value) => value.entries().is_some(),
            None => false,
        };
        if !holds_map {
            return Err(
                Error::Vdf(
                    owned(
                        "this does not look like a shortcuts.vdf: it has no \"shortcuts\" map",
                    ),
                ),
            );
        }
        Ok(Shortcuts { document })
    }

    /// The document Steam writes when there are no shortcuts at all.
    pub fn empty() -> (shortcuts: Shortcuts)
        ensures
            shortcuts@ == empty_shortcuts(),
    {
        let inner = Value::map();
        let pair = (owned("shortcuts"), inner);
        let entries = vec![pair];
        proof {
            assert(entries@ =~= seq![pair]);
            assert(seq![pair].drop_last() =~= Seq::<(String, Value)>::empty());
            assert(entries_tree(Seq::<(String, Value)>::empty()) == Seq::<(Seq<char>, Tree)>::empty());
            assert(entries_tree(seq![pair]) =~= seq![("shortcuts"@, Tree::Mapping(Seq::empty()))]);
        }
        Shortcuts { document: Value::Mapping(entries) }
    }

    /// Parse a `shortcuts.vdf`, treating an empty file, or one holding a single NUL,
    /// as no shortcuts.
    ///
    /// Steam does not always create the file, and a zero-length one turns up after
    /// an interrupted write; neither is a reason to refuse to add a game.
    pub fn parse_or_empty(bytes: &[u8]) -> (result: Result<Shortcuts>)
        ensures
            bytes@.len() == 0 || bytes@ == seq![0u8] ==> result is Ok && result.unwrap()@
                == empty_shortcuts(),
            !(bytes@.len() == 0 || bytes@ == seq![0u8]) ==> parsed_shortcuts(bytes@, result),
    {
        if bytes.len() < 2 && (bytes.len() == 0 || bytes[0] == 0) {
            proof {
                if bytes.len() == 1 {
                    assert(bytes@ =~= seq![0u8]);
                }
            }
            return Ok(Shortcuts::empty());
        }
        proof {
            if bytes@ == seq![0u8] {
                assert(bytes@[0] == 0u8);
            }
        }
        Shortcuts::parse(bytes)
    }

    /// Serialize back to `shortcuts.vdf` bytes.
    pub fn to_bytes(&self) -> (result: Result<Vec<u8>>)
        ensures
            result is Ok <==> self@ is Mapping && crate::vdf::tree_storable(self@),
            result matches Ok(bytes) ==> self@ matches Tree::Mapping(entries) && bytes@
                == crate::vdf::body_bytes(entries),
            result matches Err(error) ==> error is Vdf,
    {
        write_vdf(&self.document)
    }

    /// The shortcut entries, empty when the document has no `shortcuts` map.
    pub fn list(&self) -> (list: &[(String, Value)])
        ensures
            entries_tree(list@) == shortcut_list(self@),
    {
        match self.document.get("shortcuts") {
            Some(value) => match value.entries() {
                Some(entries) => entries,
                None => &[],
            },
            None => &[],
        }
    }

    /// Whether the `shortcuts` key holds a map, which adding and removing
    /// shortcuts edits; a file where it holds anything else cannot be edited.
    pub fn is_editable(&self) -> (editable: bool)
        ensures
            editable == has_shortcut_map(self@),
    {
        match self.document.entries() {
            Some(_) => match self.document.get("shortcuts") {
                Some(value) => value.entries().is_some(),
                None => false,
            },
            None => false,
        }
    }

    /// How many shortcuts the file holds, gamestore's and everybody else's.
    pub fn len(&self) -> (count: usize)
        ensures
            count == shortcut_list(self@).len(),
    {
        let list = self.list();
        proof {
            lemma_entries_tree_index(list@);
        }
        list.len()
    }

    /// Whether there are no shortcuts at all.
    pub fn is_empty(&self) -> (empty: bool)
        ensures
            empty == (shortcut_list(self@).len() == 0),
    {
        self.len() == 0
    }

    /// The appid of every shortcut in the file, in file order.
    ///
    /// The stored `appid` field is preferred over deriving one, since an entry
    /// another tool wrote may not derive to what it stored.
    pub fn appids(&self) -> (appids: Vec<u32>)
        ensures
            appids@.len() == shortcut_list(self@).len(),
            forall|i: int|
                0 <= i < appids@.len() ==> #[trigger] appids@[i] == entry_appid(
                    shortcut_list(self@)[i].1,
                ),
    {
        let list = self.list();
        let ghost model = entries_tree(list@);
        proof {
            lemma_entries_tree_index(list@);
        }
        let mut appids: Vec<u32> = Vec::new();
        let mut i: usize = 0;
        while i < list.len()
            invariant
                i <= list.len(),
                model == shortcut_list(self@),
                model.len() == list.len(),
                forall|k: int|
                    0 <= k < list.len() ==> #[trigger] model[k] == (
                        list@[k].0@,
                        tree_of(list@[k].1),
                    ),
                appids@.len() == i,
                forall|k: int| 0 <= k < i ==> #[trigger] appids@[k] == entry_appid(model[k].1),
            decreases list.len() - i,
        {
            let appid = stored_appid(&list[i].1);
            assert(model[i as int].1 == list@[i as int].1@);
            appids.push(appid);
            i = i + 1;
        }
        appids
    }

    /// The entry of the first shortcut declaring `appid`.
    pub fn find(&self, appid: u32) -> (found: Option<&Value>)
        ensures
            match found {
                Some(entry) => appid_position(shortcut_list(self@), appid) matches Some(i)
                    && entry@ == shortcut_list(self@)[i].1,
                None => appid_position(shortcut_list(self@), appid) is None,
            },
    {
        let list = self.list();
        let ghost model = entries_tree(list@);
        proof {
            lemma_entries_tree_index(list@);
            lemma_appid_position(model, appid);
        }
        let mut i: usize = 0;
        while i < list.len()
            invariant
                i <= list.len(),
                model == shortcut_list(self@),
                model.len() == list.len(),
                forall|k: int|
                    0 <= k < list.len() ==> #[trigger] model[k] == (
                        list@[k].0@,
                        tree_of(list@[k].1),
                    ),
                forall|j: int| 0 <= j < i ==> entry_appid(#[trigger] model[j].1) != appid,
            decreases list.len() - i,
        {
            assert(model[i as int].1 == list@[i as int].1@);
            if stored_appid(&list[i].1) == appid {
                proof {
                    lemma_appid_position(model, appid);
                }
                return Some(&list[i].1);
            }
            i = i + 1;
        }
        proof {
            lemma_appid_position(model, appid);
        }
        None
    }

    /// The display name of the first shortcut declaring `appid`.
    pub fn name_of(&self, appid: u32) -> (name: Option<&str>)
        ensures
            match name {
                Some(text) => name_of_appid(self@, appid) == Some(text@),
                None => name_of_appid(self@, appid) is None,
            },
    {
        match self.find(appid) {
            Some(entry) => entry.get_str("AppName"),
            None => None,
        }
    }

    /// The shortcut entries for modification.
    pub fn list_mut(&mut self) -> (list: &mut Vec<(String, Value)>)
        requires
            has_shortcut_map(old(self)@),
        ensures
            entries_tree(list@) == shortcut_list(old(self)@),
            final(self)@ == with_list(old(self)@, entries_tree(final(list)@)),
    {
        let ghost before = self.document@;
        let root = self.document.entries_mut().unwrap();
        let ghost model = entries_tree(root@);
        proof {
            lemma_entries_tree_index(root@);
            crate::vdf::lemma_first_match(model, "shortcuts"@);
        }
        let mut i: usize = 0;
        while i < root.len() && !keys_match(root[i].0.as_str(), "shortcuts")
            invariant
                i <= root.len(),
                model == entries_tree(root@),
                model.len() == root.len(),
                forall|k: int|
                    0 <= k < root.len() ==> #[trigger] model[k] == (
                        root@[k].0@,
                        tree_of(root@[k].1),
                    ),
                forall|j: int| 0 <= j < i ==> !crate::vdf::same_key(#[trigger] model[j].0, "shortcuts"@),
            decreases root.len() - i,
        {
            assert(model[i as int].0 == root@[i as int].0@);
            i = i + 1;
        }
        proof {
            if i < root.len() {
                assert(model[i as int].0 == root@[i as int].0@);
            }
            assert(first_match(model, "shortcuts"@) == Some(i as int));
        }
        let ghost entries = root@;
        let slot = &mut root[i];
        let value = &mut slot.1;
        let list = value.entries_mut().unwrap();
        proof {
            lemma_entries_tree_update(entries, i as int, (entries[i as int].0, Value::Mapping(*final(list))));
        }
        list
    }

    /// Where the first shortcut declaring `appid` is.
    fn position_of(&self, appid: u32) -> (found: Option<usize>)
        ensures
            match found {
                Some(i) => appid_position(shortcut_list(self@), appid) == Some(i as int),
                None => appid_position(shortcut_list(self@), appid) is None,
            },
    {
        let list = self.list();
        let ghost model = entries_tree(list@);
        proof {
            lemma_entries_tree_index(list@);
            lemma_appid_position(model, appid);
        }
        let mut i: usize = 0;
        while i < list.len()
            invariant
                i <= list.len(),
                model == shortcut_list(self@),
                model.len() == list.len(),
                forall|k: int|
                    0 <= k < list.len() ==> #[trigger] model[k] == (
                        list@[k].0@,
                        tree_of(list@[k].1),
                    ),
                forall|j: int| 0 <= j < i ==> entry_appid(#[trigger] model[j].1) != appid,
            decreases list.len() - i,
        {
            assert(model[i as int].1 == list@[i as int].1@);
            if stored_appid(&list[i].1) == appid {
                proof {
                    lemma_appid_position(model, appid);
                }
                return Some(i);
            }
            i = i + 1;
        }
        proof {
            lemma_appid_position(model, appid);
        }
        None
    }

    /// Add `shortcut`, or update the first shortcut with the same appid.
    ///
    /// Fields gamestore does not own are left exactly as they were found, which is
    /// what makes a reinstall non-destructive.
    pub fn upsert(&mut self, shortcut: &Shortcut) -> (result: Result<u32>)
        requires
            has_shortcut_map(old(self)@),
        ensures
            result matches Ok(appid) && appid == shortcut_spec_appid(*shortcut),
            final(self)@ == after_upsert(old(self)@, *shortcut),
    {
        let appid = shortcut.appid();
        match self.position_of(appid) {
            Some(index) => {
                proof {
                    lemma_appid_position(shortcut_list(self@), appid);
                }
                let list = self.list_mut();
                let ghost entries = list@;
                proof {
                    lemma_entries_tree_index(entries);
                }
                let slot = &mut list[index];
                apply(&mut slot.1, shortcut, appid);
                proof {
                    lemma_entries_tree_update(entries, index as int, *slot);
                }
            },
            None => {
                let mut entry = Value::map();
                fill_defaults(&mut entry);
                apply(&mut entry, shortcut, appid);
                let key = decimal_string(self.len() as u64);
                let list = self.list_mut();
                let ghost entries = list@;
                let pair = (key, entry);
                proof {
                    assert(entries.push(pair).drop_last() =~= entries);
                }
                list.push(pair);
            },
        }
        Ok(appid)
    }

    /// Remove every shortcut declaring `appid`. Returns whether there was one.
    ///
    /// The rest are keyed by their index again afterwards: Steam expects the keys
    /// contiguous from zero, and a gap makes it stop reading at the hole, which
    /// would look exactly like uninstalling one game deleting every game after it.
    pub fn remove(&mut self, appid: u32) -> (removed: bool)
        requires
            has_shortcut_map(old(self)@),
        ensures
            removed == appid_position(shortcut_list(old(self)@), appid) is Some,
            final(self)@ == after_remove(old(self)@, appid),
    {
        if self.position_of(appid).is_none() {
            return false;
        }
        let ghost before = self@;
        let mut taken: Vec<(String, Value)> = Vec::new();
        let list = self.list_mut();
        std::mem::swap(list, &mut taken);
        proof {
            crate::vdf::lemma_set_then_lookup(before, "shortcuts"@, Tree::Mapping(Seq::empty()));
            assert(entries_tree(Seq::<(String, Value)>::empty()) == Seq::<(Seq<char>, Tree)>::empty());
        }
        let ghost given = taken@;
        let ghost model = entries_tree(given);
        proof {
            lemma_entries_tree_index(given);
            assert(model.take(0) =~= Seq::<(Seq<char>, Tree)>::empty());
            assert(renumbered(Seq::<(Seq<char>, Tree)>::empty()) =~= Seq::<(Seq<char>, Tree)>::empty());
            assert(given.skip(0) =~= given);
        }
        let mut rebuilt: Vec<(String, Value)> = Vec::new();
        let ghost mut i: int = 0;
        while taken.len() > 0
            invariant
                0 <= i <= given.len(),
                taken@ == given.skip(i),
                model == entries_tree(given),
                model.len() == given.len(),
                forall|k: int|
                    0 <= k < given.len() ==> #[trigger] model[k] == (
                        given[k].0@,
                        tree_of(given[k].1),
                    ),
                entries_tree(rebuilt@) == renumbered(kept(model.take(i), appid)),
            decreases taken.len(),
        {
            let (key, entry) = taken.remove(0);
            proof {
                assert(given.skip(i).remove(0) =~= given.skip(i + 1));
                assert(model.take(i + 1).drop_last() =~= model.take(i));
                assert(model.take(i + 1).last() == model[i]);
                assert(entry@ == model[i].1);
            }
            if stored_appid(&entry) != appid {
                let number = decimal_string(rebuilt.len() as u64);
                let ghost front = kept(model.take(i), appid);
                let pair = (number, entry);
                proof {
                    assert(rebuilt@.push(pair).drop_last() =~= rebuilt@);
                    lemma_entries_tree_index(rebuilt@);
                    assert(renumbered(front.push(model[i])) =~= renumbered(front).push(
                        (decimal(front.len()), model[i].1),
                    ));
                }
                rebuilt.push(pair);
            }
            proof {
                i = i + 1;
            }
        }
        proof {
            assert(model.take(i) =~= model);
        }
        let list = self.list_mut();
        *list = rebuilt;
        proof {
            crate::vdf::lemma_set_twice(before, "shortcuts"@, Tree::Mapping(Seq::empty()), Tree::Mapping(renumbered(kept(model, appid))));
        }
        true
    }
}


// ---------------------------------------------------------------------------
// Laws of adding and removing shortcuts.

/// The keys gamestore sets on an entry are ASCII, so their UTF-8 bytes number as
/// many as their characters.
proof fn lemma_owned_key_lengths()
    ensures
        crate::vdf::encode_utf8_len("appid"@) == 5,
        crate::vdf::encode_utf8_len("AppName"@) == 7,
        crate::vdf::encode_utf8_len("Exe"@) == 3,
        crate::vdf::encode_utf8_len("StartDir"@) == 8,
        crate::vdf::encode_utf8_len("icon"@) == 4,
        crate::vdf::encode_utf8_len("LaunchOptions"@) == 13,
{
    reveal_strlit("appid");
    reveal_strlit("AppName");
    reveal_strlit("Exe");
    reveal_strlit("StartDir");
    reveal_strlit("icon");
    reveal_strlit("LaunchOptions");
    crate::vdf::lemma_ascii_len("appid"@);
    crate::vdf::lemma_ascii_len("AppName"@);
    crate::vdf::lemma_ascii_len("Exe"@);
    crate::vdf::lemma_ascii_len("StartDir"@);
    crate::vdf::lemma_ascii_len("icon"@);
    crate::vdf::lemma_ascii_len("LaunchOptions"@);
}

/// The fields gamestore sets are found with the values set, and an entry that is
/// a map stays one.
proof fn lemma_applied_fields(entry: Tree, shortcut: Shortcut, appid: u32)
    requires
        entry is Mapping,
    ensures
        applied(entry, shortcut, appid) is Mapping,
        lookup(applied(entry, shortcut, appid), "appid"@) == Some(Tree::Int32(appid as i32)),
        lookup(applied(entry, shortcut, appid), "AppName"@) == Some(Tree::Text(shortcut.app_name@)),
        lookup(applied(entry, shortcut, appid), "Exe"@) == Some(
            Tree::Text(spec_quote_exe(shortcut.exe@)),
        ),
        lookup(applied(entry, shortcut, appid), "StartDir"@) == Some(
            Tree::Text(spec_quote_exe(shortcut.start_dir@)),
        ),
        lookup(applied(entry, shortcut, appid), "icon"@) == Some(Tree::Text(shortcut.icon@)),
        lookup(applied(entry, shortcut, appid), "LaunchOptions"@) == Some(
            Tree::Text(shortcut.launch_options@),
        ),
{
    reveal(applied);
    lemma_owned_key_lengths();
    let keys = seq!["appid"@, "AppName"@, "Exe"@, "StartDir"@, "icon"@, "LaunchOptions"@];
    let values = seq![
        Tree::Int32(appid as i32),
        Tree::Text(shortcut.app_name@),
        Tree::Text(spec_quote_exe(shortcut.exe@)),
        Tree::Text(spec_quote_exe(shortcut.start_dir@)),
        Tree::Text(shortcut.icon@),
        Tree::Text(shortcut.launch_options@),
    ];
    let e1 = with_key_set(entry, keys[0], values[0]);
    let e2 = with_key_set(e1, keys[1], values[1]);
    let e3 = with_key_set(e2, keys[2], values[2]);
    let e4 = with_key_set(e3, keys[3], values[3]);
    let e5 = with_key_set(e4, keys[4], values[4]);
    let e6 = with_key_set(e5, keys[5], values[5]);
    assert(e6 == applied(entry, shortcut, appid));
    crate::vdf::lemma_set_then_lookup(entry, keys[0], values[0]);
    crate::vdf::lemma_set_then_lookup(e1, keys[1], values[1]);
    crate::vdf::lemma_set_then_lookup(e2, keys[2], values[2]);
    crate::vdf::lemma_set_then_lookup(e3, keys[3], values[3]);
    crate::vdf::lemma_set_then_lookup(e4, keys[4], values[4]);
    crate::vdf::lemma_set_then_lookup(e5, keys[5], values[5]);
    assert forall|a: int, b: int| 0 <= a < 6 && 0 <= b < 6 && a != b implies !crate::vdf::same_key(
        #[trigger] keys[a],
        #[trigger] keys[b],
    ) by {
        assert(crate::vdf::encode_utf8_len(keys[a]) != crate::vdf::encode_utf8_len(keys[b]));
    }
    // What one set found stays found through the sets after it.
    crate::vdf::lemma_set_keeps_other_keys(e1, keys[1], values[1], keys[0]);
    crate::vdf::lemma_set_keeps_other_keys(e2, keys[2], values[2], keys[0]);
    crate::vdf::lemma_set_keeps_other_keys(e3, keys[3], values[3], keys[0]);
    crate::vdf::lemma_set_keeps_other_keys(e4, keys[4], values[4], keys[0]);
    crate::vdf::lemma_set_keeps_other_keys(e5, keys[5], values[5], keys[0]);
    crate::vdf::lemma_set_keeps_other_keys(e2, keys[2], values[2], keys[1]);
    crate::vdf::lemma_set_keeps_other_keys(e3, keys[3], values[3], keys[1]);
    crate::vdf::lemma_set_keeps_other_keys(e4, keys[4], values[4], keys[1]);
    crate::vdf::lemma_set_keeps_other_keys(e5, keys[5], values[5], keys[1]);
    crate::vdf::lemma_set_keeps_other_keys(e3, keys[3], values[3], keys[2]);
    crate::vdf::lemma_set_keeps_other_keys(e4, keys[4], values[4], keys[2]);
    crate::vdf::lemma_set_keeps_other_keys(e5, keys[5], values[5], keys[2]);
    crate::vdf::lemma_set_keeps_other_keys(e4, keys[4], values[4], keys[3]);
    crate::vdf::lemma_set_keeps_other_keys(e5, keys[5], values[5], keys[3]);
    crate::vdf::lemma_set_keeps_other_keys(e5, keys[5], values[5], keys[4]);
}

/// Setting gamestore's fields a second time changes nothing.
proof fn lemma_applied_twice(entry: Tree, shortcut: Shortcut, appid: u32)
    ensures
        applied(applied(entry, shortcut, appid), shortcut, appid) == applied(entry, shortcut, appid),
{
    let once = applied(entry, shortcut, appid);
    if entry is Mapping {
        lemma_applied_fields(entry, shortcut, appid);
        reveal(applied);
        crate::vdf::lemma_set_unchanged(once, "appid"@, Tree::Int32(appid as i32));
        crate::vdf::lemma_set_unchanged(once, "AppName"@, Tree::Text(shortcut.app_name@));
        crate::vdf::lemma_set_unchanged(once, "Exe"@, Tree::Text(spec_quote_exe(shortcut.exe@)));
        crate::vdf::lemma_set_unchanged(
            once,
            "StartDir"@,
            Tree::Text(spec_quote_exe(shortcut.start_dir@)),
        );
        crate::vdf::lemma_set_unchanged(once, "icon"@, Tree::Text(shortcut.icon@));
        crate::vdf::lemma_set_unchanged(
            once,
            "LaunchOptions"@,
            Tree::Text(shortcut.launch_options@),
        );
    } else {
        reveal(applied);
    }
}

/// An entry with gamestore's fields set declares the appid set, unless it is not
/// a map, which is left as it was.
proof fn lemma_applied_appid(entry: Tree, shortcut: Shortcut, appid: u32)
    ensures
        entry is Mapping ==> entry_appid(applied(entry, shortcut, appid)) == appid,
        !(entry is Mapping) ==> applied(entry, shortcut, appid) == entry,
{
    if entry is Mapping {
        lemma_applied_fields(entry, shortcut, appid);
        assert(((appid as i32) as u32) == appid) by (bit_vector);
    } else {
        reveal(applied);
    }
}

/// A new entry is a map.
proof fn lemma_defaults_map()
    ensures
        with_defaults(Tree::Mapping(Seq::empty())) is Mapping,
{
    reveal(with_defaults);
}

/// The shortcut list of a document whose list was replaced is the list put in.
proof fn lemma_list_of_with_list(document: Tree, list: Seq<(Seq<char>, Tree)>)
    requires
        document is Mapping,
    ensures
        shortcut_list(with_list(document, list)) == list,
        has_shortcut_map(with_list(document, list)),
{
    crate::vdf::lemma_set_then_lookup(document, "shortcuts"@, Tree::Mapping(list));
}

/// Law: adding the same shortcut a second time leaves the file as the first time
/// left it, and keeps every other shortcut where it was.
pub proof fn lemma_upsert_idempotent(document: Tree, shortcut: Shortcut)
    requires
        has_shortcut_map(document),
    ensures
        after_upsert(after_upsert(document, shortcut), shortcut) == after_upsert(document, shortcut),
{
    let appid = shortcut_spec_appid(shortcut);
    let list = shortcut_list(document);
    let once = upserted(list, shortcut);
    lemma_list_of_with_list(document, once);
    lemma_appid_position(list, appid);
    let j: int = match appid_position(list, appid) {
        Some(i) => i,
        None => list.len() as int,
    };
    assert(0 <= j < once.len());
    match appid_position(list, appid) {
        Some(i) => {
            lemma_applied_appid(list[i].1, shortcut, appid);
            assert(entry_appid(once[j].1) == appid);
        },
        None => {
            lemma_defaults_map();
            lemma_applied_appid(with_defaults(Tree::Mapping(Seq::empty())), shortcut, appid);
        },
    }
    assert forall|k: int| 0 <= k < j implies entry_appid(#[trigger] once[k].1) != appid by {
        assert(once[k] == list[k]);
    }
    lemma_appid_position(once, appid);
    if let Some(m) = appid_position(once, appid) {
        assert(m == j);
    }
    match appid_position(list, appid) {
        Some(i) => {
            lemma_applied_twice(list[i].1, shortcut, appid);
            assert(once[j].1 == applied(list[i].1, shortcut, appid));
        },
        None => {
            lemma_applied_twice(with_defaults(Tree::Mapping(Seq::empty())), shortcut, appid);
        },
    }
    assert(applied(once[j].1, shortcut, appid) == once[j].1);
    assert(upserted(once, shortcut) =~= once);
    crate::vdf::lemma_set_twice(document, "shortcuts"@, Tree::Mapping(once), Tree::Mapping(once));
}

/// No entry kept declares the appid removed, and with none declaring it every
/// entry is kept.
proof fn lemma_kept(list: Seq<(Seq<char>, Tree)>, appid: u32)
    ensures
        forall|i: int|
            0 <= i < kept(list, appid).len() ==> entry_appid(#[trigger] kept(list, appid)[i].1)
                != appid,
        appid_position(list, appid) is None ==> kept(list, appid) == list,
    decreases list.len(),
{
    if list.len() > 0 {
        lemma_kept(list.drop_last(), appid);
        let front = kept(list.drop_last(), appid);
        if entry_appid(list.last().1) != appid {
            assert forall|i: int| 0 <= i < front.push(list.last()).len() implies entry_appid(
                #[trigger] front.push(list.last())[i].1,
            ) != appid by {
                if i < front.len() {
                    assert(front.push(list.last())[i] == front[i]);
                }
            }
        }
        lemma_appid_position(list, appid);
        lemma_appid_position(list.drop_last(), appid);
        if appid_position(list, appid) is None {
            assert(list.drop_last().push(list.last()) =~= list);
        }
    }
}

/// Law: once the shortcuts declaring an appid are removed, none is left, and the
/// rest are keyed by their index.
pub proof fn lemma_remove_leaves_none(document: Tree, appid: u32)
    requires
        has_shortcut_map(document),
    ensures
        appid_position(shortcut_list(after_remove(document, appid)), appid) is None,
        forall|i: int|
            0 <= i < shortcut_list(after_remove(document, appid)).len() ==> (#[trigger] shortcut_list(
                after_remove(document, appid),
            )[i]).0 == decimal(i as nat) || appid_position(shortcut_list(document), appid) is None,
{
    let list = shortcut_list(document);
    lemma_kept(list, appid);
    lemma_appid_position(list, appid);
    if appid_position(list, appid) is Some {
        let rest = renumbered(kept(list, appid));
        lemma_list_of_with_list(document, rest);
        lemma_appid_position(rest, appid);
        if let Some(i) = appid_position(rest, appid) {
            assert(rest[i].1 == kept(list, appid)[i].1);
        }
    }
}

/// Law: adding a shortcut whose appid the file does not hold and removing it again
/// leaves the file exactly as it was, when its entries are keyed by their index as
/// Steam writes them.
pub proof fn lemma_upsert_then_remove(document: Tree, shortcut: Shortcut)
    requires
        has_shortcut_map(document),
        appid_position(shortcut_list(document), shortcut_spec_appid(shortcut)) is None,
        forall|i: int|
            0 <= i < shortcut_list(document).len() ==> (#[trigger] shortcut_list(document)[i]).0
                == decimal(i as nat),
    ensures
        appid_position(
            shortcut_list(after_upsert(document, shortcut)),
            shortcut_spec_appid(shortcut),
        ) is Some,
        after_remove(after_upsert(document, shortcut), shortcut_spec_appid(shortcut)) == document,
{
    let appid = shortcut_spec_appid(shortcut);
    let list = shortcut_list(document);
    let once = upserted(list, shortcut);
    let added = applied(with_defaults(Tree::Mapping(Seq::empty())), shortcut, appid);
    assert(once == list.push((decimal(list.len()), added)));
    lemma_list_of_with_list(document, once);
    lemma_defaults_map();
    lemma_applied_appid(with_defaults(Tree::Mapping(Seq::empty())), shortcut, appid);
    lemma_appid_position(list, appid);
    assert(once.drop_last() =~= list);
    assert(appid_position(once, appid) == Some(list.len() as int));
    assert(kept(once, appid) == kept(list, appid));
    lemma_kept(list, appid);
    assert(renumbered(list) =~= list);
    crate::vdf::lemma_set_twice(document, "shortcuts"@, Tree::Mapping(once), Tree::Mapping(list));
    crate::vdf::lemma_set_unchanged(document, "shortcuts"@, Tree::Mapping(list));
}

/// Law: a shortcuts document that can be stored reads back from its bytes as
/// itself, and as a shortcuts document; so saving and reading the file again
/// preserves everything, foreign entries and unknown fields included.
pub proof fn lemma_bytes_round_trip(document: Tree)
    requires
        is_shortcuts_document(document),
        crate::vdf::tree_storable(document),
    ensures
        document matches Tree::Mapping(entries) && parses_as_shortcuts(crate::vdf::body_bytes(entries))
            && Tree::Mapping(read_document(crate::vdf::body_bytes(entries)).unwrap()) == document,
{
    if let Tree::Mapping(entries) = document {
        crate::vdf::lemma_write_then_read(entries);
    }
}

/// Whether `key` names one of the fields gamestore owns on a shortcut, ignoring
/// ASCII case as Steam does.
pub open spec fn owned_field(key: Seq<char>) -> bool {
    ||| crate::vdf::same_key("appid"@, key)
    ||| crate::vdf::same_key("AppName"@, key)
    ||| crate::vdf::same_key("Exe"@, key)
    ||| crate::vdf::same_key("StartDir"@, key)
    ||| crate::vdf::same_key("icon"@, key)
    ||| crate::vdf::same_key("LaunchOptions"@, key)
}

/// Law: writing gamestore's fields into an entry leaves every other field as it
/// was, so a tag added in Big Picture or a field Valve adds later survives a
/// reinstall.
pub proof fn lemma_apply_keeps_foreign_fields(entry: Tree, shortcut: Shortcut, appid: u32, key: Seq<char>)
    requires
        entry is Mapping,
        !owned_field(key),
    ensures
        lookup(applied(entry, shortcut, appid), key) == lookup(entry, key),
{
    reveal(applied);
    let e1 = with_key_set(entry, "appid"@, Tree::Int32(appid as i32));
    crate::vdf::lemma_set_keeps_other_keys(entry, "appid"@, Tree::Int32(appid as i32), key);
    let e2 = with_key_set(e1, "AppName"@, Tree::Text(shortcut.app_name@));
    crate::vdf::lemma_set_keeps_other_keys(e1, "AppName"@, Tree::Text(shortcut.app_name@), key);
    let e3 = with_key_set(e2, "Exe"@, Tree::Text(spec_quote_exe(shortcut.exe@)));
    crate::vdf::lemma_set_keeps_other_keys(e2, "Exe"@, Tree::Text(spec_quote_exe(shortcut.exe@)), key);
    let e4 = with_key_set(e3, "StartDir"@, Tree::Text(spec_quote_exe(shortcut.start_dir@)));
    crate::vdf::lemma_set_keeps_other_keys(e3, "StartDir"@, Tree::Text(spec_quote_exe(shortcut.start_dir@)), key);
    let e5 = with_key_set(e4, "icon"@, Tree::Text(shortcut.icon@));
    crate::vdf::lemma_set_keeps_other_keys(e4, "icon"@, Tree::Text(shortcut.icon@), key);
    crate::vdf::lemma_set_keeps_other_keys(e5, "LaunchOptions"@, Tree::Text(shortcut.launch_options@), key);
}

/// Law: adding a shortcut changes no entry but the one for its appid, which keeps
/// its key.
pub proof fn lemma_upsert_keeps_other_entries(document: Tree, shortcut: Shortcut, i: int)
    requires
        has_shortcut_map(document),
        0 <= i < shortcut_list(document).len(),
        appid_position(shortcut_list(document), shortcut_spec_appid(shortcut)) != Some(i),
    ensures
        shortcut_list(after_upsert(document, shortcut))[i] == shortcut_list(document)[i],
        shortcut_list(after_upsert(document, shortcut)).len() >= shortcut_list(document).len(),
{
    let list = shortcut_list(document);
    let once = upserted(list, shortcut);
    lemma_list_of_with_list(document, once);
    lemma_appid_position(list, shortcut_spec_appid(shortcut));
    assert(after_upsert(document, shortcut) == with_list(document, once));
    assert(once[i] == list[i]);
}

/// Law: setting gamestore's fields in an entry keeps every key the entry had in
/// its place and spelling, and the value of every key gamestore does not own;
/// fields the entry lacked are appended after them.
pub proof fn lemma_apply_keeps_layout(entry: Tree, shortcut: Shortcut, appid: u32)
    requires
        entry is Mapping,
    ensures
        applied(entry, shortcut, appid) is Mapping,
        applied(entry, shortcut, appid)->Mapping_0.len() >= entry->Mapping_0.len(),
        forall|j: int|
            0 <= j < entry->Mapping_0.len() ==> (#[trigger] applied(entry, shortcut, appid)->Mapping_0[j]).0
                == entry->Mapping_0[j].0 && (!owned_field(entry->Mapping_0[j].0) ==> applied(
                entry,
                shortcut,
                appid,
            )->Mapping_0[j].1 == entry->Mapping_0[j].1),
{
    reveal(applied);
    let v1 = Tree::Int32(appid as i32);
    let v2 = Tree::Text(shortcut.app_name@);
    let v3 = Tree::Text(spec_quote_exe(shortcut.exe@));
    let v4 = Tree::Text(spec_quote_exe(shortcut.start_dir@));
    let v5 = Tree::Text(shortcut.icon@);
    let v6 = Tree::Text(shortcut.launch_options@);
    let e1 = with_key_set(entry, "appid"@, v1);
    let e2 = with_key_set(e1, "AppName"@, v2);
    let e3 = with_key_set(e2, "Exe"@, v3);
    let e4 = with_key_set(e3, "StartDir"@, v4);
    let e5 = with_key_set(e4, "icon"@, v5);
    let e6 = with_key_set(e5, "LaunchOptions"@, v6);
    assert(e6 == applied(entry, shortcut, appid));
    crate::vdf::lemma_set_keeps_positions(entry, "appid"@, v1);
    crate::vdf::lemma_set_keeps_positions(e1, "AppName"@, v2);
    crate::vdf::lemma_set_keeps_positions(e2, "Exe"@, v3);
    crate::vdf::lemma_set_keeps_positions(e3, "StartDir"@, v4);
    crate::vdf::lemma_set_keeps_positions(e4, "icon"@, v5);
    crate::vdf::lemma_set_keeps_positions(e5, "LaunchOptions"@, v6);
    let old = entry->Mapping_0;
    assert forall|j: int| 0 <= j < old.len() implies (#[trigger] e6->Mapping_0[j]).0 == old[j].0 && (
    !owned_field(old[j].0) ==> e6->Mapping_0[j].1 == old[j].1) by {
        assert(e1->Mapping_0[j].0 == old[j].0);
        assert(e2->Mapping_0[j].0 == old[j].0);
        assert(e3->Mapping_0[j].0 == old[j].0);
        assert(e4->Mapping_0[j].0 == old[j].0);
        assert(e5->Mapping_0[j].0 == old[j].0);
        if !owned_field(old[j].0) {
            assert(e1->Mapping_0[j].1 == old[j].1);
            assert(e2->Mapping_0[j].1 == old[j].1);
            assert(e3->Mapping_0[j].1 == old[j].1);
            assert(e4->Mapping_0[j].1 == old[j].1);
            assert(e5->Mapping_0[j].1 == old[j].1);
        }
    }
}

/// Law: updating the shortcut for an appid that entry `i` is the first to declare
/// changes that entry alone, keeps its key and the number of entries, and sets
/// gamestore's fields in it as [`applied`] does; [`lemma_apply_keeps_layout`]
/// and [`lemma_apply_keeps_foreign_fields`] say what that keeps.
pub proof fn lemma_upsert_updates_in_place(document: Tree, shortcut: Shortcut, i: int)
    requires
        has_shortcut_map(document),
        appid_position(shortcut_list(document), shortcut_spec_appid(shortcut)) == Some(i),
    ensures
        shortcut_list(after_upsert(document, shortcut)).len() == shortcut_list(document).len(),
        shortcut_list(after_upsert(document, shortcut))[i] == (
            shortcut_list(document)[i].0,
            applied(shortcut_list(document)[i].1, shortcut, shortcut_spec_appid(shortcut)),
        ),
        forall|j: int|
            0 <= j < shortcut_list(document).len() && j != i ==> #[trigger] shortcut_list(
                after_upsert(document, shortcut),
            )[j] == shortcut_list(document)[j],
        shortcut_list(document)[i].1 is Mapping ==> lookup(shortcut_list(after_upsert(document, shortcut))[i].1, "appid"@)
            == Some(Tree::Int32(shortcut_spec_appid(shortcut) as i32)),
        shortcut_list(document)[i].1 is Mapping ==> lookup(shortcut_list(after_upsert(document, shortcut))[i].1, "AppName"@)
            == Some(Tree::Text(shortcut.app_name@)),
        shortcut_list(document)[i].1 is Mapping ==> lookup(shortcut_list(after_upsert(document, shortcut))[i].1, "Exe"@)
            == Some(Tree::Text(spec_quote_exe(shortcut.exe@))),
        shortcut_list(document)[i].1 is Mapping ==> lookup(shortcut_list(after_upsert(document, shortcut))[i].1, "StartDir"@)
            == Some(Tree::Text(spec_quote_exe(shortcut.start_dir@))),
        shortcut_list(document)[i].1 is Mapping ==> lookup(shortcut_list(after_upsert(document, shortcut))[i].1, "icon"@)
            == Some(Tree::Text(shortcut.icon@)),
        shortcut_list(document)[i].1 is Mapping ==> lookup(shortcut_list(after_upsert(document, shortcut))[i].1, "LaunchOptions"@)
            == Some(Tree::Text(shortcut.launch_options@)),
{
    let list = shortcut_list(document);
    lemma_list_of_with_list(document, upserted(list, shortcut));
    lemma_appid_position(list, shortcut_spec_appid(shortcut));
    if list[i].1 is Mapping {
        lemma_applied_fields(list[i].1, shortcut, shortcut_spec_appid(shortcut));
    }
}

/// The fields Steam's defaults give a new entry, where no later default sets a
/// key that matches them.
proof fn lemma_default_fields()
    ensures
        with_defaults(Tree::Mapping(Seq::empty())) is Mapping,
        lookup(with_defaults(Tree::Mapping(Seq::empty())), "ShortcutPath"@) == Some(Tree::Text(Seq::empty())),
        lookup(with_defaults(Tree::Mapping(Seq::empty())), "IsHidden"@) == Some(Tree::Int32(0)),
        lookup(with_defaults(Tree::Mapping(Seq::empty())), "AllowOverlay"@) == Some(Tree::Int32(1)),
        lookup(with_defaults(Tree::Mapping(Seq::empty())), "tags"@) == Some(Tree::Mapping(Seq::empty())),
{
    reveal(with_defaults);
    reveal_strlit("appid");
    reveal_strlit("AppName");
    reveal_strlit("Exe");
    reveal_strlit("StartDir");
    reveal_strlit("icon");
    reveal_strlit("ShortcutPath");
    reveal_strlit("LaunchOptions");
    reveal_strlit("IsHidden");
    reveal_strlit("AllowDesktopConfig");
    reveal_strlit("AllowOverlay");
    reveal_strlit("OpenVR");
    reveal_strlit("Devkit");
    reveal_strlit("DevkitGameID");
    reveal_strlit("DevkitOverrideAppID");
    reveal_strlit("LastPlayTime");
    reveal_strlit("FlatpakAppID");
    reveal_strlit("tags");
    let empty = Seq::<char>::empty();
    let d0 = Tree::Mapping(Seq::empty());
    let d1 = with_key_set(d0, "appid"@, Tree::Int32(0));
    let d2 = with_key_set(d1, "AppName"@, Tree::Text(empty));
    let d3 = with_key_set(d2, "Exe"@, Tree::Text(empty));
    let d4 = with_key_set(d3, "StartDir"@, Tree::Text(empty));
    let d5 = with_key_set(d4, "icon"@, Tree::Text(empty));
    let d6 = with_key_set(d5, "ShortcutPath"@, Tree::Text(empty));
    let d7 = with_key_set(d6, "LaunchOptions"@, Tree::Text(empty));
    let d8 = with_key_set(d7, "IsHidden"@, Tree::Int32(0));
    let d9 = with_key_set(d8, "AllowDesktopConfig"@, Tree::Int32(1));
    let d10 = with_key_set(d9, "AllowOverlay"@, Tree::Int32(1));
    let d11 = with_key_set(d10, "OpenVR"@, Tree::Int32(0));
    let d12 = with_key_set(d11, "Devkit"@, Tree::Int32(0));
    let d13 = with_key_set(d12, "DevkitGameID"@, Tree::Text(empty));
    let d14 = with_key_set(d13, "DevkitOverrideAppID"@, Tree::Int32(0));
    let d15 = with_key_set(d14, "LastPlayTime"@, Tree::Int32(0));
    let d16 = with_key_set(d15, "FlatpakAppID"@, Tree::Text(empty));
    let d17 = with_key_set(d16, "tags"@, Tree::Mapping(Seq::empty()));
    assert(d17 == with_defaults(Tree::Mapping(Seq::empty())));
    // Each of the four is set once, and no key set after it matches it.
    crate::vdf::lemma_set_then_lookup(d5, "ShortcutPath"@, Tree::Text(empty));
    crate::vdf::lemma_set_then_lookup(d7, "IsHidden"@, Tree::Int32(0));
    crate::vdf::lemma_set_then_lookup(d9, "AllowOverlay"@, Tree::Int32(1));
    crate::vdf::lemma_set_then_lookup(d16, "tags"@, Tree::Mapping(Seq::empty()));
    crate::vdf::lemma_ascii_keys_differ("LaunchOptions"@, "ShortcutPath"@);
    crate::vdf::lemma_ascii_keys_differ("IsHidden"@, "ShortcutPath"@);
    crate::vdf::lemma_ascii_keys_differ("AllowDesktopConfig"@, "ShortcutPath"@);
    crate::vdf::lemma_ascii_keys_differ("AllowOverlay"@, "ShortcutPath"@);
    crate::vdf::lemma_ascii_keys_differ("OpenVR"@, "ShortcutPath"@);
    crate::vdf::lemma_ascii_keys_differ("Devkit"@, "ShortcutPath"@);
    crate::vdf::lemma_ascii_keys_differ("DevkitGameID"@, "ShortcutPath"@);
    crate::vdf::lemma_ascii_keys_differ("DevkitOverrideAppID"@, "ShortcutPath"@);
    crate::vdf::lemma_ascii_keys_differ("LastPlayTime"@, "ShortcutPath"@);
    crate::vdf::lemma_ascii_keys_differ("FlatpakAppID"@, "ShortcutPath"@);
    crate::vdf::lemma_ascii_keys_differ("tags"@, "ShortcutPath"@);
    crate::vdf::lemma_ascii_keys_differ("AllowDesktopConfig"@, "IsHidden"@);
    crate::vdf::lemma_ascii_keys_differ("AllowOverlay"@, "IsHidden"@);
    crate::vdf::lemma_ascii_keys_differ("OpenVR"@, "IsHidden"@);
    crate::vdf::lemma_ascii_keys_differ("Devkit"@, "IsHidden"@);
    crate::vdf::lemma_ascii_keys_differ("DevkitGameID"@, "IsHidden"@);
    crate::vdf::lemma_ascii_keys_differ("DevkitOverrideAppID"@, "IsHidden"@);
    crate::vdf::lemma_ascii_keys_differ("LastPlayTime"@, "IsHidden"@);
    crate::vdf::lemma_ascii_keys_differ("FlatpakAppID"@, "IsHidden"@);
    crate::vdf::lemma_ascii_keys_differ("tags"@, "IsHidden"@);
    crate::vdf::lemma_ascii_keys_differ("OpenVR"@, "AllowOverlay"@);
    crate::vdf::lemma_ascii_keys_differ("Devkit"@, "AllowOverlay"@);
    crate::vdf::lemma_ascii_keys_differ("DevkitGameID"@, "AllowOverlay"@);
    crate::vdf::lemma_ascii_keys_differ("DevkitOverrideAppID"@, "AllowOverlay"@);
    crate::vdf::lemma_ascii_keys_differ("LastPlayTime"@, "AllowOverlay"@);
    crate::vdf::lemma_ascii_keys_differ("FlatpakAppID"@, "AllowOverlay"@);
    crate::vdf::lemma_ascii_keys_differ("tags"@, "AllowOverlay"@);
    crate::vdf::lemma_set_keeps_other_keys(d6, "LaunchOptions"@, Tree::Text(empty), "ShortcutPath"@);
    crate::vdf::lemma_set_keeps_other_keys(d7, "IsHidden"@, Tree::Int32(0), "ShortcutPath"@);
    crate::vdf::lemma_set_keeps_other_keys(d8, "AllowDesktopConfig"@, Tree::Int32(1), "ShortcutPath"@);
    crate::vdf::lemma_set_keeps_other_keys(d9, "AllowOverlay"@, Tree::Int32(1), "ShortcutPath"@);
    crate::vdf::lemma_set_keeps_other_keys(d10, "OpenVR"@, Tree::Int32(0), "ShortcutPath"@);
    crate::vdf::lemma_set_keeps_other_keys(d11, "Devkit"@, Tree::Int32(0), "ShortcutPath"@);
    crate::vdf::lemma_set_keeps_other_keys(d12, "DevkitGameID"@, Tree::Text(empty), "ShortcutPath"@);
    crate::vdf::lemma_set_keeps_other_keys(d13, "DevkitOverrideAppID"@, Tree::Int32(0), "ShortcutPath"@);
    crate::vdf::lemma_set_keeps_other_keys(d14, "LastPlayTime"@, Tree::Int32(0), "ShortcutPath"@);
    crate::vdf::lemma_set_keeps_other_keys(d15, "FlatpakAppID"@, Tree::Text(empty), "ShortcutPath"@);
    crate::vdf::lemma_set_keeps_other_keys(d16, "tags"@, Tree::Mapping(Seq::empty()), "ShortcutPath"@);
    crate::vdf::lemma_set_keeps_other_keys(d8, "AllowDesktopConfig"@, Tree::Int32(1), "IsHidden"@);
    crate::vdf::lemma_set_keeps_other_keys(d9, "AllowOverlay"@, Tree::Int32(1), "IsHidden"@);
    crate::vdf::lemma_set_keeps_other_keys(d10, "OpenVR"@, Tree::Int32(0), "IsHidden"@);
    crate::vdf::lemma_set_keeps_other_keys(d11, "Devkit"@, Tree::Int32(0), "IsHidden"@);
    crate::vdf::lemma_set_keeps_other_keys(d12, "DevkitGameID"@, Tree::Text(empty), "IsHidden"@);
    crate::vdf::lemma_set_keeps_other_keys(d13, "DevkitOverrideAppID"@, Tree::Int32(0), "IsHidden"@);
    crate::vdf::lemma_set_keeps_other_keys(d14, "LastPlayTime"@, Tree::Int32(0), "IsHidden"@);
    crate::vdf::lemma_set_keeps_other_keys(d15, "FlatpakAppID"@, Tree::Text(empty), "IsHidden"@);
    crate::vdf::lemma_set_keeps_other_keys(d16, "tags"@, Tree::Mapping(Seq::empty()), "IsHidden"@);
    crate::vdf::lemma_set_keeps_other_keys(d10, "OpenVR"@, Tree::Int32(0), "AllowOverlay"@);
    crate::vdf::lemma_set_keeps_other_keys(d11, "Devkit"@, Tree::Int32(0), "AllowOverlay"@);
    crate::vdf::lemma_set_keeps_other_keys(d12, "DevkitGameID"@, Tree::Text(empty), "AllowOverlay"@);
    crate::vdf::lemma_set_keeps_other_keys(d13, "DevkitOverrideAppID"@, Tree::Int32(0), "AllowOverlay"@);
    crate::vdf::lemma_set_keeps_other_keys(d14, "LastPlayTime"@, Tree::Int32(0), "AllowOverlay"@);
    crate::vdf::lemma_set_keeps_other_keys(d15, "FlatpakAppID"@, Tree::Text(empty), "AllowOverlay"@);
    crate::vdf::lemma_set_keeps_other_keys(d16, "tags"@, Tree::Mapping(Seq::empty()), "AllowOverlay"@);
}

/// Steam's defaults that gamestore does not own are kept when its fields are set.
proof fn lemma_defaults_not_owned()
    ensures
        !owned_field("ShortcutPath"@),
        !owned_field("IsHidden"@),
        !owned_field("AllowOverlay"@),
        !owned_field("tags"@),
{
    reveal_strlit("appid");
    reveal_strlit("AppName");
    reveal_strlit("Exe");
    reveal_strlit("StartDir");
    reveal_strlit("icon");
    reveal_strlit("LaunchOptions");
    reveal_strlit("ShortcutPath");
    reveal_strlit("IsHidden");
    reveal_strlit("AllowOverlay");
    reveal_strlit("tags");
    crate::vdf::lemma_ascii_keys_differ("appid"@, "ShortcutPath"@);
    crate::vdf::lemma_ascii_keys_differ("AppName"@, "ShortcutPath"@);
    crate::vdf::lemma_ascii_keys_differ("Exe"@, "ShortcutPath"@);
    crate::vdf::lemma_ascii_keys_differ("StartDir"@, "ShortcutPath"@);
    crate::vdf::lemma_ascii_keys_differ("icon"@, "ShortcutPath"@);
    crate::vdf::lemma_ascii_keys_differ("LaunchOptions"@, "ShortcutPath"@);
    crate::vdf::lemma_ascii_keys_differ("appid"@, "IsHidden"@);
    crate::vdf::lemma_ascii_keys_differ("AppName"@, "IsHidden"@);
    crate::vdf::lemma_ascii_keys_differ("Exe"@, "IsHidden"@);
    crate::vdf::lemma_ascii_keys_differ("StartDir"@, "IsHidden"@);
    crate::vdf::lemma_ascii_keys_differ("icon"@, "IsHidden"@);
    crate::vdf::lemma_ascii_keys_differ("LaunchOptions"@, "IsHidden"@);
    crate::vdf::lemma_ascii_keys_differ("appid"@, "AllowOverlay"@);
    crate::vdf::lemma_ascii_keys_differ("AppName"@, "AllowOverlay"@);
    crate::vdf::lemma_ascii_keys_differ("Exe"@, "AllowOverlay"@);
    crate::vdf::lemma_ascii_keys_differ("StartDir"@, "AllowOverlay"@);
    crate::vdf::lemma_ascii_keys_differ("icon"@, "AllowOverlay"@);
    crate::vdf::lemma_ascii_keys_differ("LaunchOptions"@, "AllowOverlay"@);
    crate::vdf::lemma_ascii_keys_differ("appid"@, "tags"@);
    crate::vdf::lemma_ascii_keys_differ("AppName"@, "tags"@);
    crate::vdf::lemma_ascii_keys_differ("Exe"@, "tags"@);
    crate::vdf::lemma_ascii_keys_differ("StartDir"@, "tags"@);
    crate::vdf::lemma_ascii_keys_differ("icon"@, "tags"@);
    crate::vdf::lemma_ascii_keys_differ("LaunchOptions"@, "tags"@);
}

/// Law: adding a shortcut whose appid no entry declares appends one entry, keyed
/// by the number of entries before it, holding gamestore's fields and Steam's
/// defaults for a shortcut it creates (shown, overlay on, no shortcut path, no
/// tags); every earlier entry stays as it was, and the appid now names the
/// shortcut.
pub proof fn lemma_upsert_appends(document: Tree, shortcut: Shortcut)
    requires
        has_shortcut_map(document),
        appid_position(shortcut_list(document), shortcut_spec_appid(shortcut)) is None,
    ensures
        shortcut_list(after_upsert(document, shortcut)).len() == shortcut_list(document).len() + 1,
        forall|j: int|
            0 <= j < shortcut_list(document).len() ==> #[trigger] shortcut_list(
                after_upsert(document, shortcut),
            )[j] == shortcut_list(document)[j],
        shortcut_list(after_upsert(document, shortcut)).last().0 == decimal(shortcut_list(document).len()),
        lookup(shortcut_list(after_upsert(document, shortcut)).last().1, "appid"@) == Some(
            Tree::Int32(shortcut_spec_appid(shortcut) as i32),
        ),
        lookup(shortcut_list(after_upsert(document, shortcut)).last().1, "AppName"@) == Some(
            Tree::Text(shortcut.app_name@),
        ),
        lookup(shortcut_list(after_upsert(document, shortcut)).last().1, "Exe"@) == Some(
            Tree::Text(spec_quote_exe(shortcut.exe@)),
        ),
        lookup(shortcut_list(after_upsert(document, shortcut)).last().1, "StartDir"@) == Some(
            Tree::Text(spec_quote_exe(shortcut.start_dir@)),
        ),
        lookup(shortcut_list(after_upsert(document, shortcut)).last().1, "icon"@) == Some(
            Tree::Text(shortcut.icon@),
        ),
        lookup(shortcut_list(after_upsert(document, shortcut)).last().1, "LaunchOptions"@) == Some(
            Tree::Text(shortcut.launch_options@),
        ),
        lookup(shortcut_list(after_upsert(document, shortcut)).last().1, "ShortcutPath"@) == Some(
            Tree::Text(Seq::empty()),
        ),
        lookup(shortcut_list(after_upsert(document, shortcut)).last().1, "IsHidden"@) == Some(Tree::Int32(0)),
        lookup(shortcut_list(after_upsert(document, shortcut)).last().1, "AllowOverlay"@) == Some(
            Tree::Int32(1),
        ),
        lookup(shortcut_list(after_upsert(document, shortcut)).last().1, "tags"@) == Some(
            Tree::Mapping(Seq::empty()),
        ),
        name_of_appid(after_upsert(document, shortcut), shortcut_spec_appid(shortcut)) == Some(
            shortcut.app_name@,
        ),
{
    let appid = shortcut_spec_appid(shortcut);
    let list = shortcut_list(document);
    let after = upserted(list, shortcut);
    let fresh = with_defaults(Tree::Mapping(Seq::empty()));
    lemma_list_of_with_list(document, after);
    lemma_appid_position(list, appid);
    lemma_default_fields();
    lemma_defaults_not_owned();
    lemma_applied_fields(fresh, shortcut, appid);
    lemma_applied_appid(fresh, shortcut, appid);
    lemma_apply_keeps_foreign_fields(fresh, shortcut, appid, "ShortcutPath"@);
    lemma_apply_keeps_foreign_fields(fresh, shortcut, appid, "IsHidden"@);
    lemma_apply_keeps_foreign_fields(fresh, shortcut, appid, "AllowOverlay"@);
    lemma_apply_keeps_foreign_fields(fresh, shortcut, appid, "tags"@);
    assert(after.last() == (decimal(list.len()), applied(fresh, shortcut, appid)));
    assert forall|k: int| 0 <= k < list.len() implies entry_appid(#[trigger] after[k].1) != appid by {
        assert(after[k] == list[k]);
    }
    lemma_appid_position(after, appid);
    if let Some(m) = appid_position(after, appid) {
        assert(m == list.len());
    }
}

} // verus!
