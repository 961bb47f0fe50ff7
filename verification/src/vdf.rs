//! Steam's binary VDF, as used by `shortcuts.vdf`.
//!
//! The format is a tree of keyed values, each introduced by a one-byte type tag:
//!
//! | Tag    | Meaning                                    |
//! |--------|--------------------------------------------|
//! | `0x00` | nested map, key follows, ends at `0x08`     |
//! | `0x01` | string, NUL-terminated                      |
//! | `0x02` | signed 32-bit, little endian                |
//! | `0x07` | unsigned 64-bit, little endian              |
//! | `0x08` | end of the current map                      |
//!
//! The point of this module is not losing anything: [`Value`] keeps every key, in
//! order, with its original type, and [`write`] puts the bytes back exactly as they
//! came in. What that means is stated over [`Tree`], the mathematical form of a
//! document, and [`body_bytes`], its encoding.

use vstd::prelude::*;
use vstd::utf8::*;

use crate::error::{Error, Result};
use crate::text::{debug_quoted, debug_string, decimal, decimal_string, hex_byte, hex_byte_string, joined, owned, string_from_utf8};

verus! {

/// Tag for a nested map.
pub const TAG_MAP: u8 = 0x00;
/// Tag for a NUL-terminated string.
pub const TAG_STRING: u8 = 0x01;
/// Tag for a little-endian `i32`.
pub const TAG_INT32: u8 = 0x02;
/// Tag for a little-endian `u64`.
pub const TAG_UINT64: u8 = 0x07;
/// Tag closing the current map.
pub const TAG_END: u8 = 0x08;

/// A value in a binary VDF document.
///
/// Maps keep file order, because Steam's own files have a stable field order and a
/// rewrite in a different one would not round-trip.
#[derive(Debug, PartialEq, Eq)]
pub enum Value {
    /// A nested map, in file order.
    Mapping(Vec<(String, Value)>),
    /// A NUL-terminated string.
    String(String),
    /// A little-endian signed 32-bit integer.
    Int32(i32),
    /// A little-endian unsigned 64-bit integer.
    UInt64(u64),
}

/// The mathematical form of a [`Value`]: strings as their characters.
pub enum Tree {
    Mapping(Seq<(Seq<char>, Tree)>),
    Text(Seq<char>),
    Int32(i32),
    UInt64(u64),
}

/// The tree a value stands for.
pub open spec fn tree_of(value: Value) -> Tree
    decreases value,
{
    match value {
        Value::Mapping(entries) => Tree::Mapping(entries_tree(entries@)),
        Value::String(text) => Tree::Text(text@),
        Value::Int32(n) => Tree::Int32(n),
        Value::UInt64(n) => Tree::UInt64(n),
    }
}

/// The entries of a map, as keys and trees.
pub open spec fn entries_tree(entries: Seq<(String, Value)>) -> Seq<(Seq<char>, Tree)>
    decreases entries,
{
    if entries.len() == 0 {
        Seq::empty()
    } else {
        entries_tree(entries.drop_last()).push(
            (entries.last().0@, tree_of(entries.last().1)),
        )
    }
}

impl View for Value {
    type V = Tree;

    open spec fn view(&self) -> Tree {
        tree_of(*self)
    }
}

/// A key or string as stored: its UTF-8 bytes and a terminating NUL.
pub open spec fn text_bytes(text: Seq<char>) -> Seq<u8> {
    encode_utf8(text).push(0u8)
}

/// Whether a key or string can be stored: its bytes hold no NUL, which would end
/// the field early when it is read back.
pub open spec fn storable(text: Seq<char>) -> bool {
    !encode_utf8(text).contains(0u8)
}

/// The four little-endian bytes of `n`.
pub open spec fn le_bytes_u32(n: u32) -> Seq<u8> {
    seq![
        (n & 0xFF) as u8,
        ((n >> 8u32) & 0xFF) as u8,
        ((n >> 16u32) & 0xFF) as u8,
        ((n >> 24u32) & 0xFF) as u8,
    ]
}

/// The eight little-endian bytes of `n`.
pub open spec fn le_bytes_u64(n: u64) -> Seq<u8> {
    le_bytes_u32((n & 0xFFFF_FFFF) as u32) + le_bytes_u32((n >> 32u64) as u32)
}

/// The bytes of one key/value pair: tag, key, then the value.
pub open spec fn entry_bytes(key: Seq<char>, value: Tree) -> Seq<u8>
    decreases value,
{
    match value {
        Tree::Mapping(children) => seq![TAG_MAP] + text_bytes(key) + entries_bytes(children).push(
            TAG_END,
        ),
        Tree::Text(text) => seq![TAG_STRING] + text_bytes(key) + text_bytes(text),
        Tree::Int32(n) => seq![TAG_INT32] + text_bytes(key) + le_bytes_u32(n as u32),
        Tree::UInt64(n) => seq![TAG_UINT64] + text_bytes(key) + le_bytes_u64(n),
    }
}

/// The bytes of a run of key/value pairs, in order, without the closing tag.
pub open spec fn entries_bytes(entries: Seq<(Seq<char>, Tree)>) -> Seq<u8>
    decreases entries,
{
    if entries.len() == 0 {
        Seq::empty()
    } else {
        entries_bytes(entries.drop_last()) + entry_bytes(entries.last().0, entries.last().1)
    }
}

/// The bytes of a map body: its pairs, then the closing `0x08`. A whole document is
/// the body of its root map.
pub open spec fn body_bytes(entries: Seq<(Seq<char>, Tree)>) -> Seq<u8> {
    entries_bytes(entries).push(TAG_END)
}

/// Whether every key and string in a tree can be stored.
pub open spec fn tree_storable(value: Tree) -> bool
    decreases value,
{
    match value {
        Tree::Mapping(children) => entries_storable(children),
        Tree::Text(text) => storable(text),
        _ => true,
    }
}

/// Whether every key and string in a run of pairs can be stored.
pub open spec fn entries_storable(entries: Seq<(Seq<char>, Tree)>) -> bool
    decreases entries,
{
    if entries.len() == 0 {
        true
    } else {
        entries_storable(entries.drop_last()) && storable(entries.last().0) && tree_storable(
            entries.last().1,
        )
    }
}


/// The entries' trees are taken one pair at a time.
proof fn lemma_entries_tree_take(entries: Seq<(String, Value)>, i: int)
    requires
        0 <= i < entries.len(),
    ensures
        entries_tree(entries.take(i + 1)) == entries_tree(entries.take(i)).push(
            (entries[i].0@, tree_of(entries[i].1)),
        ),
{
    assert(entries.take(i + 1).drop_last() =~= entries.take(i));
}

/// The trees of a run of pairs line up with the pairs, index by index.
pub proof fn lemma_entries_tree_index(entries: Seq<(String, Value)>)
    ensures
        entries_tree(entries).len() == entries.len(),
        forall|i: int|
            0 <= i < entries.len() ==> #[trigger] entries_tree(entries)[i] == (
                entries[i].0@,
                tree_of(entries[i].1),
            ),
    decreases entries.len(),
{
    if entries.len() > 0 {
        lemma_entries_tree_index(entries.drop_last());
    }
}

/// A copy of `entries`, pair by pair, nested maps included.
fn copy_entries(entries: &[(String, Value)]) -> (copy: Vec<(String, Value)>)
    ensures
        entries_tree(copy@) == entries_tree(entries@),
    decreases entries@,
{
    let mut copy: Vec<(String, Value)> = Vec::new();
    let mut i: usize = 0;
    while i < entries.len()
        invariant
            i <= entries.len(),
            entries_tree(copy@) == entries_tree(entries@.take(i as int)),
        decreases entries.len() - i,
    {
        let (key, value) = &entries[i];
        proof {
            lemma_entries_tree_take(entries@, i as int);
        }
        let value = match value {
            Value::Mapping(children) => {
                assert(decreases_to!(entries@ => children@));
                Value::Mapping(copy_entries(children.as_slice()))
            },
            Value::String(text) => Value::String(text.clone()),
            Value::Int32(number) => Value::Int32(*number),
            Value::UInt64(number) => Value::UInt64(*number),
        };
        let ghost before = copy@;
        let key = key.clone();
        proof {
            assert(tree_of(value) == tree_of(entries@[i as int].1));
            assert(key@ == entries@[i as int].0@);
        }
        copy.push((key, value));
        proof {
            assert(copy@.drop_last() =~= before);
            assert(entries_tree(copy@) == entries_tree(before).push((key@, tree_of(value))));
        }
        i = i + 1;
    }
    proof {
        assert(entries@.take(entries@.len() as int) =~= entries@);
    }
    copy
}

impl Clone for Value {
    /// A copy of the value, nested maps included.
    fn clone(&self) -> (copy: Value)
        ensures
            copy@ == self@,
    {
        match self {
            Value::Mapping(entries) => Value::Mapping(copy_entries(entries.as_slice())),
            Value::String(text) => Value::String(text.clone()),
            Value::Int32(number) => Value::Int32(*number),
            Value::UInt64(number) => Value::UInt64(*number),
        }
    }
}

/// Whether `bytes` holds a NUL.
fn has_nul(bytes: &[u8]) -> (found: bool)
    ensures
        found == bytes@.contains(0u8),
{
    let mut i: usize = 0;
    while i < bytes.len()
        invariant
            i <= bytes.len(),
            forall|k: int| 0 <= k < i ==> bytes@[k] != 0u8,
        decreases bytes.len() - i,
    {
        if bytes[i] == 0 {
            assert(bytes@[i as int] == 0u8);
            return true;
        }
        i = i + 1;
    }
    false
}

/// Append the four little-endian bytes of `n`.
fn push_u32_le(n: u32, out: &mut Vec<u8>)
    ensures
        final(out)@ == old(out)@ + le_bytes_u32(n),
{
    out.push((n & 0xFF) as u8);
    out.push(((n >> 8u32) & 0xFF) as u8);
    out.push(((n >> 16u32) & 0xFF) as u8);
    out.push(((n >> 24u32) & 0xFF) as u8);
    assert(out@ =~= old(out)@ + le_bytes_u32(n));
}

/// Append the eight little-endian bytes of `n`.
fn push_u64_le(n: u64, out: &mut Vec<u8>)
    ensures
        final(out)@ == old(out)@ + le_bytes_u64(n),
{
    push_u32_le((n & 0xFFFF_FFFF) as u32, out);
    push_u32_le((n >> 32u64) as u32, out);
    assert(out@ =~= old(out)@ + le_bytes_u64(n));
}

/// The refusal of a text that holds a NUL: the text as Rust's `Debug` quotes it,
/// and why it cannot be stored.
pub open spec fn nul_refusal(text: Seq<char>) -> Seq<char> {
    debug_quoted(text) + " contains a NUL byte and cannot be stored in a VDF field"@
}

/// Whether `message` refuses some text that holds a NUL.
pub open spec fn refuses_a_nul(message: Seq<char>) -> bool {
    exists|text: Seq<char>| !storable(text) && #[trigger] nul_refusal(text) == message
}

/// Write a NUL-terminated string. An interior NUL would silently truncate the field
/// when Steam read it back, so it is refused instead.
fn write_key(text: &str, out: &mut Vec<u8>) -> (result: Result<()>)
    ensures
        result is Ok <==> storable(text@),
        result is Ok ==> final(out)@ == old(out)@ + text_bytes(text@),
        result matches Err(error) ==> error is Vdf,
        result matches Err(Error::Vdf(message)) ==> message@ == nul_refusal(text@),
{
    let bytes = text.as_bytes();
    if has_nul(bytes) {
        let quoted = debug_string(text);
        return Err(Error::Vdf(joined(
            quoted.as_str(),
            " contains a NUL byte and cannot be stored in a VDF field",
        )));
    }
    out.extend_from_slice(bytes);
    out.push(0);
    assert(out@ =~= old(out)@ + text_bytes(text@));
    Ok(())
}

/// Write the pairs of a map and its closing tag.
fn write_map_body(entries: &[(String, Value)], out: &mut Vec<u8>) -> (result: Result<()>)
    ensures
        result is Ok <==> entries_storable(entries_tree(entries@)),
        result is Ok ==> final(out)@ == old(out)@ + body_bytes(entries_tree(entries@)),
        result matches Err(error) ==> error is Vdf,
        result matches Err(Error::Vdf(message)) ==> refuses_a_nul(message@),
    decreases entries@,
{
    let mut i: usize = 0;
    while i < entries.len()
        invariant
            i <= entries.len(),
            entries_storable(entries_tree(entries@.take(i as int))),
            out@ == old(out)@ + entries_bytes(entries_tree(entries@.take(i as int))),
        decreases entries.len() - i,
    {
        let (key, value) = &entries[i];
        proof {
            lemma_entries_tree_take(entries@, i as int);
        }
        let ghost before = out@;
        let written = match value {
            Value::Mapping(children) => {
                out.push(TAG_MAP);
                match write_key(key.as_str(), out) {
                    Ok(()) => {
                        assert(decreases_to!(entries@ => children@));
                        write_map_body(children.as_slice(), out)
                    },
                    Err(error) => Err(error),
                }
            },
            Value::String(text) => {
                out.push(TAG_STRING);
                match write_key(key.as_str(), out) {
                    Ok(()) => write_key(text.as_str(), out),
                    Err(error) => Err(error),
                }
            },
            Value::Int32(number) => {
                out.push(TAG_INT32);
                match write_key(key.as_str(), out) {
                    Ok(()) => {
                        push_u32_le(#[verifier::truncate] (*number as u32), out);
                        Ok(())
                    },
                    Err(error) => Err(error),
                }
            },
            Value::UInt64(number) => {
                out.push(TAG_UINT64);
                match write_key(key.as_str(), out) {
                    Ok(()) => {
                        push_u64_le(*number, out);
                        Ok(())
                    },
                    Err(error) => Err(error),
                }
            },
        };
        proof {
            let t = entries_tree(entries@.take(i + 1));
            assert(t.last() == (key@, tree_of(*value)));
            assert(t.drop_last() == entries_tree(entries@.take(i as int)));
            assert(written is Ok <==> storable(key@) && tree_storable(tree_of(*value)));
        }
        match written {
            Ok(()) => {},
            Err(error) => {
                proof {
                    lemma_entries_tree_index(entries@);
                    lemma_entries_storable_prefix(entries_tree(entries@), i as int);
                    assert(entries@.take(i + 1) =~= entries@.subrange(0, i + 1));
                }
                return Err(error);
            },
        }
        proof {
            let k = key@;
            let t = tree_of(*value);
            assert(out@ =~= before + entry_bytes(k, t));
            assert(entries_tree(entries@.take(i + 1)).drop_last() == entries_tree(
                entries@.take(i as int),
            ));
        }
        i = i + 1;
    }
    out.push(TAG_END);
    proof {
        assert(entries@.take(entries@.len() as int) =~= entries@);
    }
    Ok(())
}

/// A prefix of storable pairs is storable, and storable pairs are storable one by one.
proof fn lemma_entries_storable_prefix(entries: Seq<(Seq<char>, Tree)>, i: int)
    requires
        0 <= i <= entries.len(),
    ensures
        entries_storable(entries) ==> entries_storable(entries.take(i)),
        entries_storable(entries) && i < entries.len() ==> storable(entries[i].0)
            && tree_storable(entries[i].1),
    decreases entries.len(),
{
    if entries.len() > 0 {
        if i == entries.len() {
            assert(entries.take(i) =~= entries);
        } else {
            lemma_entries_storable_prefix(entries.drop_last(), i);
            assert(entries.drop_last().take(i) =~= entries.take(i));
            if i < entries.len() - 1 {
                assert(entries.drop_last()[i] == entries[i]);
            }
        }
    }
}

/// Serialize a document: the body of its root map.
///
/// Fails when the root is not a map, or when a key or string holds a NUL.
pub fn write(document: &Value) -> (result: Result<Vec<u8>>)
    ensures
        result is Ok <==> document@ is Mapping && tree_storable(document@),
        result matches Ok(bytes) ==> document@ matches Tree::Mapping(entries) && bytes@
            == body_bytes(entries),
        result matches Err(error) ==> error is Vdf,
        result matches Err(Error::Vdf(message)) ==> if document@ is Mapping {
            refuses_a_nul(message@)
        } else {
            message@ == "the document root has to be a map"@
        },
{
    match document {
        Value::Mapping(entries) => {
            let mut out: Vec<u8> = Vec::new();
            match write_map_body(entries.as_slice(), &mut out) {
                Ok(()) => {
                    assert(out@ =~= body_bytes(entries_tree(entries@)));
                    Ok(out)
                },
                Err(error) => Err(error),
            }
        },
        _ => Err(Error::Vdf(owned("the document root has to be a map"))),
    }
}


/// Where the first NUL in `bytes` is, if there is one.
pub open spec fn first_nul(bytes: Seq<u8>) -> Option<nat>
    decreases bytes.len(),
{
    if bytes.len() == 0 {
        None
    } else if bytes[0] == 0u8 {
        Some(0)
    } else {
        match first_nul(bytes.drop_first()) {
            Some(n) => Some(n + 1),
            None => None,
        }
    }
}

/// Read a NUL-terminated UTF-8 field at the start of `bytes`: its text, and how
/// many bytes it takes with its NUL.
pub open spec fn read_text(bytes: Seq<u8>) -> Option<(Seq<char>, nat)> {
    match first_nul(bytes) {
        Some(n) => if valid_utf8(bytes.take(n as int)) {
            Some((decode_utf8(bytes.take(n as int)), n + 1))
        } else {
            None
        },
        None => None,
    }
}

/// The `u32` whose little-endian bytes start `bytes`.
pub open spec fn read_u32_le(bytes: Seq<u8>) -> u32 {
    (bytes[0] as u32) | ((bytes[1] as u32) << 8u32) | ((bytes[2] as u32) << 16u32) | ((
    bytes[3] as u32) << 24u32)
}

/// The `u64` whose little-endian bytes start `bytes`.
pub open spec fn read_u64_le(bytes: Seq<u8>) -> u64 {
    (read_u32_le(bytes) as u64) | ((read_u32_le(bytes.skip(4)) as u64) << 32u64)
}

/// Read one value of type `tag` at the start of `bytes`: the value, and how many
/// bytes it takes. Maps are read by [`read_body`].
pub open spec fn read_scalar(tag: u8, bytes: Seq<u8>) -> Option<(Tree, nat)> {
    if tag == TAG_STRING {
        match read_text(bytes) {
            Some((text, n)) => Some((Tree::Text(text), n)),
            None => None,
        }
    } else if tag == TAG_INT32 {
        if bytes.len() >= 4 {
            Some((Tree::Int32(read_u32_le(bytes) as i32), 4))
        } else {
            None
        }
    } else if tag == TAG_UINT64 {
        if bytes.len() >= 8 {
            Some((Tree::UInt64(read_u64_le(bytes)), 8))
        } else {
            None
        }
    } else {
        None
    }
}

/// Read a map body at the start of `bytes`: its pairs, and how many bytes they take
/// with the closing tag. `None` when the bytes are not a body.
#[verifier::opaque]
pub open spec fn read_body(bytes: Seq<u8>) -> Option<(Seq<(Seq<char>, Tree)>, nat)>
    decreases bytes.len(),
{
    if bytes.len() == 0 {
        None
    } else if bytes[0] == TAG_END {
        Some((Seq::empty(), 1))
    } else {
        match read_text(bytes.drop_first()) {
            None => None,
            Some((key, key_len)) => {
                let start: int = 1 + key_len as int;
                if start > bytes.len() {
                    None
                } else {
                    let value = if bytes[0] == TAG_MAP {
                        match read_body(bytes.skip(start)) {
                            Some((children, n)) => Some((Tree::Mapping(children), n)),
                            None => None,
                        }
                    } else {
                        read_scalar(bytes[0], bytes.skip(start))
                    };
                    match value {
                        None => None,
                        Some((value, n)) => if start + n > bytes.len() {
                            None
                        } else {
                            match read_body(bytes.skip(start + n)) {
                                Some((more, m)) => Some(
                                    (seq![(key, value)] + more, (start + n + m) as nat),
                                ),
                                None => None,
                            }
                        },
                    }
                }
            },
        }
    }
}

/// Read the value of a pair whose tag is `tag` at the start of `bytes`: the value,
/// and how many bytes it takes. `None` for a tag this format does not know.
pub open spec fn read_value(tag: u8, bytes: Seq<u8>) -> Option<(Tree, nat)> {
    if tag == TAG_MAP {
        match read_body(bytes) {
            Some((children, n)) => Some((Tree::Mapping(children), n)),
            None => None,
        }
    } else {
        read_scalar(tag, bytes)
    }
}

/// One step of [`read_body`]: the closing tag, or one pair and the body after it.
pub open spec fn read_body_step(bytes: Seq<u8>) -> Option<(Seq<(Seq<char>, Tree)>, nat)> {
    if bytes.len() == 0 {
        None
    } else if bytes[0] == TAG_END {
        Some((Seq::empty(), 1))
    } else {
        match read_text(bytes.drop_first()) {
            None => None,
            Some((key, key_len)) => {
                let start: int = 1 + key_len as int;
                if start > bytes.len() {
                    None
                } else {
                    match read_value(bytes[0], bytes.skip(start)) {
                        None => None,
                        Some((value, n)) => if start + n > bytes.len() {
                            None
                        } else {
                            match read_body(bytes.skip(start + n)) {
                                Some((more, m)) => Some(
                                    (seq![(key, value)] + more, (start + n + m) as nat),
                                ),
                                None => None,
                            }
                        },
                    }
                }
            },
        }
    }
}

/// [`read_body`] is one step of itself.
proof fn lemma_read_body_unfold(bytes: Seq<u8>)
    ensures
        read_body(bytes) == read_body_step(bytes),
{
    reveal(read_body);
}

/// Read a whole document: a map body that takes every byte.
pub open spec fn read_document(bytes: Seq<u8>) -> Option<Seq<(Seq<char>, Tree)>> {
    match read_body(bytes) {
        Some((entries, n)) => if n == bytes.len() {
            Some(entries)
        } else {
            None
        },
        None => None,
    }
}

/// The tag a value is stored under.
pub open spec fn tag_of(value: Tree) -> u8 {
    match value {
        Tree::Mapping(_) => TAG_MAP,
        Tree::Text(_) => TAG_STRING,
        Tree::Int32(_) => TAG_INT32,
        Tree::UInt64(_) => TAG_UINT64,
    }
}

/// The bytes a value is stored as, after its tag and key.
pub open spec fn value_bytes(value: Tree) -> Seq<u8> {
    match value {
        Tree::Mapping(children) => body_bytes(children),
        Tree::Text(text) => text_bytes(text),
        Tree::Int32(n) => le_bytes_u32(n as u32),
        Tree::UInt64(n) => le_bytes_u64(n),
    }
}

/// What reading a body at the start of `bytes` gives back is stored exactly as the
/// bytes it was read from, and can be stored.
pub open spec fn body_read_back(bytes: Seq<u8>) -> bool {
    read_body(bytes) matches Some((entries, n)) ==> 1 <= n <= bytes.len() && bytes.take(n as int)
        == body_bytes(entries) && entries_storable(entries)
}


// ---------------------------------------------------------------------------
// Lemmas about the encoding.

proof fn lemma_first_nul(bytes: Seq<u8>)
    ensures
        first_nul(bytes) matches Some(n) ==> n < bytes.len() && bytes[n as int] == 0u8 && !bytes.take(
            n as int,
        ).contains(0u8),
        first_nul(bytes) is None ==> !bytes.contains(0u8),
    decreases bytes.len(),
{
    if bytes.len() > 0 {
        lemma_first_nul(bytes.drop_first());
        if bytes[0] != 0u8 {
            match first_nul(bytes.drop_first()) {
                Some(n) => {
                    assert forall|i: int| 0 <= i < n + 1 implies #[trigger] bytes.take(n + 1 as int)[i] != 0u8 by {
                        if i > 0 {
                            assert(bytes.take(n + 1 as int)[i] == bytes.drop_first().take(n as int)[i
                                - 1]);
                        }
                    }
                },
                None => {
                    assert forall|i: int| 0 <= i < bytes.len() implies bytes[i] != 0u8 by {
                        if i > 0 {
                            assert(bytes[i] == bytes.drop_first()[i - 1]);
                        }
                    }
                },
            }
        }
    }
}

proof fn lemma_first_nul_of_prefix(prefix: Seq<u8>, rest: Seq<u8>)
    requires
        !prefix.contains(0u8),
    ensures
        first_nul(prefix + seq![0u8] + rest) == Some(prefix.len()),
    decreases prefix.len(),
{
    if prefix.len() == 0 {
        assert((prefix + seq![0u8] + rest)[0] == 0u8);
    } else {
        assert(prefix[0] != 0u8);
        assert((prefix + seq![0u8] + rest).drop_first() =~= prefix.drop_first() + seq![0u8] + rest);
        assert(!prefix.drop_first().contains(0u8)) by {
            assert forall|i: int| 0 <= i < prefix.drop_first().len() implies prefix.drop_first()[i]
                != 0u8 by {
                assert(prefix.drop_first()[i] == prefix[i + 1]);
            }
        }
        lemma_first_nul_of_prefix(prefix.drop_first(), rest);
    }
}

/// A field read back is the field as stored.
proof fn lemma_read_text_sound(bytes: Seq<u8>)
    ensures
        read_text(bytes) matches Some((text, n)) ==> n <= bytes.len() && bytes.take(n as int)
            == text_bytes(text) && storable(text),
{
    lemma_first_nul(bytes);
    if let Some((text, n)) = read_text(bytes) {
        let m = (n - 1) as int;
        decode_utf8_encode_utf8(bytes.take(m));
        assert(bytes.take(n as int) =~= bytes.take(m).push(0u8));
    }
}

/// A stored field reads back as itself.
proof fn lemma_read_text_complete(text: Seq<char>, rest: Seq<u8>)
    requires
        storable(text),
    ensures
        read_text(text_bytes(text) + rest) == Some((text, text_bytes(text).len())),
{
    let encoded = encode_utf8(text);
    assert(text_bytes(text) + rest =~= encoded + seq![0u8] + rest);
    lemma_first_nul_of_prefix(encoded, rest);
    assert((text_bytes(text) + rest).take(encoded.len() as int) =~= encoded);
    encode_utf8_valid_utf8(text);
    encode_utf8_decode_utf8(text);
}

proof fn lemma_u32_le_round_trip(n: u32)
    ensures
        read_u32_le(le_bytes_u32(n)) == n,
{
    let b0 = (n & 0xFF) as u8;
    let b1 = ((n >> 8u32) & 0xFF) as u8;
    let b2 = ((n >> 16u32) & 0xFF) as u8;
    let b3 = ((n >> 24u32) & 0xFF) as u8;
    assert((b0 as u32) | ((b1 as u32) << 8u32) | ((b2 as u32) << 16u32) | ((b3 as u32) << 24u32)
        == n) by (bit_vector)
        requires
            b0 == (n & 0xFF) as u8,
            b1 == ((n >> 8u32) & 0xFF) as u8,
            b2 == ((n >> 16u32) & 0xFF) as u8,
            b3 == ((n >> 24u32) & 0xFF) as u8,
    ;
}

proof fn lemma_u32_le_sound(bytes: Seq<u8>)
    requires
        bytes.len() >= 4,
    ensures
        le_bytes_u32(read_u32_le(bytes)) == bytes.take(4),
{
    let b0 = bytes[0];
    let b1 = bytes[1];
    let b2 = bytes[2];
    let b3 = bytes[3];
    let n = read_u32_le(bytes);
    assert((n & 0xFF) as u8 == b0 && ((n >> 8u32) & 0xFF) as u8 == b1 && ((n >> 16u32) & 0xFF) as u8
        == b2 && ((n >> 24u32) & 0xFF) as u8 == b3) by (bit_vector)
        requires
            n == (b0 as u32) | ((b1 as u32) << 8u32) | ((b2 as u32) << 16u32) | ((b3 as u32)
                << 24u32),
    ;
    assert(le_bytes_u32(n) =~= bytes.take(4));
}

proof fn lemma_i32_le_round_trip(n: i32)
    ensures
        read_u32_le(le_bytes_u32(n as u32)) as i32 == n,
{
    lemma_u32_le_round_trip(n as u32);
    assert((n as u32) as i32 == n) by (bit_vector);
}

proof fn lemma_u64_le_round_trip(n: u64)
    ensures
        read_u64_le(le_bytes_u64(n)) == n,
{
    let lo = (n & 0xFFFF_FFFF) as u32;
    let hi = (n >> 32u64) as u32;
    lemma_u32_le_round_trip(lo);
    lemma_u32_le_round_trip(hi);
    assert(le_bytes_u64(n).skip(4) =~= le_bytes_u32(hi));
    assert(read_u32_le(le_bytes_u64(n)) == read_u32_le(le_bytes_u32(lo)));
    assert(((lo as u64) | ((hi as u64) << 32u64)) == n) by (bit_vector)
        requires
            lo == (n & 0xFFFF_FFFF) as u32,
            hi == (n >> 32u64) as u32,
    ;
}

proof fn lemma_u64_le_sound(bytes: Seq<u8>)
    requires
        bytes.len() >= 8,
    ensures
        le_bytes_u64(read_u64_le(bytes)) == bytes.take(8),
{
    let lo = read_u32_le(bytes);
    let hi = read_u32_le(bytes.skip(4));
    let n = read_u64_le(bytes);
    lemma_u32_le_sound(bytes);
    lemma_u32_le_sound(bytes.skip(4));
    assert((n & 0xFFFF_FFFF) as u32 == lo && (n >> 32u64) as u32 == hi) by (bit_vector)
        requires
            n == (lo as u64) | ((hi as u64) << 32u64),
    ;
    assert(bytes.take(8) =~= bytes.take(4) + bytes.skip(4).take(4));
}

/// The bytes of a run of pairs split where the run is split.
pub proof fn lemma_entries_bytes_append(
    front: Seq<(Seq<char>, Tree)>,
    back: Seq<(Seq<char>, Tree)>,
)
    ensures
        entries_bytes(front + back) == entries_bytes(front) + entries_bytes(back),
        entries_storable(front + back) == (entries_storable(front) && entries_storable(back)),
    decreases back.len(),
{
    if back.len() == 0 {
        assert(front + back =~= front);
        assert(entries_bytes(front) + entries_bytes(back) =~= entries_bytes(front));
    } else {
        assert((front + back).drop_last() =~= front + back.drop_last());
        assert((front + back).last() == back.last());
        lemma_entries_bytes_append(front, back.drop_last());
        assert(entries_bytes(front + back) =~= entries_bytes(front) + entries_bytes(back));
    }
}

proof fn lemma_entries_bytes_single(key: Seq<char>, value: Tree)
    ensures
        entries_bytes(seq![(key, value)]) == entry_bytes(key, value),
        entries_storable(seq![(key, value)]) == (storable(key) && tree_storable(value)),
{
    let empty = Seq::<(Seq<char>, Tree)>::empty();
    assert(entries_bytes(empty) == Seq::<u8>::empty());
    assert(entries_storable(empty));
    assert(seq![(key, value)].drop_last() =~= empty);
    assert(Seq::<u8>::empty() + entry_bytes(key, value) =~= entry_bytes(key, value));
}

/// A pair is stored as its tag, its key, and its value.
proof fn lemma_entry_bytes_parts(key: Seq<char>, value: Tree)
    ensures
        entry_bytes(key, value) == seq![tag_of(value)] + text_bytes(key) + value_bytes(value),
        tag_of(value) != TAG_END,
{
}

/// A scalar that was read is stored as the bytes it was read from.
proof fn lemma_read_value_sound(tag: u8, bytes: Seq<u8>)
    requires
        tag == TAG_MAP ==> body_read_back(bytes),
    ensures
        read_value(tag, bytes) matches Some((value, n)) ==> n <= bytes.len() && bytes.take(n as int)
            == value_bytes(value) && tag_of(value) == tag && tree_storable(value),
{
    if tag == TAG_STRING {
        lemma_read_text_sound(bytes);
    } else if tag == TAG_INT32 {
        if bytes.len() >= 4 {
            lemma_u32_le_sound(bytes);
            let m = read_u32_le(bytes);
            assert((m as i32) as u32 == m) by (bit_vector);
        }
    } else if tag == TAG_UINT64 {
        if bytes.len() >= 8 {
            lemma_u64_le_sound(bytes);
        }
    }
}

/// A storable value reads back as itself, whatever follows it.
proof fn lemma_read_value_complete(value: Tree, rest: Seq<u8>)
    requires
        tree_storable(value),
        value matches Tree::Mapping(children) ==> read_body(body_bytes(children) + rest) == Some(
            (children, body_bytes(children).len()),
        ),
    ensures
        read_value(tag_of(value), value_bytes(value) + rest) == Some(
            (value, value_bytes(value).len()),
        ),
{
    let bytes = value_bytes(value) + rest;
    match value {
        Tree::Mapping(children) => {},
        Tree::Text(text) => {
            lemma_read_text_complete(text, rest);
        },
        Tree::Int32(n) => {
            lemma_i32_le_round_trip(n);
            assert(bytes.take(4) =~= value_bytes(value));
            assert(read_u32_le(bytes) == read_u32_le(value_bytes(value)));
        },
        Tree::UInt64(n) => {
            lemma_u64_le_round_trip(n);
            assert(bytes.take(8) =~= value_bytes(value));
            assert(bytes.skip(4).take(4) =~= value_bytes(value).skip(4));
            assert(read_u32_le(bytes) == read_u32_le(value_bytes(value)));
            assert(read_u32_le(bytes.skip(4)) == read_u32_le(value_bytes(value).skip(4)));
        },
    }
}

/// A body that was read is stored exactly as the bytes it was read from, and every
/// key and string in it can be stored.
#[verifier::rlimit(40)]
pub proof fn lemma_read_body_sound(bytes: Seq<u8>)
    ensures
        body_read_back(bytes),
    decreases bytes.len(),
{
    lemma_read_body_unfold(bytes);
    if bytes.len() > 0 && bytes[0] != TAG_END {
        let tag = bytes[0];
        lemma_read_text_sound(bytes.drop_first());
        if let Some((key, key_len)) = read_text(bytes.drop_first()) {
            let start: int = 1 + key_len as int;
            if start <= bytes.len() {
                let rest = bytes.skip(start);
                if tag == TAG_MAP {
                    lemma_read_body_sound(rest);
                }
                lemma_read_value_sound(tag, rest);
                if let Some((value, n)) = read_value(tag, rest) {
                    if start + n <= bytes.len() {
                        let after = bytes.skip(start + n);
                        lemma_read_body_sound(after);
                        if let Some((more, m)) = read_body(after) {
                            lemma_entry_bytes_parts(key, value);
                            lemma_entries_bytes_single(key, value);
                            lemma_entries_bytes_append(seq![(key, value)], more);
                            assert(bytes.take(start) =~= seq![tag] + bytes.drop_first().take(
                                key_len as int,
                            ));
                            assert(bytes.take(start + n + m) =~= bytes.take(start) + rest.take(
                                n as int,
                            ) + after.take(m as int));
                            assert(bytes.take(start + n + m) =~= body_bytes(
                                seq![(key, value)] + more,
                            ));
                        }
                    }
                }
            }
        }
    } else if bytes.len() > 0 {
        assert(bytes.take(1) =~= body_bytes(Seq::empty()));
    }
}

/// The bytes of a storable body read back as that body, whatever follows them.
#[verifier::rlimit(40)]
pub proof fn lemma_read_body_complete(entries: Seq<(Seq<char>, Tree)>, rest: Seq<u8>)
    requires
        entries_storable(entries),
    ensures
        read_body(body_bytes(entries) + rest) == Some((entries, body_bytes(entries).len())),
    decreases entries,
{
    let bytes = body_bytes(entries) + rest;
    lemma_read_body_unfold(bytes);
    if entries.len() == 0 {
        assert(body_bytes(entries) =~= seq![TAG_END]);
    } else {
        let key = entries[0].0;
        let value = entries[0].1;
        let tail = entries.subrange(1, entries.len() as int);
        assert(entries =~= seq![(key, value)] + tail);
        lemma_entries_bytes_append(seq![(key, value)], tail);
        lemma_entries_bytes_single(key, value);
        lemma_entry_bytes_parts(key, value);
        let tag = tag_of(value);
        let encoded = value_bytes(value);
        let tail_and_rest = body_bytes(tail) + rest;
        assert(bytes =~= seq![tag] + text_bytes(key) + encoded + tail_and_rest);
        assert(bytes.drop_first() =~= text_bytes(key) + (encoded + tail_and_rest));
        lemma_read_text_complete(key, encoded + tail_and_rest);
        let start: int = 1 + text_bytes(key).len() as int;
        assert(bytes.skip(start) =~= encoded + tail_and_rest);
        if let Tree::Mapping(children) = value {
            assert(decreases_to!(entries => children));
            lemma_read_body_complete(children, tail_and_rest);
        }
        lemma_read_value_complete(value, tail_and_rest);
        assert(bytes.skip(start + encoded.len()) =~= tail_and_rest);
        assert(decreases_to!(entries => tail));
        lemma_read_body_complete(tail, rest);
    }
}

/// Law: a document that was read is stored exactly as the bytes it was read from,
/// and every key and string in it can be stored; so writing it back gives those
/// bytes, byte for byte.
pub proof fn lemma_read_then_write(bytes: Seq<u8>)
    requires
        read_document(bytes) is Some,
    ensures
        entries_storable(read_document(bytes).unwrap()),
        body_bytes(read_document(bytes).unwrap()) == bytes,
{
    lemma_read_body_sound(bytes);
    assert(bytes.take(bytes.len() as int) =~= bytes);
}

/// Law: no proper prefix of a document is one, so a file cut short anywhere is
/// refused rather than read as a smaller document.
pub proof fn lemma_no_prefix_is_a_document(bytes: Seq<u8>, n: int)
    requires
        read_document(bytes) is Some,
        0 <= n < bytes.len(),
    ensures
        read_document(bytes.take(n)) is None,
{
    let prefix = bytes.take(n);
    lemma_read_body_sound(prefix);
    if let Some((entries, m)) = read_body(prefix) {
        if m == prefix.len() {
            assert(prefix.take(m as int) =~= prefix);
            lemma_read_body_complete(entries, bytes.skip(n));
            assert(prefix + bytes.skip(n) =~= bytes);
        }
    }
}

/// Law: a document whose keys and strings can all be stored reads back as itself.
pub proof fn lemma_write_then_read(entries: Seq<(Seq<char>, Tree)>)
    requires
        entries_storable(entries),
    ensures
        read_document(body_bytes(entries)) == Some(entries),
{
    lemma_read_body_complete(entries, Seq::empty());
    assert(body_bytes(entries) + Seq::<u8>::empty() =~= body_bytes(entries));
}

/// What reading a body at `at` gives, when the pairs `front` were read from `at` up
/// to `p` and the rest of the body starts at `p`.
spec fn resumed(bytes: Seq<u8>, at: int, front: Seq<(Seq<char>, Tree)>, p: int) -> Option<
    (Seq<(Seq<char>, Tree)>, nat),
> {
    match read_body(bytes.skip(p)) {
        Some((more, m)) => Some((front + more, (p - at + m) as nat)),
        None => None,
    }
}

/// The `u32` whose little-endian bytes start at `at`.
fn take_u32_le(bytes: &[u8], at: usize) -> (n: u32)
    requires
        at + 4 <= bytes.len(),
    ensures
        n == read_u32_le(bytes@.skip(at as int)),
{
    (bytes[at] as u32) | ((bytes[at + 1] as u32) << 8u32) | ((bytes[at + 2] as u32) << 16u32) | ((
    bytes[at + 3] as u32) << 24u32)
}

/// The `u64` whose little-endian bytes start at `at`.
fn take_u64_le(bytes: &[u8], at: usize) -> (n: u64)
    requires
        at + 8 <= bytes.len(),
    ensures
        n == read_u64_le(bytes@.skip(at as int)),
{
    let low = take_u32_le(bytes, at);
    let high = take_u32_le(bytes, at + 4);
    proof {
        assert(bytes@.skip(at as int).skip(4) =~= bytes@.skip(at + 4));
    }
    (low as u64) | ((high as u64) << 32u64)
}

/// The refusal of a file that ends inside the value of `key`.
pub open spec fn ended_in_value(key: Seq<char>) -> Seq<char> {
    "the file ends inside the value of "@ + debug_quoted(key)
}

/// The refusal of a file that ends inside a string of `context`.
pub open spec fn unterminated_string(context: Seq<char>) -> Seq<char> {
    "the file ends inside a string in "@ + context + ", with no NUL terminator"@
}

/// The refusal of a string of `context` that is not UTF-8.
pub open spec fn invalid_text(context: Seq<char>) -> Seq<char> {
    "a string in "@ + context + " is not valid UTF-8; gamestore will not rewrite this file rather than risk corrupting it"@
}

/// The refusal of a value under a tag this format does not know, named with the
/// tag in hexadecimal, the key and the offset.
pub open spec fn unknown_tag(tag: u8, key: Seq<char>, at: nat) -> Seq<char> {
    "unsupported value type "@ + hex_byte(tag) + " for key "@ + debug_quoted(key) + " at offset "@
        + decimal(at) + "; refusing to touch the file rather than guessing at its length"@
}

/// The refusal of a map of `context` that the file ends inside.
pub open spec fn unclosed_map(context: Seq<char>) -> Seq<char> {
    "the file ends inside "@ + context + ", with no closing 0x08"@
}

/// The refusal of `count` bytes after a document that ends at `end`.
pub open spec fn trailing_refusal(count: nat, end: nat) -> Seq<char> {
    decimal(count) + " trailing bytes after the end of the document at offset "@ + decimal(end)
}

/// Why the NUL-terminated string at `at` in `bytes`, a string of `context`,
/// cannot be read: the file ends before its NUL, or it is not UTF-8.
pub open spec fn text_refusal(bytes: Seq<u8>, at: int, context: Seq<char>) -> Seq<char> {
    if first_nul(bytes.skip(at)) is None {
        unterminated_string(context)
    } else {
        invalid_text(context)
    }
}

/// Why the map body at `at` in `bytes`, a map of `context`, cannot be read: the
/// refusal of the first pair that cannot be read, or of a file that ends before
/// the closing tag.
pub open spec fn body_refusal(bytes: Seq<u8>, at: int, context: Seq<char>) -> Seq<char>
    decreases bytes.len() - at, 0int,
{
    if at < 0 || at >= bytes.len() {
        unclosed_map(context)
    } else if bytes[at] == TAG_END {
        Seq::empty()
    } else {
        match read_text(bytes.skip(at + 1)) {
            None => text_refusal(bytes, at + 1, context),
            Some((key, key_len)) => {
                let start: int = at + 1 + key_len;
                if start > bytes.len() {
                    Seq::empty()
                } else {
                    match read_value(bytes[at], bytes.skip(start)) {
                        None => value_refusal(bytes, bytes[at], start, key),
                        Some((_, n)) => if start + n > bytes.len() {
                            Seq::empty()
                        } else {
                            body_refusal(bytes, start + n, context)
                        },
                    }
                }
            },
        }
    }
}

/// Why the value of `key`, stored under `tag` at `at` in `bytes`, cannot be read:
/// a map that cannot be read, a string that cannot be read, a number the file ends
/// inside, or a tag this format does not know.
pub open spec fn value_refusal(bytes: Seq<u8>, tag: u8, at: int, key: Seq<char>) -> Seq<char>
    decreases bytes.len() - at, 1int,
{
    if at < 0 || at > bytes.len() {
        Seq::empty()
    } else if tag == TAG_MAP {
        body_refusal(bytes, at, key)
    } else if tag == TAG_STRING {
        text_refusal(bytes, at, key)
    } else if tag == TAG_INT32 || tag == TAG_UINT64 {
        ended_in_value(key)
    } else {
        unknown_tag(tag, key, at as nat)
    }
}

/// Why `bytes` are not a document, when they are not: the refusal of a body that
/// cannot be read, or of the bytes that follow the document.
pub open spec fn document_refusal(bytes: Seq<u8>) -> Option<Seq<char>> {
    match read_body(bytes) {
        None => Some(body_refusal(bytes, 0, "the document"@)),
        Some((_, n)) => if n < bytes.len() {
            Some(trailing_refusal((bytes.len() - n) as nat, n))
        } else {
            None
        },
    }
}

/// A body that goes on after a pair that was read is refused as what follows that
/// pair is.
proof fn lemma_body_refusal_step(
    bytes: Seq<u8>,
    p: int,
    key: Seq<char>,
    q: int,
    value: Tree,
    r: int,
    context: Seq<char>,
)
    requires
        0 <= p < bytes.len(),
        bytes[p] != TAG_END,
        p + 1 <= q <= r <= bytes.len(),
        read_text(bytes.skip(p + 1)) == Some((key, (q - p - 1) as nat)),
        read_value(bytes[p], bytes.skip(q)) == Some((value, (r - q) as nat)),
    ensures
        body_refusal(bytes, p, context) == body_refusal(bytes, r, context),
{
}

/// The error for a file that ends inside a value.
fn ended_inside_value(context: &str) -> (error: Error)
    ensures
        error matches Error::Vdf(message) && message@ == ended_in_value(context@),
{
    let quoted = debug_string(context);
    Error::Vdf(joined("the file ends inside the value of ", quoted.as_str()))
}

/// Read a NUL-terminated UTF-8 field at `at`: its text and the offset just past its
/// NUL.
fn take_string(bytes: &[u8], at: usize, context: &str) -> (result: Result<(String, usize)>)
    requires
        at <= bytes.len(),
    ensures
        match result {
            Ok((text, end)) => at < end <= bytes.len() && read_text(bytes@.skip(at as int)) == Some(
                (text@, (end - at) as nat),
            ),
            Err(error) => read_text(bytes@.skip(at as int)) is None && error is Vdf,
        },
        result matches Err(Error::Vdf(message)) ==> message@ == text_refusal(bytes@, at as int, context@),
{
    let mut i: usize = at;
    while i < bytes.len() && bytes[i] != 0
        invariant
            at <= i <= bytes.len(),
            forall|k: int| at <= k < i ==> bytes@[k] != 0u8,
        decreases bytes.len() - i,
    {
        i = i + 1;
    }
    let ghost tail = bytes@.skip(at as int);
    if i == bytes.len() {
        proof {
            lemma_first_nul(tail);
            if let Some(n) = first_nul(tail) {
                assert(tail[n as int] == bytes@[at + n]);
            }
        }
        let message = joined("the file ends inside a string in ", context);
        let message = joined(message.as_str(), ", with no NUL terminator");
        proof {
            assert(unterminated_string(context@) == message@);
        }
        return Err(Error::Vdf(message));
    }
    let mut raw: Vec<u8> = Vec::new();
    let mut j: usize = at;
    while j < i
        invariant
            at <= j <= i < bytes.len(),
            raw@ == bytes@.subrange(at as int, j as int),
        decreases i - j,
    {
        raw.push(bytes[j]);
        j = j + 1;
        assert(raw@ =~= bytes@.subrange(at as int, j as int));
    }
    proof {
        let prefix = bytes@.subrange(at as int, i as int);
        assert forall|k: int| 0 <= k < prefix.len() implies prefix[k] != 0u8 by {
            assert(prefix[k] == bytes@[at + k]);
        }
        assert(tail =~= prefix + seq![0u8] + bytes@.skip(i + 1));
        lemma_first_nul_of_prefix(prefix, bytes@.skip(i + 1));
        assert(tail.take((i - at) as int) =~= prefix);
    }
    match string_from_utf8(raw) {
        Some(text) => Ok((text, i + 1)),
        None => {
            let message = joined("a string in ", context);
            let message = joined(
                message.as_str(),
                " is not valid UTF-8; gamestore will not rewrite this file rather than risk corrupting it",
            );
            proof {
                assert(invalid_text(context@) == message@);
            }
            Err(Error::Vdf(message))
        },
    }
}

/// The error for a tag this format does not know.
fn unsupported_type(tag: u8, key: &str, at: usize) -> (error: Error)
    ensures
        error matches Error::Vdf(message) && message@ == unknown_tag(tag, key@, at as nat),
{
    let hex = hex_byte_string(tag);
    let quoted = debug_string(key);
    let offset = decimal_string(at as u64);
    let message = joined("unsupported value type ", hex.as_str());
    let message = joined(message.as_str(), " for key ");
    let message = joined(message.as_str(), quoted.as_str());
    let message = joined(message.as_str(), " at offset ");
    let message = joined(message.as_str(), offset.as_str());
    Error::Vdf(
        joined(
            message.as_str(),
            "; refusing to touch the file rather than guessing at its length",
        ),
    )
}

/// Read the value of a pair whose tag is `tag` at `at`: the value and the offset
/// just past it.
fn read_value_at(bytes: &[u8], tag: u8, at: usize, key: &str) -> (result: Result<(Value, usize)>)
    requires
        at <= bytes.len(),
        tag != TAG_END,
    ensures
        match result {
            Ok((value, end)) => at <= end <= bytes.len() && read_value(tag, bytes@.skip(at as int))
                == Some((value@, (end - at) as nat)),
            Err(error) => read_value(tag, bytes@.skip(at as int)) is None && error is Vdf,
        },
        result matches Err(Error::Vdf(message)) ==> message@ == value_refusal(bytes@, tag, at as int, key@),
    decreases bytes.len() - at, 1int,
{
    if tag == TAG_MAP {
        match read_map_body(bytes, at, key) {
            Ok((children, end)) => Ok((Value::Mapping(children), end)),
            Err(error) => Err(error),
        }
    } else if tag == TAG_STRING {
        match take_string(bytes, at, key) {
            Ok((text, end)) => Ok((Value::String(text), end)),
            Err(error) => Err(error),
        }
    } else if tag == TAG_INT32 {
        if bytes.len() - at < 4 {
            return Err(ended_inside_value(key));
        }
        let n = take_u32_le(bytes, at);
        Ok((Value::Int32(#[verifier::truncate] (n as i32)), at + 4))
    } else if tag == TAG_UINT64 {
        if bytes.len() - at < 8 {
            return Err(ended_inside_value(key));
        }
        Ok((Value::UInt64(take_u64_le(bytes, at)), at + 8))
    } else {
        Err(unsupported_type(tag, key, at))
    }
}

/// Read the pairs of a map starting at `at`, through its closing tag: the pairs, and
/// the offset just past the closing tag.
fn read_map_body(bytes: &[u8], at: usize, context: &str) -> (result: Result<
    (Vec<(String, Value)>, usize),
>)
    requires
        at <= bytes.len(),
    ensures
        match result {
            Ok((entries, end)) => at < end <= bytes.len() && read_body(bytes@.skip(at as int)) == Some(
                (entries_tree(entries@), (end - at) as nat),
            ),
            Err(error) => read_body(bytes@.skip(at as int)) is None && error is Vdf,
        },
        result matches Err(Error::Vdf(message)) ==> message@ == body_refusal(bytes@, at as int, context@),
    decreases bytes.len() - at, 0int,
{
    let mut entries: Vec<(String, Value)> = Vec::new();
    let mut p: usize = at;
    proof {
        if let Some((more, m)) = read_body(bytes@.skip(at as int)) {
            assert(entries_tree(entries@) + more =~= more);
        }
    }
    loop
        invariant
            at <= p <= bytes.len(),
            read_body(bytes@.skip(at as int)) == resumed(
                bytes@,
                at as int,
                entries_tree(entries@),
                p as int,
            ),
            body_refusal(bytes@, at as int, context@) == body_refusal(bytes@, p as int, context@),
        decreases bytes.len() - p,
    {
        let ghost here = bytes@.skip(p as int);
        proof {
            lemma_read_body_unfold(here);
        }
        if p >= bytes.len() {
            let message = joined("the file ends inside ", context);
            let message = joined(message.as_str(), ", with no closing 0x08");
            proof {
                assert(unclosed_map(context@) == message@);
            }
            return Err(Error::Vdf(message));
        }
        let tag = bytes[p];
        if tag == TAG_END {
            proof {
                assert(entries_tree(entries@) + Seq::empty() =~= entries_tree(entries@));
            }
            return Ok((entries, p + 1));
        }
        proof {
            assert(here.drop_first() =~= bytes@.skip(p + 1));
        }
        let (key, q) = match take_string(bytes, p + 1, context) {
            Ok(found) => found,
            Err(error) => return Err(error),
        };
        proof {
            assert(here.skip(q - p) =~= bytes@.skip(q as int));
        }
        let (value, r) = match read_value_at(bytes, tag, q, key.as_str()) {
            Ok(found) => found,
            Err(error) => return Err(error),
        };
        proof {
            assert(read_value(tag, bytes@.skip(q as int)) == Some((value@, (r - q) as nat)));
            assert(here.skip(r - p) =~= bytes@.skip(r as int));
            let front = entries_tree(entries@);
            assert(entries@.push((key, value)).drop_last() =~= entries@);
            assert(entries_tree(entries@.push((key, value))) == front.push((key@, value@)));
            if let Some((more, m)) = read_body(bytes@.skip(r as int)) {
                assert(front + (seq![(key@, value@)] + more) =~= front.push((key@, value@)) + more);
            }
            lemma_body_refusal_step(bytes@, p as int, key@, q as int, value@, r as int, context@);
        }
        entries.push((key, value));
        p = r;
    }
}

/// Parse a binary VDF document: the top-level pairs, closed by `0x08`, with nothing
/// after them.
pub fn parse(bytes: &[u8]) -> (result: Result<Value>)
    ensures
        result is Ok <==> read_document(bytes@) is Some,
        result matches Ok(document) ==> document@ == Tree::Mapping(read_document(bytes@).unwrap()),
        result matches Err(error) ==> error is Vdf,
        document_refusal(bytes@) matches Some(refusal) ==> (result matches Err(Error::Vdf(message))
            && message@ == refusal),
{
    proof {
        assert(bytes@.skip(0) =~= bytes@);
    }
    let (entries, end) = match read_map_body(bytes, 0, "the document") {
        Ok(found) => found,
        Err(error) => return Err(error),
    };
    if end != bytes.len() {
        let count = decimal_string((bytes.len() - end) as u64);
        let offset = decimal_string(end as u64);
        let message = joined(count.as_str(), " trailing bytes after the end of the document at offset ");
        let message = joined(message.as_str(), offset.as_str());
        return Err(Error::Vdf(message));
    }
    Ok(Value::Mapping(entries))
}

/// ASCII lowercase of a byte, as `u8::to_ascii_lowercase` gives it.
pub open spec fn ascii_lower(b: u8) -> u8 {
    if 65 <= b <= 90 {
        (b + 32) as u8
    } else {
        b
    }
}

/// Whether two keys are equal ignoring ASCII case, byte by byte, as
/// `str::eq_ignore_ascii_case` compares them.
pub open spec fn same_key(a: Seq<char>, b: Seq<char>) -> bool {
    let x = encode_utf8(a);
    let y = encode_utf8(b);
    &&& x.len() == y.len()
    &&& forall|i: int| 0 <= i < x.len() ==> ascii_lower(#[trigger] x[i]) == ascii_lower(y[i])
}

/// Where the first pair whose key matches `key`, ignoring ASCII case, is.
pub open spec fn first_match(entries: Seq<(Seq<char>, Tree)>, key: Seq<char>) -> Option<int>
    decreases entries.len(),
{
    if entries.len() == 0 {
        None
    } else {
        match first_match(entries.drop_last(), key) {
            Some(i) => Some(i),
            None => if same_key(entries.last().0, key) {
                Some(entries.len() - 1)
            } else {
                None
            },
        }
    }
}

/// The value at `key` in a map, ignoring ASCII case: the first pair whose key
/// matches. `None` when nothing matches or the tree is not a map.
pub open spec fn lookup(tree: Tree, key: Seq<char>) -> Option<Tree> {
    match tree {
        Tree::Mapping(entries) => match first_match(entries, key) {
            Some(i) => Some(entries[i].1),
            None => None,
        },
        _ => None,
    }
}

/// A map with `key` set to `value`: the first matching pair keeps its key and
/// position and takes the value; with no match the pair is appended. A tree that is
/// not a map is left alone.
pub open spec fn with_key_set(tree: Tree, key: Seq<char>, value: Tree) -> Tree {
    match tree {
        Tree::Mapping(entries) => Tree::Mapping(
            match first_match(entries, key) {
                Some(i) => entries.update(i, (entries[i].0, value)),
                None => entries.push((key, value)),
            },
        ),
        other => other,
    }
}

/// The first match is the first pair whose key matches.
pub proof fn lemma_first_match(entries: Seq<(Seq<char>, Tree)>, key: Seq<char>)
    ensures
        first_match(entries, key) matches Some(i) ==> 0 <= i < entries.len() && same_key(
            entries[i].0,
            key,
        ) && forall|j: int| 0 <= j < i ==> !same_key(#[trigger] entries[j].0, key),
        first_match(entries, key) is None ==> forall|j: int|
            0 <= j < entries.len() ==> !same_key(#[trigger] entries[j].0, key),
    decreases entries.len(),
{
    if entries.len() > 0 {
        let front = entries.drop_last();
        lemma_first_match(front, key);
        assert forall|j: int| 0 <= j < front.len() implies front[j] == entries[j] by {}
    }
}

/// Whether two keys are equal ignoring ASCII case.
pub(crate) fn keys_match(a: &str, b: &str) -> (same: bool)
    ensures
        same == same_key(a@, b@),
{
    let x = a.as_bytes();
    let y = b.as_bytes();
    if x.len() != y.len() {
        return false;
    }
    let mut i: usize = 0;
    while i < x.len()
        invariant
            i <= x.len(),
            x.len() == y.len(),
            x@ == encode_utf8(a@),
            y@ == encode_utf8(b@),
            forall|j: int| 0 <= j < i ==> ascii_lower(#[trigger] x@[j]) == ascii_lower(y@[j]),
        decreases x.len() - i,
    {
        let p = x[i];
        let q = y[i];
        let lp = if 65 <= p && p <= 90 {
            p + 32
        } else {
            p
        };
        let lq = if 65 <= q && q <= 90 {
            q + 32
        } else {
            q
        };
        if lp != lq {
            assert(ascii_lower(x@[i as int]) != ascii_lower(y@[i as int]));
            return false;
        }
        i = i + 1;
    }
    true
}

/// The trees of `entries` after one pair is replaced or appended.
pub proof fn lemma_entries_tree_update(entries: Seq<(String, Value)>, i: int, pair: (String, Value))
    requires
        0 <= i < entries.len(),
    ensures
        entries_tree(entries.update(i, pair)) == entries_tree(entries).update(
            i,
            (pair.0@, tree_of(pair.1)),
        ),
{
    lemma_entries_tree_index(entries);
    lemma_entries_tree_index(entries.update(i, pair));
    assert(entries_tree(entries.update(i, pair)) =~= entries_tree(entries).update(
        i,
        (pair.0@, tree_of(pair.1)),
    ));
}

impl Value {
    /// An empty map.
    pub fn map() -> (value: Value)
        ensures
            value@ == Tree::Mapping(Seq::empty()),
    {
        let value = Value::Mapping(Vec::new());
        assert(entries_tree(Seq::<(String, Value)>::empty()) == Seq::<(Seq<char>, Tree)>::empty());
        value
    }

    /// The entries, when this is a map.
    pub fn entries(&self) -> (entries: Option<&[(String, Value)]>)
        ensures
            match *self {
                Value::Mapping(own) => entries matches Some(found) && found@ == own@,
                _ => entries is None,
            },
    {
        match self {
            Value::Mapping(entries) => Some(entries.as_slice()),
            _ => None,
        }
    }

    /// The entries for modification, when this is a map.
    pub fn entries_mut(&mut self) -> (entries: Option<&mut Vec<(String, Value)>>)
        ensures
            match *old(self) {
                Value::Mapping(own) => entries is Some && *entries.unwrap() == own && *final(self)
                    == Value::Mapping(*final(entries.unwrap())),
                _ => entries is None && *final(self) == *old(self),
            },
    {
        match self {
            Value::Mapping(entries) => Some(entries),
            _ => None,
        }
    }

    /// Look a key up, ignoring ASCII case: the value of the first pair whose key
    /// matches.
    ///
    /// Steam has shipped both `AppName` and `appname`, and different tools picked
    /// different spellings, so a case-sensitive lookup would miss an existing entry.
    pub fn get(&self, key: &str) -> (found: Option<&Value>)
        ensures
            match found {
                Some(value) => lookup(self@, key@) == Some(value@),
                None => lookup(self@, key@) is None,
            },
    {
        match self {
            Value::Mapping(entries) => {
                let ghost model = entries_tree(entries@);
                proof {
                    lemma_entries_tree_index(entries@);
                    lemma_first_match(model, key@);
                }
                let mut i: usize = 0;
                while i < entries.len()
                    invariant
                        i <= entries.len(),
                        self@ == Tree::Mapping(model),
                        model == entries_tree(entries@),
                        model.len() == entries.len(),
                        forall|k: int|
                            0 <= k < entries.len() ==> #[trigger] model[k] == (
                                entries@[k].0@,
                                tree_of(entries@[k].1),
                            ),
                        forall|j: int| 0 <= j < i ==> !same_key(#[trigger] model[j].0, key@),
                    decreases entries.len() - i,
                {
                    if keys_match(entries[i].0.as_str(), key) {
                        proof {
                            assert(model[i as int].0 == entries@[i as int].0@);
                            lemma_first_match(model, key@);
                        }
                        return Some(&entries[i].1);
                    }
                    assert(model[i as int].0 == entries@[i as int].0@);
                    i = i + 1;
                }
                proof {
                    lemma_first_match(model, key@);
                }
                None
            },
            _ => None,
        }
    }

    /// The string at `key`, ignoring ASCII case.
    pub fn get_str(&self, key: &str) -> (found: Option<&str>)
        ensures
            match found {
                Some(text) => lookup(self@, key@) == Some(Tree::Text(text@)),
                None => !(lookup(self@, key@) matches Some(Tree::Text(_))),
            },
    {
        match self.get(key) {
            Some(Value::String(text)) => Some(text.as_str()),
            _ => None,
        }
    }

    /// The `i32` at `key`, ignoring ASCII case.
    pub fn get_i32(&self, key: &str) -> (found: Option<i32>)
        ensures
            match found {
                Some(n) => lookup(self@, key@) == Some(Tree::Int32(n)),
                None => !(lookup(self@, key@) matches Some(Tree::Int32(_))),
            },
    {
        match self.get(key) {
            Some(Value::Int32(n)) => Some(*n),
            _ => None,
        }
    }

    /// Set `key`, keeping the spelling and position already in the map when a key
    /// matches it ignoring ASCII case, and appending when none does. Keeping the
    /// existing spelling is what keeps a rewrite from turning Steam's `AppName`
    /// into `appname`. A value that is not a map is left alone.
    pub fn set(&mut self, key: &str, value: Value)
        ensures
            final(self)@ == with_key_set(old(self)@, key@, value@),
    {
        let ghost before = *old(self);
        match self.entries_mut() {
            Some(entries) => {
                let ghost model = entries_tree(entries@);
                assert(before@ == Tree::Mapping(model));
                proof {
                    lemma_entries_tree_index(entries@);
                    lemma_first_match(model, key@);
                }
                let mut i: usize = 0;
                while i < entries.len()
                    invariant
                        i <= entries.len(),
                        model == entries_tree(entries@),
                        model.len() == entries.len(),
                        forall|k: int|
                            0 <= k < entries.len() ==> #[trigger] model[k] == (
                                entries@[k].0@,
                                tree_of(entries@[k].1),
                            ),
                        forall|j: int| 0 <= j < i ==> !same_key(#[trigger] model[j].0, key@),
                    ensures
                        i <= entries.len(),
                        i < entries.len() ==> same_key(model[i as int].0, key@),
                        forall|j: int| 0 <= j < i ==> !same_key(#[trigger] model[j].0, key@),
                    decreases entries.len() - i,
                {
                    if keys_match(entries[i].0.as_str(), key) {
                        assert(model[i as int].0 == entries@[i as int].0@);
                        break;
                    }
                    assert(model[i as int].0 == entries@[i as int].0@);
                    i = i + 1;
                }
                if i < entries.len() {
                    let pair = (entries[i].0.clone(), value);
                    proof {
                        lemma_entries_tree_update(entries@, i as int, pair);
                        lemma_first_match(model, key@);
                    }
                    entries.set(i, pair);
                    assert(first_match(model, key@) == Some(i as int));
                    assert(entries_tree(entries@) == model.update(i as int, (model[i as int].0, value@)));
                } else {
                    let pair = (owned(key), value);
                    proof {
                        assert(entries@.push(pair).drop_last() =~= entries@);
                        lemma_first_match(model, key@);
                    }
                    entries.push(pair);
                    assert(first_match(model, key@) is None);
                    assert(entries_tree(entries@) == model.push((key@, value@)));
                }
            },
            None => {},
        }
    }
}

/// Two runs of pairs with the same keys have the same first match.
proof fn lemma_first_match_same_keys(a: Seq<(Seq<char>, Tree)>, b: Seq<(Seq<char>, Tree)>, key: Seq<char>)
    requires
        a.len() == b.len(),
        forall|j: int| 0 <= j < a.len() ==> #[trigger] a[j].0 == b[j].0,
    ensures
        first_match(a, key) == first_match(b, key),
    decreases a.len(),
{
    if a.len() > 0 {
        lemma_first_match_same_keys(a.drop_last(), b.drop_last(), key);
    }
}

/// Two keys that both match a third match each other.
proof fn lemma_same_key_through(x: Seq<char>, a: Seq<char>, b: Seq<char>)
    requires
        same_key(x, a),
        same_key(x, b),
    ensures
        same_key(a, b),
{
    let ex = encode_utf8(x);
    let ea = encode_utf8(a);
    let eb = encode_utf8(b);
    assert forall|i: int| 0 <= i < ea.len() implies ascii_lower(#[trigger] ea[i]) == ascii_lower(
        eb[i],
    ) by {
        assert(ascii_lower(ex[i]) == ascii_lower(ea[i]));
        assert(ascii_lower(ex[i]) == ascii_lower(eb[i]));
    }
}

/// Law: after `key` is set in a map, looking `key` up gives the value set.
pub proof fn lemma_set_then_lookup(tree: Tree, key: Seq<char>, value: Tree)
    requires
        tree is Mapping,
    ensures
        lookup(with_key_set(tree, key, value), key) == Some(value),
{
    let entries = tree->Mapping_0;
    lemma_first_match(entries, key);
    match first_match(entries, key) {
        Some(i) => {
            let updated = entries.update(i, (entries[i].0, value));
            lemma_first_match_same_keys(entries, updated, key);
        },
        None => {
            assert(entries.push((key, value)).drop_last() =~= entries);
            assert(same_key(key, key));
        },
    }
}

/// Law: setting one key leaves where every other key is found, and what it is
/// found with, as they were.
pub proof fn lemma_set_keeps_other_keys(tree: Tree, key: Seq<char>, value: Tree, other: Seq<char>)
    requires
        tree is Mapping,
        !same_key(key, other),
    ensures
        with_key_set(tree, key, value) is Mapping,
        first_match(with_key_set(tree, key, value)->Mapping_0, other) == first_match(
            tree->Mapping_0,
            other,
        ),
        lookup(with_key_set(tree, key, value), other) == lookup(tree, other),
{
    let entries = tree->Mapping_0;
    lemma_first_match(entries, key);
    lemma_first_match(entries, other);
    match first_match(entries, key) {
        Some(i) => {
            let updated = entries.update(i, (entries[i].0, value));
            lemma_first_match_same_keys(entries, updated, other);
            if let Some(j) = first_match(entries, other) {
                if j == i {
                    lemma_same_key_through(entries[i].0, key, other);
                }
            }
        },
        None => {
            assert(entries.push((key, value)).drop_last() =~= entries);
        },
    }
}

/// Law: setting a key to the value it is already found with changes nothing.
pub proof fn lemma_set_unchanged(tree: Tree, key: Seq<char>, value: Tree)
    requires
        lookup(tree, key) == Some(value),
    ensures
        with_key_set(tree, key, value) == tree,
{
    let entries = tree->Mapping_0;
    lemma_first_match(entries, key);
    let i = first_match(entries, key).unwrap();
    assert(entries.update(i, (entries[i].0, value)) =~= entries);
}

/// Law: setting a key twice is setting it once, to the second value.
pub proof fn lemma_set_twice(tree: Tree, key: Seq<char>, first: Tree, second: Tree)
    requires
        tree is Mapping,
    ensures
        with_key_set(with_key_set(tree, key, first), key, second) == with_key_set(tree, key, second),
{
    let entries = tree->Mapping_0;
    lemma_first_match(entries, key);
    match first_match(entries, key) {
        Some(i) => {
            let updated = entries.update(i, (entries[i].0, first));
            lemma_first_match_same_keys(entries, updated, key);
            assert(updated.update(i, (updated[i].0, second)) =~= entries.update(
                i,
                (entries[i].0, second),
            ));
        },
        None => {
            let pushed = entries.push((key, first));
            assert(pushed.drop_last() =~= entries);
            assert(same_key(key, key));
            assert(pushed.update(entries.len() as int, (pushed[entries.len() as int].0, second))
                =~= entries.push((key, second)));
        },
    }
}

/// How many bytes the UTF-8 encoding of `text` takes.
pub open spec fn encode_utf8_len(text: Seq<char>) -> nat {
    encode_utf8(text).len()
}

/// Two ASCII keys that differ in length, or in their first character ignoring
/// case, are different keys either way round.
pub proof fn lemma_ascii_keys_differ(a: Seq<char>, b: Seq<char>)
    requires
        is_ascii_chars(a),
        is_ascii_chars(b),
        a.len() != b.len() || (a.len() > 0 && b.len() > 0 && ascii_lower(a[0] as u8) != ascii_lower(
            b[0] as u8,
        )),
    ensures
        !same_key(a, b),
        !same_key(b, a),
{
    is_ascii_chars_encode_utf8(a);
    is_ascii_chars_encode_utf8(b);
    if a.len() == b.len() {
        assert(encode_utf8(a)[0] == a[0] as u8);
        assert(encode_utf8(b)[0] == b[0] as u8);
    }
}

/// Setting a key keeps every pair's key in its place, and every pair whose key
/// does not match keeps its value; a key that was not there is appended.
pub proof fn lemma_set_keeps_positions(tree: Tree, key: Seq<char>, value: Tree)
    requires
        tree is Mapping,
    ensures
        with_key_set(tree, key, value) is Mapping,
        with_key_set(tree, key, value)->Mapping_0.len() >= tree->Mapping_0.len(),
        forall|j: int|
            0 <= j < tree->Mapping_0.len() ==> (#[trigger] with_key_set(tree, key, value)->Mapping_0[j]).0
                == tree->Mapping_0[j].0 && (!same_key(key, tree->Mapping_0[j].0)
                ==> with_key_set(tree, key, value)->Mapping_0[j].1 == tree->Mapping_0[j].1),
{
    let entries = tree->Mapping_0;
    lemma_first_match(entries, key);
    if let Some(i) = first_match(entries, key) {
        assert forall|j: int| 0 <= j < entries.len() && !same_key(key, entries[j].0) implies j != i by {
            let x = encode_utf8(entries[i].0);
            let y = encode_utf8(key);
            if j == i {
                assert forall|k: int| 0 <= k < y.len() implies ascii_lower(#[trigger] y[k]) == ascii_lower(x[k]) by {
                    assert(ascii_lower(x[k]) == ascii_lower(y[k]));
                }
            }
        }
    }
}

/// Text of ASCII characters takes one byte per character.
pub proof fn lemma_ascii_len(text: Seq<char>)
    requires
        is_ascii_chars(text),
    ensures
        encode_utf8_len(text) == text.len(),
{
    is_ascii_chars_encode_utf8(text);
}

} // verus!
