//! Reading JSON documents: `serde_json` parses, and hands back the members of one
//! object, or the items of one array, at a time, each summed up as a [`Scalar`].
//! Everything read out of them is decided here.

use vstd::prelude::*;

use crate::linux::{all_digits, digits_value, lemma_digits_grow};
use crate::text::{chars_of, joined, same_chars};

verus! {

/// What one JSON value is: `null`, a boolean, a number as `serde_json` writes it,
/// a string, or an array or object, by kind only.
#[derive(Debug, Clone, PartialEq, Eq)]
pub enum Scalar {
    Null,
    Bool(bool),
    Number(String),
    Text(String),
    List,
    Object,
}

/// The mathematical form of a [`Scalar`]: text as its characters.
pub enum Leaf {
    Null,
    Bool(bool),
    Number(Seq<char>),
    Text(Seq<char>),
    List,
    Object,
}

impl View for Scalar {
    type V = Leaf;

    open spec fn view(&self) -> Leaf {
        match self {
            Scalar::Null => Leaf::Null,
            Scalar::Bool(flag) => Leaf::Bool(*flag),
            Scalar::Number(text) => Leaf::Number(text@),
            Scalar::Text(text) => Leaf::Text(text@),
            Scalar::List => Leaf::List,
            Scalar::Object => Leaf::Object,
        }
    }
}

/// Members as names and leaves.
pub open spec fn member_leaves(members: Seq<(String, Scalar)>) -> Seq<(Seq<char>, Leaf)> {
    Seq::new(members.len(), |i: int| (members[i].0@, members[i].1@))
}

/// Items as leaves.
pub open spec fn item_leaves(items: Seq<Scalar>) -> Seq<Leaf> {
    Seq::new(items.len(), |i: int| items[i]@)
}

/// The members of the object that `pointer`, a JSON pointer, designates in the
/// JSON document `text`, in the order `serde_json` keeps them; `None` when `text`
/// is not JSON or the pointer designates no object.
pub uninterp spec fn json_members_at(text: Seq<char>, pointer: Seq<char>) -> Option<Seq<(Seq<char>, Leaf)>>;

/// The items of the array that `pointer` designates in the JSON document `text`;
/// `None` when `text` is not JSON or the pointer designates no array.
pub uninterp spec fn json_items_at(text: Seq<char>, pointer: Seq<char>) -> Option<Seq<Leaf>>;

/// The members of the object at `pointer` in the JSON document `text`.
///
/// Trusted: `serde_json::from_str` into a `serde_json::Value`, then
/// `Value::pointer` and `Value::as_object`; each member's value is summed up by its
/// variant, a number by its `to_string`. The result depends on the two texts alone.
#[verifier::external_body]
pub(crate) fn members_at(text: &str, pointer: &str) -> (members: Option<Vec<(String, Scalar)>>)
    ensures
        match members {
            Some(found) => json_members_at(text@, pointer@) == Some(member_leaves(found@)),
            None => json_members_at(text@, pointer@) is None,
        },
{
    let document: serde_json::Value = serde_json::from_str(text).ok()?;
    let object = document.pointer(pointer)?.as_object()?;
    Some(object.iter().map(|(name, value)| (name.clone(), match value {
        serde_json::Value::Null => Scalar::Null,
        serde_json::Value::Bool(flag) => Scalar::Bool(*flag),
        serde_json::Value::Number(number) => Scalar::Number(number.to_string()),
        serde_json::Value::String(string) => Scalar::Text(string.clone()),
        serde_json::Value::Array(_) => Scalar::List,
        serde_json::Value::Object(_) => Scalar::Object,
    })).collect())
}

/// The items of the array at `pointer` in the JSON document `text`.
///
/// Trusted: `serde_json::from_str` into a `serde_json::Value`, then
/// `Value::pointer` and `Value::as_array`; each item is summed up by its variant,
/// a number by its `to_string`. The result depends on the two texts alone.
#[verifier::external_body]
pub(crate) fn items_at(text: &str, pointer: &str) -> (items: Option<Vec<Scalar>>)
    ensures
        match items {
            Some(found) => json_items_at(text@, pointer@) == Some(item_leaves(found@)),
            None => json_items_at(text@, pointer@) is None,
        },
{
    let document: serde_json::Value = serde_json::from_str(text).ok()?;
    let array = document.pointer(pointer)?.as_array()?;
    Some(array.iter().map(|value| match value {
        serde_json::Value::Null => Scalar::Null,
        serde_json::Value::Bool(flag) => Scalar::Bool(*flag),
        serde_json::Value::Number(number) => Scalar::Number(number.to_string()),
        serde_json::Value::String(string) => Scalar::Text(string.clone()),
        serde_json::Value::Array(_) => Scalar::List,
        serde_json::Value::Object(_) => Scalar::Object,
    }).collect())
}

/// The value of the first member named `name`.
pub open spec fn member_leaf(members: Seq<(Seq<char>, Leaf)>, name: Seq<char>) -> Option<Leaf>
    decreases members.len(),
{
    if members.len() == 0 {
        None
    } else if members[0].0 == name {
        Some(members[0].1)
    } else {
        member_leaf(members.drop_first(), name)
    }
}

/// The value of the first member named `name`.
pub(crate) fn member<'a>(members: &'a [(String, Scalar)], name: &str) -> (found: Option<&'a Scalar>)
    ensures
        match found {
            Some(value) => member_leaf(member_leaves(members@), name@) == Some(value@),
            None => member_leaf(member_leaves(members@), name@) is None,
        },
{
    let wanted = chars_of(name);
    let mut i: usize = 0;
    proof {
        assert(member_leaves(members@).skip(0) =~= member_leaves(members@));
    }
    while i < members.len()
        invariant
            i <= members@.len(),
            wanted@ == name@,
            member_leaf(member_leaves(members@), name@) == member_leaf(member_leaves(members@).skip(i as int), name@),
        decreases members@.len() - i,
    {
        let ghost leaves = member_leaves(members@);
        proof {
            assert(leaves.skip(i as int)[0] == leaves[i as int]);
            assert(leaves.skip(i as int).drop_first() =~= leaves.skip(i + 1));
        }
        if same_chars(chars_of(members[i].0.as_str()).as_slice(), wanted.as_slice()) {
            return Some(&members[i].1);
        }
        i = i + 1;
    }
    proof {
        assert(member_leaves(members@).skip(i as int).len() == 0);
    }
    None
}

/// What reading member `name` as an optional string gives: absent or `null` is
/// nothing, a string is its text, anything else is the complaint.
pub open spec fn optional_text_leaf(members: Seq<(Seq<char>, Leaf)>, name: Seq<char>) -> Result<Option<Seq<char>>, Seq<char>> {
    match member_leaf(members, name) {
        None => Ok(None),
        Some(Leaf::Null) => Ok(None),
        Some(Leaf::Text(text)) => Ok(Some(text)),
        Some(_) => Err("`"@ + name + "` is not a string"@),
    }
}

/// What reading member `name` as a required string gives: a string is its text;
/// absence, and anything else, is the complaint.
pub open spec fn required_text_leaf(members: Seq<(Seq<char>, Leaf)>, name: Seq<char>) -> Result<Seq<char>, Seq<char>> {
    match member_leaf(members, name) {
        None => Err("missing field `"@ + name + "`"@),
        Some(Leaf::Text(text)) => Ok(text),
        Some(_) => Err("`"@ + name + "` is not a string"@),
    }
}

/// A string member that may be absent or `null`.
pub(crate) fn optional_text(members: &[(String, Scalar)], name: &str) -> (result: Result<Option<String>, String>)
    ensures
        match (result, optional_text_leaf(member_leaves(members@), name@)) {
            (Ok(Some(text)), Ok(Some(expected))) => text@ == expected,
            (Ok(None), Ok(None)) => true,
            (Err(message), Err(expected)) => message@ == expected,
            _ => false,
        },
{
    match member(members, name) {
        None => Ok(None),
        Some(Scalar::Null) => Ok(None),
        Some(Scalar::Text(text)) => Ok(Some(text.clone())),
        Some(_) => Err(joined(joined("`", name).as_str(), "` is not a string")),
    }
}

/// A string member that has to be there.
pub(crate) fn required_text(members: &[(String, Scalar)], name: &str) -> (result: Result<String, String>)
    ensures
        match (result, required_text_leaf(member_leaves(members@), name@)) {
            (Ok(text), Ok(expected)) => text@ == expected,
            (Err(message), Err(expected)) => message@ == expected,
            _ => false,
        },
{
    match member(members, name) {
        None => Err(joined(joined("missing field `", name).as_str(), "`")),
        Some(Scalar::Text(text)) => Ok(text.clone()),
        Some(_) => Err(joined(joined("`", name).as_str(), "` is not a string")),
    }
}

/// The whole number a JSON number's text spells, when it is one that fits a `u64`:
/// digits only, so no sign, fraction or exponent.
pub open spec fn whole_number(text: Seq<char>) -> Option<u64> {
    if text.len() > 0 && all_digits(text) && digits_value(text) <= u64::MAX {
        Some(digits_value(text) as u64)
    } else {
        None
    }
}

/// Read a JSON number's text as a whole number.
pub(crate) fn whole_number_of(text: &str) -> (number: Option<u64>)
    ensures
        number == whole_number(text@),
{
    let chars = chars_of(text);
    if chars.len() == 0 {
        return None;
    }
    let mut value: u128 = 0;
    let mut i: usize = 0;
    proof {
        assert(chars@.take(0) =~= Seq::<char>::empty());
    }
    while i < chars.len()
        invariant
            i <= chars@.len(),
            chars@ == text@,
            all_digits(chars@.take(i as int)),
            value == digits_value(chars@.take(i as int)),
            value <= u64::MAX,
        decreases chars@.len() - i,
    {
        let c = chars[i];
        if c < '0' || c > '9' {
            proof {
                assert(!all_digits(chars@));
            }
            return None;
        }
        proof {
            assert(chars@.take(i + 1).drop_last() =~= chars@.take(i as int));
            assert(chars@.take(i + 1).last() == c);
        }
        let digit = (c as u32 - 48) as u128;
        let next = value * 10 + digit;
        if next > 0xFFFF_FFFF_FFFF_FFFFu128 {
            proof {
                assert(digits_value(chars@.take(i + 1)) == next);
                if all_digits(chars@) {
                    lemma_digits_grow(chars@, i + 1);
                }
            }
            return None;
        }
        value = next;
        i = i + 1;
    }
    proof {
        assert(chars@.take(i as int) =~= chars@);
    }
    Some(value as u64)
}

} // verus!
