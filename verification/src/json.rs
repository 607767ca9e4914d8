//! A JSON document model that the transcript logic reads, with the parse
//! itself delegated to `serde_json`.

use crate::text::hex_digit;
use vstd::prelude::*;

verus! {

/// A parsed JSON value. Object members keep the order in which the parser
/// handed them over; a number holds the text that `serde_json` prints for
/// the number it parsed (so `1e3` reads back as `1000.0`).
#[derive(Debug, PartialEq)]
pub enum JsonValue {
    Null,
    Bool(bool),
    Number(String),
    Str(String),
    Array(Vec<JsonValue>),
    Object(Vec<(String, JsonValue)>),
}

/// The mathematical shape of a [`JsonValue`].
pub enum JsonTree {
    Null,
    Bool(bool),
    Number(Seq<char>),
    Str(Seq<char>),
    Array(Seq<JsonTree>),
    Object(Seq<(Seq<char>, JsonTree)>),
}

impl JsonValue {
    /// The tree that this value denotes.
    pub open spec fn tree(self) -> JsonTree
        decreases self,
    {
        match self {
            JsonValue::Null => JsonTree::Null,
            JsonValue::Bool(b) => JsonTree::Bool(b),
            JsonValue::Number(n) => JsonTree::Number(n@),
            JsonValue::Str(s) => JsonTree::Str(s@),
            JsonValue::Array(a) => JsonTree::Array(items_tree(a@)),
            JsonValue::Object(m) => JsonTree::Object(members_tree(m@)),
        }
    }
}

/// Trees of a sequence of values, element by element.
pub open spec fn items_tree(s: Seq<JsonValue>) -> Seq<JsonTree>
    decreases s,
{
    if s.len() == 0 {
        Seq::empty()
    } else {
        seq![s[0].tree()] + items_tree(s.drop_first())
    }
}

/// Trees of a sequence of object members, member by member.
pub open spec fn members_tree(s: Seq<(String, JsonValue)>) -> Seq<(Seq<char>, JsonTree)>
    decreases s,
{
    if s.len() == 0 {
        Seq::empty()
    } else {
        seq![(s[0].0@, s[0].1.tree())] + members_tree(s.drop_first())
    }
}


/// Lengths and elements of [`items_tree`].
pub proof fn lemma_items_tree(s: Seq<JsonValue>)
    ensures
        items_tree(s).len() == s.len(),
        forall|i: int| 0 <= i < s.len() ==> #[trigger] items_tree(s)[i] == s[i].tree(),
    decreases s.len(),
{
    if s.len() > 0 {
        lemma_items_tree(s.drop_first());
        assert forall|i: int| 0 <= i < s.len() implies #[trigger] items_tree(s)[i] == s[i].tree() by {
            if i > 0 {
                assert(items_tree(s)[i] == items_tree(s.drop_first())[i - 1]);
            }
        }
    }
}

/// Lengths and elements of [`members_tree`].
pub proof fn lemma_members_tree(s: Seq<(String, JsonValue)>)
    ensures
        members_tree(s).len() == s.len(),
        forall|i: int|
            0 <= i < s.len() ==> #[trigger] members_tree(s)[i] == (s[i].0@, s[i].1.tree()),
    decreases s.len(),
{
    if s.len() > 0 {
        lemma_members_tree(s.drop_first());
        assert forall|i: int| 0 <= i < s.len() implies #[trigger] members_tree(s)[i] == (
            s[i].0@,
            s[i].1.tree(),
        ) by {
            if i > 0 {
                assert(members_tree(s)[i] == members_tree(s.drop_first())[i - 1]);
            }
        }
    }
}

/// The value of the first member named `key`.
pub open spec fn member_lookup(ms: Seq<(Seq<char>, JsonTree)>, key: Seq<char>) -> Option<JsonTree>
    decreases ms.len(),
{
    if ms.len() == 0 {
        None
    } else if ms[0].0 == key {
        Some(ms[0].1)
    } else {
        member_lookup(ms.drop_first(), key)
    }
}

/// Member `key` of an object; nothing for any other kind of value.
pub open spec fn tree_get(t: JsonTree, key: Seq<char>) -> Option<JsonTree> {
    match t {
        JsonTree::Object(ms) => member_lookup(ms, key),
        _ => None,
    }
}

/// [`tree_get`] through an optional value.
pub open spec fn opt_get(o: Option<JsonTree>, key: Seq<char>) -> Option<JsonTree> {
    match o {
        Some(t) => tree_get(t, key),
        None => None,
    }
}

/// The text of a string value.
pub open spec fn opt_str(o: Option<JsonTree>) -> Option<Seq<char>> {
    match o {
        Some(JsonTree::Str(s)) => Some(s),
        _ => None,
    }
}

/// The truth value of a boolean value.
pub open spec fn opt_bool(o: Option<JsonTree>) -> Option<bool> {
    match o {
        Some(JsonTree::Bool(b)) => Some(b),
        _ => None,
    }
}

/// The elements of an array value.
pub open spec fn opt_array(o: Option<JsonTree>) -> Option<Seq<JsonTree>> {
    match o {
        Some(JsonTree::Array(a)) => Some(a),
        _ => None,
    }
}

/// The tree of an optional borrowed value.
pub open spec fn opt_tree(o: Option<&JsonValue>) -> Option<JsonTree> {
    match o {
        Some(v) => Some(v.tree()),
        None => None,
    }
}

/// The text of an optional borrowed string.
pub open spec fn opt_string_view(o: Option<&String>) -> Option<Seq<char>> {
    match o {
        Some(s) => Some(s@),
        None => None,
    }
}

impl JsonValue {
    /// Member `key` when `self` is an object (the first one of that name).
    pub fn get(&self, key: &str) -> (res: Option<&JsonValue>)
        ensures
            opt_tree(res) == tree_get(self.tree(), key@),
    {
        match self {
            JsonValue::Object(ms) => {
                let k = key.to_owned();
                let ghost mt = members_tree(ms@);
                proof {
                    lemma_members_tree(ms@);
                    assert(mt.skip(0) =~= mt);
                    assert(self.tree() == JsonTree::Object(mt));
                }
                let mut i: usize = 0;
                while i < ms.len()
                    invariant
                        i <= ms.len(),
                        k@ == key@,
                        mt == members_tree(ms@),
                        self.tree() == JsonTree::Object(mt),
                        mt.len() == ms.len(),
                        forall|j: int|
                            0 <= j < ms.len() ==> #[trigger] mt[j] == (ms@[j].0@, ms@[j].1.tree()),
                        member_lookup(mt, key@) == member_lookup(mt.skip(i as int), key@),
                    decreases ms.len() - i,
                {
                    if ms[i].0 == k {
                        assert(mt.skip(i as int)[0] == mt[i as int]);
                        assert(mt.skip(i as int).len() > 0);
                        assert(member_lookup(mt.skip(i as int), key@) == Some(ms@[i as int].1.tree()));
                        assert(self.tree() == JsonTree::Object(mt));
                        return Some(&ms[i].1);
                    }
                    assert(mt.skip(i as int).drop_first() =~= mt.skip(i + 1));
                    i += 1;
                }
                None
            },
            _ => None,
        }
    }

    /// The text when `self` is a string.
    pub fn as_str(&self) -> (res: Option<&String>)
        ensures
            opt_string_view(res) == opt_str(Some(self.tree())),
    {
        match self {
            JsonValue::Str(s) => Some(s),
            _ => None,
        }
    }

    /// The truth value when `self` is a boolean.
    pub fn as_bool(&self) -> (res: Option<bool>)
        ensures
            res == opt_bool(Some(self.tree())),
    {
        match self {
            JsonValue::Bool(b) => Some(*b),
            _ => None,
        }
    }

    /// The elements when `self` is an array.
    pub fn as_array(&self) -> (res: Option<&Vec<JsonValue>>)
        ensures
            match res {
                Some(a) => opt_array(Some(self.tree())) == Some(items_tree(a@)),
                None => opt_array(Some(self.tree())) is None,
            },
    {
        match self {
            JsonValue::Array(a) => Some(a),
            _ => None,
        }
    }
}

impl JsonValue {
    /// Member `key` as a string, when it is one.
    pub fn get_str(&self, key: &str) -> (res: Option<&String>)
        ensures
            opt_string_view(res) == opt_str(tree_get(self.tree(), key@)),
    {
        match self.get(key) {
            Some(v) => v.as_str(),
            None => None,
        }
    }

    /// Member `key` as a boolean, when it is one.
    pub fn get_bool(&self, key: &str) -> (res: Option<bool>)
        ensures
            res == opt_bool(tree_get(self.tree(), key@)),
    {
        match self.get(key) {
            Some(v) => v.as_bool(),
            None => None,
        }
    }

    /// Member `key` as an array, when it is one.
    pub fn get_array(&self, key: &str) -> (res: Option<&Vec<JsonValue>>)
        ensures
            match res {
                Some(a) => opt_array(tree_get(self.tree(), key@)) == Some(items_tree(a@)),
                None => opt_array(tree_get(self.tree(), key@)) is None,
            },
    {
        match self.get(key) {
            Some(v) => v.as_array(),
            None => None,
        }
    }
}

/// What `serde_json` makes of a text: the value's tree, or the text of the
/// error it reports.
pub uninterp spec fn json_text_parse(text: Seq<char>) -> Result<JsonTree, Seq<char>>;

#[verifier::external_type_specification]
#[verifier::external_body]
pub struct ExSerdeJsonValue(serde_json::Value);

/// Moves a `serde_json::Value` into a [`JsonValue`], variant by variant.
#[verifier::external_body]
fn json_from_serde(v: serde_json::Value) -> JsonValue {
    match v {
        serde_json::Value::Null => JsonValue::Null,
        serde_json::Value::Bool(b) => JsonValue::Bool(b),
        serde_json::Value::Number(n) => JsonValue::Number(n.to_string()),
        serde_json::Value::String(s) => JsonValue::Str(s),
        serde_json::Value::Array(a) => JsonValue::Array(a.into_iter().map(json_from_serde).collect()),
        serde_json::Value::Object(m) => JsonValue::Object(
            m.into_iter().map(|(k, x)| (k, json_from_serde(x))).collect(),
        ),
    }
}

/// Parses one JSON text with `serde_json::from_str::<serde_json::Value>`.
/// Trusted: the outcome is whatever `serde_json` decides for this text,
/// named [`json_text_parse`]; the error side is the error's `Display` text.
#[verifier::external_body]
pub(crate) fn parse_json(text: &str) -> (res: Result<JsonValue, String>)
    ensures
        match res {
            Ok(v) => json_text_parse(text@) == Ok::<JsonTree, Seq<char>>(v.tree()),
            Err(m) => json_text_parse(text@) == Err::<JsonTree, Seq<char>>(m@),
        },
{
    match serde_json::from_str::<serde_json::Value>(text) {
        Ok(v) => Ok(json_from_serde(v)),
        Err(e) => Err(e.to_string()),
    }
}

/// How `serde_json` writes one character inside a string literal: `"` and
/// `\` and the control characters escaped (the short forms where JSON has
/// them, else `\u00` and two lowercase hex digits), every other character
/// as it is.
pub open spec fn json_char_escape(c: char) -> Seq<char> {
    if c == '"' {
        seq!['\\', '"']
    } else if c == '\\' {
        seq!['\\', '\\']
    } else if c == '\u{8}' {
        seq!['\\', 'b']
    } else if c == '\t' {
        seq!['\\', 't']
    } else if c == '\n' {
        seq!['\\', 'n']
    } else if c == '\u{c}' {
        seq!['\\', 'f']
    } else if c == '\r' {
        seq!['\\', 'r']
    } else if (c as u32) < 0x20 {
        seq!['\\', 'u', '0', '0', hex_digit(((c as u32) / 16) as nat), hex_digit(((c as u32) % 16) as nat)]
    } else {
        seq![c]
    }
}

/// The characters of a text, each escaped as in a JSON string literal.
pub open spec fn json_escaped(s: Seq<char>) -> Seq<char>
    decreases s.len(),
{
    if s.len() == 0 {
        Seq::empty()
    } else {
        json_escaped(s.drop_last()) + json_char_escape(s.last())
    }
}

/// The JSON string literal that `serde_json` writes for a text.
pub open spec fn json_string_literal(s: Seq<char>) -> Seq<char> {
    seq!['"'] + json_escaped(s) + seq!['"']
}

/// Quotes and escapes a text as a JSON string with `serde_json::to_string`.
/// Trusted: the result is [`json_string_literal`], the escaping of
/// `format_escaped_str` in `serde_json`'s `ser.rs`; serialising a `str`
/// does not fail.
#[verifier::external_body]
pub(crate) fn json_quote(s: &str) -> (res: String)
    ensures
        res@ == json_string_literal(s@),
{
    match serde_json::to_string(s) {
        Ok(t) => t,
        Err(_) => String::new(),
    }
}

} // verus!
