//! JSON documents as plain values.
//!
//! `serde_json` reads the text; what it hands back is turned into a tree of the library's
//! own, on which everything else works.

use crate::notation::{plain, same, written};
use serde_json::Value;
use vstd::prelude::*;

verus! {

/// A JSON document. A number is kept as its decimal text, and as an integer where it is
/// one between zero and `u64::MAX`.
pub enum Json {
    Null,
    Bool(bool),
    Number(Option<u64>, String),
    Str(String),
    Array(Vec<Json>),
    Object(Vec<(String, Json)>),
}

/// A JSON document over sequences.
pub enum Doc {
    Null,
    Bool(bool),
    Number(Option<u64>, Seq<char>),
    Str(Seq<char>),
    Array(Seq<Doc>),
    Object(Seq<(Seq<char>, Doc)>),
}

/// `serde_json`'s tree, opaque.
#[verifier::external_type_specification]
#[verifier::external_body]
pub struct ExValue(serde_json::Value);

/// The document that a `serde_json` tree holds.
pub uninterp spec fn contents(v: Value) -> Doc;

/// The document that `serde_json` reads from a text, if it accepts the text.
pub uninterp spec fn parsed(text: Seq<char>) -> Option<Doc>;

/// What `serde_json` says about a text that it does not accept.
pub uninterp spec fn complaint(text: Seq<char>) -> Seq<char>;

/// One level of a `serde_json` tree.
enum Node {
    Null,
    Bool(bool),
    Number(Option<u64>, String),
    Str(String),
    Array(Vec<Value>),
    Object(Vec<(String, Value)>),
}

impl Node {
    /// Whether this is the top level of `d`.
    spec fn top_of(self, d: Doc) -> bool {
        match (self, d) {
            (Node::Null, Doc::Null) => true,
            (Node::Bool(a), Doc::Bool(b)) => a == b,
            (Node::Number(n, t), Doc::Number(m, s)) => n == m && t@ == s,
            (Node::Str(t), Doc::Str(s)) => t@ == s,
            (Node::Array(v), Doc::Array(s)) => {
                &&& v@.len() == s.len()
                &&& forall|i: int| 0 <= i < s.len() ==> contents(#[trigger] v@[i]) == s[i]
            },
            (Node::Object(v), Doc::Object(s)) => {
                &&& v@.len() == s.len()
                &&& forall|i: int|
                    0 <= i < s.len() ==> (#[trigger] v@[i]).0@ == s[i].0 && contents(v@[i].1)
                        == s[i].1
            },
            _ => false,
        }
    }
}

/// Trusted: `serde_json::from_str` reads a text into a tree. Whether it accepts the text,
/// and what the tree holds, is named `parsed`. Of the text of a plain document it is said
/// that it is accepted and that the tree holds that document: strings lose their escapes,
/// whole numbers are kept exactly, a number with a point becomes the nearest binary fraction
/// (whose shortest notation is the same number again), and the entries of an object are
/// found under their keys. The reader gives up at a depth of 128. What the error of a text
/// that is not accepted says, by its `Display`, is named `complaint`.
#[verifier::external_body]
fn parse_value(text: &str) -> (r: Result<Value, String>)
    ensures
        match r {
            Ok(v) => parsed(text@) == Some(contents(v)),
            Err(m) => parsed(text@) is None && m@ == complaint(text@),
        },
        forall|d: Doc|
            text@ == #[trigger] written(d) && plain(d, 100) ==> r is Ok && same(
                d,
                contents(r->Ok_0),
            ),
{
    match serde_json::from_str(text) {
        Ok(v) => Ok(v),
        Err(e) => Err(e.to_string()),
    }
}

/// Trusted: takes the variants of `serde_json::Value` apart. The text of a number is that
/// of `serde_json::Number`'s `Display`; an object hands out its entries in the order of
/// its map.
#[verifier::external_body]
fn open(v: Value) -> (r: Node)
    ensures
        r.top_of(contents(v)),
{
    match v {
        Value::Null => Node::Null,
        Value::Bool(b) => Node::Bool(b),
        Value::Number(n) => Node::Number(n.as_u64(), n.to_string()),
        Value::String(s) => Node::Str(s),
        Value::Array(a) => Node::Array(a),
        Value::Object(m) => Node::Object(m.into_iter().collect()),
    }
}

impl Json {
    /// The document over sequences.
    pub open spec fn doc(self) -> Doc
        decreases self,
    {
        match self {
            Json::Null => Doc::Null,
            Json::Bool(b) => Doc::Bool(b),
            Json::Number(n, t) => Doc::Number(n, t@),
            Json::Str(s) => Doc::Str(s@),
            Json::Array(v) => Doc::Array(
                Seq::new(
                    v@.len(),
                    |i: int|
                        if 0 <= i < v@.len() {
                            v@[i].doc()
                        } else {
                            Doc::Null
                        },
                ),
            ),
            Json::Object(v) => Doc::Object(
                Seq::new(
                    v@.len(),
                    |i: int|
                        if 0 <= i < v@.len() {
                            (v@[i].0@, v@[i].1.doc())
                        } else {
                            (Seq::empty(), Doc::Null)
                        },
                ),
            ),
        }
    }
}

/// A text that `serde_json` does not accept, with what it says about it.
pub struct NotJson {
    pub message: String,
}

/// The value of the first entry with the given key; null where there is none.
pub open spec fn lookup(entries: Seq<(Seq<char>, Doc)>, key: Seq<char>) -> Doc
    decreases entries.len(),
{
    if entries.len() == 0 {
        Doc::Null
    } else if entries[0].0 == key {
        entries[0].1
    } else {
        lookup(entries.skip(1), key)
    }
}

impl Doc {
    /// The member of an object; null where there is none, or no object.
    pub open spec fn member(self, key: Seq<char>) -> Doc {
        match self {
            Doc::Object(entries) => lookup(entries, key),
            _ => Doc::Null,
        }
    }

    /// The item of an array; null where there is none, or no array.
    pub open spec fn item(self, i: int) -> Doc {
        match self {
            Doc::Array(items) => if 0 <= i < items.len() {
                items[i]
            } else {
                Doc::Null
            },
            _ => Doc::Null,
        }
    }
}

proof fn lemma_lookup_skips(entries: Seq<(Seq<char>, Doc)>, key: Seq<char>, k: int)
    requires
        0 <= k <= entries.len(),
        forall|i: int| 0 <= i < k ==> (#[trigger] entries[i]).0 != key,
    ensures
        lookup(entries, key) == lookup(entries.skip(k), key),
    decreases k,
{
    if k == 0 {
        assert(entries.skip(0) =~= entries);
    } else {
        let rest = entries.skip(1);
        assert forall|i: int| 0 <= i < k - 1 implies (#[trigger] rest[i]).0 != key by {
            assert(rest[i] == entries[i + 1]);
        }
        lemma_lookup_skips(rest, key, k - 1);
        assert(rest.skip(k - 1) =~= entries.skip(k));
    }
}

impl Json {
    /// The library's own copy of a `serde_json` tree.
    fn from_value(v: Value) -> (r: Json)
        ensures
            r.doc() == contents(v),
        decreases contents(v),
    {
        let ghost d = contents(v);
        match open(v) {
            Node::Null => Json::Null,
            Node::Bool(b) => Json::Bool(b),
            Node::Number(n, t) => Json::Number(n, t),
            Node::Str(s) => Json::Str(s),
            Node::Array(a) => {
                let mut items: Vec<Json> = Vec::new();
                let ghost values = a@;
                let ghost docs = d->Array_0;
                for x in it: a
                    invariant
                        d == contents(v),
                        d == Doc::Array(docs),
                        it.seq() == values,
                        values.len() == docs.len(),
                        forall|i: int|
                            0 <= i < docs.len() ==> contents(#[trigger] values[i]) == docs[i],
                        items@.len() == it.index(),
                        forall|i: int|
                            0 <= i < items@.len() ==> (#[trigger] items@[i]).doc() == docs[i],
                {
                    let ghost k = it.index();
                    assert(contents(values[k]) == docs[k]);
                    assert(decreases_to!(d => d->Array_0));
                    assert(decreases_to!(docs => docs[k]));
                    items.push(Json::from_value(x));
                }
                let r = Json::Array(items);
                assert(r.doc()->Array_0 =~= docs);
                r
            },
            Node::Object(m) => {
                let mut entries: Vec<(String, Json)> = Vec::new();
                let ghost values = m@;
                let ghost docs = d->Object_0;
                for x in it: m
                    invariant
                        d == contents(v),
                        d == Doc::Object(docs),
                        it.seq() == values,
                        values.len() == docs.len(),
                        forall|i: int|
                            0 <= i < docs.len() ==> (#[trigger] values[i]).0@ == docs[i].0
                                && contents(values[i].1) == docs[i].1,
                        entries@.len() == it.index(),
                        forall|i: int|
                            0 <= i < entries@.len() ==> (#[trigger] entries@[i]).0@ == docs[i].0
                                && entries@[i].1.doc() == docs[i].1,
                {
                    let ghost k = it.index();
                    assert(values[k].0@ == docs[k].0);
                    let (key, inner) = x;
                    assert(decreases_to!(d => d->Object_0));
                    assert(decreases_to!(docs => docs[k]));
                    assert(decreases_to!(docs[k] => docs[k].1));
                    entries.push((key, Json::from_value(inner)));
                }
                let r = Json::Object(entries);
                assert(r.doc()->Object_0 =~= docs);
                r
            },
        }
    }

    /// Reads a JSON text.
    pub fn parse(text: &str) -> (r: Result<Json, NotJson>)
        ensures
            match r {
                Ok(j) => parsed(text@) == Some(j.doc()),
                Err(e) => parsed(text@) is None && e.message@ == complaint(text@),
            },
            forall|d: Doc|
                text@ == #[trigger] written(d) && plain(d, 100) ==> r is Ok && same(
                    d,
                    r->Ok_0.doc(),
                ),
    {
        match parse_value(text) {
            Ok(v) => Ok(Json::from_value(v)),
            Err(message) => Err(NotJson { message }),
        }
    }

    /// The member of an object.
    pub fn member(&self, key: &str) -> (r: Option<&Json>)
        ensures
            match r {
                Some(j) => j.doc() == self.doc().member(key@),
                None => self.doc().member(key@) == Doc::Null,
            },
    {
        match self {
            Json::Object(entries) => {
                let name = key.to_string();
                let ghost docs = self.doc()->Object_0;
                for i in 0..entries.len()
                    invariant
                        *self == Json::Object(*entries),
                        name@ == key@,
                        docs == self.doc()->Object_0,
                        self.doc() is Object,
                        docs.len() == entries@.len(),
                        forall|k: int| 0 <= k < i ==> (#[trigger] docs[k]).0 != key@,
                {
                    assert(docs[i as int] == (entries@[i as int].0@, entries@[i as int].1.doc()));
                    if entries[i].0 == name {
                        proof {
                            lemma_lookup_skips(docs, key@, i as int);
                            assert(docs.skip(i as int)[0] == docs[i as int]);
                        }
                        return Some(&entries[i].1);
                    }
                }
                proof {
                    lemma_lookup_skips(docs, key@, docs.len() as int);
                }
                None
            },
            _ => None,
        }
    }

    /// The item of an array.
    pub fn item(&self, i: usize) -> (r: Option<&Json>)
        ensures
            match r {
                Some(j) => j.doc() == self.doc().item(i as int),
                None => self.doc().item(i as int) == Doc::Null,
            },
    {
        match self {
            Json::Array(items) => if i < items.len() {
                Some(&items[i])
            } else {
                None
            },
            _ => None,
        }
    }
}

/// A key is looked up as the first entry that has it; without one there is null.
pub proof fn law_lookup_finds_the_first(entries: Seq<(Seq<char>, Doc)>, key: Seq<char>, k: int)
    requires
        0 <= k <= entries.len(),
        forall|i: int| 0 <= i < k ==> (#[trigger] entries[i]).0 != key,
        k < entries.len() ==> entries[k].0 == key,
    ensures
        lookup(entries, key) == if k < entries.len() {
            entries[k].1
        } else {
            Doc::Null
        },
        Doc::Object(entries).member(key) == lookup(entries, key),
{
    lemma_lookup_skips(entries, key, k);
    if k < entries.len() {
        assert(entries.skip(k)[0] == entries[k]);
    }
}

/// The items of an array are found by their place, and nothing else is.
pub proof fn law_items_by_place(items: Seq<Doc>, i: int, d: Doc)
    ensures
        0 <= i < items.len() ==> Doc::Array(items).item(i) == items[i],
        i < 0 || i >= items.len() ==> Doc::Array(items).item(i) == Doc::Null,
        !(d is Array) ==> d.item(i) == Doc::Null,
        !(d is Object) ==> d.member(Seq::empty()) == Doc::Null,
{
}

/// A document holds what the tree holds: every value, item and entry, in order.
pub proof fn law_documents_keep_everything(
    b: bool,
    n: Option<u64>,
    t: String,
    items: Vec<Json>,
    entries: Vec<(String, Json)>,
    i: int,
)
    ensures
        Json::Null.doc() == Doc::Null,
        Json::Bool(b).doc() == Doc::Bool(b),
        Json::Number(n, t).doc() == Doc::Number(n, t@),
        Json::Str(t).doc() == Doc::Str(t@),
        Json::Array(items).doc() matches Doc::Array(s) && s.len() == items@.len() && (0 <= i
            < s.len() ==> s[i] == items@[i].doc()),
        Json::Object(entries).doc() matches Doc::Object(s) && s.len() == entries@.len() && (0 <= i
            < s.len() ==> s[i].0 == entries@[i].0@ && s[i].1 == entries@[i].1.doc()),
{
}

} // verus!
