//! JSON documents, as far as the library reads them.

use std::collections::BTreeMap;
use vstd::prelude::*;

use crate::order;

verus! {

/// A JSON document as a mathematical value.
pub enum Json {
    Null,
    Bool(bool),
    /// A number: its value where it is an integer from 0 to 2^64 - 1, and how it is
    /// written.
    Number(Option<u64>, Seq<char>),
    Text(Seq<char>),
    List(Seq<Json>),
    /// The members, by name.
    Object(Map<Seq<char>, Json>),
}

impl Json {
    /// The member of an object.
    pub open spec fn member(self, key: Seq<char>) -> Option<Json> {
        match self {
            Json::Object(m) => if m.dom().contains(key) {
                Some(m[key])
            } else {
                None
            },
            _ => None,
        }
    }

    /// The element of a list.
    pub open spec fn element(self, i: int) -> Option<Json> {
        match self {
            Json::List(l) => if 0 <= i < l.len() {
                Some(l[i])
            } else {
                None
            },
            _ => None,
        }
    }

    /// The characters of a text.
    pub open spec fn text(self) -> Option<Seq<char>> {
        match self {
            Json::Text(s) => Some(s),
            _ => None,
        }
    }

    /// The value of an integer from 0 to 2^64 - 1.
    pub open spec fn integer(self) -> Option<u64> {
        match self {
            Json::Number(n, _) => n,
            _ => None,
        }
    }

    /// The value of an integer that fits a size.
    pub open spec fn size(self) -> Option<usize> {
        match self.integer() {
            Some(n) => if n <= usize::MAX {
                Some(n as usize)
            } else {
                None
            },
            None => None,
        }
    }

    /// The elements of a list of sizes.
    pub open spec fn sizes(self) -> Option<Seq<usize>> {
        match self {
            Json::List(l) => if forall|i: int| 0 <= i < l.len() ==> (#[trigger] l[i]).size() is Some {
                Some(l.map_values(|j: Json| j.size()->0))
            } else {
                None
            },
            _ => None,
        }
    }

    /// The elements of a list of two sizes.
    pub open spec fn pair(self) -> Option<(usize, usize)> {
        match self.sizes() {
            Some(s) => if s.len() == 2 {
                Some((s[0], s[1]))
            } else {
                None
            },
            None => None,
        }
    }
}

/// A parsed JSON document.
#[verifier::external_type_specification]
#[verifier::external_body]
pub struct ExValue(serde_json::Value);

/// What a parsed document holds.
pub uninterp spec fn tree(v: serde_json::Value) -> Json;

/// What the bytes of a document are parsed to, or why they are not.
pub uninterp spec fn parsed(bytes: Seq<u8>) -> Result<Json, Seq<char>>;

/// Calls `serde_json::from_slice` for a `serde_json::Value`, and turns its error into
/// text. The document, or the error, depends on the bytes alone.
#[verifier::external_body]
pub(crate) fn parse(bytes: &[u8]) -> (r: Result<serde_json::Value, String>)
    ensures
        match r {
            Ok(v) => parsed(bytes@) == Ok::<Json, Seq<char>>(tree(v)),
            Err(e) => parsed(bytes@) == Err::<Json, Seq<char>>(e@),
        },
{
    serde_json::from_slice::<serde_json::Value>(bytes).map_err(|e| e.to_string())
}

/// Calls `serde_json::Value::get` with a name: the member of that name, if the document
/// is an object and has one.
#[verifier::external_body]
pub(crate) fn member<'a>(v: &'a serde_json::Value, key: &str) -> (r: Option<&'a serde_json::Value>)
    ensures
        match r {
            Some(m) => tree(*v).member(key@) == Some(tree(*m)),
            None => tree(*v).member(key@) is None,
        },
{
    v.get(key)
}

/// Calls `serde_json::Value::get` with a number: the element at that place, if the
/// document is a list and is long enough.
#[verifier::external_body]
pub(crate) fn element(v: &serde_json::Value, i: usize) -> (r: Option<&serde_json::Value>)
    ensures
        match r {
            Some(e) => tree(*v).element(i as int) == Some(tree(*e)),
            None => tree(*v).element(i as int) is None,
        },
{
    v.get(i)
}

/// Calls `serde_json::Value::as_array`: the number of elements, if the document is a list.
#[verifier::external_body]
pub(crate) fn list_len(v: &serde_json::Value) -> (r: Option<usize>)
    ensures
        match r {
            Some(n) => tree(*v) is List && tree(*v)->List_0.len() == n,
            None => tree(*v) !is List,
        },
{
    v.as_array().map(|a| a.len())
}

/// Calls `serde_json::Value::as_str`: the characters, if the document is a text.
#[verifier::external_body]
pub(crate) fn text_of(v: &serde_json::Value) -> (r: Option<String>)
    ensures
        match r {
            Some(s) => tree(*v).text() == Some(s@),
            None => tree(*v).text() is None,
        },
{
    v.as_str().map(|s| s.to_owned())
}

/// Calls `serde_json::Value::as_u64`: the value, if the document is an integer from 0 to
/// 2^64 - 1.
#[verifier::external_body]
pub(crate) fn integer(v: &serde_json::Value) -> (r: Option<u64>)
    ensures
        r == tree(*v).integer(),
{
    v.as_u64()
}

/// Why a document is not read as a text.
pub uninterp spec fn not_text(j: Json) -> Seq<char>;

/// Calls `serde_json::from_value` for a `String`, and turns its error into text. It succeeds
/// with the characters of a text; the error depends on the document alone.
#[verifier::external_body]
pub(crate) fn read_text(v: &serde_json::Value) -> (r: Result<String, String>)
    ensures
        match r {
            Ok(s) => tree(*v).text() == Some(s@),
            Err(e) => tree(*v).text() is None && e@ == not_text(tree(*v)),
        },
{
    serde_json::from_value::<String>(v.clone()).map_err(|e| e.to_string())
}

/// Why a document is not read as a list of sizes.
pub uninterp spec fn not_sizes(j: Json) -> Seq<char>;

/// Calls `serde_json::from_value` for a `Vec<usize>`, and turns its error into text. It
/// succeeds with the elements of a list of sizes; the error depends on the document alone.
#[verifier::external_body]
pub(crate) fn read_sizes(v: &serde_json::Value) -> (r: Result<Vec<usize>, String>)
    ensures
        match r {
            Ok(s) => tree(*v).sizes() == Some(s@),
            Err(e) => tree(*v).sizes() is None && e@ == not_sizes(tree(*v)),
        },
{
    serde_json::from_value::<Vec<usize>>(v.clone()).map_err(|e| e.to_string())
}

/// Why a document is not read as two sizes.
pub uninterp spec fn not_pair(j: Json) -> Seq<char>;

/// Calls `serde_json::from_value` for a `(usize, usize)`, and turns its error into text. It
/// succeeds with the elements of a list of two sizes; the error depends on the document
/// alone.
#[verifier::external_body]
pub(crate) fn read_pair(v: &serde_json::Value) -> (r: Result<(usize, usize), String>)
    ensures
        match r {
            Ok(p) => tree(*v).pair() == Some(p),
            Err(e) => tree(*v).pair() is None && e@ == not_pair(tree(*v)),
        },
{
    serde_json::from_value::<(usize, usize)>(v.clone()).map_err(|e| e.to_string())
}

/// What an error calls a document that is not of the kind that was expected.
pub uninterp spec fn called(j: Json) -> Seq<char>;

/// Calls `serde_json::from_value` for a map from names to `serde_json::Value`, and turns its
/// error into text. It succeeds on every object; of any other document the error says what
/// it is called, which depends on the document alone, and that a map was expected.
#[verifier::external_body]
pub(crate) fn read_object(v: &serde_json::Value) -> (r: Result<(), String>)
    ensures
        match r {
            Ok(_) => tree(*v) is Object,
            Err(e) => tree(*v) !is Object && e@ == "invalid type: "@ + called(tree(*v))
                + ", expected a map"@,
        },
{
    match serde_json::from_value::<BTreeMap<String, serde_json::Value>>(v.clone()) {
        Ok(_) => Ok(()),
        Err(e) => Err(e.to_string()),
    }
}

/// The members of an object, by name.
pub type Members = Vec<(String, serde_json::Value)>;

/// Members as mathematical values.
pub open spec fn members_view(m: Seq<(String, serde_json::Value)>) -> Seq<(Seq<char>, Json)> {
    m.map_values(|e: (String, serde_json::Value)| (e.0@, tree(e.1)))
}

/// What the bytes of an object are parsed to, or why they are not.
pub uninterp spec fn parsed_members(bytes: Seq<u8>) -> Result<Seq<(Seq<char>, Json)>, Seq<char>>;

/// Calls `serde_json::from_slice` for a map from names to `serde_json::Value`, and turns its
/// error into text. The members, or the error, depend on the bytes alone; the map gives
/// each name once, in ascending order.
#[verifier::external_body]
pub(crate) fn parse_members(bytes: &[u8]) -> (r: Result<Members, String>)
    ensures
        match r {
            Ok(m) => {
                &&& parsed_members(bytes@) == Ok::<Seq<(Seq<char>, Json)>, Seq<char>>(
                    members_view(m@),
                )
                &&& order::ascending(member_names(members_view(m@)))
            },
            Err(e) => parsed_members(bytes@) == Err::<Seq<(Seq<char>, Json)>, Seq<char>>(e@),
        },
{
    match serde_json::from_slice::<BTreeMap<String, serde_json::Value>>(bytes) {
        Ok(m) => Ok(m.into_iter().collect()),
        Err(e) => Err(e.to_string()),
    }
}

/// The names of members.
pub open spec fn member_names(m: Seq<(Seq<char>, Json)>) -> Seq<Seq<char>> {
    m.map_values(|e: (Seq<char>, Json)| e.0)
}

} // verus!
