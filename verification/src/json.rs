//! JSON documents as the engine reads them: a tree of the library's own,
//! filled from `serde_json` values, and the walk that collects every
//! string leaf with its dotted path.

use vstd::prelude::*;
use crate::digits::{decimal_digits, format_decimal, parse_u64, parsed_u64};
use crate::text::{chars_of, push_chars, str_eq, string_of};

verus! {

#[verifier::external_type_specification]
#[verifier::external_body]
pub struct ExValue(serde_json::Value);

/// A JSON value. A number is kept as the text `serde_json` prints for it.
#[derive(Debug)]
pub enum Json {
    Null,
    Bool(bool),
    Number(String),
    Str(String),
    Array(Vec<Json>),
    Object(Vec<(String, Json)>),
}

/// What parsing the text `text` as one JSON value gives: the tree, or
/// `None` where `serde_json` rejects the text.
pub uninterp spec fn json_parsed(text: Seq<char>) -> Option<Json>;

/// The text that `serde_json` prints, in its compact form, for the tree `j`.
pub uninterp spec fn json_rendered(j: Json) -> Seq<char>;

/// Turns a `serde_json::Value` into the library's tree, variant by variant;
/// a number becomes its printed text, an object keeps the order in which
/// `serde_json` walks it.
#[verifier::external_body]
fn lift(v: &serde_json::Value) -> Json {
    match v {
        serde_json::Value::Null => Json::Null,
        serde_json::Value::Bool(b) => Json::Bool(*b),
        serde_json::Value::Number(n) => Json::Number(n.to_string()),
        serde_json::Value::String(s) => Json::Str(s.clone()),
        serde_json::Value::Array(a) => Json::Array(a.iter().map(lift).collect()),
        serde_json::Value::Object(m) => Json::Object(
            m.iter().map(|(k, x)| (k.clone(), lift(x))).collect(),
        ),
    }
}

/// Turns the library's tree back into a `serde_json::Value`, variant by
/// variant; a number whose text `serde_json` does not read becomes null.
#[verifier::external_body]
fn lower(j: &Json) -> serde_json::Value {
    match j {
        Json::Null => serde_json::Value::Null,
        Json::Bool(b) => serde_json::Value::Bool(*b),
        Json::Number(t) => t.parse::<serde_json::Number>().map_or(
            serde_json::Value::Null,
            serde_json::Value::Number,
        ),
        Json::Str(s) => serde_json::Value::String(s.clone()),
        Json::Array(a) => serde_json::Value::Array(a.iter().map(lower).collect()),
        Json::Object(m) => serde_json::Value::Object(
            m.iter().map(|(k, x)| (k.clone(), lower(x))).collect(),
        ),
    }
}

/// Calls `serde_json::from_str` on the text and turns the value into the
/// library's tree; the result is named `json_parsed`.
#[verifier::external_body]
pub(crate) fn parse_json(text: &str) -> (r: Option<Json>)
    ensures
        r == json_parsed(text@),
{
    serde_json::from_str::<serde_json::Value>(text).ok().map(|v| lift(&v))
}

/// Calls `serde_json::to_string` on the tree's value; the result is named
/// `json_rendered`.
#[verifier::external_body]
pub(crate) fn render_json(j: &Json) -> (r: String)
    ensures
        r@ == json_rendered(*j),
{
    serde_json::to_string(&lower(j)).unwrap_or_default()
}

/// The path of the member `key` below `path`.
pub open spec fn member_path(path: Seq<char>, key: Seq<char>) -> Seq<char> {
    if path.len() == 0 {
        key
    } else {
        path.push('.') + key
    }
}

/// The path of the element `i` below `path`.
pub open spec fn element_path(path: Seq<char>, i: nat) -> Seq<char> {
    (path.push('[') + decimal_digits(i)).push(']')
}

/// Every string leaf below `j`, with its path, in the order of the walk.
pub open spec fn string_leaves(j: Json, path: Seq<char>) -> Seq<(Seq<char>, Seq<char>)>
    decreases j, 0nat, 0nat,
{
    match j {
        Json::Str(s) => seq![(path, s@)],
        Json::Array(a) => element_leaves(a@, path, a@.len()),
        Json::Object(m) => member_leaves(m@, path, m@.len()),
        _ => Seq::empty(),
    }
}

/// The string leaves below the first `n` elements of an array.
pub open spec fn element_leaves(a: Seq<Json>, path: Seq<char>, n: nat) -> Seq<
    (Seq<char>, Seq<char>),
>
    decreases a, 1nat, n,
{
    if n == 0 || n > a.len() {
        Seq::empty()
    } else {
        element_leaves(a, path, (n - 1) as nat) + string_leaves(
            a[n - 1],
            element_path(path, (n - 1) as nat),
        )
    }
}

/// The string leaves below the first `n` members of an object.
pub open spec fn member_leaves(m: Seq<(String, Json)>, path: Seq<char>, n: nat) -> Seq<
    (Seq<char>, Seq<char>),
>
    decreases m, 1nat, n,
{
    if n == 0 || n > m.len() {
        Seq::empty()
    } else {
        member_leaves(m, path, (n - 1) as nat) + string_leaves(
            m[n - 1].1,
            member_path(path, m[n - 1].0@),
        )
    }
}

/// The texts of a vector of path and value strings.
pub open spec fn leaves_view(v: Seq<(String, String)>) -> Seq<(Seq<char>, Seq<char>)> {
    v.map_values(|e: (String, String)| (e.0@, e.1@))
}

/// The first member of an object with the key `key`.
pub open spec fn member_of(m: Seq<(String, Json)>, key: Seq<char>) -> Option<Json>
    decreases m.len(),
{
    if m.len() == 0 {
        None
    } else if m[0].0@ == key {
        Some(m[0].1)
    } else {
        member_of(m.drop_first(), key)
    }
}

impl Json {
    /// Reads one JSON value from a text; `None` where the text is none.
    pub fn parse(text: &str) -> (r: Option<Json>)
        ensures
            r == json_parsed(text@),
    {
        parse_json(text)
    }

    /// The value as compact JSON text.
    pub fn render(&self) -> (r: String)
        ensures
            r@ == json_rendered(*self),
    {
        render_json(self)
    }

    /// The member `key` of an object; `None` for other values and for
    /// objects without it.
    pub open spec fn member(self, key: Seq<char>) -> Option<Json> {
        match self {
            Json::Object(m) => member_of(m@, key),
            _ => None,
        }
    }

    /// The text of a string value.
    pub open spec fn text(self) -> Option<Seq<char>> {
        match self {
            Json::Str(s) => Some(s@),
            _ => None,
        }
    }

    /// The value of a number written as an unsigned decimal that fits 64
    /// bits, without sign, fraction or exponent.
    pub open spec fn unsigned(self) -> Option<u64> {
        match self {
            Json::Number(t) => if t@.len() > 0 && t@[0] == '+' {
                None
            } else {
                parsed_u64(t@)
            },
            _ => None,
        }
    }

    /// The member `key` of an object.
    pub fn get(&self, key: &str) -> (r: Option<&Json>)
        ensures
            match r {
                Some(j) => self.member(key@) == Some(*j),
                None => self.member(key@) is None,
            },
    {
        match self {
            Json::Object(m) => {
                let mut i: usize = 0;
                proof {
                    assert(m@.skip(0) =~= m@);
                }
                while i < m.len()
                    invariant
                        i <= m.len(),
                        *self == Json::Object(*m),
                        member_of(m@, key@) == member_of(m@.skip(i as int), key@),
                    decreases m.len() - i,
                {
                    proof {
                        assert(m@.skip(i as int).drop_first() =~= m@.skip(i + 1));
                        assert(m@.skip(i as int)[0] == m@[i as int]);
                    }
                    if str_eq(m[i].0.as_str(), key) {
                        return Some(&m[i].1);
                    }
                    i += 1;
                }
                None
            },
            _ => None,
        }
    }

    /// The text of a string value.
    pub fn as_str(&self) -> (r: Option<&str>)
        ensures
            match r {
                Some(s) => self.text() == Some(s@),
                None => self.text() is None,
            },
    {
        match self {
            Json::Str(s) => Some(s.as_str()),
            _ => None,
        }
    }

    /// The value of a number written as an unsigned decimal that fits 64
    /// bits.
    pub fn as_u64(&self) -> (r: Option<u64>)
        ensures
            r == self.unsigned(),
    {
        match self {
            Json::Number(t) => {
                let cs = chars_of(t.as_str());
                if cs.len() > 0 && cs[0] == '+' {
                    None
                } else {
                    parse_u64(&cs)
                }
            },
            _ => None,
        }
    }
}

/// The path of the member `key` below `path`.
pub(crate) fn join_member(path: &Vec<char>, key: &str) -> (r: Vec<char>)
    ensures
        r@ == member_path(path@, key@),
{
    let k = chars_of(key);
    if path.len() == 0 {
        return k;
    }
    let mut out: Vec<char> = Vec::new();
    push_chars(&mut out, path);
    out.push('.');
    push_chars(&mut out, &k);
    proof {
        assert(out@ =~= member_path(path@, key@));
    }
    out
}

/// The path of the element `i` below `path`.
pub(crate) fn join_element(path: &Vec<char>, i: usize) -> (r: Vec<char>)
    ensures
        r@ == element_path(path@, i as nat),
{
    let mut out: Vec<char> = Vec::new();
    push_chars(&mut out, path);
    out.push('[');
    let d = format_decimal(i as u64);
    push_chars(&mut out, &d);
    out.push(']');
    proof {
        assert(out@ =~= element_path(path@, i as nat));
    }
    out
}

/// Appends to `out` every string leaf below `j`, with its path.
pub(crate) fn collect_into(j: &Json, path: &Vec<char>, out: &mut Vec<(String, String)>)
    ensures
        leaves_view(final(out)@) == leaves_view(old(out)@) + string_leaves(*j, path@),
    decreases j, 0nat,
{
    match j {
        Json::Str(s) => {
            let ghost before = out@;
            let p = string_of(path);
            out.push((p, s.clone()));
            proof {
                assert(leaves_view(out@) =~= leaves_view(before) + seq![(path@, s@)]);
            }
        },
        Json::Array(a) => {
            let mut i: usize = 0;
            proof {
                assert(leaves_view(out@) + Seq::<(Seq<char>, Seq<char>)>::empty() =~= leaves_view(
                    out@,
                ));
            }
            while i < a.len()
                invariant
                    i <= a.len(),
                    *j == Json::Array(*a),
                    leaves_view(out@) == leaves_view(old(out)@) + element_leaves(
                        a@,
                        path@,
                        i as nat,
                    ),
                decreases a.len() - i,
            {
                let p = join_element(path, i);
                proof {
                    assert(j->Array_0 == *a);
                    assert(decreases_to!(*j => j->Array_0));
                    assert(decreases_to!(*a => a@[i as int]));
                }
                collect_into(&a[i], &p, out);
                proof {
                    assert(leaves_view(out@) =~= leaves_view(old(out)@) + element_leaves(
                        a@,
                        path@,
                        (i + 1) as nat,
                    ));
                }
                i += 1;
            }
        },
        Json::Object(m) => {
            let mut i: usize = 0;
            proof {
                assert(leaves_view(out@) + Seq::<(Seq<char>, Seq<char>)>::empty() =~= leaves_view(
                    out@,
                ));
            }
            while i < m.len()
                invariant
                    i <= m.len(),
                    *j == Json::Object(*m),
                    leaves_view(out@) == leaves_view(old(out)@) + member_leaves(
                        m@,
                        path@,
                        i as nat,
                    ),
                decreases m.len() - i,
            {
                let p = join_member(path, m[i].0.as_str());
                proof {
                    assert(j->Object_0 == *m);
                    assert(decreases_to!(*j => j->Object_0));
                    assert(decreases_to!(*m => m@[i as int]));
                    assert(decreases_to!(m@[i as int] => m@[i as int].1));
                }
                collect_into(&m[i].1, &p, out);
                proof {
                    assert(leaves_view(out@) =~= leaves_view(old(out)@) + member_leaves(
                        m@,
                        path@,
                        (i + 1) as nat,
                    ));
                }
                i += 1;
            }
        },
        _ => {
            proof {
                assert(leaves_view(out@) + Seq::<(Seq<char>, Seq<char>)>::empty() =~= leaves_view(
                    out@,
                ));
            }
        },
    }
}

/// Every string leaf of `json`, with its dotted path (`text.body`,
/// `tags[0]`), in the order of the walk; the values are as they stand in
/// the document.
pub fn collect_strings(json: &Json) -> (r: Vec<(String, String)>)
    ensures
        leaves_view(r@) == string_leaves(*json, Seq::empty()),
{
    let mut out: Vec<(String, String)> = Vec::new();
    let path: Vec<char> = Vec::new();
    collect_into(json, &path, &mut out);
    proof {
        assert(leaves_view(Seq::<(String, String)>::empty()) + string_leaves(*json, path@)
            =~= string_leaves(*json, path@));
    }
    out
}

} // verus!
