//! What the JSON trees of a textual segment stand for, and how they are
//! read and built: numbers, lists of doc ids by key, documents, the
//! header.

use vstd::prelude::*;
use crate::digits::{format_decimal, lemma_parse_decimal};
use crate::doc::{folded, StoredDoc};
use crate::ingest::hot::{stored_model, StoredModel};
use crate::json::{Json, leaves_view, member_of};
use crate::manifest_ptr::SegmentMetaV1;
use crate::segment::docs::lemma_folded_sorted;
use crate::strmap::keys_sorted;
use crate::text::string_of;

verus! {

/// The number that a tree stands for, where it is an unsigned number of
/// 32 bits.
pub open spec fn tree_u32(j: Json) -> Option<u32> {
    match j.unsigned() {
        Some(n) => if n <= u32::MAX {
            Some(n as u32)
        } else {
            None
        },
        None => None,
    }
}

/// The numbers of the first `n` elements, where each is one.
pub open spec fn ids_in(a: Seq<Json>, n: int) -> Option<Seq<u32>>
    decreases n,
{
    if n <= 0 || n > a.len() {
        Some(Seq::empty())
    } else {
        match (ids_in(a, n - 1), tree_u32(a[n - 1])) {
            (Some(prev), Some(x)) => Some(prev.push(x)),
            _ => None,
        }
    }
}

/// The doc ids that a tree lists: the numbers of an array.
pub open spec fn tree_ids(j: Json) -> Option<Seq<u32>> {
    match j {
        Json::Array(a) => ids_in(a@, a@.len() as int),
        _ => None,
    }
}

/// The keys and lists of the first `n` members.
pub open spec fn lists_in(m: Seq<(String, Json)>, n: int) -> Option<Seq<(Seq<char>, Seq<u32>)>>
    decreases n,
{
    if n <= 0 || n > m.len() {
        Some(Seq::empty())
    } else {
        match (lists_in(m, n - 1), tree_ids(m[n - 1].1)) {
            (Some(prev), Some(ids)) => Some(prev.push((m[n - 1].0@, ids))),
            _ => None,
        }
    }
}

/// The lists of doc ids by key that a tree holds: the members of an
/// object, each an array of numbers, in the order of the object.
pub open spec fn tree_lists(j: Json) -> Option<Seq<(Seq<char>, Seq<u32>)>> {
    match j {
        Json::Object(m) => lists_in(m@, m@.len() as int),
        _ => None,
    }
}

/// The keys and texts of the first `n` members.
pub open spec fn strings_in(m: Seq<(String, Json)>, n: int) -> Option<Seq<(Seq<char>, Seq<char>)>>
    decreases n,
{
    if n <= 0 || n > m.len() {
        Some(Seq::empty())
    } else {
        match (strings_in(m, n - 1), m[n - 1].1.text()) {
            (Some(prev), Some(t)) => Some(prev.push((m[n - 1].0@, t))),
            _ => None,
        }
    }
}

/// The texts by key that a tree holds: the members of an object, each a
/// string, in the order of the object.
pub open spec fn tree_strings(j: Json) -> Option<Seq<(Seq<char>, Seq<char>)>> {
    match j {
        Json::Object(m) => strings_in(m@, m@.len() as int),
        _ => None,
    }
}

/// The document that a tree stands for: an object with the number
/// `doc_id`, the string `ext_id` and the object of strings `fields`; of
/// fields with the same name the last stays.
pub open spec fn tree_doc(j: Json) -> Option<StoredModel> {
    match (j.member("doc_id"@), j.member("ext_id"@), j.member("fields"@)) {
        (Some(a), Some(b), Some(c)) => match (tree_u32(a), b.text(), tree_strings(c)) {
            (Some(id), Some(ext), Some(fs)) => Some(
                StoredModel { doc_id: id, ext_id: ext, texts: folded(fs) },
            ),
            _ => None,
        },
        _ => None,
    }
}

/// The header that a tree stands for: an object with the numbers
/// `version`, `doc_count` and `gram_count`.
pub open spec fn tree_meta(j: Json) -> Option<SegmentMetaV1> {
    match (j.member("version"@), j.member("doc_count"@), j.member("gram_count"@)) {
        (Some(a), Some(b), Some(c)) => match (tree_u32(a), tree_u32(b), tree_u32(c)) {
            (Some(version), Some(doc_count), Some(gram_count)) => Some(
                SegmentMetaV1 { version, doc_count, gram_count },
            ),
            _ => None,
        },
        _ => None,
    }
}

/// Reads an unsigned number of 32 bits.
pub fn read_u32(j: &Json) -> (r: Option<u32>)
    ensures
        r == tree_u32(*j),
{
    match j.as_u64() {
        Some(n) => if n <= 0xFFFF_FFFF {
            Some(n as u32)
        } else {
            None
        },
        None => None,
    }
}

/// Reads a list of doc ids.
pub fn read_ids(j: &Json) -> (r: Option<Vec<u32>>)
    ensures
        match r {
            Some(v) => tree_ids(*j) == Some(v@),
            None => tree_ids(*j) is None,
        },
{
    match j {
        Json::Array(a) => {
            let mut out: Vec<u32> = Vec::new();
            let mut i: usize = 0;
            while i < a.len()
                invariant
                    i <= a.len(),
                    *j == Json::Array(*a),
                    ids_in(a@, i as int) == Some(out@),
                decreases a.len() - i,
            {
                match read_u32(&a[i]) {
                    Some(x) => {
                        out.push(x);
                    },
                    None => {
                        proof {
                            lemma_ids_none(a@, i + 1, a@.len() as int);
                        }
                        return None;
                    },
                }
                i += 1;
            }
            Some(out)
        },
        _ => None,
    }
}

proof fn lemma_ids_none(a: Seq<Json>, k: int, n: int)
    requires
        0 <= k <= n <= a.len(),
        ids_in(a, k) is None,
    ensures
        ids_in(a, n) is None,
    decreases n - k,
{
    if k < n {
        lemma_ids_none(a, k, n - 1);
    }
}

proof fn lemma_lists_none(m: Seq<(String, Json)>, k: int, n: int)
    requires
        0 <= k <= n <= m.len(),
        lists_in(m, k) is None,
    ensures
        lists_in(m, n) is None,
    decreases n - k,
{
    if k < n {
        lemma_lists_none(m, k, n - 1);
    }
}

proof fn lemma_strings_none(m: Seq<(String, Json)>, k: int, n: int)
    requires
        0 <= k <= n <= m.len(),
        strings_in(m, k) is None,
    ensures
        strings_in(m, n) is None,
    decreases n - k,
{
    if k < n {
        lemma_strings_none(m, k, n - 1);
    }
}

/// The keys and lists of entries as texts and sequences.
pub open spec fn lists_view(v: Seq<(String, Vec<u32>)>) -> Seq<(Seq<char>, Seq<u32>)> {
    v.map_values(|e: (String, Vec<u32>)| (e.0@, e.1@))
}

/// Reads lists of doc ids by key.
pub fn read_lists(j: &Json) -> (r: Option<Vec<(String, Vec<u32>)>>)
    ensures
        match r {
            Some(v) => tree_lists(*j) == Some(lists_view(v@)),
            None => tree_lists(*j) is None,
        },
{
    match j {
        Json::Object(m) => {
            let mut out: Vec<(String, Vec<u32>)> = Vec::new();
            let mut i: usize = 0;
            proof {
                assert(lists_view(out@) =~= Seq::<(Seq<char>, Seq<u32>)>::empty());
            }
            while i < m.len()
                invariant
                    i <= m.len(),
                    *j == Json::Object(*m),
                    lists_in(m@, i as int) == Some(lists_view(out@)),
                decreases m.len() - i,
            {
                match read_ids(&m[i].1) {
                    Some(ids) => {
                        let ghost before = out@;
                        out.push((m[i].0.clone(), ids));
                        proof {
                            assert(lists_view(out@) =~= lists_view(before).push(
                                (m@[i as int].0@, ids@),
                            ));
                        }
                    },
                    None => {
                        proof {
                            lemma_lists_none(m@, i + 1, m@.len() as int);
                        }
                        return None;
                    },
                }
                i += 1;
            }
            Some(out)
        },
        _ => None,
    }
}

/// Reads texts by key.
pub fn read_strings(j: &Json) -> (r: Option<Vec<(String, String)>>)
    ensures
        match r {
            Some(v) => tree_strings(*j) == Some(leaves_view(v@)),
            None => tree_strings(*j) is None,
        },
{
    match j {
        Json::Object(m) => {
            let mut out: Vec<(String, String)> = Vec::new();
            let mut i: usize = 0;
            proof {
                assert(leaves_view(out@) =~= Seq::<(Seq<char>, Seq<char>)>::empty());
            }
            while i < m.len()
                invariant
                    i <= m.len(),
                    *j == Json::Object(*m),
                    strings_in(m@, i as int) == Some(leaves_view(out@)),
                decreases m.len() - i,
            {
                match m[i].1.as_str() {
                    Some(t) => {
                        let ghost before = out@;
                        out.push((m[i].0.clone(), t.to_owned()));
                        proof {
                            assert(leaves_view(out@) =~= leaves_view(before).push(
                                (m@[i as int].0@, t@),
                            ));
                        }
                    },
                    None => {
                        proof {
                            lemma_strings_none(m@, i + 1, m@.len() as int);
                        }
                        return None;
                    },
                }
                i += 1;
            }
            Some(out)
        },
        _ => None,
    }
}

/// Reads a document.
pub fn read_doc(j: &Json) -> (r: Option<StoredDoc>)
    ensures
        match r {
            Some(d) => tree_doc(*j) == Some(stored_model(d)) && keys_sorted(d.texts()),
            None => tree_doc(*j) is None,
        },
{
    let id = match j.get("doc_id") {
        Some(a) => read_u32(a),
        None => {
            return None;
        },
    };
    let ext = match j.get("ext_id") {
        Some(b) => match b.as_str() {
            Some(s) => Some(s.to_owned()),
            None => None,
        },
        None => {
            return None;
        },
    };
    let fields = match j.get("fields") {
        Some(c) => read_strings(c),
        None => {
            return None;
        },
    };
    match (id, ext, fields) {
        (Some(id), Some(ext), Some(fs)) => Some(StoredDoc::from_pairs(id, ext, &fs)),
        _ => None,
    }
}

/// Reads a header.
pub fn read_meta(j: &Json) -> (r: Option<SegmentMetaV1>)
    ensures
        r == tree_meta(*j),
{
    let version = match j.get("version") {
        Some(a) => read_u32(a),
        None => {
            return None;
        },
    };
    let doc_count = match j.get("doc_count") {
        Some(a) => read_u32(a),
        None => {
            return None;
        },
    };
    let gram_count = match j.get("gram_count") {
        Some(a) => read_u32(a),
        None => {
            return None;
        },
    };
    match (version, doc_count, gram_count) {
        (Some(version), Some(doc_count), Some(gram_count)) => Some(
            SegmentMetaV1 { version, doc_count, gram_count },
        ),
        _ => None,
    }
}

/// The tree of a number.
pub fn number_tree(x: u32) -> (j: Json)
    ensures
        tree_u32(j) == Some(x),
{
    let d = format_decimal(x as u64);
    proof {
        lemma_parse_decimal(x as u64);
    }
    Json::Number(string_of(&d))
}

/// The tree of a list of doc ids.
pub fn ids_tree(ids: &Vec<u32>) -> (j: Json)
    ensures
        tree_ids(j) == Some(ids@),
{
    let mut a: Vec<Json> = Vec::new();
    let mut i: usize = 0;
    while i < ids.len()
        invariant
            i <= ids.len(),
            a@.len() == i,
            ids_in(a@, i as int) == Some(ids@.take(i as int)),
        decreases ids.len() - i,
    {
        let ghost before = a@;
        a.push(number_tree(ids[i]));
        proof {
            lemma_ids_prefix(before, a@, i as int);
            assert(ids@.take(i + 1) =~= ids@.take(i as int).push(ids@[i as int]));
        }
        i += 1;
    }
    proof {
        assert(ids@.take(ids.len() as int) =~= ids@);
    }
    Json::Array(a)
}

/// What the first `n` elements stand for does not depend on what follows.
proof fn lemma_ids_prefix(a: Seq<Json>, b: Seq<Json>, n: int)
    requires
        0 <= n <= a.len() <= b.len(),
        forall|i: int| 0 <= i < n ==> a[i] == b[i],
    ensures
        ids_in(a, n) == ids_in(b, n),
    decreases n,
{
    if n > 0 {
        lemma_ids_prefix(a, b, n - 1);
    }
}

proof fn lemma_lists_prefix(a: Seq<(String, Json)>, b: Seq<(String, Json)>, n: int)
    requires
        0 <= n <= a.len() <= b.len(),
        forall|i: int| 0 <= i < n ==> a[i] == b[i],
    ensures
        lists_in(a, n) == lists_in(b, n),
    decreases n,
{
    if n > 0 {
        lemma_lists_prefix(a, b, n - 1);
    }
}

proof fn lemma_strings_prefix(a: Seq<(String, Json)>, b: Seq<(String, Json)>, n: int)
    requires
        0 <= n <= a.len() <= b.len(),
        forall|i: int| 0 <= i < n ==> a[i] == b[i],
    ensures
        strings_in(a, n) == strings_in(b, n),
    decreases n,
{
    if n > 0 {
        lemma_strings_prefix(a, b, n - 1);
    }
}

/// The tree of lists of doc ids by key.
pub fn lists_tree(lists: &Vec<(String, Vec<u32>)>) -> (j: Json)
    ensures
        tree_lists(j) == Some(lists_view(lists@)),
{
    let mut m: Vec<(String, Json)> = Vec::new();
    let mut i: usize = 0;
    while i < lists.len()
        invariant
            i <= lists.len(),
            m@.len() == i,
            lists_in(m@, i as int) == Some(lists_view(lists@).take(i as int)),
        decreases lists.len() - i,
    {
        let ghost before = m@;
        m.push((lists[i].0.clone(), ids_tree(&lists[i].1)));
        proof {
            lemma_lists_prefix(before, m@, i as int);
            assert(lists_view(lists@).take(i + 1) =~= lists_view(lists@).take(i as int).push(
                (lists@[i as int].0@, lists@[i as int].1@),
            ));
        }
        i += 1;
    }
    proof {
        assert(lists_view(lists@).take(lists.len() as int) =~= lists_view(lists@));
    }
    Json::Object(m)
}

/// The tree of texts by key.
pub fn strings_tree(entries: &Vec<(String, String)>) -> (j: Json)
    ensures
        tree_strings(j) == Some(leaves_view(entries@)),
{
    let mut m: Vec<(String, Json)> = Vec::new();
    let mut i: usize = 0;
    while i < entries.len()
        invariant
            i <= entries.len(),
            m@.len() == i,
            strings_in(m@, i as int) == Some(leaves_view(entries@).take(i as int)),
        decreases entries.len() - i,
    {
        let ghost before = m@;
        m.push((entries[i].0.clone(), Json::Str(entries[i].1.clone())));
        proof {
            lemma_strings_prefix(before, m@, i as int);
            assert(leaves_view(entries@).take(i + 1) =~= leaves_view(entries@).take(
                i as int,
            ).push((entries@[i as int].0@, entries@[i as int].1@)));
        }
        i += 1;
    }
    proof {
        assert(leaves_view(entries@).take(entries.len() as int) =~= leaves_view(entries@));
    }
    Json::Object(m)
}

/// The tree of a document.
pub fn doc_tree(doc: &StoredDoc) -> (j: Json)
    ensures
        tree_doc(j) == Some(stored_model(*doc)),
{
    let entries = doc.entries();
    let fields = strings_tree(entries);
    let id = number_tree(doc.doc_id);
    let mut m: Vec<(String, Json)> = Vec::new();
    m.push(("doc_id".to_owned(), id));
    m.push(("ext_id".to_owned(), Json::Str(doc.ext_id.clone())));
    m.push(("fields".to_owned(), fields));
    proof {
        reveal_strlit("doc_id");
        reveal_strlit("ext_id");
        reveal_strlit("fields");
        assert("doc_id"@ != "ext_id"@) by {
            assert("doc_id"@[0] != "ext_id"@[0]);
        }
        assert("doc_id"@ != "fields"@) by {
            assert("doc_id"@[0] != "fields"@[0]);
        }
        assert("ext_id"@ != "fields"@) by {
            assert("ext_id"@[0] != "fields"@[0]);
        }
        let s = m@;
        assert(s.drop_first().drop_first().drop_first() =~= Seq::<(String, Json)>::empty());
        assert(s.drop_first()[0] == s[1]);
        assert(s.drop_first().drop_first()[0] == s[2]);
        reveal_with_fuel(member_of, 4);
        assert(member_of(s, "doc_id"@) == Some(s[0].1));
        assert(member_of(s, "ext_id"@) == Some(s[1].1));
        assert(member_of(s, "fields"@) == Some(s[2].1));
        assert(leaves_view(entries@) =~= doc.texts());
        lemma_folded_sorted(doc.texts(), doc.texts().len() as int);
        assert(doc.texts().take(doc.texts().len() as int) =~= doc.texts());
    }
    Json::Object(m)
}

/// The tree of a header.
pub fn meta_tree(meta: &SegmentMetaV1) -> (j: Json)
    ensures
        tree_meta(j) == Some(*meta),
{
    let mut m: Vec<(String, Json)> = Vec::new();
    m.push(("version".to_owned(), number_tree(meta.version)));
    m.push(("doc_count".to_owned(), number_tree(meta.doc_count)));
    m.push(("gram_count".to_owned(), number_tree(meta.gram_count)));
    proof {
        reveal_strlit("version");
        reveal_strlit("doc_count");
        reveal_strlit("gram_count");
        assert("version"@ != "doc_count"@) by {
            assert("version"@[0] != "doc_count"@[0]);
        }
        assert("version"@ != "gram_count"@) by {
            assert("version"@[0] != "gram_count"@[0]);
        }
        assert("doc_count"@ != "gram_count"@) by {
            assert("doc_count"@[0] != "gram_count"@[0]);
        }
        let s = m@;
        assert(s.drop_first().drop_first().drop_first() =~= Seq::<(String, Json)>::empty());
        assert(s.drop_first()[0] == s[1]);
        assert(s.drop_first().drop_first()[0] == s[2]);
        reveal_with_fuel(member_of, 4);
        assert(member_of(s, "version"@) == Some(s[0].1));
        assert(member_of(s, "doc_count"@) == Some(s[1].1));
        assert(member_of(s, "gram_count"@) == Some(s[2].1));
    }
    Json::Object(m)
}

} // verus!
