//! The stored form of a document: its identifiers and its string fields,
//! normalised, by field name.

use vstd::prelude::*;
use crate::json::{collect_strings, Json, leaves_view, string_leaves};
use crate::normalizer::{normalize, normalized};
use crate::strmap::{
    has_key, index_of_key, keys_sorted, lemma_lookup_at, lemma_rank_bounds, lex_lt, lookup,
    pairs_of, rank, StrMap, upserted,
};

verus! {

/// A document as a segment or the hot buffer holds it.
#[derive(Debug, Clone)]
pub struct StoredDoc {
    /// Identifier local to the segment.
    pub doc_id: u32,
    /// The client's identifier.
    pub ext_id: String,
    /// Normalised text by field name (a dotted path), ordered by name.
    pub fields: StrMap<String>,
}

/// The texts of the values of `pairs`.
pub open spec fn text_pairs(pairs: Seq<(Seq<char>, String)>) -> Seq<(Seq<char>, Seq<char>)> {
    pairs.map_values(|e: (Seq<char>, String)| (e.0, e.1@))
}

/// The map that binding the pairs of `pairs` one after another gives: a
/// later pair replaces an earlier one with the same name.
pub open spec fn folded(pairs: Seq<(Seq<char>, Seq<char>)>) -> Seq<(Seq<char>, Seq<char>)>
    decreases pairs.len(),
{
    if pairs.len() == 0 {
        Seq::empty()
    } else {
        upserted(folded(pairs.drop_last()), pairs.last().0, pairs.last().1)
    }
}

/// The leaves with each value normalised.
pub open spec fn normalized_leaves(leaves: Seq<(Seq<char>, Seq<char>)>) -> Seq<
    (Seq<char>, Seq<char>),
> {
    leaves.map_values(|l: (Seq<char>, Seq<char>)| (l.0, normalized(l.1)))
}

/// The fields that a document with the string leaves `leaves` gets: each
/// leaf's value normalised, under its path; a later leaf replaces an
/// earlier one with the same path.
pub open spec fn indexed_fields(leaves: Seq<(Seq<char>, Seq<char>)>) -> Seq<
    (Seq<char>, Seq<char>),
> {
    folded(normalized_leaves(leaves))
}

/// Normalises the value of every leaf.
pub fn normalize_leaves(leaves: &Vec<(String, String)>) -> (r: Vec<(String, String)>)
    ensures
        leaves_view(r@) == normalized_leaves(leaves_view(leaves@)),
{
    let mut out: Vec<(String, String)> = Vec::new();
    let mut i: usize = 0;
    proof {
        assert(leaves_view(out@) =~= normalized_leaves(leaves_view(leaves@)).take(0));
    }
    while i < leaves.len()
        invariant
            i <= leaves.len(),
            leaves_view(out@) == normalized_leaves(leaves_view(leaves@)).take(i as int),
        decreases leaves.len() - i,
    {
        let value = normalize(leaves[i].1.as_str());
        let ghost before = out@;
        out.push((leaves[i].0.clone(), value));
        proof {
            let want = normalized_leaves(leaves_view(leaves@));
            assert(want[i as int] == (leaves@[i as int].0@, normalized(leaves@[i as int].1@)));
            assert(leaves_view(out@) =~= leaves_view(before).push(want[i as int]));
            assert(want.take(i + 1) =~= want.take(i as int).push(want[i as int]));
        }
        i += 1;
    }
    proof {
        let want = normalized_leaves(leaves_view(leaves@));
        assert(want.take(leaves.len() as int) =~= want);
    }
    out
}

/// The client's identifier in a JSON document: its string member `_id`,
/// or the empty text where it has none.
pub open spec fn ext_id_of(j: Json) -> Seq<char> {
    match j.member("_id"@) {
        Some(v) => match v.text() {
            Some(t) => t,
            None => Seq::empty(),
        },
        None => Seq::empty(),
    }
}

/// Whether the JSON document has a string member `_id`.
pub open spec fn has_ext_id(j: Json) -> bool {
    j.member("_id"@) matches Some(v) && v.text() is Some
}

pub proof fn lemma_rank_text_pairs(pairs: Seq<(Seq<char>, String)>, k: Seq<char>)
    ensures
        rank(text_pairs(pairs), k) == rank(pairs, k),
    decreases pairs.len(),
{
    if pairs.len() > 0 {
        assert(text_pairs(pairs)[0].0 == pairs[0].0);
        if lex_lt(pairs[0].0, k) {
            assert(text_pairs(pairs).drop_first() =~= text_pairs(pairs.drop_first()));
            lemma_rank_text_pairs(pairs.drop_first(), k);
        }
    }
}

/// Binding a key in a map of strings binds it in the map of their texts.
pub proof fn lemma_upserted_text_pairs(pairs: Seq<(Seq<char>, String)>, k: Seq<char>, v: String)
    ensures
        text_pairs(upserted(pairs, k, v)) == upserted(text_pairs(pairs), k, v@),
{
    lemma_rank_text_pairs(pairs, k);
    lemma_rank_bounds(pairs, k);
    let p = rank(pairs, k);
    if p < pairs.len() {
        assert(text_pairs(pairs)[p].0 == pairs[p].0);
    }
    assert(text_pairs(upserted(pairs, k, v)) =~= upserted(text_pairs(pairs), k, v@));
}

impl StoredDoc {
    /// The fields as texts, by increasing field name.
    pub open spec fn texts(&self) -> Seq<(Seq<char>, Seq<char>)> {
        text_pairs(self.fields.pairs())
    }

    /// The text of the field `name`, if the document has it.
    pub open spec fn field_text(&self, name: Seq<char>) -> Option<Seq<char>> {
        lookup(self.texts(), name)
    }

    /// A document with the given identifiers and the fields `pairs`, taken
    /// as they are; a later pair replaces an earlier one of the same name.
    pub fn from_pairs(doc_id: u32, ext_id: String, pairs: &Vec<(String, String)>) -> (r: Self)
        ensures
            r.doc_id == doc_id,
            r.ext_id == ext_id,
            r.texts() == folded(leaves_view(pairs@)),
            keys_sorted(r.texts()),
    {
        let mut fields: StrMap<String> = StrMap::new();
        let mut i: usize = 0;
        proof {
            assert(leaves_view(pairs@).take(0) =~= Seq::<(Seq<char>, Seq<char>)>::empty());
            assert(text_pairs(fields.pairs()) =~= Seq::<(Seq<char>, Seq<char>)>::empty());
        }
        while i < pairs.len()
            invariant
                i <= pairs.len(),
                text_pairs(fields.pairs()) == folded(leaves_view(pairs@).take(i as int)),
                keys_sorted(text_pairs(fields.pairs())),
            decreases pairs.len() - i,
        {
            let ghost before = fields.pairs();
            fields.insert(pairs[i].0.clone(), pairs[i].1.clone());
            proof {
                lemma_upserted_text_pairs(before, pairs@[i as int].0@, pairs@[i as int].1);
                let t = leaves_view(pairs@).take(i + 1);
                assert(t.drop_last() =~= leaves_view(pairs@).take(i as int));
                assert(t.last() == (pairs@[i as int].0@, pairs@[i as int].1@));
                lemma_lookup_text_pairs(fields.pairs(), Seq::empty());
            }
            i += 1;
        }
        proof {
            assert(leaves_view(pairs@).take(pairs.len() as int) =~= leaves_view(pairs@));
        }
        StoredDoc { doc_id, ext_id, fields }
    }

    /// A document with the given identifiers and the fields of `leaves`:
    /// each value normalised under its path, later leaves replacing
    /// earlier ones of the same path.
    pub fn from_leaves(doc_id: u32, ext_id: String, leaves: &Vec<(String, String)>) -> (r: Self)
        ensures
            r.doc_id == doc_id,
            r.ext_id == ext_id,
            r.texts() == indexed_fields(leaves_view(leaves@)),
            keys_sorted(r.texts()),
    {
        let n = normalize_leaves(leaves);
        StoredDoc::from_pairs(doc_id, ext_id, &n)
    }

    /// The stored form of a JSON document: the identifier from its string
    /// member `_id` (empty where it has none), the fields from its string
    /// leaves.
    pub fn from_json(doc_id: u32, json: &Json) -> (r: Self)
        ensures
            r.doc_id == doc_id,
            r.ext_id@ == ext_id_of(*json),
            r.texts() == indexed_fields(string_leaves(*json, Seq::empty())),
            keys_sorted(r.texts()),
    {
        let ext_id = match json.get("_id") {
            Some(v) => match v.as_str() {
                Some(s) => s.to_owned(),
                None => String::new(),
            },
            None => String::new(),
        };
        let leaves = collect_strings(json);
        StoredDoc::from_leaves(doc_id, ext_id, &leaves)
    }

    /// A copy of the document.
    pub fn duplicate(&self) -> (r: Self)
        ensures
            r.doc_id == self.doc_id,
            r.ext_id@ == self.ext_id@,
            r.texts() == self.texts(),
    {
        let fields = self.fields.clone();
        proof {
            let a = self.fields.pairs();
            let b = fields.pairs();
            assert forall|i: int| 0 <= i < a.len() implies text_pairs(a)[i] == text_pairs(b)[i] by {
                assert(b[i].0 == a[i].0);
                assert(cloned::<String>(a[i].1, b[i].1));
            }
            assert(text_pairs(a) =~= text_pairs(b));
        }
        StoredDoc { doc_id: self.doc_id, ext_id: self.ext_id.clone(), fields }
    }

    /// The fields, by increasing field name.
    pub fn entries(&self) -> (r: &Vec<(String, String)>)
        ensures
            pairs_of(r@) == self.fields.pairs(),
            keys_sorted(self.fields.pairs()),
            keys_sorted(self.texts()),
    {
        let r = self.fields.entries();
        proof {
            lemma_lookup_text_pairs(self.fields.pairs(), Seq::empty());
        }
        r
    }

    /// The text of the field `name`, if the document has it.
    pub fn field(&self, name: &str) -> (r: Option<&String>)
        ensures
            match r {
                Some(s) => self.field_text(name@) == Some(s@),
                None => self.field_text(name@) is None,
            },
            keys_sorted(self.texts()),
    {
        let r = self.fields.get(name);
        proof {
            lemma_lookup_text_pairs(self.fields.pairs(), name@);
        }
        r
    }
}

/// Looking a key up among the texts gives the text of what the key maps to.
pub proof fn lemma_lookup_text_pairs(pairs: Seq<(Seq<char>, String)>, k: Seq<char>)
    requires
        keys_sorted(pairs),
    ensures
        keys_sorted(text_pairs(pairs)),
        has_key(text_pairs(pairs), k) == has_key(pairs, k),
        lookup(text_pairs(pairs), k) == match lookup(pairs, k) {
            Some(s) => Some(s@),
            None => None,
        },
{
    let t = text_pairs(pairs);
    assert forall|i: int, j: int| 0 <= i < j < t.len() implies lex_lt(
        #[trigger] t[i].0,
        #[trigger] t[j].0,
    ) by {
        assert(t[i].0 == pairs[i].0 && t[j].0 == pairs[j].0);
    }
    if has_key(pairs, k) {
        let i = index_of_key(pairs, k);
        assert(t[i].0 == k);
        lemma_lookup_at(pairs, i);
        lemma_lookup_at(t, i);
    } else if has_key(t, k) {
        let i = index_of_key(t, k);
        assert(pairs[i].0 == k);
    }
}

} // verus!
