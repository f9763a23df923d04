//! The writer of textual segments.

use vstd::prelude::*;
use crate::bitmap::strictly_increasing;
use crate::doc::{ext_id_of, folded, normalize_leaves, normalized_leaves, StoredDoc};
use crate::gram::{strings_view, trigram_windows};
use crate::index::{has_docs, InvertedIndex, stands_in};
use crate::ingest::hot::StoredModel;
use crate::ingest::wal::batch_lines;
use crate::json::{collect_strings, Json, json_parsed, json_rendered, leaves_view, string_leaves};
use crate::manifest_ptr::SegmentMetaV1;
use crate::segjson::tree::{
    doc_tree, lists_tree, lists_view, meta_tree, tree_doc, tree_lists, tree_meta,
};
use crate::segment::error::SegmentError;
use crate::segment::input::{InputModel, is_blank, line_is_blank, lines_of, split_lines};
use crate::segment::writer::{has_leaf, mask_of};
use crate::strmap::keys_sorted;
use crate::text::{chars_of, push_chars, string_of};

verus! {

/// The four texts of a textual segment.
#[derive(Debug)]
pub struct JsonSegmentImage {
    /// `meta.json`: the header.
    pub meta_json: String,
    /// `grams.json`: for every trigram the doc ids that hold it.
    pub grams_json: String,
    /// `field_masks.json`: for every field the doc ids that have it. Old
    /// segments have none.
    pub field_masks_json: Option<String>,
    /// `docs.jsonl`: one document per line.
    pub docs_jsonl: String,
}

/// The writer of textual segments.
#[derive(Debug, Clone, Copy)]
pub struct JsonSegmentWriter;

impl Default for JsonSegmentWriter {
    fn default() -> (r: Self) {
        JsonSegmentWriter
    }
}

/// What the first `n` lines hold for a textual segment: the documents of
/// the lines that are not blank, a document without a string member
/// `_id` having the empty external id; or the first line that is no JSON
/// value.
pub open spec fn json_input_of(lines: Seq<Seq<char>>, n: int) -> Result<
    Seq<InputModel>,
    SegmentError,
>
    decreases n,
{
    if n <= 0 || n > lines.len() {
        Ok(Seq::empty())
    } else {
        match json_input_of(lines, n - 1) {
            Err(e) => Err(e),
            Ok(prev) => {
                let l = lines[n - 1];
                if is_blank(l) {
                    Ok(prev)
                } else {
                    match json_parsed(l) {
                        None => Err(SegmentError::BadJson { line: (n - 1) as usize }),
                        Some(j) => Ok(
                            prev.push(
                                InputModel {
                                    ext_id: ext_id_of(j),
                                    leaves: normalized_leaves(string_leaves(j, Seq::empty())),
                                },
                            ),
                        ),
                    }
                }
            },
        }
    }
}

/// Once a line is refused, reading further lines does not change that.
pub proof fn lemma_json_input_error_stays(lines: Seq<Seq<char>>, k: int, n: int)
    requires
        0 <= k <= n <= lines.len(),
        json_input_of(lines, k) is Err,
    ensures
        json_input_of(lines, n) == json_input_of(lines, k),
    decreases n - k,
{
    if k < n {
        lemma_json_input_error_stays(lines, k, n - 1);
    }
}

/// The documents that hold the trigram in one of their field values.
pub open spec fn gram_docs(docs: Seq<InputModel>, gram: Seq<char>) -> Set<u32> {
    Set::new(
        |d: u32|
            d < docs.len() && stands_in(
                docs[d as int].leaves,
                gram,
                docs[d as int].leaves.len() as int,
            ),
    )
}

/// Whether the lists give, for every key they have, the documents of the
/// key in doc id order, and have every key that has documents.
pub open spec fn lists_hold(
    lists: Seq<(Seq<char>, Seq<u32>)>,
    sets: spec_fn(Seq<char>) -> Set<u32>,
) -> bool {
    &&& keys_sorted(lists)
    &&& forall|i: int|
        0 <= i < lists.len() ==> strictly_increasing((#[trigger] lists[i]).1) && (forall|x: u32|
            lists[i].1.contains(x) <==> sets(lists[i].0).contains(x))
    &&& forall|key: Seq<char>, x: u32|
        #![trigger sets(key).contains(x)]
        sets(key).contains(x) ==> crate::strmap::has_key(lists, key)
}

/// The documents of every trigram.
pub open spec fn gram_sets(docs: Seq<InputModel>) -> spec_fn(Seq<char>) -> Set<u32> {
    |g: Seq<char>| gram_docs(docs, g)
}

/// The documents of every field.
pub open spec fn field_sets(docs: Seq<InputModel>) -> spec_fn(Seq<char>) -> Set<u32> {
    |f: Seq<char>| mask_of(docs, f)
}

/// Whether the texts are a textual segment of the documents, with the
/// trees `mt`, `gt`, `ft` and `dts` as what they render.
pub open spec fn json_image_holds_with(
    img: JsonSegmentImage,
    docs: Seq<InputModel>,
    mt: Json,
    gt: Json,
    ft: Json,
    dts: Seq<Json>,
) -> bool {
    &&& img.meta_json@ == json_rendered(mt)
    &&& img.grams_json@ == json_rendered(gt)
    &&& img.field_masks_json matches Some(text) && text@ == json_rendered(ft)
    &&& img.docs_jsonl@ == batch_lines(dts, dts.len() as int)
    &&& tree_lists(gt) matches Some(lists) && lists_hold(lists, gram_sets(docs)) && tree_meta(mt)
        == Some(
        SegmentMetaV1 {
            version: 1,
            doc_count: docs.len() as u32,
            gram_count: lists.len() as u32,
        },
    ) && lists.len() <= u32::MAX
    &&& tree_lists(ft) matches Some(masks) && lists_hold(masks, field_sets(docs))
    &&& docs.len() <= u32::MAX
    &&& dts.len() == docs.len()
    &&& forall|d: int|
        0 <= d < docs.len() ==> tree_doc(#[trigger] dts[d]) == Some(
            StoredModel { doc_id: d as u32, ext_id: docs[d].ext_id, texts: folded(docs[d].leaves) },
        )
}

/// Whether the texts are a textual segment of the documents: the header
/// counts them and the trigrams, the index lists for every trigram the
/// documents that hold it, the masks list for every field the documents
/// that have it, and the lines hold the documents, in the order and with
/// the doc ids of the input.
pub open spec fn json_image_holds(img: JsonSegmentImage, docs: Seq<InputModel>) -> bool {
    exists|mt: Json, gt: Json, ft: Json, dts: Seq<Json>|
        json_image_holds_with(img, docs, mt, gt, ft, dts)
}

/// Puts the document under every trigram of every leaf.
pub(crate) fn index_texts(inv: &mut InvertedIndex, id: u32, leaves: &Vec<(String, String)>)
    requires
        old(inv).wf(),
    ensures
        final(inv).wf(),
        old(inv).every_key_has_docs() ==> final(inv).every_key_has_docs(),
        forall|g: Seq<char>|
            final(inv).docs_with(g) == (if stands_in(
                leaves_view(leaves@),
                g,
                leaves@.len() as int,
            ) {
                old(inv).docs_with(g).insert(id)
            } else {
                old(inv).docs_with(g)
            }),
{
    let ghost nl = leaves_view(leaves@);
    let mut i: usize = 0;
    proof {
        assert forall|g: Seq<char>| !stands_in(nl, g, 0) by {}
    }
    while i < leaves.len()
        invariant
            i <= leaves.len(),
            inv.wf(),
            nl == leaves_view(leaves@),
            old(inv).every_key_has_docs() ==> inv.every_key_has_docs(),
            forall|g: Seq<char>|
                inv.docs_with(g) == (if stands_in(nl, g, i as int) {
                    old(inv).docs_with(g).insert(id)
                } else {
                    old(inv).docs_with(g)
                }),
        decreases leaves.len() - i,
    {
        inv.add_text(id, leaves[i].1.as_str());
        proof {
            let t = leaves@[i as int].1@;
            assert(nl[i as int].1 == t);
            assert forall|g: Seq<char>| inv.docs_with(g) == (if stands_in(nl, g, i + 1) {
                old(inv).docs_with(g).insert(id)
            } else {
                old(inv).docs_with(g)
            }) by {
                if stands_in(nl, g, i as int) {
                    let l = choose|l: int|
                        0 <= l < i && l < nl.len() && trigram_windows((#[trigger] nl[l]).1).contains(
                            g,
                        );
                    assert(trigram_windows(nl[l].1).contains(g));
                    assert(stands_in(nl, g, i + 1));
                }
                if trigram_windows(t).contains(g) {
                    assert(trigram_windows(nl[i as int].1).contains(g));
                    assert(stands_in(nl, g, i + 1));
                }
                if stands_in(nl, g, i + 1) {
                    let l = choose|l: int|
                        0 <= l < i + 1 && l < nl.len() && trigram_windows(
                            (#[trigger] nl[l]).1,
                        ).contains(g);
                    if l < i {
                        assert(trigram_windows(nl[l].1).contains(g));
                        assert(stands_in(nl, g, i as int));
                    }
                }
                assert(old(inv).docs_with(g).insert(id).insert(id) =~= old(inv).docs_with(
                    g,
                ).insert(id));
            }
        }
        i += 1;
    }
}

/// Whether one of the first `n` leaves has the path `name`.
pub open spec fn named_in(leaves: Seq<(Seq<char>, Seq<char>)>, name: Seq<char>, n: int) -> bool {
    exists|l: int| 0 <= l < n && l < leaves.len() && (#[trigger] leaves[l]).0 == name
}

/// Puts the document under the path of every leaf.
pub(crate) fn index_names(inv: &mut InvertedIndex, id: u32, leaves: &Vec<(String, String)>)
    requires
        old(inv).wf(),
    ensures
        final(inv).wf(),
        forall|f: Seq<char>|
            final(inv).docs_with(f) == (if named_in(leaves_view(leaves@), f, leaves@.len() as int) {
                old(inv).docs_with(f).insert(id)
            } else {
                old(inv).docs_with(f)
            }),
{
    let ghost nl = leaves_view(leaves@);
    let mut i: usize = 0;
    proof {
        assert forall|f: Seq<char>| !named_in(nl, f, 0) by {}
    }
    while i < leaves.len()
        invariant
            i <= leaves.len(),
            inv.wf(),
            nl == leaves_view(leaves@),
            forall|f: Seq<char>|
                inv.docs_with(f) == (if named_in(nl, f, i as int) {
                    old(inv).docs_with(f).insert(id)
                } else {
                    old(inv).docs_with(f)
                }),
        decreases leaves.len() - i,
    {
        inv.add_key(id, leaves[i].0.as_str());
        proof {
            let name = leaves@[i as int].0@;
            assert(nl[i as int].0 == name);
            assert forall|f: Seq<char>| inv.docs_with(f) == (if named_in(nl, f, i + 1) {
                old(inv).docs_with(f).insert(id)
            } else {
                old(inv).docs_with(f)
            }) by {
                if named_in(nl, f, i as int) {
                    let l = choose|l: int| 0 <= l < i && l < nl.len() && (#[trigger] nl[l]).0 == f;
                    assert(nl[l].0 == f);
                    assert(named_in(nl, f, i + 1));
                }
                if f == name {
                    assert(nl[i as int].0 == f);
                    assert(named_in(nl, f, i + 1));
                }
                if named_in(nl, f, i + 1) {
                    let l = choose|l: int|
                        0 <= l < i + 1 && l < nl.len() && (#[trigger] nl[l]).0 == f;
                    if l < i {
                        assert(nl[l].0 == f);
                        assert(named_in(nl, f, i as int));
                    }
                }
                assert(old(inv).docs_with(f).insert(id).insert(id) =~= old(inv).docs_with(
                    f,
                ).insert(id));
            }
        }
        i += 1;
    }
}

/// The lists of an index hold its sets.
proof fn lemma_dump_holds(
    inv: InvertedIndex,
    lists: Seq<(Seq<char>, Seq<u32>)>,
    sets: spec_fn(Seq<char>) -> Set<u32>,
)
    requires
        forall|g: Seq<char>| inv.docs_with(g) == #[trigger] sets(g),
        keys_sorted(inv.gram_slots.pairs()),
        lists.len() == inv.gram_slots.pairs().len(),
        forall|i: int|
            0 <= i < lists.len() ==> (#[trigger] lists[i]).0 == inv.gram_slots.pairs()[i].0
                && strictly_increasing(lists[i].1) && (forall|x: u32|
                lists[i].1.contains(x) <==> inv.docs_with(lists[i].0).contains(x)),
    ensures
        lists_hold(lists, sets),
{
    let slots = inv.gram_slots.pairs();
    assert forall|i: int, j: int| 0 <= i < j < lists.len() implies crate::strmap::lex_lt(
        #[trigger] lists[i].0,
        #[trigger] lists[j].0,
    ) by {
        assert(lists[i].0 == slots[i].0 && lists[j].0 == slots[j].0);
    }
    assert forall|i: int| 0 <= i < lists.len() implies strictly_increasing((#[trigger] lists[i]).1)
        && (forall|x: u32| lists[i].1.contains(x) <==> sets(lists[i].0).contains(x)) by {
        assert(inv.docs_with(lists[i].0) == sets(lists[i].0));
    }
    assert forall|key: Seq<char>, x: u32|
        #![trigger sets(key).contains(x)]
        sets(key).contains(x) implies crate::strmap::has_key(lists, key) by {
        assert(inv.docs_with(key) == sets(key));
        assert(crate::strmap::has_key(slots, key));
        let i = crate::strmap::index_of_key(slots, key);
        assert(lists[i].0 == key);
    }
}

/// Whether the lists are the index of the sets: they give, in key
/// order, exactly the keys that have documents, each with its documents
/// in doc id order.
pub open spec fn lists_index(
    lists: Seq<(Seq<char>, Seq<u32>)>,
    sets: spec_fn(Seq<char>) -> Set<u32>,
) -> bool {
    &&& lists_hold(lists, sets)
    &&& forall|i: int| 0 <= i < lists.len() ==> has_docs(sets((#[trigger] lists[i]).0))
}

/// Whether the documents can be written as one textual segment: there
/// are no more of them than a doc id of 32 bits can number, and no more
/// trigrams in their field values than the count of the header, of 32
/// bits too, can say.
pub open spec fn json_writable(docs: Seq<InputModel>) -> bool {
    &&& docs.len() <= u32::MAX
    &&& forall|lists: Seq<(Seq<char>, Seq<u32>)>| #[trigger]
        lists_index(lists, gram_sets(docs)) ==> lists.len() <= u32::MAX
}

/// An input without documents can be written.
pub proof fn lemma_no_documents_are_json_writable()
    ensures
        json_writable(Seq::<InputModel>::empty()),
{
    let docs = Seq::<InputModel>::empty();
    assert forall|lists: Seq<(Seq<char>, Seq<u32>)>| #[trigger]
        lists_index(lists, gram_sets(docs)) implies lists.len() <= u32::MAX by {
        if lists.len() > 0 {
            let s = gram_sets(docs)(lists[0].0);
            assert(has_docs(s));
            let x = choose|x: u32| s.contains(x);
            assert(gram_docs(docs, lists[0].0).contains(x));
        }
    }
}

impl JsonSegmentWriter {
    /// Builds a textual segment from a text of one JSON document per line.
    ///
    /// Blank lines are skipped. Every other line must be a JSON value;
    /// the first that is not ends the work with `BadJson`. Each document
    /// gets the next doc id from zero, and the empty external id where
    /// it has no string member `_id`. Documents that can be written are
    /// written; `TooLarge` is returned only where a count leaves 32
    /// bits: see `json_writable`.
    pub fn write_segment(&mut self, input_jsonl: &str) -> (r: Result<JsonSegmentImage, SegmentError>)
        ensures
            match r {
                Ok(img) => match json_input_of(
                    lines_of(input_jsonl@),
                    lines_of(input_jsonl@).len() as int,
                ) {
                    Ok(docs) => json_image_holds(img, docs),
                    Err(_) => false,
                },
                Err(e) => match json_input_of(
                    lines_of(input_jsonl@),
                    lines_of(input_jsonl@).len() as int,
                ) {
                    Ok(docs) => e == SegmentError::TooLarge && !json_writable(docs),
                    Err(e2) => e == e2,
                },
            },
    {
        let lines = split_lines(input_jsonl);
        let ghost ls = lines_of(input_jsonl@);
        let mut grams = InvertedIndex::new();
        let mut masks = InvertedIndex::new();
        let mut trees: Vec<Json> = Vec::new();
        let mut text: Vec<char> = Vec::new();
        let ghost mut docs: Seq<InputModel> = Seq::empty();
        let mut count: u32 = 0;
        let mut too_many = false;
        let mut i: usize = 0;
        proof {
            assert(ls.len() == lines.len());
            assert forall|g: Seq<char>| grams.docs_with(g) == gram_docs(docs, g) by {
                assert(gram_docs(docs, g) =~= Set::<u32>::empty());
            }
            assert forall|f: Seq<char>| masks.docs_with(f) == mask_of(docs, f) by {
                assert(mask_of(docs, f) =~= Set::<u32>::empty());
            }
        }
        while i < lines.len()
            invariant
                i <= lines.len(),
                ls == strings_view(lines@),
                ls == lines_of(input_jsonl@),
                ls.len() == lines.len(),
                grams.wf(),
                masks.wf(),
                grams.every_key_has_docs(),
                json_input_of(ls, i as int) == Ok::<_, SegmentError>(docs),
                !too_many ==> count == docs.len(),
                too_many ==> docs.len() > u32::MAX,
                !too_many ==> trees@.len() == docs.len(),
                !too_many ==> text@ == batch_lines(trees@, trees@.len() as int),
                !too_many ==> forall|d: int|
                    0 <= d < docs.len() ==> tree_doc(#[trigger] trees@[d]) == Some(
                        StoredModel {
                            doc_id: d as u32,
                            ext_id: docs[d].ext_id,
                            texts: folded(docs[d].leaves),
                        },
                    ),
                !too_many ==> forall|g: Seq<char>| grams.docs_with(g) == gram_docs(docs, g),
                !too_many ==> forall|f: Seq<char>| masks.docs_with(f) == mask_of(docs, f),
            decreases lines.len() - i,
        {
            proof {
                assert(ls[i as int] == lines@[i as int]@);
            }
            if !line_is_blank(lines[i].as_str()) {
                match Json::parse(lines[i].as_str()) {
                    None => {
                        proof {
                            lemma_json_input_error_stays(ls, i + 1, lines.len() as int);
                        }
                        return Err(SegmentError::BadJson { line: i });
                    },
                    Some(j) => {
                        let ghost model = InputModel {
                            ext_id: ext_id_of(j),
                            leaves: normalized_leaves(string_leaves(j, Seq::empty())),
                        };
                        let ghost before = docs;
                        if too_many || count == 0xFFFF_FFFF {
                            too_many = true;
                            proof {
                                docs = docs.push(model);
                            }
                        } else {
                            let ext: String = match j.get("_id") {
                                Some(v) => match v.as_str() {
                                    Some(s) => s.to_owned(),
                                    None => String::new(),
                                },
                                None => String::new(),
                            };
                            let raw = collect_strings(&j);
                            let leaves = normalize_leaves(&raw);
                            let ghost g0 = grams;
                            let ghost m0 = masks;
                            index_texts(&mut grams, count, &leaves);
                            index_names(&mut masks, count, &leaves);
                            let doc = StoredDoc::from_pairs(count, ext, &leaves);
                            let t = doc_tree(&doc);
                            let line = t.render();
                            let lc = chars_of(line.as_str());
                            let ghost tb = trees@;
                            let ghost xb = text@;
                            push_chars(&mut text, &lc);
                            text.push('\n');
                            trees.push(t);
                            proof {
                                docs = docs.push(model);
                                assert(text@ =~= xb + json_rendered(t).push('\n'));
                                lemma_batch_prefix(tb, trees@, tb.len() as int);
                                assert forall|d: int| 0 <= d < docs.len() implies tree_doc(
                                    #[trigger] trees@[d],
                                ) == Some(
                                    StoredModel {
                                        doc_id: d as u32,
                                        ext_id: docs[d].ext_id,
                                        texts: folded(docs[d].leaves),
                                    },
                                ) by {
                                    if d < before.len() {
                                        assert(trees@[d] == tb[d]);
                                        assert(docs[d] == before[d]);
                                    }
                                }
                                assert forall|g: Seq<char>| grams.docs_with(g) == gram_docs(
                                    docs,
                                    g,
                                ) by {
                                    lemma_gram_docs_push(before, model, g);
                                }
                                assert forall|f: Seq<char>| masks.docs_with(f) == mask_of(
                                    docs,
                                    f,
                                ) by {
                                    lemma_mask_push(before, model, f);
                                }
                            }
                            count = count + 1;
                        }
                    },
                }
            }
            i += 1;
        }
        if too_many {
            return Err(SegmentError::TooLarge);
        }
        let gram_lists = grams.dump();
        if gram_lists.len() > 0xFFFF_FFFF {
            proof {
                let gl = lists_view(gram_lists@);
                lemma_dump_holds(grams, gl, gram_sets(docs));
                assert forall|k: int| 0 <= k < gl.len() implies has_docs(
                    gram_sets(docs)((#[trigger] gl[k]).0),
                ) by {
                    assert(gl[k].0 == grams.gram_slots.pairs()[k].0);
                    assert(has_docs(grams.docs_with(grams.gram_slots.pairs()[k].0)));
                    assert(grams.docs_with(gl[k].0) == gram_docs(docs, gl[k].0));
                }
                assert(lists_index(gl, gram_sets(docs)));
            }
            return Err(SegmentError::TooLarge);
        }
        let mask_lists = masks.dump();
        let gt = lists_tree(&gram_lists);
        let ft = lists_tree(&mask_lists);
        let meta = SegmentMetaV1 {
            version: 1,
            doc_count: count,
            gram_count: gram_lists.len() as u32,
        };
        let mt = meta_tree(&meta);
        let img = JsonSegmentImage {
            meta_json: mt.render(),
            grams_json: gt.render(),
            field_masks_json: Some(ft.render()),
            docs_jsonl: string_of(&text),
        };
        proof {
            let gl = lists_view(gram_lists@);
            let ml = lists_view(mask_lists@);
            lemma_dump_holds(grams, gl, gram_sets(docs));
            lemma_dump_holds(masks, ml, field_sets(docs));
            assert(json_image_holds_with(img, docs, mt, gt, ft, trees@));
        }
        Ok(img)
    }
}

/// The lines of the first `n` trees do not depend on what follows.
proof fn lemma_batch_prefix(a: Seq<Json>, b: Seq<Json>, n: int)
    requires
        0 <= n <= a.len() <= b.len(),
        forall|i: int| 0 <= i < n ==> a[i] == b[i],
    ensures
        batch_lines(a, n) == batch_lines(b, n),
    decreases n,
{
    if n > 0 {
        lemma_batch_prefix(a, b, n - 1);
    }
}

proof fn lemma_gram_docs_push(docs: Seq<InputModel>, model: InputModel, g: Seq<char>)
    requires
        docs.len() < u32::MAX,
    ensures
        gram_docs(docs.push(model), g) == (if stands_in(model.leaves, g, model.leaves.len() as int) {
            gram_docs(docs, g).insert(docs.len() as u32)
        } else {
            gram_docs(docs, g)
        }),
{
    let more = docs.push(model);
    let want = if stands_in(model.leaves, g, model.leaves.len() as int) {
        gram_docs(docs, g).insert(docs.len() as u32)
    } else {
        gram_docs(docs, g)
    };
    assert forall|d: u32| gram_docs(more, g).contains(d) <==> want.contains(d) by {
        if d < docs.len() {
            assert(more[d as int] == docs[d as int]);
        } else if d == docs.len() {
            assert(more[d as int] == model);
        }
    }
    assert(gram_docs(more, g) =~= want);
}

proof fn lemma_mask_push(docs: Seq<InputModel>, model: InputModel, f: Seq<char>)
    requires
        docs.len() < u32::MAX,
    ensures
        mask_of(docs.push(model), f) == (if named_in(model.leaves, f, model.leaves.len() as int) {
            mask_of(docs, f).insert(docs.len() as u32)
        } else {
            mask_of(docs, f)
        }),
{
    let more = docs.push(model);
    let want = if named_in(model.leaves, f, model.leaves.len() as int) {
        mask_of(docs, f).insert(docs.len() as u32)
    } else {
        mask_of(docs, f)
    };
    assert forall|d: u32| mask_of(more, f).contains(d) <==> want.contains(d) by {
        if d < docs.len() {
            assert(more[d as int] == docs[d as int]);
        } else if d == docs.len() {
            assert(more[d as int] == model);
            if has_leaf(model, f) {
                let y = choose|y: int| 0 <= y < model.leaves.len() && #[trigger] model.leaves[y].0
                    == f;
                assert(model.leaves[y].0 == f);
                assert(named_in(model.leaves, f, model.leaves.len() as int));
            }
            if named_in(model.leaves, f, model.leaves.len() as int) {
                let l = choose|l: int|
                    0 <= l < model.leaves.len() && l < model.leaves.len() && (
                    #[trigger] model.leaves[l]).0 == f;
                assert(model.leaves[l].0 == f);
                assert(has_leaf(model, f));
            }
        }
    }
    assert(mask_of(more, f) =~= want);
}

} // verus!
