//! The reader of textual segments.

use vstd::prelude::*;
use croaring::Bitmap;
use crate::bitmap::{bitmap_and, bitmap_andnot, bitmap_members, bitmap_universe, universe};
use crate::doc::StoredDoc;
use crate::gram::{BooleanOp, strings_view};
use crate::index::InvertedIndex;
use crate::ingest::hot::{stored_model, stored_models, StoredModel};
use crate::json::{Json, json_parsed};
use crate::manifest_ptr::SegmentMetaV1;
use crate::segjson::tree::{
    lists_view, read_doc, read_lists, read_meta, tree_doc, tree_lists, tree_meta,
};
use crate::segjson::writer::JsonSegmentImage;
use crate::segment::docs::{DocModel, model_of};
use crate::segment::error::SegmentError;
use crate::segment::input::{is_blank, line_is_blank, lines_of, split_lines};
use crate::segment::traits::SegmentReader;
use crate::strmap::keys_sorted;

verus! {

/// An open textual segment.
pub struct JsonSegmentReader {
    pub meta: SegmentMetaV1,
    /// The documents of every trigram.
    pub grams: InvertedIndex,
    /// The documents of every field.
    pub field_masks: InvertedIndex,
    pub docs: Vec<StoredDoc>,
}

/// The documents that the first `n` lists give the key: those of the last
/// list under the key, or none.
pub open spec fn list_sets(lists: Seq<(Seq<char>, Seq<u32>)>, n: int, key: Seq<char>) -> Set<u32>
    decreases n,
{
    if n <= 0 || n > lists.len() {
        Set::empty()
    } else if lists[n - 1].0 == key {
        lists[n - 1].1.to_set()
    } else {
        list_sets(lists, n - 1, key)
    }
}

/// The documents of the first `n` lines: every line that is not blank
/// must hold a document whose doc id is its place among the documents;
/// the first that does not is named.
pub open spec fn docs_read(lines: Seq<Seq<char>>, n: int) -> Result<Seq<StoredModel>, SegmentError>
    decreases n,
{
    if n <= 0 || n > lines.len() {
        Ok(Seq::empty())
    } else {
        match docs_read(lines, n - 1) {
            Err(e) => Err(e),
            Ok(prev) => if is_blank(lines[n - 1]) {
                Ok(prev)
            } else {
                let doc = match json_parsed(lines[n - 1]) {
                    Some(j) => tree_doc(j),
                    None => None,
                };
                match doc {
                    Some(d) => if d.doc_id == prev.len() {
                        Ok(prev.push(d))
                    } else {
                        Err(SegmentError::BadDocsLine { line: (n - 1) as usize })
                    },
                    None => Err(SegmentError::BadDocsLine { line: (n - 1) as usize }),
                }
            },
        }
    }
}

/// Once a line is refused, reading further lines does not change that.
pub proof fn lemma_docs_error_stays(lines: Seq<Seq<char>>, k: int, n: int)
    requires
        0 <= k <= n <= lines.len(),
        docs_read(lines, k) is Err,
    ensures
        docs_read(lines, n) == docs_read(lines, k),
    decreases n - k,
{
    if k < n {
        lemma_docs_error_stays(lines, k, n - 1);
    }
}

/// The header that a text holds.
pub open spec fn meta_of_text(text: Seq<char>) -> Option<SegmentMetaV1> {
    match json_parsed(text) {
        Some(j) => tree_meta(j),
        None => None,
    }
}

/// The lists that a text holds.
pub open spec fn lists_of_text(text: Seq<char>) -> Option<Seq<(Seq<char>, Seq<u32>)>> {
    match json_parsed(text) {
        Some(j) => tree_lists(j),
        None => None,
    }
}

/// The masks that the texts hold: none where the segment has no masks
/// or they cannot be read.
pub open spec fn masks_of_image(img: JsonSegmentImage) -> Seq<(Seq<char>, Seq<u32>)> {
    match img.field_masks_json {
        Some(text) => match lists_of_text(text@) {
            Some(l) => l,
            None => Seq::empty(),
        },
        None => Seq::empty(),
    }
}

/// Why the texts do not open, if they do not: checked in this order, the
/// header is none, the index is none, or a line of the documents is none.
pub open spec fn json_open_fault(img: JsonSegmentImage) -> Option<SegmentError> {
    if meta_of_text(img.meta_json@) is None {
        Some(SegmentError::BadMetaJson)
    } else if lists_of_text(img.grams_json@) is None {
        Some(SegmentError::BadGramsJson)
    } else {
        match docs_read(lines_of(img.docs_jsonl@), lines_of(img.docs_jsonl@).len() as int) {
            Err(e) => Some(e),
            Ok(_) => None,
        }
    }
}

/// Whether the reader holds what the texts hold.
pub open spec fn json_opened_from(rd: JsonSegmentReader, img: JsonSegmentImage) -> bool {
    &&& rd.wf()
    &&& Some(rd.meta) == meta_of_text(img.meta_json@)
    &&& lists_of_text(img.grams_json@) matches Some(lists) && (forall|g: Seq<char>|
        rd.grams.docs_with(g) == list_sets(lists, lists.len() as int, g))
    &&& forall|f: Seq<char>|
        rd.field_masks.docs_with(f) == list_sets(
            masks_of_image(img),
            masks_of_image(img).len() as int,
            f,
        )
    &&& docs_read(lines_of(img.docs_jsonl@), lines_of(img.docs_jsonl@).len() as int) == Ok::<
        _,
        SegmentError,
    >(stored_models(rd.docs@))
}

/// An index of the lists.
fn index_of_lists(lists: &Vec<(String, Vec<u32>)>) -> (inv: InvertedIndex)
    ensures
        inv.wf(),
        forall|g: Seq<char>|
            inv.docs_with(g) == list_sets(lists_view(lists@), lists@.len() as int, g),
{
    let mut inv = InvertedIndex::new();
    let ghost lv = lists_view(lists@);
    let mut i: usize = 0;
    proof {
        assert forall|g: Seq<char>| inv.docs_with(g) == list_sets(lv, 0, g) by {}
    }
    while i < lists.len()
        invariant
            i <= lists.len(),
            inv.wf(),
            lv == lists_view(lists@),
            forall|g: Seq<char>| inv.docs_with(g) == list_sets(lv, i as int, g),
        decreases lists.len() - i,
    {
        inv.put_list(lists[i].0.as_str(), &lists[i].1);
        proof {
            assert(lv[i as int] == (lists@[i as int].0@, lists@[i as int].1@));
        }
        i += 1;
    }
    inv
}

impl JsonSegmentReader {
    /// Whether the reader is what opening a segment gives.
    pub open spec fn wf(&self) -> bool {
        &&& self.grams.wf()
        &&& self.field_masks.wf()
        &&& forall|i: int|
            0 <= i < self.docs@.len() ==> (#[trigger] self.docs@[i]).doc_id == i && keys_sorted(
                self.docs@[i].texts(),
            )
    }

    /// The candidates of a prefilter query: under AND the documents that
    /// hold every gram, which must be one at least; under OR those that
    /// hold any; under NOT those of the segment that hold none. The
    /// field, if given, cuts the candidates down to the documents that
    /// have it.
    pub open spec fn json_prefiltered(
        &self,
        op: BooleanOp,
        grams: Seq<Seq<char>>,
        field: Option<Seq<char>>,
    ) -> Result<Set<u32>, SegmentError> {
        let n = grams.len() as int;
        let base: Result<Set<u32>, SegmentError> = match op {
            BooleanOp::And => if grams.len() == 0 {
                Err(SegmentError::NoGrams)
            } else {
                Ok(self.grams.common(grams, n))
            },
            BooleanOp::Or => Ok(self.grams.any(grams, n)),
            BooleanOp::Not => Ok(universe(self.meta.doc_count).difference(self.grams.any(grams, n))),
        };
        match base {
            Err(e) => Err(e),
            Ok(s) => match field {
                Some(f) => Ok(s.intersect(self.field_masks.docs_with(f))),
                None => Ok(s),
            },
        }
    }

    /// The document at a place, as the segment holds it.
    pub open spec fn doc_at(&self, id: u32) -> Option<DocModel> {
        if id < self.docs@.len() {
            Some(model_of(self.docs@[id as int]))
        } else {
            None
        }
    }

    /// Opens a textual segment from its texts.
    pub fn open_segment(image: JsonSegmentImage) -> (r: Result<Self, SegmentError>)
        ensures
            match r {
                Ok(rd) => json_open_fault(image) is None && json_opened_from(rd, image),
                Err(e) => json_open_fault(image) == Some(e),
            },
    {
        let meta = match Json::parse(image.meta_json.as_str()) {
            Some(j) => match read_meta(&j) {
                Some(m) => m,
                None => {
                    return Err(SegmentError::BadMetaJson);
                },
            },
            None => {
                return Err(SegmentError::BadMetaJson);
            },
        };
        let gram_lists = match Json::parse(image.grams_json.as_str()) {
            Some(j) => match read_lists(&j) {
                Some(l) => l,
                None => {
                    return Err(SegmentError::BadGramsJson);
                },
            },
            None => {
                return Err(SegmentError::BadGramsJson);
            },
        };
        let mask_lists: Vec<(String, Vec<u32>)> = match &image.field_masks_json {
            Some(text) => match Json::parse(text.as_str()) {
                Some(j) => match read_lists(&j) {
                    Some(l) => l,
                    None => Vec::new(),
                },
                None => Vec::new(),
            },
            None => Vec::new(),
        };
        proof {
            assert(lists_view(Seq::<(String, Vec<u32>)>::empty()) =~= Seq::<
                (Seq<char>, Seq<u32>),
            >::empty());
        }
        let lines = split_lines(image.docs_jsonl.as_str());
        let ghost ls = lines_of(image.docs_jsonl@);
        let mut docs: Vec<StoredDoc> = Vec::new();
        let mut i: usize = 0;
        proof {
            assert(ls.len() == lines.len());
            assert(stored_models(docs@) =~= Seq::<StoredModel>::empty());
        }
        while i < lines.len()
            invariant
                i <= lines.len(),
                ls == strings_view(lines@),
                ls == lines_of(image.docs_jsonl@),
                ls.len() == lines.len(),
                meta_of_text(image.meta_json@) is Some,
                lists_of_text(image.grams_json@) is Some,
                stored_models(docs@).len() == docs@.len(),
                docs_read(ls, i as int) == Ok::<_, SegmentError>(stored_models(docs@)),
                forall|k: int|
                    0 <= k < docs@.len() ==> (#[trigger] docs@[k]).doc_id == k && keys_sorted(
                        docs@[k].texts(),
                    ),
            decreases lines.len() - i,
        {
            proof {
                assert(ls[i as int] == lines@[i as int]@);
            }
            if !line_is_blank(lines[i].as_str()) {
                let doc = match Json::parse(lines[i].as_str()) {
                    Some(j) => read_doc(&j),
                    None => None,
                };
                match doc {
                    Some(d) => {
                        if d.doc_id as usize != docs.len() {
                            proof {
                                lemma_docs_error_stays(ls, i + 1, lines.len() as int);
                            }
                            return Err(SegmentError::BadDocsLine { line: i });
                        }
                        let ghost before = docs@;
                        docs.push(d);
                        proof {
                            assert(stored_models(docs@) =~= stored_models(before).push(
                                stored_model(d),
                            ));
                        }
                    },
                    None => {
                        proof {
                            lemma_docs_error_stays(ls, i + 1, lines.len() as int);
                        }
                        return Err(SegmentError::BadDocsLine { line: i });
                    },
                }
            }
            i += 1;
        }
        let grams = index_of_lists(&gram_lists);
        let field_masks = index_of_lists(&mask_lists);
        Ok(JsonSegmentReader { meta, grams, field_masks, docs })
    }

    /// The number of documents that the header names.
    pub fn doc_count(&self) -> (n: u32)
        ensures
            n == self.meta.doc_count,
    {
        self.meta.doc_count
    }

    /// The candidates of a prefilter query: see `json_prefiltered`.
    pub fn prefilter(&self, op: BooleanOp, grams: &Vec<String>, field: Option<&str>) -> (r: Result<
        Bitmap,
        SegmentError,
    >)
        requires
            self.wf(),
        ensures
            match r {
                Ok(b) => self.json_prefiltered(
                    op,
                    strings_view(grams@),
                    match field {
                        Some(f) => Some(f@),
                        None => None,
                    },
                ) == Ok::<_, SegmentError>(bitmap_members(b)),
                Err(e) => self.json_prefiltered(
                    op,
                    strings_view(grams@),
                    match field {
                        Some(f) => Some(f@),
                        None => None,
                    },
                ) == Err::<Set<u32>, _>(e),
            },
    {
        let mut acc = match op {
            BooleanOp::And => match self.grams.intersect_all(grams) {
                Ok(b) => b,
                Err(_) => {
                    return Err(SegmentError::NoGrams);
                },
            },
            BooleanOp::Or => self.grams.union_all(grams),
            BooleanOp::Not => {
                let mut all = bitmap_universe(self.meta.doc_count);
                let un = self.grams.union_all(grams);
                bitmap_andnot(&mut all, &un);
                all
            },
        };
        match field {
            Some(f) => {
                let mask = self.field_masks.bitmap_for(f);
                bitmap_and(&mut acc, &mask);
            },
            None => {},
        }
        Ok(acc)
    }

    /// The document at a place; `None` past the last document.
    pub fn get_doc(&self, doc_id: u32) -> (r: Option<&StoredDoc>)
        requires
            self.wf(),
        ensures
            match r {
                Some(d) => d.doc_id == doc_id && self.doc_at(doc_id) == Some(model_of(*d))
                    && keys_sorted(d.texts()),
                None => self.doc_at(doc_id) is None,
            },
    {
        if (doc_id as usize) < self.docs.len() {
            Some(&self.docs[doc_id as usize])
        } else {
            None
        }
    }
}

impl SegmentReader for JsonSegmentReader {
    type Image = JsonSegmentImage;

    open spec fn valid(&self) -> bool {
        self.wf()
    }

    open spec fn fault(img: JsonSegmentImage) -> Option<SegmentError> {
        json_open_fault(img)
    }

    open spec fn size(&self) -> u32 {
        self.meta.doc_count
    }

    open spec fn candidates(
        &self,
        op: BooleanOp,
        grams: Seq<Seq<char>>,
        field: Option<Seq<char>>,
    ) -> Result<Set<u32>, SegmentError> {
        self.json_prefiltered(op, grams, field)
    }

    open spec fn document(&self, id: u32) -> Option<DocModel> {
        self.doc_at(id)
    }

    fn open_segment(image: JsonSegmentImage) -> (r: Result<Self, SegmentError>) {
        JsonSegmentReader::open_segment(image)
    }

    fn doc_count(&self) -> (n: u32) {
        JsonSegmentReader::doc_count(self)
    }

    fn prefilter(&self, op: BooleanOp, grams: &Vec<String>, field: Option<&str>) -> (r: Result<
        Bitmap,
        SegmentError,
    >) {
        JsonSegmentReader::prefilter(self, op, grams, field)
    }

    fn get_doc(&mut self, doc_id: u32) -> (r: Option<&StoredDoc>) {
        JsonSegmentReader::get_doc(self, doc_id)
    }
}

} // verus!
