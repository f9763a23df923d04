//! Posting lists: the doc ids that hold one trigram, written as a kind
//! byte, a count and the ids as a first value followed by differences.

use vstd::prelude::*;
use crate::bitmap::strictly_increasing;
use crate::segment::bytes::{le32, le32_at, lemma_le_roundtrip, push_u32, read_u32};
use crate::segment::error::SegmentError;
use crate::varint::{
    decode_varint, lemma_varint_roundtrip, put_varint, varint_bytes, varint_decoded,
};

verus! {

/// The kind byte of a list of inline varints.
pub const POSTINGS_INLINE: u8 = 1;

/// The value before which differences are taken: the id before, or zero.
pub open spec fn base_of(prev: Option<u32>) -> int {
    match prev {
        Some(p) => p as int,
        None => 0,
    }
}

/// The ids `ids` as varints: each the difference to the id before it, the
/// first to `prev`.
pub open spec fn ids_bytes(ids: Seq<u32>, prev: Option<u32>) -> Seq<u8>
    decreases ids.len(),
{
    if ids.len() == 0 {
        Seq::empty()
    } else {
        varint_bytes((ids[0] - base_of(prev)) as u64) + ids_bytes(ids.drop_first(), Some(ids[0]))
    }
}

/// One posting list as it stands in `grams.dat`.
pub open spec fn postings_bytes(ids: Seq<u32>) -> Seq<u8> {
    seq![1u8] + le32(ids.len() as u32) + ids_bytes(ids, None)
}

/// The `count` ids that stand at the start of `b` as varints; `None` where
/// a varint is broken or an id leaves 32 bits.
pub open spec fn ids_decoded(b: Seq<u8>, count: nat, prev: Option<u32>) -> Option<Seq<u32>>
    decreases count,
{
    if count == 0 {
        Some(Seq::empty())
    } else {
        match varint_decoded(b) {
            None => None,
            Some((v, n)) => {
                let id = base_of(prev) + v;
                if id > u32::MAX {
                    None
                } else {
                    match ids_decoded(b.skip(n), (count - 1) as nat, Some(id as u32)) {
                        None => None,
                        Some(rest) => Some(seq![id as u32] + rest),
                    }
                }
            },
        }
    }
}

/// The ids of the posting list `body`; `None` where it is shorter than
/// its fixed part, of another kind, or broken.
pub open spec fn postings_decoded(body: Seq<u8>) -> Option<Seq<u32>> {
    if body.len() < 5 || body[0] != 1 {
        None
    } else {
        ids_decoded(body.skip(5), le32_at(body, 1) as nat, None)
    }
}

/// Whether `ids` can be written: strictly increasing, and few enough for
/// the count to fit 32 bits. The first id must not lie below `prev`.
pub open spec fn writable_ids(ids: Seq<u32>, prev: Option<u32>) -> bool {
    strictly_increasing(ids) && ids.len() <= u32::MAX && (ids.len() > 0 ==> base_of(prev)
        <= ids[0])
}

proof fn lemma_ids_roundtrip(ids: Seq<u32>, prev: Option<u32>, rest: Seq<u8>)
    requires
        writable_ids(ids, prev),
    ensures
        ids_decoded(ids_bytes(ids, prev) + rest, ids.len(), prev) == Some(ids),
    decreases ids.len(),
{
    if ids.len() > 0 {
        let d = (ids[0] - base_of(prev)) as u64;
        let tail = ids.drop_first();
        let after = ids_bytes(tail, Some(ids[0])) + rest;
        lemma_varint_roundtrip(d, after);
        assert(ids_bytes(ids, prev) + rest =~= varint_bytes(d) + after);
        assert((varint_bytes(d) + after).skip(varint_bytes(d).len() as int) =~= after);
        assert(writable_ids(tail, Some(ids[0]))) by {
            assert forall|i: int, j: int| 0 <= i < j < tail.len() implies tail[i] < tail[j] by {
                assert(tail[i] == ids[i + 1] && tail[j] == ids[j + 1]);
            }
            if tail.len() > 0 {
                assert(tail[0] == ids[1]);
            }
        }
        lemma_ids_roundtrip(tail, Some(ids[0]), rest);
        assert(seq![ids[0]] + tail =~= ids);
    }
}

/// A written posting list reads back as the ids that were written.
pub proof fn lemma_postings_roundtrip(ids: Seq<u32>)
    requires
        strictly_increasing(ids),
        ids.len() <= u32::MAX,
    ensures
        postings_decoded(postings_bytes(ids)) == Some(ids),
{
    let b = postings_bytes(ids);
    lemma_le_roundtrip(seq![1u8], ids_bytes(ids, None));
    assert(b.skip(5) =~= ids_bytes(ids, None));
    lemma_ids_roundtrip(ids, None, Seq::empty());
    assert(ids_bytes(ids, None) + Seq::<u8>::empty() =~= ids_bytes(ids, None));
}

/// Appends the posting list of `ids[from..to]` to `out`.
pub fn encode_postings(ids: &Vec<u32>, from: usize, to: usize, out: &mut Vec<u8>)
    requires
        from <= to <= ids.len(),
        strictly_increasing(ids@.subrange(from as int, to as int)),
        to - from <= u32::MAX,
    ensures
        final(out)@ == old(out)@ + postings_bytes(ids@.subrange(from as int, to as int)),
{
    let ghost list = ids@.subrange(from as int, to as int);
    out.push(POSTINGS_INLINE);
    push_u32(out, (to - from) as u32);
    let mut i: usize = from;
    let mut prev: u32 = 0;
    let ghost mut gprev: Option<u32> = None;
    proof {
        assert(list.skip(0) =~= list);
        assert(old(out)@ + postings_bytes(list) =~= out@ + ids_bytes(list, None));
    }
    while i < to
        invariant
            from <= i <= to <= ids.len(),
            list == ids@.subrange(from as int, to as int),
            strictly_increasing(list),
            prev == base_of(gprev),
            i > from ==> gprev == Some(ids@[i - 1]),
            i == from ==> gprev is None,
            old(out)@ + postings_bytes(list) == out@ + ids_bytes(list.skip(i - from), gprev),
        decreases to - i,
    {
        let id = ids[i];
        proof {
            assert(list[i - from] == id);
            if i > from {
                assert(list[i - from - 1] == ids@[i - 1]);
            }
            assert(list.skip(i - from)[0] == id);
            assert(list.skip(i - from).drop_first() =~= list.skip(i - from + 1));
        }
        let ghost before = out@;
        put_varint((id - prev) as u64, out);
        proof {
            assert(before + ids_bytes(list.skip(i - from), gprev) =~= out@ + ids_bytes(
                list.skip(i - from + 1),
                Some(id),
            ));
            gprev = Some(id);
        }
        prev = id;
        i += 1;
    }
    proof {
        assert(list.skip(to - from) =~= Seq::<u32>::empty());
        assert(out@ + ids_bytes(Seq::<u32>::empty(), gprev) =~= out@);
    }
}

/// Reads the posting list that fills `body`.
pub fn read_postings(body: &[u8]) -> (r: Result<Vec<u32>, SegmentError>)
    ensures
        match r {
            Ok(ids) => postings_decoded(body@) == Some(ids@),
            Err(e) => postings_decoded(body@) is None && e == SegmentError::BadPostings,
        },
{
    if body.len() < 5 || body[0] != POSTINGS_INLINE {
        return Err(SegmentError::BadPostings);
    }
    let count: u32 = read_u32(body, 1);
    let mut ids: Vec<u32> = Vec::new();
    let mut p: usize = 5;
    let mut prev: u32 = 0;
    let ghost mut gprev: Option<u32> = None;
    let mut k: u32 = 0;
    proof {
        assert(Seq::<u32>::empty() + Seq::<u32>::empty() =~= Seq::<u32>::empty());
    }
    while k < count
        invariant
            k <= count,
            5 <= p <= body.len(),
            prev == base_of(gprev),
            count == le32_at(body@, 1),
            body@.len() >= 5,
            body@[0] == 1,
            ids@.len() == k,
            match ids_decoded(body@.skip(p as int), (count - k) as nat, gprev) {
                Some(rest) => postings_decoded(body@) == Some(ids@ + rest),
                None => postings_decoded(body@) is None,
            },
        decreases count - k,
    {
        let ghost b = body@.skip(p as int);
        match decode_varint(body, p) {
            Err(_) => {
                return Err(SegmentError::BadPostings);
            },
            Ok((v, n)) => {
                if v > (u32::MAX - prev) as u64 {
                    return Err(SegmentError::BadPostings);
                }
                let id: u32 = prev + v as u32;
                proof {
                    assert(b.skip(n as int) =~= body@.skip(p + n));
                    match ids_decoded(b.skip(n as int), (count - k - 1) as nat, Some(id)) {
                        Some(rest) => {
                            assert(ids@.push(id) + rest =~= ids@ + (seq![id] + rest));
                        },
                        None => {},
                    }
                    gprev = Some(id);
                }
                ids.push(id);
                prev = id;
                p = p + n;
                k += 1;
            },
        }
    }
    proof {
        assert(ids@ + Seq::<u32>::empty() =~= ids@);
    }
    Ok(ids)
}

} // verus!
