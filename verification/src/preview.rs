//! The preview builder: a short piece of a document's text around the
//! first match, cut at character boundaries, the match in brackets.

use vstd::prelude::*;
use vstd::utf8::encode_utf8;
use crate::doc::StoredDoc;
use crate::normalizer::{lowercase_of, to_lowercase};
use crate::strmap::lookup;
use crate::text::{
    byte_offset, char_width, chars_eq, chars_of, lemma_byte_offset_monotonic,
    lemma_byte_offset_step, push_chars, push_range, string_of, string_of_range,
};

verus! {

/// What a preview is built from.
pub struct PreviewOpts<'a> {
    /// The fields to take the text from, the most wanted first.
    pub preferred_fields: &'a [&'a str],
    /// The width of the preview in characters.
    pub max_len: usize,
    /// The text to put in brackets where it is found first.
    pub highlight_needle: Option<&'a str>,
}

/// The sign that stands where a preview leaves text out.
pub const ELLIPSIS: char = '…';

/// The byte offsets at which the characters of `s` start, and after them
/// the length of `s` in bytes.
pub open spec fn offsets_of(s: Seq<char>) -> Seq<usize> {
    Seq::new(s.len() + 1, |i: int| byte_offset(s, i) as usize)
}

/// The index of the last entry of `t` that is at most `b`, or zero where
/// the first entry is above `b` already.
pub open spec fn floor_index(t: Seq<usize>, b: int) -> int
    decreases t.len(),
{
    if t.len() <= 1 {
        0
    } else if t.last() <= b {
        t.len() - 1
    } else {
        floor_index(t.drop_last(), b)
    }
}

/// `s` cut to `max` characters, with the ellipsis where something was cut.
pub open spec fn capped(s: Seq<char>, max: int) -> Seq<char> {
    if s.len() <= max {
        s
    } else {
        s.take(max).push('…')
    }
}

/// `s` cut to `max` characters, with the ellipsis where something was cut;
/// nothing for a width of zero.
pub open spec fn truncated(s: Seq<char>, max: int) -> Seq<char> {
    if max == 0 {
        Seq::empty()
    } else {
        capped(s, max)
    }
}

/// `a + b`, or the largest value where the sum is above it.
pub open spec fn sat_sum(a: int, b: int) -> int {
    if a + b > usize::MAX {
        usize::MAX as int
    } else {
        a + b
    }
}

/// The snippet of `s` around the match that starts at byte `sb` and ends
/// at byte `eb`, for a width of `max` characters. Offsets that are no
/// character boundaries count as the boundary before them. The match
/// stands in brackets; what the width leaves after the match and the
/// brackets is shared between the text before and after; the ellipsis
/// stands where text was left out.
pub open spec fn snippet(s: Seq<char>, sb: int, eb: int, max: int) -> Seq<char> {
    if max == 0 || s.len() == 0 {
        Seq::empty()
    } else {
        let t = offsets_of(s);
        let total = s.len() as int;
        let sc = floor_index(t, sb);
        let ec0 = floor_index(t, eb);
        let ec = if ec0 < sc {
            sc
        } else {
            ec0
        };
        let used = sat_sum(ec - sc, 2);
        let budget = if max > used {
            max - used
        } else {
            0
        };
        let ctx = budget / 2;
        let from_c = if sc > ctx {
            sc - ctx
        } else {
            0
        };
        let to_c = if sat_sum(ec, ctx) < total {
            sat_sum(ec, ctx)
        } else {
            total
        };
        let head = if from_c > 0 {
            seq!['…']
        } else {
            Seq::<char>::empty()
        };
        let tail = if to_c < total {
            seq!['…']
        } else {
            Seq::<char>::empty()
        };
        capped(
            head + s.subrange(from_c, sc) + seq!['['] + s.subrange(sc, ec) + seq![']']
                + s.subrange(ec, to_c) + tail,
            sat_sum(max, 4),
        )
    }
}

/// Whether `n` stands in `h` at the character index `k`.
pub open spec fn occurs_at(h: Seq<char>, n: Seq<char>, k: int) -> bool {
    0 <= k && k + n.len() <= h.len() && h.subrange(k, k + n.len()) == n
}

/// The first character index at which `n` stands in `h` from `from` on.
pub open spec fn first_occurrence_from(h: Seq<char>, n: Seq<char>, from: int) -> Option<int>
    decreases h.len() - from,
{
    if from < 0 || from + n.len() > h.len() {
        None
    } else if occurs_at(h, n, from) {
        Some(from)
    } else if from >= h.len() {
        None
    } else {
        first_occurrence_from(h, n, from + 1)
    }
}

/// Whether byte `b` is where a character of `s` starts, or where `s` ends.
pub open spec fn is_boundary(s: Seq<char>, b: int) -> bool {
    exists|i: int| 0 <= i <= s.len() && byte_offset(s, i) == b
}

/// The first window of `hay`, of as many characters as `nee_lc` has, whose
/// lower case is `nee_lc`, from the character index `from` on: the byte
/// offsets of its start and end.
pub open spec fn ci_safe_from(hay: Seq<char>, nee_lc: Seq<char>, from: int) -> Option<(int, int)>
    decreases hay.len() - from,
{
    if nee_lc.len() == 0 || from < 0 || from + nee_lc.len() > hay.len() {
        None
    } else if lowercase_of(hay.subrange(from, from + nee_lc.len())) == nee_lc {
        Some((byte_offset(hay, from), byte_offset(hay, from + nee_lc.len())))
    } else {
        ci_safe_from(hay, nee_lc, from + 1)
    }
}

/// Where `needle` stands first in `hay` when letter case does not count:
/// the lower case of the needle is sought in the lower case of the text;
/// where the place found is no character boundary of the text itself,
/// the text is walked window by window instead.
pub open spec fn ci_found(hay: Seq<char>, needle: Seq<char>) -> Option<(int, int)> {
    if needle.len() == 0 {
        None
    } else {
        let h = lowercase_of(hay);
        let n = lowercase_of(needle);
        match first_occurrence_from(h, n, 0) {
            None => None,
            Some(k) => {
                let pos = byte_offset(h, k);
                let end = byte_offset(h, k + n.len());
                if is_boundary(hay, pos) && is_boundary(hay, end) {
                    Some((pos, end))
                } else {
                    ci_safe_from(hay, n, 0)
                }
            },
        }
    }
}

/// Where `needle` stands first in `hay`, or failing that its longest
/// beginning of more than `min_len` characters that does, or failing that
/// its beginning of `min_len` characters.
pub open spec fn ci_fallback(hay: Seq<char>, needle: Seq<char>, min_len: int) -> Option<(int, int)>
    decreases needle.len(),
{
    if needle.len() == 0 {
        None
    } else {
        match ci_found(hay, needle) {
            Some(r) => Some(r),
            None => if needle.len() > min_len {
                ci_fallback(hay, needle.drop_last(), min_len)
            } else {
                None
            },
        }
    }
}

/// The text of the first of the fields `preferred[from..]` that the
/// document has and that meets `wanted`.
pub open spec fn first_field(
    texts: Seq<(Seq<char>, Seq<char>)>,
    preferred: Seq<Seq<char>>,
    from: int,
    wanted: spec_fn(Seq<char>) -> bool,
) -> Option<Seq<char>>
    decreases preferred.len() - from,
{
    if from < 0 || from >= preferred.len() {
        None
    } else {
        match lookup(texts, preferred[from]) {
            Some(t) => if wanted(t) {
                Some(t)
            } else {
                first_field(texts, preferred, from + 1, wanted)
            },
            None => first_field(texts, preferred, from + 1, wanted),
        }
    }
}

/// The predicate of the texts that are not empty.
pub open spec fn with_content() -> spec_fn(Seq<char>) -> bool {
    |t: Seq<char>| t.len() > 0
}

/// The predicate of the texts in which `needle` stands, letter case not
/// counting.
pub open spec fn containing(needle: Seq<char>) -> spec_fn(Seq<char>) -> bool {
    |t: Seq<char>| ci_found(t, needle) is Some
}

/// The text that a preview is cut from: with a needle, the first preferred
/// field that holds it; else the first preferred field that is not empty;
/// else the first field of the document; else nothing.
pub open spec fn preview_source(
    texts: Seq<(Seq<char>, Seq<char>)>,
    preferred: Seq<Seq<char>>,
    needle: Option<Seq<char>>,
) -> Seq<char> {
    let held = match needle {
        Some(n) => first_field(texts, preferred, 0, containing(n)),
        None => None,
    };
    match held {
        Some(t) => t,
        None => match first_field(texts, preferred, 0, with_content()) {
            Some(t) => t,
            None => if texts.len() > 0 {
                texts[0].1
            } else {
                Seq::empty()
            },
        },
    }
}

/// The preview of `text`: a snippet around the needle where it, or a
/// beginning of it of three characters or more, stands in the text; else
/// the beginning of the text.
pub open spec fn preview_of(text: Seq<char>, needle: Option<Seq<char>>, max: int) -> Seq<char> {
    let place = match needle {
        Some(n) => ci_fallback(text, n, 3),
        None => None,
    };
    match place {
        Some((s, e)) => snippet(text, s, e, max),
        None => truncated(text, max),
    }
}

/// The length of `s` in bytes.
pub fn byte_len(s: &str) -> (n: usize)
    ensures
        n == encode_utf8(s@).len(),
{
    s.as_bytes().len()
}

/// Where the bytes of a text can be counted, every entry of its table is
/// the byte offset it stands for.
pub proof fn lemma_offsets_fit(s: Seq<char>, i: int)
    requires
        encode_utf8(s).len() <= usize::MAX,
        0 <= i <= s.len(),
    ensures
        0 <= byte_offset(s, i) <= usize::MAX,
        offsets_of(s)[i] == byte_offset(s, i),
        byte_offset(s, s.len() as int) == encode_utf8(s).len(),
{
    lemma_byte_offset_monotonic(s, i, s.len() as int);
    assert(s.take(s.len() as int) =~= s);
}

/// The byte offsets at which the characters of `cs` start, with the byte
/// length after them, and the number of characters.
pub fn index_table(cs: &Vec<char>, byte_len: usize) -> (r: (Vec<usize>, usize))
    requires
        byte_len == encode_utf8(cs@).len(),
    ensures
        r.0@ == offsets_of(cs@),
        r.1 == cs@.len(),
{
    let mut table: Vec<usize> = Vec::new();
    let mut at: usize = 0;
    let mut i: usize = 0;
    proof {
        assert(cs@.take(0) =~= Seq::<char>::empty());
        assert(cs@.take(cs@.len() as int) =~= cs@);
    }
    while i < cs.len()
        invariant
            i <= cs.len(),
            at == byte_offset(cs@, i as int),
            byte_len == byte_offset(cs@, cs@.len() as int),
            table@ == offsets_of(cs@).take(i as int),
        decreases cs.len() - i,
    {
        table.push(at);
        proof {
            lemma_byte_offset_step(cs@, i as int);
            lemma_byte_offset_monotonic(cs@, i + 1, cs@.len() as int);
            assert(offsets_of(cs@).take(i + 1) =~= offsets_of(cs@).take(i as int).push(at));
        }
        at = at + char_width(cs[i]);
        i += 1;
    }
    table.push(at);
    proof {
        assert(table@ =~= offsets_of(cs@));
    }
    (table, cs.len())
}

/// The byte offsets at which the characters of `s` start, with the length
/// of `s` in bytes after them, and the number of characters.
pub fn index_chars(s: &str) -> (r: (Vec<usize>, usize))
    ensures
        r.0@ == offsets_of(s@),
        r.1 == s@.len(),
{
    let cs = chars_of(s);
    index_table(&cs, byte_len(s))
}

/// The index of the character in which byte `byte_idx` lies: the last
/// entry of the table that is at most `byte_idx`.
pub fn byte_to_char_idx(byte_of_char: &Vec<usize>, byte_idx: usize) -> (r: usize)
    ensures
        r == floor_index(byte_of_char@, byte_idx as int),
        byte_of_char.len() > 0 ==> r < byte_of_char.len(),
        byte_of_char.len() == 0 ==> r == 0,
{
    let mut n: usize = byte_of_char.len();
    proof {
        assert(byte_of_char@.take(n as int) =~= byte_of_char@);
    }
    while n > 1
        invariant
            n <= byte_of_char.len(),
            floor_index(byte_of_char@, byte_idx as int) == floor_index(
                byte_of_char@.take(n as int),
                byte_idx as int,
            ),
        decreases n,
    {
        if byte_of_char[n - 1] <= byte_idx {
            return n - 1;
        }
        proof {
            assert(byte_of_char@.take(n as int).drop_last() =~= byte_of_char@.take(n - 1));
        }
        n -= 1;
    }
    0
}

/// At most `max_chars` characters of `s`, with the ellipsis where
/// something was cut.
pub fn cap_chars(cs: &Vec<char>, max_chars: usize) -> (r: Vec<char>)
    ensures
        r@ == capped(cs@, max_chars as int),
{
    let mut out: Vec<char> = Vec::new();
    if cs.len() <= max_chars {
        push_chars(&mut out, cs);
        proof {
            assert(out@ =~= cs@);
        }
        return out;
    }
    let mut i: usize = 0;
    while i < max_chars
        invariant
            i <= max_chars < cs.len(),
            out@ == cs@.take(i as int),
        decreases max_chars - i,
    {
        out.push(cs[i]);
        proof {
            assert(out@ =~= cs@.take(i + 1));
        }
        i += 1;
    }
    out.push(ELLIPSIS);
    out
}

/// At most `max_chars` characters of `s`, with the ellipsis where
/// something was cut.
pub fn ensure_max_chars(s: &str, max_chars: usize) -> (r: String)
    ensures
        r@ == capped(s@, max_chars as int),
{
    let cs = chars_of(s);
    let out = cap_chars(&cs, max_chars);
    string_of(&out)
}

/// The beginning of `s`, at most `max_chars` characters of it, with the
/// ellipsis where something was cut; nothing for a width of zero.
pub fn truncate_chars_with_ellipsis(s: &str, max_chars: usize) -> (r: String)
    ensures
        r@ == truncated(s@, max_chars as int),
{
    if max_chars == 0 {
        return String::new();
    }
    ensure_max_chars(s, max_chars)
}

/// `a + b`, or the largest value where the sum is above it.
fn add_sat(a: usize, b: usize) -> (r: usize)
    ensures
        r == sat_sum(a as int, b as int),
{
    if a > usize::MAX - b {
        usize::MAX
    } else {
        a + b
    }
}

/// The piece of `cs` from `from_c` to `to_c` with the part from `sc` to
/// `ec` in brackets, and the ellipsis where the piece leaves text out.
fn bracketed(cs: &Vec<char>, from_c: usize, sc: usize, ec: usize, to_c: usize) -> (out: Vec<char>)
    requires
        from_c <= sc <= ec <= to_c <= cs.len(),
    ensures
        out@ == (if from_c > 0 {
            seq!['…']
        } else {
            Seq::<char>::empty()
        }) + cs@.subrange(from_c as int, sc as int) + seq!['['] + cs@.subrange(
            sc as int,
            ec as int,
        ) + seq![']'] + cs@.subrange(ec as int, to_c as int) + (if to_c < cs.len() {
            seq!['…']
        } else {
            Seq::<char>::empty()
        }),
{
    let mut out: Vec<char> = Vec::new();
    if from_c > 0 {
        out.push(ELLIPSIS);
    }
    push_range(&mut out, cs, from_c, sc);
    out.push('[');
    push_range(&mut out, cs, sc, ec);
    out.push(']');
    push_range(&mut out, cs, ec, to_c);
    if to_c < cs.len() {
        out.push(ELLIPSIS);
    }
    out
}

/// The snippet of `s` around the match that starts at byte `m_start_b`
/// and ends at byte `m_end_b`, for a width of `max_chars` characters: see
/// `snippet`.
pub fn snippet_with_highlight(s: &str, m_start_b: usize, m_end_b: usize, max_chars: usize) -> (r:
    String)
    ensures
        r@ == snippet(s@, m_start_b as int, m_end_b as int, max_chars as int),
{
    let cs = chars_of(s);
    if max_chars == 0 || cs.len() == 0 {
        return String::new();
    }
    let (table, total) = index_table(&cs, byte_len(s));
    let sc: usize = byte_to_char_idx(&table, m_start_b);
    let ec0: usize = byte_to_char_idx(&table, m_end_b);
    let ec: usize = if ec0 < sc {
        sc
    } else {
        ec0
    };
    let used: usize = add_sat(ec - sc, 2);
    let budget: usize = if max_chars > used {
        max_chars - used
    } else {
        0
    };
    let ctx: usize = budget / 2;
    let from_c: usize = if sc > ctx {
        sc - ctx
    } else {
        0
    };
    let reach: usize = add_sat(ec, ctx);
    let to_c: usize = if reach < total {
        reach
    } else {
        total
    };
    let out = bracketed(&cs, from_c, sc, ec, to_c);
    let capped_out = cap_chars(&out, add_sat(max_chars, 4));
    string_of(&capped_out)
}

/// Whether `n` stands in `h` at the character index `k`.
fn stands_at(h: &Vec<char>, n: &Vec<char>, k: usize) -> (r: bool)
    requires
        k + n.len() <= h.len(),
    ensures
        r == occurs_at(h@, n@, k as int),
{
    let mut j: usize = 0;
    while j < n.len()
        invariant
            j <= n.len(),
            k + n.len() <= h.len(),
            forall|x: int| 0 <= x < j ==> h@[k + x] == n@[x],
        decreases n.len() - j,
    {
        if h[k + j] != n[j] {
            proof {
                assert(h@.subrange(k as int, k + n.len())[j as int] == h@[k + j]);
            }
            return false;
        }
        j += 1;
    }
    proof {
        assert(h@.subrange(k as int, k + n.len()) =~= n@);
    }
    true
}

/// The first character index at which `n` stands in `h`.
pub fn find_chars(h: &Vec<char>, n: &Vec<char>) -> (r: Option<usize>)
    ensures
        match r {
            Some(k) => first_occurrence_from(h@, n@, 0) == Some(k as int) && k + n.len()
                <= h.len(),
            None => first_occurrence_from(h@, n@, 0) is None,
        },
{
    if n.len() > h.len() {
        return None;
    }
    let last: usize = h.len() - n.len();
    let mut k: usize = 0;
    while k <= last
        invariant
            k <= last + 1,
            last == h.len() - n.len(),
            n.len() <= h.len(),
            first_occurrence_from(h@, n@, 0) == first_occurrence_from(h@, n@, k as int),
        decreases last + 1 - k,
    {
        if stands_at(h, n, k) {
            return Some(k);
        }
        if k == last {
            proof {
                assert(first_occurrence_from(h@, n@, k + 1) is None);
            }
            return None;
        }
        k += 1;
    }
    None
}

/// Whether byte `b` is an entry of the table of `s`.
fn table_has(table: &Vec<usize>, b: usize, Ghost(s): Ghost<Seq<char>>) -> (r: bool)
    requires
        table@ == offsets_of(s),
        byte_offset(s, s.len() as int) <= usize::MAX,
    ensures
        r == is_boundary(s, b as int),
{
    let mut i: usize = 0;
    while i < table.len()
        invariant
            i <= table.len(),
            table@ == offsets_of(s),
            byte_offset(s, s.len() as int) <= usize::MAX,
            forall|k: int| 0 <= k < i ==> byte_offset(s, k) != b,
        decreases table.len() - i,
    {
        proof {
            lemma_byte_offset_monotonic(s, i as int, s.len() as int);
            lemma_byte_offset_monotonic(s, 0, i as int);
        }
        if table[i] == b {
            return true;
        }
        i += 1;
    }
    proof {
        if is_boundary(s, b as int) {
            let k = choose|k: int| 0 <= k <= s.len() && byte_offset(s, k) == b;
            assert(byte_offset(s, k) != b);
        }
    }
    false
}

/// The first window of `hay` whose lower case is `nee_lc`: the byte
/// offsets of its start and end.
pub fn find_ci_safe(hay: &str, nee_lc: &str) -> (r: Option<(usize, usize)>)
    ensures
        match r {
            Some((s, e)) => ci_safe_from(hay@, nee_lc@, 0) == Some((s as int, e as int)),
            None => ci_safe_from(hay@, nee_lc@, 0) is None,
        },
{
    let h = chars_of(hay);
    let n = chars_of(nee_lc);
    if n.len() == 0 || n.len() > h.len() {
        return None;
    }
    let (table, total) = index_table(&h, byte_len(hay));
    let last: usize = h.len() - n.len();
    let mut k: usize = 0;
    while k <= last
        invariant
            k <= last + 1,
            last == h.len() - n.len(),
            0 < n.len() <= h.len(),
            h@ == hay@,
            n@ == nee_lc@,
            table@ == offsets_of(h@),
            encode_utf8(h@).len() <= usize::MAX,
            ci_safe_from(h@, n@, 0) == ci_safe_from(h@, n@, k as int),
        decreases last + 1 - k,
    {
        let frag = string_of_range(&h, k, k + n.len());
        let lc = to_lowercase(frag.as_str());
        let lcs = chars_of(lc.as_str());
        if chars_eq(&lcs, &n) {
            proof {
                lemma_offsets_fit(h@, k as int);
                lemma_offsets_fit(h@, k + n.len());
            }
            return Some((table[k], table[k + n.len()]));
        }
        if k == last {
            proof {
                assert(ci_safe_from(h@, n@, k + 1) is None);
            }
            return None;
        }
        k += 1;
    }
    None
}

/// Where `needle` stands first in `hay` when letter case does not count:
/// see `ci_found`.
pub fn find_ci(hay: &str, needle: &str) -> (r: Option<(usize, usize)>)
    ensures
        match r {
            Some((s, e)) => ci_found(hay@, needle@) == Some((s as int, e as int)),
            None => ci_found(hay@, needle@) is None,
        },
{
    if needle.is_empty() {
        return None;
    }
    let hay_lc = to_lowercase(hay);
    let nee_lc = to_lowercase(needle);
    let h = chars_of(hay_lc.as_str());
    let n = chars_of(nee_lc.as_str());
    match find_chars(&h, &n) {
        None => None,
        Some(k) => {
            let (lc_table, _) = index_table(&h, byte_len(hay_lc.as_str()));
            let pos: usize = lc_table[k];
            let end: usize = lc_table[k + n.len()];
            let orig = chars_of(hay);
            let (table, _) = index_table(&orig, byte_len(hay));
            proof {
                lemma_offsets_fit(orig@, 0);
                lemma_offsets_fit(h@, k as int);
                lemma_offsets_fit(h@, k + n.len());
            }
            if table_has(&table, pos, Ghost(orig@)) && table_has(&table, end, Ghost(orig@)) {
                Some((pos, end))
            } else {
                find_ci_safe(hay, nee_lc.as_str())
            }
        },
    }
}

/// Where `needle` stands first in `hay`, or failing that a beginning of
/// it, each character less until `min_len` are left: see `ci_fallback`.
pub fn find_ci_with_fallback(hay: &str, needle: &str, min_len: usize) -> (r: Option<(usize, usize)>)
    ensures
        match r {
            Some((s, e)) => ci_fallback(hay@, needle@, min_len as int) == Some(
                (s as int, e as int),
            ),
            None => ci_fallback(hay@, needle@, min_len as int) is None,
        },
{
    if needle.is_empty() {
        return None;
    }
    match find_ci(hay, needle) {
        Some(r) => {
            return Some(r);
        },
        None => {},
    }
    let cs = chars_of(needle);
    let mut len: usize = cs.len();
    proof {
        assert(cs@.take(len as int) =~= cs@);
    }
    while len > min_len
        invariant
            len <= cs.len(),
            cs@ == needle@,
            len > 0,
            ci_found(hay@, cs@.take(len as int)) is None,
            ci_fallback(hay@, needle@, min_len as int) == ci_fallback(
                hay@,
                cs@.take(len as int),
                min_len as int,
            ),
        decreases len,
    {
        len -= 1;
        proof {
            assert(cs@.take(len + 1).drop_last() =~= cs@.take(len as int));
        }
        if len == 0 {
            return None;
        }
        let shorter = string_of_range(&cs, 0, len);
        proof {
            assert(cs@.subrange(0, len as int) =~= cs@.take(len as int));
        }
        match find_ci(hay, shorter.as_str()) {
            Some(r) => {
                return Some(r);
            },
            None => {},
        }
    }
    None
}

/// The texts of a slice of strings.
pub open spec fn strs_view(v: Seq<&str>) -> Seq<Seq<char>> {
    v.map_values(|s: &str| s@)
}

/// The text of the first preferred field that the document has and that
/// is not empty.
pub fn pick_field_text<'a>(doc: &'a StoredDoc, preferred: &[&str]) -> (r: Option<&'a String>)
    ensures
        match r {
            Some(t) => first_field(doc.texts(), strs_view(preferred@), 0, with_content()) == Some(
                t@,
            ),
            None => first_field(doc.texts(), strs_view(preferred@), 0, with_content()) is None,
        },
{
    let mut i: usize = 0;
    let ghost pv = strs_view(preferred@);
    while i < preferred.len()
        invariant
            i <= preferred.len(),
            pv == strs_view(preferred@),
            first_field(doc.texts(), pv, 0, with_content()) == first_field(
                doc.texts(),
                pv,
                i as int,
                with_content(),
            ),
        decreases preferred.len() - i,
    {
        proof {
            assert(pv[i as int] == preferred@[i as int]@);
        }
        match doc.field(preferred[i]) {
            Some(t) => {
                if !t.as_str().is_empty() {
                    return Some(t);
                }
            },
            None => {},
        }
        i += 1;
    }
    None
}

/// The text of the first preferred field that the document has and in
/// which the needle stands.
fn pick_field_holding<'a>(doc: &'a StoredDoc, preferred: &[&str], needle: &str) -> (r: Option<
    &'a String,
>)
    ensures
        match r {
            Some(t) => first_field(doc.texts(), strs_view(preferred@), 0, containing(needle@))
                == Some(t@),
            None => first_field(doc.texts(), strs_view(preferred@), 0, containing(needle@))
                is None,
        },
{
    let mut i: usize = 0;
    let ghost pv = strs_view(preferred@);
    while i < preferred.len()
        invariant
            i <= preferred.len(),
            pv == strs_view(preferred@),
            first_field(doc.texts(), pv, 0, containing(needle@)) == first_field(
                doc.texts(),
                pv,
                i as int,
                containing(needle@),
            ),
        decreases preferred.len() - i,
    {
        proof {
            assert(pv[i as int] == preferred@[i as int]@);
        }
        match doc.field(preferred[i]) {
            Some(t) => {
                if find_ci(t.as_str(), needle).is_some() {
                    return Some(t);
                }
            },
            None => {},
        }
        i += 1;
    }
    None
}

/// The name of the field that a preview is labelled with: the wanted
/// field where the document has it; else the first of `text.body`,
/// `text.title`, `body` and `title` that it has; else its first field.
pub open spec fn preview_field(texts: Seq<(Seq<char>, Seq<char>)>, wanted: Option<Seq<char>>) -> Option<
    Seq<char>,
> {
    if wanted matches Some(f) && crate::strmap::has_key(texts, f) {
        wanted
    } else if crate::strmap::has_key(texts, "text.body"@) {
        Some("text.body"@)
    } else if crate::strmap::has_key(texts, "text.title"@) {
        Some("text.title"@)
    } else if crate::strmap::has_key(texts, "body"@) {
        Some("body"@)
    } else if crate::strmap::has_key(texts, "title"@) {
        Some("title"@)
    } else if texts.len() > 0 {
        Some(texts[0].0)
    } else {
        None
    }
}

/// The name of the field that a preview is labelled with.
pub fn pick_preview_field_name(doc: &StoredDoc, field_filter: Option<&str>) -> (r: Option<String>)
    ensures
        match r {
            Some(n) => preview_field(
                doc.texts(),
                match field_filter {
                    Some(f) => Some(f@),
                    None => None,
                },
            ) == Some(n@),
            None => preview_field(
                doc.texts(),
                match field_filter {
                    Some(f) => Some(f@),
                    None => None,
                },
            ) is None,
        },
{
    let entries = doc.fields.entries();
    proof {
        crate::doc::lemma_lookup_text_pairs(doc.fields.pairs(), "text.body"@);
        crate::doc::lemma_lookup_text_pairs(doc.fields.pairs(), "text.title"@);
        crate::doc::lemma_lookup_text_pairs(doc.fields.pairs(), "body"@);
        crate::doc::lemma_lookup_text_pairs(doc.fields.pairs(), "title"@);
    }
    match field_filter {
        Some(f) => {
            proof {
                crate::doc::lemma_lookup_text_pairs(doc.fields.pairs(), f@);
            }
            if doc.fields.contains_key(f) {
                return Some(f.to_owned());
            }
        },
        None => {},
    }
    if doc.fields.contains_key("text.body") {
        Some("text.body".to_owned())
    } else if doc.fields.contains_key("text.title") {
        Some("text.title".to_owned())
    } else if doc.fields.contains_key("body") {
        Some("body".to_owned())
    } else if doc.fields.contains_key("title") {
        Some("title".to_owned())
    } else {
        if entries.len() > 0 {
            proof {
                assert(doc.texts()[0].0 == entries@[0].0@);
            }
            Some(entries[0].0.clone())
        } else {
            None
        }
    }
}

/// The preview of a text: see `preview_of`.
pub fn preview_text(text: &str, needle: Option<&str>, max_len: usize) -> (r: String)
    ensures
        r@ == preview_of(
            text@,
            match needle {
                Some(n) => Some(n@),
                None => None,
            },
            max_len as int,
        ),
{
    let place = match needle {
        Some(n) => find_ci_with_fallback(text, n, 3),
        None => None,
    };
    match place {
        Some((s, e)) => snippet_with_highlight(text, s, e, max_len),
        None => truncate_chars_with_ellipsis(text, max_len),
    }
}

/// The preview of a document.
///
/// The text is taken from the first preferred field in which the needle
/// stands, if a needle is given; else from the first preferred field that
/// is not empty; else from the first field of the document. Where the
/// needle, or a beginning of it of three characters or more, stands in the
/// text, the preview is a snippet around it with the match in brackets;
/// else it is the beginning of the text.
pub fn build_preview(doc: &StoredDoc, opts: PreviewOpts<'_>) -> (r: String)
    ensures
        r@ == preview_of(
            preview_source(
                doc.texts(),
                strs_view(opts.preferred_fields@),
                match opts.highlight_needle {
                    Some(n) => Some(n@),
                    None => None,
                },
            ),
            match opts.highlight_needle {
                Some(n) => Some(n@),
                None => None,
            },
            opts.max_len as int,
        ),
{
    let held: Option<&String> = match opts.highlight_needle {
        Some(n) => pick_field_holding(doc, opts.preferred_fields, n),
        None => None,
    };
    let empty = String::new();
    let text: &String = match held {
        Some(t) => t,
        None => match pick_field_text(doc, opts.preferred_fields) {
            Some(t) => t,
            None => {
                let entries = doc.fields.entries();
                if entries.len() > 0 {
                    proof {
                        assert(doc.texts()[0].1 == entries@[0].1@);
                    }
                    &entries[0].1
                } else {
                    &empty
                }
            },
        },
    };
    preview_text(text.as_str(), opts.highlight_needle, opts.max_len)
}

} // verus!
