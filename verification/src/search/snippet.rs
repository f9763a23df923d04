//! A snippet measured in bytes: the first match of a matcher with as much
//! text around it as a window of bytes leaves, cut at character
//! boundaries.

use vstd::prelude::*;
use vstd::utf8::encode_utf8;
use crate::preview::{byte_len, byte_to_char_idx, ELLIPSIS, floor_index, index_table, offsets_of};
use crate::text::{chars_of, push_range, string_of};
use crate::verify::VerifyEngine;

verus! {

/// The larger of two numbers.
pub open spec fn at_least(a: int, b: int) -> int {
    if a < b {
        b
    } else {
        a
    }
}

/// The snippet of `s` for the match `m` and a window of `window` bytes.
///
/// With a match from byte `start` to byte `end`, the context on each side
/// is half of what the window leaves after the match and two brackets;
/// the snippet runs from `start` less the context to `end` plus the
/// context, the match stands in brackets, and the ellipsis stands where
/// the text goes on. Every byte offset counts as the character boundary
/// before it. Without a match the snippet is the first `window` bytes of
/// the text, with the ellipsis where the text is longer.
pub open spec fn byte_snippet(s: Seq<char>, m: Option<(int, int)>, window: int) -> Seq<char> {
    let t = offsets_of(s);
    let len = encode_utf8(s).len() as int;
    match m {
        Some((start, end)) => {
            let width = if end - start < window {
                at_least(end - start, 0)
            } else {
                window
            };
            let used = width + 2;
            let ctx = (if window > used {
                window - used
            } else {
                0
            }) / 2;
            let from = if start > ctx {
                start - ctx
            } else {
                0
            };
            let to = if end + ctx < len {
                end + ctx
            } else {
                len
            };
            let fc = floor_index(t, from);
            let sc = at_least(floor_index(t, start), fc);
            let ec = at_least(floor_index(t, end), sc);
            let tc = at_least(floor_index(t, to), ec);
            (if from > 0 {
                seq!['…']
            } else {
                Seq::<char>::empty()
            }) + s.subrange(fc, sc) + seq!['['] + s.subrange(sc, ec) + seq![']'] + s.subrange(
                ec,
                tc,
            ) + (if to < len {
                seq!['…']
            } else {
                Seq::<char>::empty()
            })
        },
        None => if len > window {
            s.take(floor_index(t, window)).push('…')
        } else {
            s
        },
    }
}

/// The larger of two numbers.
fn larger(a: usize, b: usize) -> (r: usize)
    ensures
        r == at_least(a as int, b as int),
{
    if a < b {
        b
    } else {
        a
    }
}

/// The snippet of a text around the first match of the matcher: see
/// `byte_snippet`.
pub fn build_snippet<E: VerifyEngine>(eng: &E, text: &str, window: usize) -> (r: String)
    ensures
        r@ == byte_snippet(text@, eng.first_match(text@), window as int),
{
    let cs = chars_of(text);
    let len: usize = byte_len(text);
    let (table, total) = index_table(&cs, len);
    let mut out: Vec<char> = Vec::new();
    match eng.find(text) {
        Some((start, end)) => {
            let width: usize = if end >= start && end - start < window {
                end - start
            } else if end < start {
                if 0 < window {
                    0
                } else {
                    window
                }
            } else {
                window
            };
            let used: usize = if width > usize::MAX - 2 {
                usize::MAX
            } else {
                width + 2
            };
            let ctx: usize = (if window > used {
                window - used
            } else {
                0
            }) / 2;
            let from: usize = if start > ctx {
                start - ctx
            } else {
                0
            };
            let to: usize = if end <= usize::MAX - ctx && end + ctx < len {
                end + ctx
            } else {
                len
            };
            let fc = byte_to_char_idx(&table, from);
            let sc = larger(byte_to_char_idx(&table, start), fc);
            let ec = larger(byte_to_char_idx(&table, end), sc);
            let tc = larger(byte_to_char_idx(&table, to), ec);
            if from > 0 {
                out.push(ELLIPSIS);
            }
            push_range(&mut out, &cs, fc, sc);
            out.push('[');
            push_range(&mut out, &cs, sc, ec);
            out.push(']');
            push_range(&mut out, &cs, ec, tc);
            if to < len {
                out.push(ELLIPSIS);
            }
        },
        None => {
            if len > window {
                let n = byte_to_char_idx(&table, window);
                push_range(&mut out, &cs, 0, n);
                out.push(ELLIPSIS);
                proof {
                    assert(cs@.subrange(0, n as int) =~= cs@.take(n as int));
                }
            } else {
                push_range(&mut out, &cs, 0, cs.len());
                proof {
                    assert(cs@.subrange(0, cs@.len() as int) =~= cs@);
                }
            }
        },
    }
    string_of(&out)
}

} // verus!
