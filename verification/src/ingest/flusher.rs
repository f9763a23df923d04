//! The flusher: where the segment of a flushed batch goes.

use vstd::prelude::*;
use crate::digits::{decimal_padded, format_decimal_padded};
use crate::text::{chars_of, push_chars, string_of};

verus! {

/// The flusher of an output directory.
#[derive(Debug, Clone)]
pub struct Flusher {
    pub out_dir: String,
}

/// `name` below the directory `dir`: the two with one slash between
/// them, or the name alone below the empty directory.
pub open spec fn joined(dir: Seq<char>, name: Seq<char>) -> Seq<char> {
    if dir.len() == 0 {
        name
    } else if dir.last() == '/' {
        dir + name
    } else {
        dir.push('/') + name
    }
}

impl Flusher {
    /// The flusher that puts its segments below `out_dir`.
    pub fn new(out_dir: &str) -> (r: Self)
        ensures
            r.out_dir@ == out_dir@,
    {
        Flusher { out_dir: out_dir.to_owned() }
    }

    /// The path of the segment flushed at `ts_ms`: below the output
    /// directory, the time in milliseconds in thirteen digits at least.
    pub fn choose_segment_path(&self, ts_ms: u64) -> (r: String)
        ensures
            r@ == joined(self.out_dir@, decimal_padded(ts_ms as nat, 13)),
    {
        let name = format_decimal_padded(ts_ms, 13);
        let dir = chars_of(self.out_dir.as_str());
        let mut out: Vec<char> = Vec::new();
        if dir.len() == 0 {
            push_chars(&mut out, &name);
            proof {
                assert(out@ =~= name@);
            }
        } else {
            push_chars(&mut out, &dir);
            if dir[dir.len() - 1] != '/' {
                out.push('/');
            }
            push_chars(&mut out, &name);
            proof {
                assert(out@ =~= joined(dir@, name@));
            }
        }
        string_of(&out)
    }
}

} // verus!
