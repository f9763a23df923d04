//! The write-ahead log: how a batch file is named, what it holds, and the
//! checksum that stands beside it.

use vstd::prelude::*;
use crate::crc::{xxh3_64, xxh3_of};
use crate::digits::{decimal_padded, format_decimal_padded, format_hex_fixed, hex_fixed};
use crate::json::{Json, json_rendered, render_json};
use crate::text::{chars_eq, chars_of, push_chars, str_eq, string_of, trim_chars, trimmed};

verus! {

/// When a batch file is forced to disk before it gets its final name.
#[derive(Debug, Clone, Copy, PartialEq, Eq, Structural)]
pub enum WalFsyncMode {
    Always,
    Batch,
    Disabled,
}

/// The mode that a setting names: `always`, `disabled`, or for anything
/// else and for no setting `batch`.
pub open spec fn mode_named(value: Option<Seq<char>>) -> WalFsyncMode {
    match value {
        Some(v) => if v == "always"@ {
            WalFsyncMode::Always
        } else if v == "disabled"@ {
            WalFsyncMode::Disabled
        } else {
            WalFsyncMode::Batch
        },
        None => WalFsyncMode::Batch,
    }
}

/// The mode that a setting names.
pub fn wal_fsync_mode_of(value: Option<&str>) -> (m: WalFsyncMode)
    ensures
        m == mode_named(
            match value {
                Some(v) => Some(v@),
                None => None,
            },
        ),
{
    match value {
        Some(v) => {
            if str_eq(v, "always") {
                WalFsyncMode::Always
            } else if str_eq(v, "disabled") {
                WalFsyncMode::Disabled
            } else {
                WalFsyncMode::Batch
            }
        },
        None => WalFsyncMode::Batch,
    }
}

/// The write-ahead log of a directory.
#[derive(Debug, Clone)]
pub struct Wal {
    pub dir: String,
    pub fsync_mode: WalFsyncMode,
}

/// What is to be written for one batch.
#[derive(Debug, Clone)]
pub struct WalBatch {
    /// The name under which the file is written first.
    pub tmp_name: String,
    /// The name that the file gets once it is complete.
    pub final_name: String,
    /// The name of the file that holds the checksum.
    pub sidecar_name: String,
    /// What the batch file holds: one line per record.
    pub content: String,
    /// What the checksum file holds.
    pub checksum: String,
    /// Whether the file is forced to disk before it gets its final name.
    pub sync: bool,
    /// The number of records.
    pub count: usize,
}

/// The base name of a batch file: the time in milliseconds, in sixteen
/// digits at least, a hyphen and the batch's id.
pub open spec fn base_name(ts_ms: u64, id: Seq<char>) -> Seq<char> {
    decimal_padded(ts_ms as nat, 16).push('-') + id
}

/// The first `n` records, each as one line of JSON.
pub open spec fn batch_lines(batch: Seq<Json>, n: int) -> Seq<char>
    decreases n,
{
    if n <= 0 || n > batch.len() {
        Seq::empty()
    } else {
        batch_lines(batch, n - 1) + json_rendered(batch[n - 1]).push('\n')
    }
}

/// The checksum of a batch file as its sidecar holds it: the XXH3 hash of
/// the bytes in sixteen hexadecimal digits, lower case.
pub open spec fn checksum_text(data: Seq<u8>) -> Seq<char> {
    hex_fixed(xxh3_of(data) as nat, 16)
}

/// Whether `c` is a character of the URL-safe alphabet: a digit, a
/// letter of either case, `_` or `-`.
pub open spec fn is_id_char(c: char) -> bool {
    ('0' <= c <= '9') || ('a' <= c <= 'z') || ('A' <= c <= 'Z') || c == '_' || c == '-'
}

/// Whether `s` has the shape of a batch id: twenty-one characters of the
/// URL-safe alphabet.
pub open spec fn is_batch_id(s: Seq<char>) -> bool {
    s.len() == 21 && forall|i: int| 0 <= i < s.len() ==> is_id_char(#[trigger] s[i])
}

/// `nanoid::format` with the crate's default random source, its URL-safe
/// alphabet and the size 21 gives twenty-one characters of that
/// alphabet. Which characters come is not said.
#[verifier::external_body]
fn random_id() -> (r: String)
    ensures
        is_batch_id(r@),
{
    nanoid::format(nanoid::rngs::default, &nanoid::alphabet::SAFE, 21)
}

/// A fresh id for a batch: twenty-one random characters of the URL-safe
/// alphabet.
pub fn new_batch_id() -> (r: String)
    ensures
        is_batch_id(r@),
{
    random_id()
}

/// The checksum of a batch file as its sidecar holds it.
pub fn checksum_hex(data: &[u8]) -> (r: String)
    ensures
        r@ == checksum_text(data@),
{
    let sum = xxh3_64(data);
    let cs = format_hex_fixed(sum, 16);
    string_of(&cs)
}

/// Whether the checksum of the bytes `data` is what the sidecar holds,
/// white space around it not counting.
pub fn checksum_matches(data: &[u8], sidecar: &str) -> (r: bool)
    ensures
        r == (checksum_text(data@) == trimmed(sidecar@)),
{
    let sum = xxh3_64(data);
    let have = format_hex_fixed(sum, 16);
    let want = trim_chars(sidecar);
    chars_eq(&have, &want)
}

/// Whether a batch file is forced to disk in the mode: in every mode but
/// `Disabled`.
pub fn needs_sync(mode: WalFsyncMode) -> (r: bool)
    ensures
        r == (mode != WalFsyncMode::Disabled),
{
    match mode {
        WalFsyncMode::Always => true,
        WalFsyncMode::Batch => true,
        WalFsyncMode::Disabled => false,
    }
}

/// `name` with `suffix` after it.
fn with_suffix(name: &Vec<char>, suffix: &str) -> (r: String)
    ensures
        r@ == name@ + suffix@,
{
    let mut out: Vec<char> = Vec::new();
    push_chars(&mut out, name);
    let s = chars_of(suffix);
    push_chars(&mut out, &s);
    proof {
        assert(out@ =~= name@ + suffix@);
    }
    string_of(&out)
}

impl Wal {
    /// The log of the directory `dir`, in the mode that forces every batch
    /// to disk.
    pub fn new(dir: &str) -> (r: Self)
        ensures
            r.dir@ == dir@,
            r.fsync_mode == WalFsyncMode::Batch,
    {
        Wal { dir: dir.to_owned(), fsync_mode: WalFsyncMode::Batch }
    }

    /// The log in the mode `mode`.
    pub fn with_mode(self, mode: WalFsyncMode) -> (r: Self)
        ensures
            r.dir == self.dir,
            r.fsync_mode == mode,
    {
        Wal { dir: self.dir, fsync_mode: mode }
    }

    /// What is to be written for a batch taken at `ts_ms` under the id
    /// `id`: the file is written under its temporary name, forced to disk
    /// if the mode says so, renamed to its final name, and its checksum
    /// is put beside it.
    pub fn plan_batch(&self, ts_ms: u64, id: &str, batch: &Vec<Json>) -> (r: WalBatch)
        ensures
            r.tmp_name@ == base_name(ts_ms, id@) + ".jsonl.tmp"@,
            r.final_name@ == base_name(ts_ms, id@) + ".jsonl"@,
            r.sidecar_name@ == base_name(ts_ms, id@) + ".xxh3"@,
            r.content@ == batch_lines(batch@, batch@.len() as int),
            r.checksum@ == checksum_text(vstd::utf8::encode_utf8(r.content@)),
            r.sync == (self.fsync_mode != WalFsyncMode::Disabled),
            r.count == batch@.len(),
    {
        let mut base = format_decimal_padded(ts_ms, 16);
        base.push('-');
        let idc = chars_of(id);
        push_chars(&mut base, &idc);
        proof {
            assert(base@ =~= base_name(ts_ms, id@));
        }
        let mut content: Vec<char> = Vec::new();
        let mut i: usize = 0;
        while i < batch.len()
            invariant
                i <= batch.len(),
                content@ == batch_lines(batch@, i as int),
            decreases batch.len() - i,
        {
            let line = render_json(&batch[i]);
            let lc = chars_of(line.as_str());
            let ghost before = content@;
            push_chars(&mut content, &lc);
            content.push('\n');
            proof {
                assert(content@ =~= before + json_rendered(batch@[i as int]).push('\n'));
            }
            i += 1;
        }
        let text = string_of(&content);
        let checksum = checksum_hex(text.as_str().as_bytes());
        WalBatch {
            tmp_name: with_suffix(&base, ".jsonl.tmp"),
            final_name: with_suffix(&base, ".jsonl"),
            sidecar_name: with_suffix(&base, ".xxh3"),
            content: text,
            checksum,
            sync: needs_sync(self.fsync_mode),
            count: batch.len(),
        }
    }
}

} // verus!
