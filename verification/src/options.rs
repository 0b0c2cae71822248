//! The per-transfer options blob: a tiny JSON object with the two recognized
//! keys `backup_existing` (string or null) and `chunk_size` (unsigned integer
//! or null).  Encoders emit both keys; decoders ignore unknown keys.

use vstd::prelude::*;

use crate::error::Error;
use crate::text::dec_digits;
use crate::text::dec_val;
use crate::text::fmt_u64;
use crate::text::is_digit;

verus! {

/// A single option, as a caller of the sender side states it.
#[derive(Debug, Clone, PartialEq, Eq)]
pub enum Options {
    /// On a successful replace, keep the pre-existing committed file under
    /// its name plus this suffix.
    BackupExisting(Vec<u8>),
    /// Sender-side override of the default chunk size.
    ChunkSize(u64),
}

/// The decoded options of one transfer.
#[derive(Debug, Clone, PartialEq, Eq)]
pub struct FileOptions {
    /// Suffix for backing up an existing committed file, if requested.
    pub backup_existing: Option<Vec<u8>>,
    /// Chunk-size override, if requested.
    pub chunk_size: Option<u64>,
}

/// What a list of [`Options`] folds to: later entries win.
pub open spec fn collected(opts: Seq<Options>) -> (Option<Seq<u8>>, Option<u64>)
    decreases opts.len(),
{
    if opts.len() == 0 {
        (None, None)
    } else {
        let prev = collected(opts.drop_last());
        match opts.last() {
            Options::BackupExisting(s) => (Some(s@), prev.1),
            Options::ChunkSize(n) => (prev.0, Some(n)),
        }
    }
}

/// The view of a `FileOptions` value as plain mathematical data.
pub open spec fn options_view(o: FileOptions) -> (Option<Seq<u8>>, Option<u64>) {
    (
        match o.backup_existing {
            Some(s) => Some(s@),
            None => None,
        },
        o.chunk_size,
    )
}

impl FileOptions {
    /// Fold a caller's option list; absent list means no options.  A later
    /// entry for the same key overrides an earlier one.
    pub fn new(options: Option<&[Options]>) -> (r: FileOptions)
        ensures
            options_view(r) == match options {
                Some(s) => collected(s@),
                None => collected(Seq::<Options>::empty()),
            },
    {
        let mut r = FileOptions { backup_existing: None, chunk_size: None };
        if let Some(opts) = options {
            let mut i: usize = 0;
            while i < opts.len()
                invariant
                    i <= opts@.len(),
                    options_view(r) == collected(opts@.take(i as int)),
                decreases opts@.len() - i,
            {
                proof {
                    assert(opts@.take(i + 1 as int).drop_last() =~= opts@.take(i as int));
                }
                match vstd::slice::slice_index_get(opts, i) {
                    Options::BackupExisting(suffix) => {
                        let mut s: Vec<u8> = Vec::new();
                        s.extend_from_slice(suffix.as_slice());
                        r.backup_existing = Some(s);
                    },
                    Options::ChunkSize(size) => {
                        r.chunk_size = Some(*size);
                    },
                }
                i = i + 1;
            }
            proof {
                assert(opts@.take(opts@.len() as int) =~= opts@);
            }
        }
        r
    }
}

// ---------------------------------------------------------------------------
// Encoding
// ---------------------------------------------------------------------------
/// `"backup_existing"`.
pub open spec fn key_backup() -> Seq<u8> {
    seq![98u8, 97u8, 99u8, 107u8, 117u8, 112u8, 95u8, 101u8, 120u8, 105u8, 115u8, 116u8, 105u8, 110u8, 103u8]
}

/// `"chunk_size"`.
pub open spec fn key_chunk_size() -> Seq<u8> {
    seq![99u8, 104u8, 117u8, 110u8, 107u8, 95u8, 115u8, 105u8, 122u8, 101u8]
}

/// `"null"`.
pub open spec fn lit_null() -> Seq<u8> {
    seq![110u8, 117u8, 108u8, 108u8]
}

/// `"true"`.
pub open spec fn lit_true() -> Seq<u8> {
    seq![116u8, 114u8, 117u8, 101u8]
}

/// `"false"`.
pub open spec fn lit_false() -> Seq<u8> {
    seq![102u8, 97u8, 108u8, 115u8, 101u8]
}

/// How one byte of string content is written: quotes and backslashes get a
/// backslash escape, everything else stands for itself.
pub open spec fn escape_byte(b: u8) -> Seq<u8> {
    if b == 34 || b == 92 {
        seq![92u8, b]
    } else {
        seq![b]
    }
}

/// A string content, escaped for a JSON string literal.
pub open spec fn json_escaped(s: Seq<u8>) -> Seq<u8>
    decreases s.len(),
{
    if s.len() == 0 {
        Seq::<u8>::empty()
    } else {
        escape_byte(s[0]) + json_escaped(s.drop_first())
    }
}

/// Appending one byte to the content appends its escape to the literal.
pub proof fn lemma_json_escaped_push(s: Seq<u8>, b: u8)
    ensures
        json_escaped(s.push(b)) == json_escaped(s) + escape_byte(b),
    decreases s.len(),
{
    if s.len() == 0 {
        assert(s.push(b).drop_first() =~= Seq::<u8>::empty());
        assert(json_escaped(Seq::<u8>::empty()) == Seq::<u8>::empty());
        assert(s.push(b)[0] == b);
        assert(json_escaped(s.push(b)) == escape_byte(b) + json_escaped(Seq::<u8>::empty()));
        assert(json_escaped(s.push(b)) =~= json_escaped(s) + escape_byte(b));
    } else {
        assert(s.push(b).drop_first() =~= s.drop_first().push(b));
        assert(s.push(b)[0] == s[0]);
        lemma_json_escaped_push(s.drop_first(), b);
        assert(json_escaped(s.push(b)) == escape_byte(s[0]) + (json_escaped(s.drop_first())
            + escape_byte(b)));
        assert(json_escaped(s.push(b)) =~= json_escaped(s) + escape_byte(b));
    }
}

/// A JSON string literal: quote, escaped content, quote.
pub open spec fn json_string(s: Seq<u8>) -> Seq<u8> {
    seq![34u8] + json_escaped(s) + seq![34u8]
}

/// The canonical encoding of an options pair: both keys, in a fixed order.
pub open spec fn encoded_options(backup: Option<Seq<u8>>, chunk_size: Option<u64>) -> Seq<u8> {
    seq![123u8] + json_string(key_backup()) + seq![58u8] + (match backup {
        Some(s) => json_string(s),
        None => lit_null(),
    }) + seq![44u8] + json_string(key_chunk_size()) + seq![58u8] + (match chunk_size {
        Some(n) => dec_digits(n as nat),
        None => lit_null(),
    }) + seq![125u8]
}

/// Append the escaped form of `s` to `out`.
fn push_escaped(out: &mut Vec<u8>, s: &[u8])
    ensures
        final(out)@ == old(out)@ + json_escaped(s@),
{
    proof {
        assert(old(out)@ + json_escaped(s@.take(0)) =~= old(out)@);
    }
    let mut i: usize = 0;
    while i < s.len()
        invariant
            i <= s@.len(),
            out@ == old(out)@ + json_escaped(s@.take(i as int)),
        decreases s@.len() - i,
    {
        let b = s[i];
        proof {
            assert(s@.take(i + 1 as int) =~= s@.take(i as int).push(b));
            lemma_json_escaped_push(s@.take(i as int), b);
        }
        if b == 34 || b == 92 {
            out.push(92);
            out.push(b);
        } else {
            out.push(b);
        }
        proof {
            assert(out@ =~= old(out)@ + json_escaped(s@.take(i + 1 as int)));
        }
        i = i + 1;
    }
    proof {
        assert(s@.take(s@.len() as int) =~= s@);
    }
}

/// Append `extra` to `out`.
fn push_all(out: &mut Vec<u8>, extra: &[u8])
    ensures
        final(out)@ == old(out)@ + extra@,
{
    out.extend_from_slice(extra);
}

/// `"backup_existing"` as bytes.
fn mk_key_backup() -> (r: Vec<u8>)
    ensures
        r@ == key_backup(),
{
    let r: Vec<u8> = vec![98u8, 97u8, 99u8, 107u8, 117u8, 112u8, 95u8, 101u8, 120u8, 105u8, 115u8, 116u8, 105u8, 110u8, 103u8];
    proof {
        assert(r@ =~= key_backup());
    }
    r
}

/// `"chunk_size"` as bytes.
fn mk_key_chunk_size() -> (r: Vec<u8>)
    ensures
        r@ == key_chunk_size(),
{
    let r: Vec<u8> = vec![99u8, 104u8, 117u8, 110u8, 107u8, 95u8, 115u8, 105u8, 122u8, 101u8];
    proof {
        assert(r@ =~= key_chunk_size());
    }
    r
}

/// `"null"` as bytes.
fn mk_lit_null() -> (r: Vec<u8>)
    ensures
        r@ == lit_null(),
{
    let r: Vec<u8> = vec![110u8, 117u8, 108u8, 108u8];
    proof {
        assert(r@ =~= lit_null());
    }
    r
}

impl FileOptions {
    /// Encode the options as their canonical JSON blob.
    pub fn encode(&self) -> (r: Vec<u8>)
        ensures
            r@ == encoded_options(options_view(*self).0, options_view(*self).1),
    {
        let mut out: Vec<u8> = Vec::new();
        out.push(123);  // {
        out.push(34);  // "
        let kb = mk_key_backup();
        push_escaped(&mut out, kb.as_slice());
        out.push(34);
        out.push(58);  // :
        match &self.backup_existing {
            Some(s) => {
                out.push(34);
                push_escaped(&mut out, s.as_slice());
                out.push(34);
            },
            None => {
                let n = mk_lit_null();
                push_all(&mut out, n.as_slice());
            },
        }
        out.push(44);  // ,
        out.push(34);
        let kc = mk_key_chunk_size();
        push_escaped(&mut out, kc.as_slice());
        out.push(34);
        out.push(58);
        match &self.chunk_size {
            Some(n) => {
                let d = fmt_u64(*n);
                push_all(&mut out, d.as_slice());
            },
            None => {
                let n = mk_lit_null();
                push_all(&mut out, n.as_slice());
            },
        }
        out.push(125);  // }
        proof {
            assert(out@ =~= encoded_options(options_view(*self).0, options_view(*self).1));
        }
        out
    }
}


// ---------------------------------------------------------------------------
// Decoding
// ---------------------------------------------------------------------------
/// JSON whitespace.
pub open spec fn is_ws(b: u8) -> bool {
    b == 32 || b == 9 || b == 10 || b == 13
}

/// The first index at or after `i` that does not hold whitespace.
pub open spec fn ws_end(s: Seq<u8>, i: int) -> int
    decreases s.len() - i,
{
    if i < s.len() && 0 <= i && is_ws(s[i]) {
        ws_end(s, i + 1)
    } else {
        i
    }
}

pub proof fn lemma_ws_end_range(s: Seq<u8>, i: int)
    requires
        0 <= i <= s.len(),
    ensures
        i <= ws_end(s, i) <= s.len(),
    decreases s.len() - i,
{
    if i < s.len() && is_ws(s[i]) {
        lemma_ws_end_range(s, i + 1);
    }
}

/// What one backslash escape stands for.
pub open spec fn unescaped(e: u8) -> Option<u8> {
    if e == 34 {
        Some(34u8)
    } else if e == 92 {
        Some(92u8)
    } else if e == 47 {
        Some(47u8)
    } else if e == 98 {
        Some(8u8)
    } else if e == 102 {
        Some(12u8)
    } else if e == 110 {
        Some(10u8)
    } else if e == 114 {
        Some(13u8)
    } else if e == 116 {
        Some(9u8)
    } else {
        None
    }
}

/// The value of a hexadecimal digit, upper or lower case.
pub open spec fn hex_val(b: u8) -> Option<nat> {
    if 48 <= b <= 57 {
        Some((b - 48) as nat)
    } else if 97 <= b <= 102 {
        Some((b - 87) as nat)
    } else if 65 <= b <= 70 {
        Some((b - 55) as nat)
    } else {
        None
    }
}

/// Parse the inside of a JSON string literal, starting just after the
/// opening quote: the unescaped content and the index after the closing
/// quote.  A `\u` escape is accepted for code points up to 127; larger ones
/// are rejected rather than re-encoded.
pub open spec fn parse_string_body(s: Seq<u8>, i: int) -> Option<(Seq<u8>, int)>
    decreases s.len() - i,
{
    if !(0 <= i < s.len()) {
        None
    } else if s[i] == 34 {
        Some((Seq::<u8>::empty(), i + 1))
    } else if s[i] == 92 {
        if !(i + 2 <= s.len()) {
            None
        } else if s[i + 1] == 117 {
            if !(i + 6 <= s.len()) {
                None
            } else {
                match (hex_val(s[i + 2]), hex_val(s[i + 3]), hex_val(s[i + 4]), hex_val(s[i + 5])) {
                    (Some(h3), Some(h2), Some(h1), Some(h0)) => {
                        let v = h3 * 4096 + h2 * 256 + h1 * 16 + h0;
                        if v <= 127 {
                            match parse_string_body(s, i + 6) {
                                Some((rest, e)) => Some((seq![v as u8] + rest, e)),
                                None => None,
                            }
                        } else {
                            None
                        }
                    },
                    _ => None,
                }
            }
        } else {
            match unescaped(s[i + 1]) {
                Some(b) => match parse_string_body(s, i + 2) {
                    Some((rest, e)) => Some((seq![b] + rest, e)),
                    None => None,
                },
                None => None,
            }
        }
    } else {
        match parse_string_body(s, i + 1) {
            Some((rest, e)) => Some((seq![s[i]] + rest, e)),
            None => None,
        }
    }
}

pub proof fn lemma_parse_string_body_range(s: Seq<u8>, i: int)
    requires
        0 <= i,
    ensures
        match parse_string_body(s, i) {
            Some((_, e)) => i < e <= s.len(),
            None => true,
        },
    decreases s.len() - i,
{
    if 0 <= i < s.len() && s[i] != 34 {
        if s[i] == 92 {
            if i + 6 <= s.len() {
                lemma_parse_string_body_range(s, i + 6);
            }
            if i + 2 <= s.len() {
                lemma_parse_string_body_range(s, i + 2);
            }
        } else {
            lemma_parse_string_body_range(s, i + 1);
        }
    }
}

/// The end of the run of decimal digits starting at `i`.
pub open spec fn digits_end(s: Seq<u8>, i: int) -> int
    decreases s.len() - i,
{
    if i < s.len() && 0 <= i && is_digit(s[i]) {
        digits_end(s, i + 1)
    } else {
        i
    }
}

pub proof fn lemma_digits_end_range(s: Seq<u8>, i: int)
    requires
        0 <= i <= s.len(),
    ensures
        i <= digits_end(s, i) <= s.len(),
    decreases s.len() - i,
{
    if i < s.len() && is_digit(s[i]) {
        lemma_digits_end_range(s, i + 1);
    }
}

/// Parse a JSON unsigned integer at `i`: a nonempty digit run, no leading
/// zero (except the single digit `0`), value at most `u64::MAX`.
pub open spec fn parse_uint(s: Seq<u8>, i: int) -> Option<(u64, int)> {
    let e = digits_end(s, i);
    if e == i {
        None
    } else if s[i] == 48 && e > i + 1 {
        None
    } else if dec_val(s.subrange(i, e)) > u64::MAX {
        None
    } else {
        Some((dec_val(s.subrange(i, e)) as u64, e))
    }
}

/// A byte that may appear in a JSON number; used only to step over numbers
/// in unknown keys.
pub open spec fn is_number_byte(b: u8) -> bool {
    is_digit(b) || b == 45 || b == 43 || b == 46 || b == 101 || b == 69
}

/// The end of the run of number bytes starting at `i`.
pub open spec fn number_end(s: Seq<u8>, i: int) -> int
    decreases s.len() - i,
{
    if i < s.len() && 0 <= i && is_number_byte(s[i]) {
        number_end(s, i + 1)
    } else {
        i
    }
}

pub proof fn lemma_number_end_range(s: Seq<u8>, i: int)
    requires
        0 <= i <= s.len(),
    ensures
        i <= number_end(s, i) <= s.len(),
    decreases s.len() - i,
{
    if i < s.len() && is_number_byte(s[i]) {
        lemma_number_end_range(s, i + 1);
    }
}

/// Does `lit` stand verbatim at index `i`?
pub open spec fn has_lit(s: Seq<u8>, i: int, lit: Seq<u8>) -> bool {
    0 <= i && i + lit.len() <= s.len() && s.subrange(i, i + lit.len()) == lit
}

/// Step over one JSON value of any shape, starting at a non-whitespace
/// index; `depth` bounds the nesting and pair count, and callers pass the
/// input length, which no value can exhaust.
pub open spec fn skip_value(s: Seq<u8>, i: int, depth: nat) -> Option<int>
    decreases depth,
{
    if depth == 0 || !(0 <= i < s.len()) {
        None
    } else if s[i] == 123 {
        skip_object_body(s, i + 1, (depth - 1) as nat)
    } else if s[i] == 91 {
        skip_array_items(s, ws_end(s, i + 1), true, (depth - 1) as nat)
    } else if s[i] == 34 {
        match parse_string_body(s, i + 1) {
            Some((_, e)) => Some(e),
            None => None,
        }
    } else if s[i] == 116 {
        if has_lit(s, i, lit_true()) {
            Some(i + 4)
        } else {
            None
        }
    } else if s[i] == 102 {
        if has_lit(s, i, lit_false()) {
            Some(i + 5)
        } else {
            None
        }
    } else if s[i] == 110 {
        if has_lit(s, i, lit_null()) {
            Some(i + 4)
        } else {
            None
        }
    } else if s[i] == 45 || is_digit(s[i]) {
        let e = number_end(s, i);
        if e > i {
            Some(e)
        } else {
            None
        }
    } else {
        None
    }
}

/// Step over the members of an object, starting just after `{`.
pub open spec fn skip_object_body(s: Seq<u8>, i: int, depth: nat) -> Option<int>
    decreases depth,
{
    if depth == 0 {
        None
    } else {
        let j = ws_end(s, i);
        if 0 <= j < s.len() && s[j] == 125 {
            Some(j + 1)
        } else {
            skip_members(s, j, (depth - 1) as nat)
        }
    }
}

/// Step over `key : value (, key : value)* }`, starting at the opening
/// quote of a key.
pub open spec fn skip_members(s: Seq<u8>, i: int, depth: nat) -> Option<int>
    decreases depth,
{
    if depth == 0 {
        None
    } else if !(0 <= i < s.len() && s[i] == 34) {
        None
    } else {
        match parse_string_body(s, i + 1) {
            None => None,
            Some((_, j)) => {
                let j2 = ws_end(s, j);
                if !(0 <= j2 < s.len() && s[j2] == 58) {
                    None
                } else {
                    match skip_value(s, ws_end(s, j2 + 1), (depth - 1) as nat) {
                        None => None,
                        Some(v) => {
                            let j3 = ws_end(s, v);
                            if 0 <= j3 < s.len() && s[j3] == 44 {
                                skip_members(s, ws_end(s, j3 + 1), (depth - 1) as nat)
                            } else if 0 <= j3 < s.len() && s[j3] == 125 {
                                Some(j3 + 1)
                            } else {
                                None
                            }
                        },
                    }
                }
            },
        }
    }
}

/// Step over `value (, value)* ]`, starting at a non-whitespace index;
/// `first` is true until a value has been passed, so that `[]` is accepted
/// but `[1,]` is not.
pub open spec fn skip_array_items(s: Seq<u8>, i: int, first: bool, depth: nat) -> Option<int>
    decreases depth,
{
    if depth == 0 {
        None
    } else if first && 0 <= i < s.len() && s[i] == 93 {
        Some(i + 1)
    } else {
        match skip_value(s, i, (depth - 1) as nat) {
            None => None,
            Some(v) => {
                let j = ws_end(s, v);
                if 0 <= j < s.len() && s[j] == 44 {
                    skip_array_items(s, ws_end(s, j + 1), false, (depth - 1) as nat)
                } else if 0 <= j < s.len() && s[j] == 93 {
                    Some(j + 1)
                } else {
                    None
                }
            },
        }
    }
}

/// One `key : value` pair's effect on the accumulated options, given the
/// value starts at `i`: recognized keys must carry a value of the right
/// shape, unknown keys may carry any JSON value.
pub open spec fn parse_pair_value(
    s: Seq<u8>,
    i: int,
    key: Seq<u8>,
    b: Option<Seq<u8>>,
    c: Option<u64>,
    depth: nat,
) -> Option<(Option<Seq<u8>>, Option<u64>, int)> {
    if key == key_backup() {
        if 0 <= i < s.len() && s[i] == 34 {
            match parse_string_body(s, i + 1) {
                Some((v, e)) => Some((Some(v), c, e)),
                None => None,
            }
        } else if has_lit(s, i, lit_null()) {
            Some((None, c, i + 4))
        } else {
            None
        }
    } else if key == key_chunk_size() {
        if has_lit(s, i, lit_null()) {
            Some((b, None, i + 4))
        } else {
            match parse_uint(s, i) {
                Some((n, e)) => Some((b, Some(n), e)),
                None => None,
            }
        }
    } else {
        match skip_value(s, i, depth) {
            Some(e) => Some((b, c, e)),
            None => None,
        }
    }
}

/// Parse the members of the top-level object, accumulating the recognized
/// keys; later occurrences of a key win.  Starts at the opening quote of a
/// key; returns the options and the index just after the closing `}`.
pub open spec fn parse_members(
    s: Seq<u8>,
    i: int,
    b: Option<Seq<u8>>,
    c: Option<u64>,
    depth: nat,
) -> Option<((Option<Seq<u8>>, Option<u64>), int)>
    decreases depth,
{
    if depth == 0 {
        None
    } else if !(0 <= i < s.len() && s[i] == 34) {
        None
    } else {
        match parse_string_body(s, i + 1) {
            None => None,
            Some((key, j)) => {
                let j2 = ws_end(s, j);
                if !(0 <= j2 < s.len() && s[j2] == 58) {
                    None
                } else {
                    match parse_pair_value(s, ws_end(s, j2 + 1), key, b, c, (depth - 1) as nat) {
                        None => None,
                        Some((b2, c2, k)) => {
                            let j3 = ws_end(s, k);
                            if 0 <= j3 < s.len() && s[j3] == 44 {
                                parse_members(s, ws_end(s, j3 + 1), b2, c2, (depth - 1) as nat)
                            } else if 0 <= j3 < s.len() && s[j3] == 125 {
                                Some(((b2, c2), j3 + 1))
                            } else {
                                None
                            }
                        },
                    }
                }
            },
        }
    }
}

/// The whole decoder: a JSON object, with optional surrounding whitespace,
/// whose recognized keys have the right value shapes.
pub open spec fn decode_spec(s: Seq<u8>) -> Option<(Option<Seq<u8>>, Option<u64>)> {
    let i = ws_end(s, 0);
    if !(0 <= i < s.len() && s[i] == 123) {
        None
    } else {
        let j = ws_end(s, i + 1);
        if 0 <= j < s.len() && s[j] == 125 {
            if ws_end(s, j + 1) == s.len() {
                Some((None, None))
            } else {
                None
            }
        } else {
            match parse_members(s, j, None, None, s.len() as nat) {
                Some((acc, e)) => {
                    if ws_end(s, e) == s.len() {
                        Some(acc)
                    } else {
                        None
                    }
                },
                None => None,
            }
        }
    }
}


/// `Option<Vec<u8>>` as plain mathematical data.
pub open spec fn opt_bytes_view(o: Option<Vec<u8>>) -> Option<Seq<u8>> {
    match o {
        Some(v) => Some(v@),
        None => None,
    }
}

/// `"true"` as bytes.
fn mk_lit_true() -> (r: Vec<u8>)
    ensures
        r@ == lit_true(),
{
    let r: Vec<u8> = vec![116u8, 114u8, 117u8, 101u8];
    proof {
        assert(r@ =~= lit_true());
    }
    r
}

/// `"false"` as bytes.
fn mk_lit_false() -> (r: Vec<u8>)
    ensures
        r@ == lit_false(),
{
    let r: Vec<u8> = vec![102u8, 97u8, 108u8, 115u8, 101u8];
    proof {
        assert(r@ =~= lit_false());
    }
    r
}

fn ws_end_x(s: &[u8], i: usize) -> (r: usize)
    requires
        i <= s@.len(),
    ensures
        r == ws_end(s@, i as int),
        i <= r <= s@.len(),
    decreases s@.len() - i,
{
    if i < s.len() {
        let b = s[i];
        if b == 32 || b == 9 || b == 10 || b == 13 {
            return ws_end_x(s, i + 1);
        }
    }
    i
}

fn digits_end_x(s: &[u8], i: usize) -> (r: usize)
    requires
        i <= s@.len(),
    ensures
        r == digits_end(s@, i as int),
        i <= r <= s@.len(),
    decreases s@.len() - i,
{
    if i < s.len() {
        let b = s[i];
        if 48 <= b && b <= 57 {
            return digits_end_x(s, i + 1);
        }
    }
    i
}

fn number_end_x(s: &[u8], i: usize) -> (r: usize)
    requires
        i <= s@.len(),
    ensures
        r == number_end(s@, i as int),
        i <= r <= s@.len(),
    decreases s@.len() - i,
{
    if i < s.len() {
        let b = s[i];
        if (48 <= b && b <= 57) || b == 45 || b == 43 || b == 46 || b == 101 || b == 69 {
            return number_end_x(s, i + 1);
        }
    }
    i
}

fn hex_val_x(b: u8) -> (r: Option<u8>)
    ensures
        match r {
            Some(v) => hex_val(b) == Some(v as nat) && v <= 15,
            None => hex_val(b) is None,
        },
{
    if 48 <= b && b <= 57 {
        Some(b - 48)
    } else if 97 <= b && b <= 102 {
        Some(b - 87)
    } else if 65 <= b && b <= 70 {
        Some(b - 55)
    } else {
        None
    }
}

fn unescaped_x(e: u8) -> (r: Option<u8>)
    ensures
        r == unescaped(e),
{
    if e == 34 {
        Some(34)
    } else if e == 92 {
        Some(92)
    } else if e == 47 {
        Some(47)
    } else if e == 98 {
        Some(8)
    } else if e == 102 {
        Some(12)
    } else if e == 110 {
        Some(10)
    } else if e == 114 {
        Some(13)
    } else if e == 116 {
        Some(9)
    } else {
        None
    }
}

fn has_lit_x(s: &[u8], i: usize, lit: &[u8]) -> (r: bool)
    requires
        i <= s@.len(),
    ensures
        r == has_lit(s@, i as int, lit@),
{
    if s.len() - i < lit.len() {
        return false;
    }
    let sub = vstd::slice::slice_subrange(s, i, i + lit.len());
    crate::wire::frame_is(sub, lit)
}

fn parse_string_body_x(s: &[u8], i: usize) -> (r: Option<(Vec<u8>, usize)>)
    requires
        i <= s@.len(),
    ensures
        match r {
            Some((v, e)) => parse_string_body(s@, i as int) == Some((v@, e as int)) && i < e
                <= s@.len(),
            None => parse_string_body(s@, i as int) is None,
        },
    decreases s@.len() - i,
{
    if i >= s.len() {
        return None;
    }
    let b = s[i];
    if b == 34 {
        let out: Vec<u8> = Vec::new();
        proof {
            assert(out@ =~= Seq::<u8>::empty());
        }
        return Some((out, i + 1));
    }
    if b == 92 {
        if s.len() - i < 2 {
            return None;
        }
        let e = s[i + 1];
        if e == 117 {
            if s.len() - i < 6 {
                return None;
            }
            let h3 = hex_val_x(s[i + 2]);
            let h2 = hex_val_x(s[i + 3]);
            let h1 = hex_val_x(s[i + 4]);
            let h0 = hex_val_x(s[i + 5]);
            match (h3, h2, h1, h0) {
                (Some(a3), Some(a2), Some(a1), Some(a0)) => {
                    let v: u32 = (a3 as u32) * 4096 + (a2 as u32) * 256 + (a1 as u32) * 16 + (
                    a0 as u32);
                    if v <= 127 {
                        match parse_string_body_x(s, i + 6) {
                            Some((rest, end)) => {
                                let mut out = rest;
                                out.insert(0, v as u8);
                                proof {
                                    assert(out@ =~= seq![(v as u8)] + out@.skip(1));
                                }
                                Some((out, end))
                            },
                            None => None,
                        }
                    } else {
                        None
                    }
                },
                _ => None,
            }
        } else {
            match unescaped_x(e) {
                Some(u) => match parse_string_body_x(s, i + 2) {
                    Some((rest, end)) => {
                        let mut out = rest;
                        out.insert(0, u);
                        proof {
                            assert(out@ =~= seq![u] + out@.skip(1));
                        }
                        Some((out, end))
                    },
                    None => None,
                },
                None => None,
            }
        }
    } else {
        match parse_string_body_x(s, i + 1) {
            Some((rest, end)) => {
                let mut out = rest;
                out.insert(0, b);
                proof {
                    assert(out@ =~= seq![b] + out@.skip(1));
                }
                Some((out, end))
            },
            None => None,
        }
    }
}

fn parse_uint_x(s: &[u8], i: usize) -> (r: Option<(u64, usize)>)
    requires
        i <= s@.len(),
    ensures
        match r {
            Some((n, e)) => parse_uint(s@, i as int) == Some((n, e as int)) && i < e <= s@.len(),
            None => parse_uint(s@, i as int) is None,
        },
{
    let e = digits_end_x(s, i);
    if e == i {
        return None;
    }
    proof {
        lemma_digits_end_digits(s@, i as int);
    }
    if s[i] == 48 && e > i + 1 {
        return None;
    }
    let ghost whole = s@.subrange(i as int, e as int);
    let mut val: u64 = 0;
    let mut j: usize = i;
    while j < e
        invariant
            i <= j <= e <= s@.len(),
            e == digits_end(s@, i as int),
            whole == s@.subrange(i as int, e as int),
            forall|k: int| i <= k < e ==> is_digit(s@[k]),
            val == dec_val(s@.subrange(i as int, j as int)),
        decreases e - j,
    {
        let b = s[j];
        let d: u64 = (b - 48) as u64;
        proof {
            assert(s@.subrange(i as int, j + 1 as int).drop_last() =~= s@.subrange(
                i as int,
                j as int,
            ));
            assert(whole.take(j + 1 - i as int) =~= s@.subrange(i as int, j + 1 as int));
        }
        if val > (u64::MAX - d) / 10 {
            proof {
                crate::text::lemma_dec_val_prefix_bound(whole, j + 1 - i as int);
                assert(dec_val(s@.subrange(i as int, j + 1 as int)) == val * 10 + d);
                assert(val * 10 + d > u64::MAX) by (nonlinear_arith)
                    requires
                        val > (u64::MAX - d) / 10,
                        d <= 9,
                ;
                assert(dec_val(whole) >= dec_val(whole.take(j + 1 - i as int)));
                assert(dec_val(whole) > u64::MAX);
                assert(parse_uint(s@, i as int) is None);
            }
            return None;
        }
        proof {
            assert(val * 10 + d <= u64::MAX) by (nonlinear_arith)
                requires
                    val <= (u64::MAX - d) / 10,
                    d <= 9,
            ;
        }
        val = val * 10 + d;
        j = j + 1;
    }
    Some((val, e))
}

proof fn lemma_digits_end_digits(s: Seq<u8>, i: int)
    requires
        0 <= i <= s.len(),
    ensures
        forall|k: int| i <= k < digits_end(s, i) ==> is_digit(s[k]),
        digits_end(s, i) <= s.len(),
        i <= digits_end(s, i),
    decreases s.len() - i,
{
    if i < s.len() && is_digit(s[i]) {
        lemma_digits_end_digits(s, i + 1);
    }
}


fn skip_value_x(s: &[u8], i: usize, depth: usize) -> (r: Option<usize>)
    requires
        i <= s@.len(),
    ensures
        match r {
            Some(e) => skip_value(s@, i as int, depth as nat) == Some(e as int) && i < e
                <= s@.len(),
            None => skip_value(s@, i as int, depth as nat) is None,
        },
    decreases depth,
{
    if depth == 0 || i >= s.len() {
        return None;
    }
    let b = s[i];
    if b == 123 {
        skip_object_body_x(s, i + 1, depth - 1)
    } else if b == 91 {
        let j = ws_end_x(s, i + 1);
        skip_array_items_x(s, j, true, depth - 1)
    } else if b == 34 {
        match parse_string_body_x(s, i + 1) {
            Some((_, e)) => Some(e),
            None => None,
        }
    } else if b == 116 {
        let lit = mk_lit_true();
        if has_lit_x(s, i, lit.as_slice()) {
            let slen: usize = s.len();
            proof {
                assert(lit_true().len() == 4);
                assert(i + 4 <= slen);
            }
            Some(i + 4)
        } else {
            None
        }
    } else if b == 102 {
        let lit = mk_lit_false();
        if has_lit_x(s, i, lit.as_slice()) {
            let slen: usize = s.len();
            proof {
                assert(lit_false().len() == 5);
                assert(i + 5 <= slen);
            }
            Some(i + 5)
        } else {
            None
        }
    } else if b == 110 {
        let lit = mk_lit_null();
        if has_lit_x(s, i, lit.as_slice()) {
            let slen: usize = s.len();
            proof {
                assert(lit_null().len() == 4);
                assert(i + 4 <= slen);
            }
            Some(i + 4)
        } else {
            None
        }
    } else if b == 45 || (48 <= b && b <= 57) {
        let e = number_end_x(s, i);
        if e > i {
            Some(e)
        } else {
            None
        }
    } else {
        None
    }
}

fn skip_object_body_x(s: &[u8], i: usize, depth: usize) -> (r: Option<usize>)
    requires
        i <= s@.len(),
    ensures
        match r {
            Some(e) => skip_object_body(s@, i as int, depth as nat) == Some(e as int) && i < e
                <= s@.len(),
            None => skip_object_body(s@, i as int, depth as nat) is None,
        },
    decreases depth,
{
    if depth == 0 {
        return None;
    }
    let j = ws_end_x(s, i);
    if j < s.len() && s[j] == 125 {
        Some(j + 1)
    } else {
        skip_members_x(s, j, depth - 1)
    }
}

fn skip_members_x(s: &[u8], i: usize, depth: usize) -> (r: Option<usize>)
    requires
        i <= s@.len(),
    ensures
        match r {
            Some(e) => skip_members(s@, i as int, depth as nat) == Some(e as int) && i < e
                <= s@.len(),
            None => skip_members(s@, i as int, depth as nat) is None,
        },
    decreases depth,
{
    if depth == 0 {
        return None;
    }
    if i >= s.len() || s[i] != 34 {
        return None;
    }
    match parse_string_body_x(s, i + 1) {
        None => None,
        Some((_, j)) => {
            let j2 = ws_end_x(s, j);
            if j2 >= s.len() || s[j2] != 58 {
                return None;
            }
            let j3 = ws_end_x(s, j2 + 1);
            match skip_value_x(s, j3, depth - 1) {
                None => None,
                Some(v) => {
                    let j4 = ws_end_x(s, v);
                    if j4 < s.len() && s[j4] == 44 {
                        let j5 = ws_end_x(s, j4 + 1);
                        skip_members_x(s, j5, depth - 1)
                    } else if j4 < s.len() && s[j4] == 125 {
                        Some(j4 + 1)
                    } else {
                        None
                    }
                },
            }
        },
    }
}

fn skip_array_items_x(s: &[u8], i: usize, first: bool, depth: usize) -> (r: Option<usize>)
    requires
        i <= s@.len(),
    ensures
        match r {
            Some(e) => skip_array_items(s@, i as int, first, depth as nat) == Some(e as int) && i
                < e <= s@.len(),
            None => skip_array_items(s@, i as int, first, depth as nat) is None,
        },
    decreases depth,
{
    if depth == 0 {
        return None;
    }
    if first && i < s.len() && s[i] == 93 {
        return Some(i + 1);
    }
    match skip_value_x(s, i, depth - 1) {
        None => None,
        Some(v) => {
            let j = ws_end_x(s, v);
            if j < s.len() && s[j] == 44 {
                let j2 = ws_end_x(s, j + 1);
                skip_array_items_x(s, j2, false, depth - 1)
            } else if j < s.len() && s[j] == 93 {
                Some(j + 1)
            } else {
                None
            }
        },
    }
}

fn parse_pair_value_x(
    s: &[u8],
    i: usize,
    key: &[u8],
    b: Option<Vec<u8>>,
    c: Option<u64>,
    depth: usize,
) -> (r: Option<(Option<Vec<u8>>, Option<u64>, usize)>)
    requires
        i <= s@.len(),
    ensures
        match r {
            Some((b2, c2, e)) => parse_pair_value(
                s@,
                i as int,
                key@,
                opt_bytes_view(b),
                c,
                depth as nat,
            ) == Some((opt_bytes_view(b2), c2, e as int)) && e <= s@.len(),
            None => parse_pair_value(s@, i as int, key@, opt_bytes_view(b), c, depth as nat)
                is None,
        },
{
    let kb = mk_key_backup();
    let kc = mk_key_chunk_size();
    if crate::wire::frame_is(key, kb.as_slice()) {
        if i < s.len() && s[i] == 34 {
            match parse_string_body_x(s, i + 1) {
                Some((v, e)) => Some((Some(v), c, e)),
                None => None,
            }
        } else {
            let nl = mk_lit_null();
            if has_lit_x(s, i, nl.as_slice()) {
                let slen: usize = s.len();
                proof {
                    assert(lit_null().len() == 4);
                    assert(i + 4 <= slen);
                }
                Some((None, c, i + 4))
            } else {
                None
            }
        }
    } else if crate::wire::frame_is(key, kc.as_slice()) {
        let nl = mk_lit_null();
        if has_lit_x(s, i, nl.as_slice()) {
            let slen: usize = s.len();
            proof {
                assert(lit_null().len() == 4);
                assert(i + 4 <= slen);
            }
            Some((b, None, i + 4))
        } else {
            match parse_uint_x(s, i) {
                Some((n, e)) => Some((b, Some(n), e)),
                None => None,
            }
        }
    } else {
        match skip_value_x(s, i, depth) {
            Some(e) => Some((b, c, e)),
            None => None,
        }
    }
}

fn parse_members_x(
    s: &[u8],
    i: usize,
    b: Option<Vec<u8>>,
    c: Option<u64>,
    depth: usize,
) -> (r: Option<(Option<Vec<u8>>, Option<u64>, usize)>)
    requires
        i <= s@.len(),
    ensures
        match r {
            Some((b2, c2, e)) => parse_members(
                s@,
                i as int,
                opt_bytes_view(b),
                c,
                depth as nat,
            ) == Some(((opt_bytes_view(b2), c2), e as int)) && e <= s@.len(),
            None => parse_members(s@, i as int, opt_bytes_view(b), c, depth as nat) is None,
        },
    decreases depth,
{
    if depth == 0 {
        return None;
    }
    if i >= s.len() || s[i] != 34 {
        return None;
    }
    match parse_string_body_x(s, i + 1) {
        None => None,
        Some((key, j)) => {
            let j2 = ws_end_x(s, j);
            if j2 >= s.len() || s[j2] != 58 {
                return None;
            }
            let j3 = ws_end_x(s, j2 + 1);
            match parse_pair_value_x(s, j3, key.as_slice(), b, c, depth - 1) {
                None => None,
                Some((b2, c2, k)) => {
                    let j4 = ws_end_x(s, k);
                    if j4 < s.len() && s[j4] == 44 {
                        let j5 = ws_end_x(s, j4 + 1);
                        parse_members_x(s, j5, b2, c2, depth - 1)
                    } else if j4 < s.len() && s[j4] == 125 {
                        Some((b2, c2, j4 + 1))
                    } else {
                        None
                    }
                },
            }
        },
    }
}

impl FileOptions {
    /// Decode an options blob.  Succeeds exactly on the inputs that
    /// [`decode_spec`] accepts: a JSON object whose recognized keys carry a
    /// string-or-null (`backup_existing`) and an unsigned-integer-or-null
    /// (`chunk_size`); unknown keys may carry any JSON value and are
    /// ignored.
    pub fn decode(encoded: &[u8]) -> (r: Result<FileOptions, Error>)
        ensures
            match r {
                Ok(o) => decode_spec(encoded@) == Some(options_view(o)),
                Err(e) => decode_spec(encoded@) is None && e == Error::InvalidFileOpts,
            },
    {
        let i = ws_end_x(encoded, 0);
        if i >= encoded.len() || encoded[i] != 123 {
            return Err(Error::InvalidFileOpts);
        }
        let j = ws_end_x(encoded, i + 1);
        if j < encoded.len() && encoded[j] == 125 {
            if ws_end_x(encoded, j + 1) == encoded.len() {
                return Ok(FileOptions { backup_existing: None, chunk_size: None });
            } else {
                return Err(Error::InvalidFileOpts);
            }
        }
        match parse_members_x(encoded, j, None, None, encoded.len()) {
            Some((b2, c2, e)) => {
                if ws_end_x(encoded, e) == encoded.len() {
                    Ok(FileOptions { backup_existing: b2, chunk_size: c2 })
                } else {
                    Err(Error::InvalidFileOpts)
                }
            },
            None => Err(Error::InvalidFileOpts),
        }
    }
}


// ---------------------------------------------------------------------------
// The decoder understands the encoder
// ---------------------------------------------------------------------------
/// Content without quotes or backslashes is written verbatim.
proof fn lemma_json_escaped_plain(s: Seq<u8>)
    requires
        forall|k: int| 0 <= k < s.len() ==> s[k] != 34 && s[k] != 92,
    ensures
        json_escaped(s) == s,
    decreases s.len(),
{
    if s.len() > 0 {
        assert forall|k: int| 0 <= k < s.drop_first().len() implies s.drop_first()[k] != 34
            && s.drop_first()[k] != 92 by {
            assert(s.drop_first()[k] == s[k + 1]);
        }
        lemma_json_escaped_plain(s.drop_first());
        assert(escape_byte(s[0]) == seq![s[0]]);
        assert(json_escaped(s) =~= s);
    }
}

/// Parsing a string literal whose escaped content sits at `i` and whose
/// closing quote follows yields the content back, ending after the quote.
proof fn lemma_parse_string_at(s: Seq<u8>, i: int, content: Seq<u8>)
    requires
        0 <= i,
        i + json_escaped(content).len() + 1 <= s.len(),
        s.subrange(i, i + json_escaped(content).len() as int) == json_escaped(content),
        s[i + json_escaped(content).len()] == 34,
    ensures
        parse_string_body(s, i) == Some((content, i + json_escaped(content).len() + 1)),
    decreases content.len(),
{
    let esc = json_escaped(content);
    if content.len() == 0 {
        assert(esc =~= Seq::<u8>::empty());
        assert(s[i] == 34);
        assert(content =~= Seq::<u8>::empty());
    } else {
        let b0 = content[0];
        let rest = content.drop_first();
        let e0 = escape_byte(b0);
        let erest = json_escaped(rest);
        assert(esc == e0 + erest);
        if b0 == 34 || b0 == 92 {
            assert(e0 == seq![92u8, b0]);
            assert(s[i] == esc[0] && esc[0] == 92);
            assert(s[i + 1] == esc[1] && esc[1] == b0);
            assert(s.subrange(i + 2, i + 2 + erest.len() as int) =~= erest) by {
                assert forall|k: int| 0 <= k < erest.len() implies s.subrange(
                    i + 2,
                    i + 2 + erest.len() as int,
                )[k] == erest[k] by {
                    assert(s.subrange(i + 2, i + 2 + erest.len() as int)[k] == s[i + 2 + k]);
                    assert(s[i + 2 + k] == esc[k + 2]);
                    assert(esc[k + 2] == erest[k]);
                }
            }
            assert(s[i + 2 + erest.len()] == 34);
            lemma_parse_string_at(s, i + 2, rest);
            assert(b0 != 117);
            assert(unescaped(b0) == Some(b0));
            assert(seq![b0] + rest =~= content);
        } else {
            assert(e0 == seq![b0]);
            assert(s[i] == esc[0] && esc[0] == b0);
            assert(s.subrange(i + 1, i + 1 + erest.len() as int) =~= erest) by {
                assert forall|k: int| 0 <= k < erest.len() implies s.subrange(
                    i + 1,
                    i + 1 + erest.len() as int,
                )[k] == erest[k] by {
                    assert(s.subrange(i + 1, i + 1 + erest.len() as int)[k] == s[i + 1 + k]);
                    assert(s[i + 1 + k] == esc[k + 1]);
                    assert(esc[k + 1] == erest[k]);
                }
            }
            assert(s[i + 1 + erest.len()] == 34);
            lemma_parse_string_at(s, i + 1, rest);
            assert(seq![b0] + rest =~= content);
        }
    }
}

/// A run of digits bounded by a non-digit ends exactly at the non-digit.
proof fn lemma_digits_run(s: Seq<u8>, i: int, e: int)
    requires
        0 <= i <= e <= s.len(),
        forall|k: int| i <= k < e ==> is_digit(#[trigger] s[k]),
        e < s.len() ==> !is_digit(s[e]),
    ensures
        digits_end(s, i) == e,
    decreases e - i,
{
    if i < e {
        lemma_digits_run(s, i + 1, e);
    }
}

/// Parsing an embedded decimal rendering of `n`, bounded by a non-digit,
/// yields `n` back.
proof fn lemma_parse_uint_at(s: Seq<u8>, i: int, n: u64)
    requires
        0 <= i,
        i + dec_digits(n as nat).len() <= s.len(),
        s.subrange(i, i + dec_digits(n as nat).len() as int) == dec_digits(n as nat),
        i + dec_digits(n as nat).len() < s.len() ==> !is_digit(
            s[i + dec_digits(n as nat).len()],
        ),
    ensures
        parse_uint(s, i) == Some((n, i + dec_digits(n as nat).len())),
{
    let d = dec_digits(n as nat);
    crate::text::lemma_dec_round_trip(n as nat);
    assert forall|k: int| i <= k < i + d.len() implies is_digit(#[trigger] s[k]) by {
        assert(s[k] == s.subrange(i, i + d.len() as int)[k - i]);
        assert(s.subrange(i, i + d.len() as int)[k - i] == d[k - i]);
    }
    lemma_digits_run(s, i, i + d.len() as int);
    assert(s.subrange(i, i + d.len() as int) == d);
    assert(s[i] == d[0]);
    if n > 0 {
        crate::text::lemma_dec_digits_no_leading_zero(n as nat);
    } else {
        assert(d.len() == 1);
    }
}


/// A helper for the round trip: both keys are plain (no quote, no
/// backslash), so their literals are themselves.
proof fn lemma_keys_plain()
    ensures
        json_escaped(key_backup()) == key_backup(),
        json_escaped(key_chunk_size()) == key_chunk_size(),
        key_backup().len() == 15,
        key_chunk_size().len() == 10,
{
    assert forall|k: int| 0 <= k < key_backup().len() implies key_backup()[k] != 34 && key_backup()[k]
        != 92 by {
    }
    lemma_json_escaped_plain(key_backup());
    assert forall|k: int|
        0 <= k < key_chunk_size().len() implies key_chunk_size()[k] != 34 && key_chunk_size()[k]
        != 92 by {
    }
    lemma_json_escaped_plain(key_chunk_size());
}

/// The first value field of the encoding.
pub open spec fn backup_field(backup: Option<Seq<u8>>) -> Seq<u8> {
    match backup {
        Some(c) => json_string(c),
        None => lit_null(),
    }
}

/// The second value field of the encoding.
pub open spec fn chunk_size_field(chunk_size: Option<u64>) -> Seq<u8> {
    match chunk_size {
        Some(n) => dec_digits(n as nat),
        None => lit_null(),
    }
}

/// Where each byte of an encoded options blob sits.
proof fn lemma_options_layout(backup: Option<Seq<u8>>, chunk_size: Option<u64>)
    ensures
        ({
            let s = encoded_options(backup, chunk_size);
            let v1 = backup_field(backup);
            let v2 = chunk_size_field(chunk_size);
            let l1 = v1.len() as int;
            let l2 = v2.len() as int;
            &&& s.len() == 34 + l1 + l2
            &&& l1 >= 2
            &&& l2 >= 1
            &&& s[0] == 123
            &&& s[1] == 34
            &&& s.subrange(2, 17) == key_backup()
            &&& s[17] == 34
            &&& s[18] == 58
            &&& s.subrange(19, 19 + l1) == v1
            &&& s[19 + l1] == 44
            &&& s[20 + l1] == 34
            &&& s.subrange(21 + l1, 31 + l1) == key_chunk_size()
            &&& s[31 + l1] == 34
            &&& s[32 + l1] == 58
            &&& s.subrange(33 + l1, 33 + l1 + l2) == v2
            &&& s[33 + l1 + l2] == 125
            &&& (backup is Some ==> s.subrange(20, 20 + json_escaped(backup->0).len() as int)
                == json_escaped(backup->0) && s[20 + json_escaped(backup->0).len() as int] == 34)
        }),
{
    let s = encoded_options(backup, chunk_size);
    lemma_keys_plain();
    let v1 = backup_field(backup);
    let v2 = chunk_size_field(chunk_size);
    let l1 = v1.len() as int;
    let l2 = v2.len() as int;
    if chunk_size is Some {
        crate::text::lemma_dec_round_trip(chunk_size->0 as nat);
    }
    assert(json_string(key_backup()).len() == 17);
    assert(json_string(key_chunk_size()).len() == 12);
    assert(s.len() == 34 + l1 + l2);
    assert(s[0] == 123);
    assert(s[1] == 34);
    assert(s.subrange(2, 17) =~= key_backup());
    assert(s[17] == 34);
    assert(s[18] == 58);
    assert(s.subrange(19, 19 + l1) =~= v1);
    assert(s[19 + l1] == 44);
    assert(s[20 + l1] == 34);
    assert(s.subrange(21 + l1, 31 + l1) =~= key_chunk_size());
    assert(s[31 + l1] == 34);
    assert(s[32 + l1] == 58);
    assert(s.subrange(33 + l1, 33 + l1 + l2) =~= v2);
    assert(s[33 + l1 + l2] == 125);
    if backup is Some {
        let c = backup->0;
        assert(v1 == seq![34u8] + json_escaped(c) + seq![34u8]);
        assert(s.subrange(20, 20 + json_escaped(c).len() as int) =~= json_escaped(c)) by {
            assert forall|k: int| 0 <= k < json_escaped(c).len() implies s.subrange(
                20,
                20 + json_escaped(c).len() as int,
            )[k] == json_escaped(c)[k] by {
                assert(s.subrange(20, 20 + json_escaped(c).len() as int)[k] == s[20 + k]);
                assert(s[20 + k] == s.subrange(19, 19 + l1)[k + 1]);
                assert(v1[k + 1] == json_escaped(c)[k]);
            }
        }
        assert(s[20 + json_escaped(c).len() as int] == s.subrange(19, 19 + l1)[l1 - 1]);
        assert(v1[l1 - 1] == 34);
    }
}

/// Walking the decoder over a blob with the encoder's layout.
#[verifier::rlimit(100)]
#[verifier::spinoff_prover]
proof fn lemma_options_walk(s: Seq<u8>, backup: Option<Seq<u8>>, chunk_size: Option<u64>)
    requires
        ({
            let v1 = backup_field(backup);
            let v2 = chunk_size_field(chunk_size);
            let l1 = v1.len() as int;
            let l2 = v2.len() as int;
            &&& s.len() == 34 + l1 + l2
            &&& l1 >= 2
            &&& l2 >= 1
            &&& s[0] == 123
            &&& s[1] == 34
            &&& s.subrange(2, 17) == key_backup()
            &&& s[17] == 34
            &&& s[18] == 58
            &&& s.subrange(19, 19 + l1) == v1
            &&& s[19 + l1] == 44
            &&& s[20 + l1] == 34
            &&& s.subrange(21 + l1, 31 + l1) == key_chunk_size()
            &&& s[31 + l1] == 34
            &&& s[32 + l1] == 58
            &&& s.subrange(33 + l1, 33 + l1 + l2) == v2
            &&& s[33 + l1 + l2] == 125
            &&& (backup is Some ==> s.subrange(20, 20 + json_escaped(backup->0).len() as int)
                == json_escaped(backup->0) && s[20 + json_escaped(backup->0).len() as int] == 34)
        }),
    ensures
        decode_spec(s) == Some((backup, chunk_size)),
{
    lemma_keys_plain();
    let v1 = backup_field(backup);
    let v2 = chunk_size_field(chunk_size);
    let l1 = v1.len() as int;
    let l2 = v2.len() as int;
    if chunk_size is Some {
        crate::text::lemma_dec_round_trip(chunk_size->0 as nat);
    }
    let depth = s.len() as nat;
    // Walk the decoder.
    assert(ws_end(s, 0) == 0);
    assert(ws_end(s, 1) == 1);
    // First pair: the backup key.
    lemma_parse_string_at(s, 2, key_backup());
    assert(parse_string_body(s, 2) == Some((key_backup(), 18int)));
    assert(ws_end(s, 18) == 18);
    assert(ws_end(s, 19) == 19) by {
        if backup is Some {
            assert(s[19] == s.subrange(19, 19 + l1)[0] && v1[0] == 34);
        } else {
            assert(s[19] == s.subrange(19, 19 + l1)[0] && v1[0] == 110);
        }
    }
    let pv1 = parse_pair_value(s, 19, key_backup(), None, None, (depth - 2) as nat);
    assert(pv1 == Some((backup, None::<u64>, 19 + l1))) by {
        if backup is Some {
            let c = backup->0;
            assert(s[19] == s.subrange(19, 19 + l1)[0] && v1[0] == 34);
            lemma_parse_string_at(s, 20, c);
        } else {
            assert(s[19] == s.subrange(19, 19 + l1)[0] && v1[0] == 110);
            assert(s.subrange(19, 23) =~= lit_null());
            assert(has_lit(s, 19, lit_null()));
        }
    }
    // Between the pairs.
    assert(ws_end(s, 19 + l1) == 19 + l1);
    assert(ws_end(s, 20 + l1) == 20 + l1);
    // Second pair: the chunk-size key.
    lemma_parse_string_at(s, 21 + l1, key_chunk_size());
    assert(parse_string_body(s, 21 + l1) == Some((key_chunk_size(), 32 + l1)));
    assert(ws_end(s, 32 + l1) == 32 + l1);
    assert(ws_end(s, 33 + l1) == 33 + l1) by {
        assert(s[33 + l1] == s.subrange(33 + l1, 33 + l1 + l2)[0]);
        if chunk_size is Some {
            assert(is_digit(v2[0]));
        } else {
            assert(v2[0] == 110);
        }
    }
    assert(key_chunk_size() != key_backup()) by {
        assert(key_chunk_size().len() != key_backup().len());
    }
    let pv2 = parse_pair_value(s, 33 + l1, key_chunk_size(), backup, None, (depth - 3) as nat);
    assert(pv2 == Some((backup, chunk_size, 33 + l1 + l2))) by {
        if chunk_size is Some {
            let n = chunk_size->0;
            assert(!has_lit(s, 33 + l1, lit_null())) by {
                assert(s[33 + l1] == s.subrange(33 + l1, 33 + l1 + l2)[0]);
                assert(is_digit(v2[0]));
                if has_lit(s, 33 + l1, lit_null()) {
                    assert(s.subrange(33 + l1, 37 + l1)[0] == 110);
                }
            }
            assert(s[33 + l1 + l2] == 125);
            assert(!is_digit(125u8));
            lemma_parse_uint_at(s, 33 + l1, n);
        } else {
            assert(s.subrange(33 + l1, 37 + l1) =~= lit_null());
            assert(has_lit(s, 33 + l1, lit_null()));
        }
    }
    // Close the object and the input.
    assert(ws_end(s, 33 + l1 + l2) == 33 + l1 + l2);
    assert(ws_end(s, 34 + l1 + l2) == 34 + l1 + l2);
    let m2 = parse_members(s, 20 + l1, backup, None, (depth - 1) as nat);
    assert(m2 == Some(((backup, chunk_size), 34 + l1 + l2))) by {
        assert(s[20 + l1] == 34);
        assert(depth - 1 > 0);
    }
    let m1 = parse_members(s, 1, None, None, depth);
    assert(m1 == Some(((backup, chunk_size), 34 + l1 + l2))) by {
        assert(s[1] == 34);
        assert(depth > 0);
    }
    assert(s[1] != 125);
    assert(decode_spec(s) == Some((backup, chunk_size)));
}

/// Decoding an encoded options pair gives the pair back: the decoder
/// understands everything the encoder writes.
pub proof fn lemma_options_round_trip(backup: Option<Seq<u8>>, chunk_size: Option<u64>)
    ensures
        decode_spec(encoded_options(backup, chunk_size)) == Some((backup, chunk_size)),
{
    lemma_options_layout(backup, chunk_size);
    lemma_options_walk(encoded_options(backup, chunk_size), backup, chunk_size);
}

} // verus!
