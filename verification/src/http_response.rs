//! HTTP/1.1 response decoder: status line, header block, and the framed
//! body (`Content-Length`, chunked, or read-until-close).
//!
//! The decoder is a function of the bytes the transport delivered; reading
//! those bytes from a socket is the caller's business. Lines end at `\n`,
//! optionally preceded by `\r` (tolerating non-compliant servers), and the
//! end of input before any terminator yields what was accumulated.

use crate::headers::{add_values, values_of, HeaderSeq, Headers};
use crate::text::{
    all_dec_digit_chars, all_dec_digits, all_hex_digits, dec_val, dec_val_chars, find_byte,
    hex_digit_val, hex_numeral, hex_val, lat1, lat1_range, lemma_find_byte, lemma_find_byte_at,
    lemma_hex_numeral, parse_dec_u16, parse_dec_usize_str, parse_hex_usize, seq_ci_equal,
    str_ci_eq, trim_lat1, trim_ws,
};
use crate::HttpError;
use vstd::prelude::*;

verus! {

/// The six coarse families of status codes, from `code / 100`.
#[derive(Clone, Copy, Debug, PartialEq, Eq, Structural)]
pub enum StatusClass {
    Invalid,
    Information,
    Success,
    Redirection,
    ClientError,
    ServerError,
}

/// The class a status code belongs to; anything outside 100..=599 is
/// invalid, as is the 0 standing for an unparsable code.
pub open spec fn class_of(code: u16) -> StatusClass {
    if 100 <= code <= 199 {
        StatusClass::Information
    } else if 200 <= code <= 299 {
        StatusClass::Success
    } else if 300 <= code <= 399 {
        StatusClass::Redirection
    } else if 400 <= code <= 499 {
        StatusClass::ClientError
    } else if 500 <= code <= 599 {
        StatusClass::ServerError
    } else {
        StatusClass::Invalid
    }
}

fn class_of_exec(code: u16) -> (c: StatusClass)
    ensures
        c == class_of(code),
{
    if 100 <= code && code <= 199 {
        StatusClass::Information
    } else if 200 <= code && code <= 299 {
        StatusClass::Success
    } else if 300 <= code && code <= 399 {
        StatusClass::Redirection
    } else if 400 <= code && code <= 499 {
        StatusClass::ClientError
    } else if 500 <= code && code <= 599 {
        StatusClass::ServerError
    } else {
        StatusClass::Invalid
    }
}

/// A decoded status line: code (0 if unparsable), its class, and the
/// reason phrase.
#[derive(Debug)]
pub struct HttpStatus {
    pub code: u16,
    pub class: StatusClass,
    pub message: String,
}

// ---------------------------------------------------------------------------
// The line primitive
// ---------------------------------------------------------------------------
/// Index of the `\n` ending the line that starts at `pos`, or the end of
/// input.
pub open spec fn line_end(s: Seq<u8>, pos: int) -> int {
    find_byte(s, 10, pos)
}

/// The line starting at `pos`: everything before its `\n`, less a `\r`
/// immediately before that `\n`. A line cut off by the end of input is
/// whatever accumulated.
pub open spec fn line_content(s: Seq<u8>, pos: int) -> Seq<u8> {
    let e = line_end(s, pos);
    if e < s.len() && e > pos && s[e - 1] == 13 {
        s.subrange(pos, e - 1)
    } else {
        s.subrange(pos, e)
    }
}

/// Where the next line starts: just past the `\n`, or the end of input.
pub open spec fn line_next(s: Seq<u8>, pos: int) -> int {
    let e = line_end(s, pos);
    if e < s.len() {
        e + 1
    } else {
        e
    }
}

pub proof fn lemma_line_bounds(s: Seq<u8>, pos: int)
    requires
        0 <= pos <= s.len(),
    ensures
        pos <= line_next(s, pos) <= s.len(),
        pos < s.len() ==> pos < line_next(s, pos),
        pos == s.len() ==> line_content(s, pos).len() == 0,
{
    lemma_find_byte(s, 10, pos);
}

/// Read the line starting at `pos`: its content, and where the next line
/// starts. The cursor advances whenever any input is left.
pub fn next_line(bytes: &Vec<u8>, pos: usize) -> (r: (Vec<u8>, usize))
    requires
        pos <= bytes@.len(),
    ensures
        r.0@ == line_content(bytes@, pos as int),
        r.1 == line_next(bytes@, pos as int),
        pos <= r.1 <= bytes@.len(),
        pos < bytes@.len() ==> pos < r.1,
{
    let n = bytes.len();
    let mut e: usize = pos;
    while e < n && bytes[e] != 10
        invariant
            pos <= e <= n == bytes@.len(),
            forall|j: int| pos <= j < e ==> bytes@[j] != 10,
        decreases n - e,
    {
        e = e + 1;
    }
    proof {
        lemma_find_byte_at(bytes@, 10, pos as int, e as int);
    }
    let c_end: usize = if e < n && e > pos && bytes[e - 1] == 13 {
        e - 1
    } else {
        e
    };
    let mut line: Vec<u8> = Vec::new();
    let mut i: usize = pos;
    while i < c_end
        invariant
            pos <= i <= c_end <= bytes@.len(),
            line@ == bytes@.subrange(pos as int, i as int),
        decreases c_end - i,
    {
        line.push(bytes[i]);
        proof {
            assert(line@ =~= bytes@.subrange(pos as int, (i + 1) as int));
        }
        i = i + 1;
    }
    let next: usize = if e < n {
        e + 1
    } else {
        e
    };
    (line, next)
}

// ---------------------------------------------------------------------------
// The status line
// ---------------------------------------------------------------------------
/// The bytes of the only protocol version this client accepts.
pub open spec fn http11() -> Seq<u8> {
    seq![72u8, 84u8, 84u8, 80u8, 47u8, 49u8, 46u8, 49u8]
}

/// What a status line means. Split on the first two spaces into version,
/// code and reason phrase (which may itself contain spaces). A version
/// other than `HTTP/1.1` is fatal; a code that does not parse as a 16-bit
/// decimal gives code 0 and class `Invalid`; a missing reason phrase is
/// empty.
pub open spec fn spec_status_line(line: Seq<u8>) -> Result<(u16, StatusClass, Seq<char>), HttpError> {
    let sp1 = find_byte(line, 32, 0);
    if line.subrange(0, sp1) != http11() {
        Err(HttpError::ProtocolMismatch)
    } else {
        let sp2 = find_byte(line, 32, sp1 + 1);
        let code_bytes = if sp1 < line.len() {
            line.subrange(sp1 + 1, sp2)
        } else {
            Seq::empty()
        };
        let msg = if sp2 < line.len() {
            line.subrange(sp2 + 1, line.len() as int)
        } else {
            Seq::empty()
        };
        let code: u16 = if code_bytes.len() > 0 && all_dec_digits(code_bytes) && dec_val(
            code_bytes,
        ) <= 0xffff {
            dec_val(code_bytes) as u16
        } else {
            0
        };
        Ok((code, class_of(code), lat1(msg)))
    }
}

/// Decode a status line.
pub fn read_status_line(line: &Vec<u8>) -> (r: Result<HttpStatus, HttpError>)
    ensures
        match spec_status_line(line@) {
            Ok(st) => r matches Ok(h) && h.code == st.0 && h.class == st.1 && h.message@ == st.2,
            Err(e) => r matches Err(e2) && e2 == e,
        },
{
    let n = line.len();
    let mut sp1: usize = 0;
    while sp1 < n && line[sp1] != 32
        invariant
            sp1 <= n == line@.len(),
            forall|j: int| 0 <= j < sp1 ==> line@[j] != 32,
        decreases n - sp1,
    {
        sp1 = sp1 + 1;
    }
    proof {
        lemma_find_byte_at(line@, 32, 0, sp1 as int);
    }
    let ok_version = sp1 == 8 && line[0] == 72 && line[1] == 84 && line[2] == 84 && line[3] == 80
        && line[4] == 47 && line[5] == 49 && line[6] == 46 && line[7] == 49;
    if !ok_version {
        proof {
            if line@.subrange(0, sp1 as int) == http11() {
                assert(line@.subrange(0, sp1 as int).len() == 8);
                assert(forall|j: int|
                    0 <= j < 8 ==> line@[j] == #[trigger] line@.subrange(0, 8)[j]);
                assert(line@[0] == 72 && line@[1] == 84 && line@[2] == 84 && line@[3] == 80
                    && line@[4] == 47 && line@[5] == 49 && line@[6] == 46 && line@[7] == 49);
            }
        }
        return Err(HttpError::ProtocolMismatch);
    }
    proof {
        assert(line@.subrange(0, sp1 as int) =~= http11());
    }
    let mut sp2: usize = if sp1 < n {
        sp1 + 1
    } else {
        n
    };
    while sp2 < n && line[sp2] != 32
        invariant
            sp2 <= n == line@.len(),
            sp1 < n ==> sp1 < sp2 && forall|j: int| sp1 < j < sp2 ==> line@[j] != 32,
            sp1 >= n ==> sp2 == n,
        decreases n - sp2,
    {
        sp2 = sp2 + 1;
    }
    proof {
        if sp1 < n {
            lemma_find_byte_at(line@, 32, sp1 + 1, sp2 as int);
        } else {
            assert(find_byte(line@, 32, sp1 + 1) == n);
        }
    }
    let code: u16 = if sp1 < n {
        match parse_dec_u16(line, sp1 + 1, sp2) {
            Some(v) => v,
            None => 0,
        }
    } else {
        0
    };
    let message: String = if sp2 < n {
        lat1_range(line, sp2 + 1, n)
    } else {
        let s = String::new();
        proof {
            assert(s@ =~= lat1(Seq::<u8>::empty()));
        }
        s
    };
    let class = class_of_exec(code);
    Ok(HttpStatus { code, class, message })
}

// ---------------------------------------------------------------------------
// Header lines
// ---------------------------------------------------------------------------
/// Index of the first `": "` in `s` at or after `from`, or `s.len()` if
/// there is none.
pub open spec fn find_sep(s: Seq<u8>, from: int) -> int
    decreases s.len() - from,
{
    if from < 0 || from + 1 >= s.len() {
        s.len() as int
    } else if s[from] == 58 && s[from + 1] == 32 {
        from
    } else {
        find_sep(s, from + 1)
    }
}

/// `find_sep` agrees with a linear scan that stopped at `i`.
pub proof fn lemma_find_sep_at(s: Seq<u8>, from: int, i: int)
    requires
        0 <= from <= i <= s.len(),
        forall|j: int| from <= j < i ==> !(j + 1 < s.len() && #[trigger] s[j] == 58 && s[j + 1] == 32),
        i + 1 < s.len() ==> s[i] == 58 && s[i + 1] == 32,
    ensures
        find_sep(s, from) == if i + 1 < s.len() {
            i
        } else {
            s.len() as int
        },
    decreases i - from,
{
    if from < i {
        lemma_find_sep_at(s, from + 1, i);
    }
}

/// The pieces of `s` from `from` on, split at commas (the split points
/// themselves dropped; no comma means one piece).
pub open spec fn split_commas(s: Seq<u8>, from: int) -> Seq<Seq<u8>>
    decreases s.len() - from,
        when 0 <= from <= s.len()
        via split_commas_decreases
{
    let i = find_byte(s, 44, from);
    if i >= s.len() {
        seq![s.subrange(from, s.len() as int)]
    } else {
        seq![s.subrange(from, i)] + split_commas(s, i + 1)
    }
}

#[via_fn]
proof fn split_commas_decreases(s: Seq<u8>, from: int) {
    lemma_find_byte(s, 44, from);
}

/// The comma-separated pieces of `s` from `from` on, each trimmed of
/// surrounding whitespace and decoded to characters.
pub open spec fn split_trim(s: Seq<u8>, from: int) -> Seq<Seq<char>> {
    split_commas(s, from).map_values(|p: Seq<u8>| lat1(trim_ws(p)))
}

/// What a header line means: the name before the first `": "`, and the
/// comma-separated trimmed values after it. `None` when the separator is
/// missing, which is fatal.
pub open spec fn spec_header_line(line: Seq<u8>) -> Option<(Seq<char>, Seq<Seq<char>>)> {
    let i = find_sep(line, 0);
    if i == line.len() {
        None
    } else {
        Some((lat1(line.subrange(0, i)), split_trim(line, i + 2)))
    }
}

/// Push the trimmed decoded pieces of `line[from..]`, split at commas,
/// onto `vals`.
fn read_values(line: &Vec<u8>, from: usize, vals: &mut Vec<String>)
    requires
        from <= line@.len(),
    ensures
        final(vals).deep_view() == old(vals).deep_view() + split_trim(line@, from as int),
    decreases line@.len() - from,
{
    let n = line.len();
    let mut e: usize = from;
    while e < n && line[e] != 44
        invariant
            from <= e <= n == line@.len(),
            forall|j: int| from <= j < e ==> line@[j] != 44,
        decreases n - e,
    {
        e = e + 1;
    }
    proof {
        lemma_find_byte_at(line@, 44, from as int, e as int);
    }
    let piece = trim_lat1(line, from, e);
    let ghost dv0 = vals.deep_view();
    vals.push(piece);
    proof {
        assert(vals.deep_view() =~= dv0 + seq![lat1(trim_ws(line@.subrange(from as int, e as int)))]);
    }
    if e < n {
        read_values(line, e + 1, vals);
        proof {
            assert(split_trim(line@, from as int) =~= seq![
                lat1(trim_ws(line@.subrange(from as int, e as int))),
            ] + split_trim(line@, e + 1));
            assert(vals.deep_view() =~= dv0 + split_trim(line@, from as int));
        }
    } else {
        proof {
            assert(split_trim(line@, from as int) =~= seq![
                lat1(trim_ws(line@.subrange(from as int, e as int))),
            ]);
            assert(vals.deep_view() =~= dv0 + split_trim(line@, from as int));
        }
    }
}

/// Decode one header line into the map: append its values to the slot for
/// its name. A line without `": "` is fatal and leaves the map unchanged.
pub fn read_header(headers: &mut Headers, line: &Vec<u8>) -> (r: Result<(), HttpError>)
    requires
        old(headers).wf(),
    ensures
        final(headers).wf(),
        match spec_header_line(line@) {
            Some(nv) => r is Ok && final(headers)@ == add_values(old(headers)@, nv.0, nv.1),
            None => r matches Err(e) && e == HttpError::MalformedHeader && final(headers)@ == old(
                headers,
            )@,
        },
{
    let n = line.len();
    let mut i: usize = 0;
    while i + 1 < n && !(line[i] == 58 && line[i + 1] == 32)
        invariant
            i <= n == line@.len(),
            n > 0 ==> i < n,
            forall|j: int| 0 <= j < i ==> !(j + 1 < n && #[trigger] line@[j] == 58 && line@[j + 1] == 32),
        decreases n - i,
    {
        i = i + 1;
    }
    proof {
        lemma_find_sep_at(line@, 0, i as int);
    }
    if i + 1 >= n {
        return Err(HttpError::MalformedHeader);
    }
    let name = lat1_range(line, 0, i);
    let mut vals: Vec<String> = Vec::new();
    read_values(line, i + 2, &mut vals);
    proof {
        assert(vals.deep_view() =~= split_trim(line@, i + 2));
    }
    headers.add_all(name.as_str(), vals);
    Ok(())
}

/// Whether any value recorded for `k` equals `v` up to ASCII case.
pub open spec fn spec_header_match_ci(h: HeaderSeq, k: Seq<char>, v: Seq<char>) -> bool {
    exists|j: int| 0 <= j < values_of(h, k).len() && seq_ci_equal(values_of(h, k)[j], v)
}

/// Whether any of the values stored under `header_key` (looked up exactly)
/// equals `expected_value` ignoring ASCII case.
pub fn header_match_any_case(headers: &Headers, header_key: &str, expected_value: &str) -> (r: bool)
    ensures
        r == spec_header_match_ci(headers@, header_key@, expected_value@),
{
    match headers.get(header_key) {
        Some(vs) => {
            let n = vs.len();
            let mut i: usize = 0;
            while i < n
                invariant
                    n == vs.deep_view().len(),
                    i <= n,
                    vs.deep_view() == values_of(headers@, header_key@),
                    forall|j: int|
                        0 <= j < i ==> !seq_ci_equal(
                            values_of(headers@, header_key@)[j],
                            expected_value@,
                        ),
                decreases n - i,
            {
                if str_ci_eq(vs[i].as_str(), expected_value) {
                    proof {
                        assert(seq_ci_equal(
                            values_of(headers@, header_key@)[i as int],
                            expected_value@,
                        ));
                    }
                    return true;
                }
                i = i + 1;
            }
            false
        },
        None => {
            proof {
                assert(values_of(headers@, header_key@).len() == 0);
            }
            false
        },
    }
}

// ---------------------------------------------------------------------------
// Body framing
// ---------------------------------------------------------------------------
/// How the extent of a response body is determined.
#[derive(Clone, Copy, Debug, PartialEq, Eq, Structural)]
pub enum BodyFraming {
    /// The body is a sequence of length-prefixed chunks.
    Chunked,
    /// The body is exactly this many bytes.
    ContentLength(usize),
    /// The body runs until the transport closes.
    UntilClose,
}

/// The length the `Content-Length` header declares, if it is present and
/// its first value is a decimal numeral this machine can hold.
pub open spec fn spec_content_length(h: HeaderSeq) -> Option<usize> {
    let vs = values_of(h, "Content-Length"@);
    if vs.len() > 0 && vs[0].len() > 0 && all_dec_digit_chars(vs[0]) && dec_val_chars(vs[0])
        <= usize::MAX {
        Some(dec_val_chars(vs[0]) as usize)
    } else {
        None
    }
}

/// The framing rule, in priority order: a `Transfer-Encoding` value equal
/// to `chunked` (ignoring case) wins; else a parsing `Content-Length`;
/// else read until the transport closes.
pub open spec fn spec_framing(h: HeaderSeq) -> BodyFraming {
    if spec_header_match_ci(h, "Transfer-Encoding"@, "chunked"@) {
        BodyFraming::Chunked
    } else {
        match spec_content_length(h) {
            Some(n) => BodyFraming::ContentLength(n),
            None => BodyFraming::UntilClose,
        }
    }
}

/// Decide the body framing from the decoded headers.
pub fn body_framing(headers: &Headers) -> (f: BodyFraming)
    ensures
        f == spec_framing(headers@),
{
    if header_match_any_case(headers, "Transfer-Encoding", "chunked") {
        BodyFraming::Chunked
    } else {
        match headers.get("Content-Length") {
            Some(vs) => {
                if vs.len() > 0 {
                    proof {
                        assert(vs.deep_view()[0] == vs@[0]@);
                    }
                    match parse_dec_usize_str(vs[0].as_str()) {
                        Some(n) => BodyFraming::ContentLength(n),
                        None => BodyFraming::UntilClose,
                    }
                } else {
                    BodyFraming::UntilClose
                }
            },
            None => BodyFraming::UntilClose,
        }
    }
}

/// Law: with no `chunked` transfer-encoding and no `Content-Length`
/// header at all, the body is framed by the close of the transport: every
/// byte that arrives belongs to it, and its end is not an error.
pub proof fn lemma_until_close_framing(h: HeaderSeq)
    requires
        !spec_header_match_ci(h, "Transfer-Encoding"@, "chunked"@),
        !crate::headers::has_key(h, "Content-Length"@),
    ensures
        spec_framing(h) == BodyFraming::UntilClose,
{
    assert(values_of(h, "Content-Length"@).len() == 0);
}

// ---------------------------------------------------------------------------
// Body decoding
// ---------------------------------------------------------------------------
fn copy_range(bytes: &Vec<u8>, from: usize, to: usize) -> (r: Vec<u8>)
    requires
        from <= to <= bytes@.len(),
    ensures
        r@ == bytes@.subrange(from as int, to as int),
{
    let mut r: Vec<u8> = Vec::new();
    let mut i: usize = from;
    while i < to
        invariant
            from <= i <= to <= bytes@.len(),
            r@ == bytes@.subrange(from as int, i as int),
        decreases to - i,
    {
        r.push(bytes[i]);
        proof {
            assert(r@ =~= bytes@.subrange(from as int, (i + 1) as int));
        }
        i = i + 1;
    }
    r
}

/// A body framed by `Content-Length`: exactly `n` bytes, or everything
/// that is left and a truncation error if fewer remain.
pub fn decode_content_length(bytes: &Vec<u8>, pos: usize, n: usize) -> (r: (
    Vec<u8>,
    Option<HttpError>,
))
    requires
        pos <= bytes@.len(),
    ensures
        bytes@.len() - pos >= n ==> r.0@ == bytes@.subrange(pos as int, pos + n) && r.1 is None,
        bytes@.len() - pos < n ==> r.0@ == bytes@.subrange(pos as int, bytes@.len() as int) && (
        r.1 matches Some(e) && e == HttpError::TruncatedBody),
{
    let len = bytes.len();
    if len - pos >= n {
        (copy_range(bytes, pos, pos + n), None)
    } else {
        (copy_range(bytes, pos, len), Some(HttpError::TruncatedBody))
    }
}

/// A body with no framing header: everything until the transport closed.
pub fn decode_until_close(bytes: &Vec<u8>, pos: usize) -> (r: Vec<u8>)
    requires
        pos <= bytes@.len(),
    ensures
        r@ == bytes@.subrange(pos as int, bytes@.len() as int),
{
    copy_range(bytes, pos, bytes.len())
}

/// The chunk size a chunk-size line names: its hexadecimal numeral, which
/// ends at the `;` starting chunk extensions (ignored) or at the end of
/// the line. `None` when the numeral is missing, not hexadecimal, or too
/// large for this machine to hold.
pub open spec fn spec_chunk_size(line: Seq<u8>) -> Option<usize> {
    let e = find_byte(line, 59, 0);
    let digits = line.subrange(0, e);
    if digits.len() > 0 && all_hex_digits(digits) && hex_val(digits) <= usize::MAX {
        Some(hex_val(digits) as usize)
    } else {
        None
    }
}

/// Read one chunk-size line starting at `pos`: the size it names (or the
/// malformed-chunk error) and where the chunk data starts.
pub fn read_chunk_length(bytes: &Vec<u8>, pos: usize) -> (r: (Result<usize, HttpError>, usize))
    requires
        pos <= bytes@.len(),
    ensures
        r.1 == line_next(bytes@, pos as int),
        pos <= r.1 <= bytes@.len(),
        match r.0 {
            Ok(v) => spec_chunk_size(line_content(bytes@, pos as int)) == Some(v),
            Err(e) => e == HttpError::MalformedChunk && spec_chunk_size(
                line_content(bytes@, pos as int),
            ) is None,
        },
{
    let (line, p) = next_line(bytes, pos);
    let n = line.len();
    let mut e: usize = 0;
    while e < n && line[e] != 59
        invariant
            e <= n == line@.len(),
            forall|j: int| 0 <= j < e ==> line@[j] != 59,
        decreases n - e,
    {
        e = e + 1;
    }
    proof {
        lemma_find_byte_at(line@, 59, 0, e as int);
    }
    match parse_hex_usize(&line, 0, e) {
        Some(v) => (Ok(v), p),
        None => (Err(HttpError::MalformedChunk), p),
    }
}

/// What a chunked body means, starting at `pos`: the concatenated chunk
/// data, and the error that ended decoding, if one did. Each step reads a
/// chunk-size line, then that many data bytes, then discards the line
/// break after them; the chunk of size 0 ends the body cleanly. A bad
/// size line is `MalformedChunk`; missing data is `TruncatedBody`; bytes
/// already decoded stay valid either way.
pub open spec fn spec_chunked(s: Seq<u8>, pos: int) -> (Seq<u8>, Option<HttpError>)
    decreases s.len() - pos,
        when 0 <= pos <= s.len()
        via spec_chunked_decreases
{
    match spec_chunk_size(line_content(s, pos)) {
        None => (Seq::empty(), Some(HttpError::MalformedChunk)),
        Some(size) => {
            if size == 0 {
                (Seq::empty(), None)
            } else {
                let p = line_next(s, pos);
                if s.len() - p < size {
                    (s.subrange(p, s.len() as int), Some(HttpError::TruncatedBody))
                } else {
                    let data = s.subrange(p, p + size);
                    let q = line_next(s, p + size);
                    let rest = spec_chunked(s, q);
                    (data + rest.0, rest.1)
                }
            }
        },
    }
}

#[via_fn]
proof fn spec_chunked_decreases(s: Seq<u8>, pos: int) {
    lemma_line_bounds(s, pos);
    match spec_chunk_size(line_content(s, pos)) {
        Some(size) => {
            if size > 0 {
                if pos == s.len() {
                    assert(line_content(s, pos).len() == 0);
                    assert(line_content(s, pos).subrange(0, find_byte(line_content(s, pos), 59, 0))
                        =~= Seq::<u8>::empty());
                }
                let p = line_next(s, pos);
                if 0 <= p + size <= s.len() {
                    lemma_line_bounds(s, p + size);
                }
            }
        },
        None => {},
    }
}

/// Decode a chunked body starting at `pos`.
pub fn decode_chunked(bytes: &Vec<u8>, pos: usize) -> (r: (Vec<u8>, Option<HttpError>))
    requires
        pos <= bytes@.len(),
    ensures
        r.0@ == spec_chunked(bytes@, pos as int).0,
        r.1 == spec_chunked(bytes@, pos as int).1,
    decreases bytes@.len() - pos,
{
    let (size_r, p) = read_chunk_length(bytes, pos);
    match size_r {
        Err(e) => {
            let data: Vec<u8> = Vec::new();
            proof {
                assert(data@ =~= spec_chunked(bytes@, pos as int).0);
            }
            (data, Some(e))
        },
        Ok(size) => {
            if size == 0 {
                let data: Vec<u8> = Vec::new();
                proof {
                    assert(data@ =~= spec_chunked(bytes@, pos as int).0);
                }
                (data, None)
            } else {
                proof {
                    if pos == bytes@.len() {
                        assert(line_content(bytes@, pos as int).len() == 0);
                        assert(line_content(bytes@, pos as int).subrange(
                            0,
                            find_byte(line_content(bytes@, pos as int), 59, 0),
                        ) =~= Seq::<u8>::empty());
                    }
                    lemma_line_bounds(bytes@, pos as int);
                }
                let n = bytes.len();
                if n - p < size {
                    let data = copy_range(bytes, p, n);
                    (data, Some(HttpError::TruncatedBody))
                } else {
                    let mut data = copy_range(bytes, p, p + size);
                    let (_crlf, q) = next_line(bytes, p + size);
                    proof {
                        lemma_line_bounds(bytes@, (p + size) as int);
                    }
                    let (mut rest, err) = decode_chunked(bytes, q);
                    data.append(&mut rest);
                    (data, err)
                }
            }
        },
    }
}

// ---------------------------------------------------------------------------
// The chunked round trip
// ---------------------------------------------------------------------------
/// One encoded chunk: its size as a hexadecimal numeral, a line break,
/// the data, a line break.
pub open spec fn chunk_encoding(data: Seq<u8>) -> Seq<u8> {
    hex_numeral(data.len()) + seq![13u8, 10u8] + data + seq![13u8, 10u8]
}

/// A whole encoded chunked body: each chunk in order, ended by the
/// zero-size chunk line and the blank line closing its (empty) trailer.
pub open spec fn chunked_encoding(chunks: Seq<Seq<u8>>) -> Seq<u8>
    decreases chunks.len(),
{
    if chunks.len() == 0 {
        seq![48u8, 13u8, 10u8, 13u8, 10u8]
    } else {
        chunk_encoding(chunks.first()) + chunked_encoding(chunks.drop_first())
    }
}

/// A line known to sit at `pos`: no `\n` before the `\r\n` at `k`.
proof fn lemma_line_at_crlf(s: Seq<u8>, pos: int, k: int)
    requires
        0 <= pos <= k,
        k + 2 <= s.len(),
        forall|j: int| pos <= j < k ==> #[trigger] s[j] != 10,
        s[k] == 13,
        s[k + 1] == 10,
    ensures
        line_content(s, pos) == s.subrange(pos, k),
        line_next(s, pos) == k + 2,
{
    lemma_find_byte_at(s, 10, pos, k + 1);
}

/// Searching from an offset past a prefix is searching the suffix.
proof fn lemma_find_byte_shift(a: Seq<u8>, b: Seq<u8>, c: u8, from: int)
    requires
        0 <= from <= b.len(),
    ensures
        find_byte(a + b, c, a.len() + from) == a.len() + find_byte(b, c, from),
    decreases b.len() - from,
{
    if from < b.len() && b[from] != c {
        lemma_find_byte_shift(a, b, c, from + 1);
    }
}

/// Reading a line past a prefix is reading it in the suffix.
proof fn lemma_line_shift(a: Seq<u8>, b: Seq<u8>, pos: int)
    requires
        0 <= pos <= b.len(),
    ensures
        line_content(a + b, a.len() + pos) == line_content(b, pos),
        line_next(a + b, a.len() + pos) == a.len() + line_next(b, pos),
{
    lemma_find_byte_shift(a, b, 10, pos);
    lemma_find_byte(b, 10, pos);
    let e = line_end(b, pos);
    if e < b.len() && e > pos && b[e - 1] == 13 {
        assert((a + b).subrange(a.len() + pos, a.len() + e - 1) =~= b.subrange(pos, e - 1));
    } else {
        assert((a + b).subrange(a.len() + pos, a.len() + e) =~= b.subrange(pos, e));
    }
}

/// Decoding chunks past a prefix is decoding them in the suffix.
proof fn lemma_chunked_shift(a: Seq<u8>, b: Seq<u8>, pos: int)
    requires
        0 <= pos <= b.len(),
    ensures
        spec_chunked(a + b, a.len() + pos) == spec_chunked(b, pos),
    decreases b.len() - pos,
{
    let s = a + b;
    lemma_line_shift(a, b, pos);
    lemma_line_bounds(b, pos);
    match spec_chunk_size(line_content(b, pos)) {
        None => {},
        Some(size) => {
            if size > 0 {
                if pos == b.len() {
                    assert(line_content(b, pos).subrange(
                        0,
                        find_byte(line_content(b, pos), 59, 0),
                    ) =~= Seq::<u8>::empty());
                }
                let p = line_next(b, pos);
                if b.len() - p < size {
                    assert(s.subrange(a.len() + p, s.len() as int) =~= b.subrange(
                        p,
                        b.len() as int,
                    ));
                } else {
                    assert(s.subrange(a.len() + p, a.len() + p + size) =~= b.subrange(
                        p,
                        p + size,
                    ));
                    lemma_line_shift(a, b, p + size);
                    lemma_line_bounds(b, p + size);
                    lemma_chunked_shift(a, b, line_next(b, p + size));
                }
            }
        },
    }
}

/// Law: decoding the encoding of any sequence of nonempty chunks yields
/// exactly their bytes, concatenated in order, and a clean end: none of
/// the framing leaks into the body, and the zero-size chunk ends it
/// without error. (A chunk must be nonempty because a zero-size chunk is
/// the terminator itself.)
pub proof fn lemma_chunked_round_trip(chunks: Seq<Seq<u8>>)
    requires
        forall|i: int| 0 <= i < chunks.len() ==> 0 < #[trigger] chunks[i].len() <= usize::MAX,
    ensures
        spec_chunked(chunked_encoding(chunks), 0) == (chunks.flatten(), None::<HttpError>),
    decreases chunks.len(),
{
    let s = chunked_encoding(chunks);
    if chunks.len() == 0 {
        lemma_line_at_crlf(s, 0, 1);
        assert(line_content(s, 0) =~= seq![48u8]);
        lemma_find_byte_at(seq![48u8], 59, 0, 1);
        assert(seq![48u8].subrange(0, 1) =~= seq![48u8]);
        assert(seq![48u8].drop_last() =~= Seq::<u8>::empty());
        assert(hex_val(Seq::<u8>::empty()) == 0);
        assert(seq![48u8].last() == 48u8);
        assert(hex_digit_val(48u8) == 0);
        assert(hex_val(seq![48u8]) == 0);
        assert(spec_chunk_size(line_content(s, 0)) == Some(0usize));
        assert(chunks.flatten() =~= Seq::<u8>::empty());
    } else {
        let c0 = chunks.first();
        let rest = chunks.drop_first();
        let enc0 = chunk_encoding(c0);
        let rest_enc = chunked_encoding(rest);
        let hex = hex_numeral(c0.len());
        let k = hex.len() as int;
        let size = c0.len() as int;
        lemma_hex_numeral(c0.len());
        assert(chunks[0] == c0);
        assert(0 < c0.len() <= usize::MAX);
        assert(enc0.len() == k + 2 + size + 2);
        assert(s == enc0 + rest_enc);
        assert(forall|j: int| 0 <= j < k ==> #[trigger] s[j] != 10) by {
            assert(forall|j: int| 0 <= j < k ==> s[j] == hex[j]);
        }
        assert(s[k] == 13);
        assert(s[k + 1] == 10);
        lemma_line_at_crlf(s, 0, k);
        assert(line_content(s, 0) =~= hex);
        lemma_find_byte_at(hex, 59, 0, k);
        assert(hex.subrange(0, k) =~= hex);
        assert(spec_chunk_size(hex) == Some(c0.len() as usize));
        let p = line_next(s, 0);
        assert(p == k + 2);
        assert(s.len() - p >= size);
        assert(s.subrange(p, p + size) =~= c0);
        assert(s[p + size] == 13);
        assert(s[p + size + 1] == 10);
        lemma_line_at_crlf(s, p + size, p + size);
        assert(line_next(s, p + size) == enc0.len() as int);
        lemma_chunked_shift(enc0, rest_enc, 0);
        assert(spec_chunked(s, enc0.len() as int) == spec_chunked(rest_enc, 0));
        assert(forall|i: int| 0 <= i < rest.len() ==> 0 < #[trigger] rest[i].len() <= usize::MAX)
            by {
            assert(forall|i: int| 0 <= i < rest.len() ==> rest[i] == chunks[i + 1]);
        }
        lemma_chunked_round_trip(rest);
        assert(spec_chunked(s, 0).0 == c0 + rest.flatten());
        assert(spec_chunked(s, 0).1 == None::<HttpError>);
        assert(chunks.flatten() == c0 + rest.flatten());
    }
}

// ---------------------------------------------------------------------------
// The whole response
// ---------------------------------------------------------------------------
/// What the header block starting at `pos` means, given the headers `acc`
/// decoded so far: the finished map and where the body starts, or the
/// fatal error. An empty line ends the block; so does the end of input
/// (its empty accumulated line).
pub open spec fn spec_read_headers(s: Seq<u8>, pos: int, acc: HeaderSeq) -> Result<
    (HeaderSeq, int),
    HttpError,
>
    decreases s.len() - pos,
        when 0 <= pos <= s.len()
        via spec_read_headers_decreases
{
    let line = line_content(s, pos);
    let p = line_next(s, pos);
    if line.len() == 0 {
        Ok((acc, p))
    } else {
        match spec_header_line(line) {
            None => Err(HttpError::MalformedHeader),
            Some(nv) => spec_read_headers(s, p, add_values(acc, nv.0, nv.1)),
        }
    }
}

#[via_fn]
proof fn spec_read_headers_decreases(s: Seq<u8>, pos: int, acc: HeaderSeq) {
    lemma_line_bounds(s, pos);
}

/// Everything a response byte stream decodes to.
pub struct ResponseView {
    pub code: u16,
    pub class: StatusClass,
    pub message: Seq<char>,
    pub headers: HeaderSeq,
    pub body: Seq<u8>,
    pub body_err: Option<HttpError>,
}

/// A `Content-Length` body: exactly `n` bytes, or whatever is left and a
/// truncation error.
pub open spec fn spec_content_body(s: Seq<u8>, pos: int, n: usize) -> (Seq<u8>, Option<HttpError>) {
    if s.len() - pos >= n {
        (s.subrange(pos, pos + n), None)
    } else {
        (s.subrange(pos, s.len() as int), Some(HttpError::TruncatedBody))
    }
}

/// What a whole response byte stream means: the status line, then the
/// header block, then the body framed as the headers direct. Status-line
/// and header errors are fatal; a body error still leaves the decoded
/// status, headers and body prefix standing.
pub open spec fn spec_response(s: Seq<u8>) -> Result<ResponseView, HttpError> {
    match spec_status_line(line_content(s, 0)) {
        Err(e) => Err(e),
        Ok(st) => match spec_read_headers(s, line_next(s, 0), Seq::empty()) {
            Err(e) => Err(e),
            Ok(hp) => {
                let body = match spec_framing(hp.0) {
                    BodyFraming::Chunked => spec_chunked(s, hp.1),
                    BodyFraming::ContentLength(n) => spec_content_body(s, hp.1, n),
                    BodyFraming::UntilClose => (s.subrange(hp.1, s.len() as int), None),
                };
                Ok(
                    ResponseView {
                        code: st.0,
                        class: st.1,
                        message: st.2,
                        headers: hp.0,
                        body: body.0,
                        body_err: body.1,
                    },
                )
            },
        },
    }
}

/// A decoded response: status and headers, and the body bytes the framing
/// yielded, readable once through the cursor.
#[derive(Debug)]
pub struct HttpResponse {
    pub status_code: u16,
    pub status_class: StatusClass,
    pub status_message: String,
    pub headers: Headers,
    /// Decoded body bytes; read them through `next` rather than directly.
    pub body: Vec<u8>,
    /// The error that ended body decoding, if one did.
    pub body_err: Option<HttpError>,
    /// How many body bytes `next` has yielded.
    pub cursor: usize,
}

impl HttpResponse {
    /// The decoded body bytes (already-yielded bytes stay valid even when
    /// decoding ended in an error).
    pub open spec fn spec_body(&self) -> Seq<u8> {
        self.body@
    }

    /// The error that ended body decoding, if one did.
    pub open spec fn spec_body_err(&self) -> Option<HttpError> {
        self.body_err
    }

    /// How many body bytes have been read off already.
    pub open spec fn spec_cursor(&self) -> int {
        self.cursor as int
    }

    pub open spec fn wf(&self) -> bool {
        self.headers.wf() && 0 <= self.spec_cursor() <= self.spec_body().len()
    }

    /// Decode a whole response from the bytes the transport delivered:
    /// status line, header block, then the body under the framing the
    /// headers direct.
    pub fn new(raw: Vec<u8>) -> (r: Result<HttpResponse, HttpError>)
        ensures
            r is Ok <==> spec_response(raw@) is Ok,
            r matches Ok(resp) ==> ({
                let rv = spec_response(raw@)->Ok_0;
                &&& resp.status_code == rv.code
                &&& resp.status_class == rv.class
                &&& resp.status_message@ == rv.message
                &&& resp.headers@ == rv.headers
                &&& resp.spec_body() == rv.body
                &&& resp.spec_body_err() == rv.body_err
                &&& resp.spec_cursor() == 0
                &&& resp.wf()
            }),
            r matches Err(e) ==> spec_response(raw@) matches Err(e2) && e == e2,
    {
        let (status_line, p1) = next_line(&raw, 0);
        let status = match read_status_line(&status_line) {
            Ok(st) => st,
            Err(e) => {
                return Err(e);
            },
        };
        let mut headers = Headers::new();
        let mut pos: usize = p1;
        loop
            invariant_except_break
                pos <= raw@.len(),
                p1 <= raw@.len(),
                p1 as int == line_next(raw@, 0),
                spec_status_line(line_content(raw@, 0)) is Ok,
                headers.wf(),
                spec_read_headers(raw@, p1 as int, Seq::<(Seq<char>, Seq<Seq<char>>)>::empty())
                    == spec_read_headers(raw@, pos as int, headers@),
            ensures
                pos <= raw@.len(),
                headers.wf(),
                spec_read_headers(raw@, p1 as int, Seq::<(Seq<char>, Seq<Seq<char>>)>::empty())
                    == Ok::<(HeaderSeq, int), HttpError>((headers@, pos as int)),
            decreases raw@.len() - pos,
        {
            let (line, p) = next_line(&raw, pos);
            if line.len() == 0 {
                pos = p;
                break;
            }
            let ghost h_before = headers@;
            match read_header(&mut headers, &line) {
                Ok(_) => {},
                Err(e) => {
                    proof {
                        assert(line_content(raw@, pos as int).len() != 0);
                        assert(spec_header_line(line_content(raw@, pos as int)) is None);
                        assert(spec_read_headers(raw@, pos as int, h_before) == Err::<
                            (HeaderSeq, int),
                            HttpError,
                        >(HttpError::MalformedHeader));
                    }
                    return Err(e);
                },
            }
            proof {
                assert(spec_read_headers(raw@, pos as int, h_before) == spec_read_headers(
                    raw@,
                    p as int,
                    headers@,
                ));
            }
            pos = p;
        }
        let framing = body_framing(&headers);
        let (body, body_err) = match framing {
            BodyFraming::Chunked => decode_chunked(&raw, pos),
            BodyFraming::ContentLength(n) => decode_content_length(&raw, pos, n),
            BodyFraming::UntilClose => (decode_until_close(&raw, pos), None),
        };
        Ok(
            HttpResponse {
                status_code: status.code,
                status_class: status.class,
                status_message: status.message,
                headers,
                body,
                body_err,
                cursor: 0,
            },
        )
    }

    /// The error that ended body decoding, if one did; `None` after a
    /// clean end.
    pub fn body_error(&self) -> (r: Option<HttpError>)
        ensures
            r == self.spec_body_err(),
    {
        self.body_err
    }

    /// The next body byte, or `None` once the decoded body is exhausted.
    /// Bytes come out in order, each exactly once.
    pub fn next(&mut self) -> (r: Option<u8>)
        requires
            old(self).wf(),
        ensures
            final(self).wf(),
            final(self).status_code == old(self).status_code,
            final(self).status_class == old(self).status_class,
            final(self).status_message == old(self).status_message,
            final(self).headers == old(self).headers,
            final(self).spec_body() == old(self).spec_body(),
            final(self).spec_body_err() == old(self).spec_body_err(),
            match r {
                Some(b) => old(self).spec_cursor() < old(self).spec_body().len()
                    && b == old(self).spec_body()[old(self).spec_cursor()]
                    && final(self).spec_cursor() == old(self).spec_cursor() + 1,
                None => old(self).spec_cursor() == old(self).spec_body().len()
                    && final(self).spec_cursor() == old(self).spec_cursor(),
            },
    {
        if self.cursor < self.body.len() {
            let b = self.body[self.cursor];
            self.cursor = self.cursor + 1;
            Some(b)
        } else {
            None
        }
    }
}

} // verus!
