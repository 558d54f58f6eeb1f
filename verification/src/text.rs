//! Characters, digits and small text helpers shared by the request
//! serializer and the response decoder.
//!
//! Header and status text travels on the wire as bytes; this client decodes
//! each byte to the character with the same code point (as the permissive
//! one-byte reading of header text), written `lat1` below. Decimal and
//! hexadecimal numerals are specified here once and used by both directions.

use vstd::prelude::*;
use vstd::string::StrSliceExecFns;

verus! {

// ---------------------------------------------------------------------------
// Bytes decoded as one-byte characters
// ---------------------------------------------------------------------------
/// Each byte read as the character with the same code point.
pub open spec fn lat1(s: Seq<u8>) -> Seq<char> {
    Seq::new(s.len(), |i: int| s[i] as char)
}

/// Relies on `String::push`: appends the given character to the end of the
/// string.
#[verifier::external_body]
pub(crate) fn push_char(s: &mut String, c: char)
    ensures
        final(s)@ == old(s)@ + seq![c],
{
    s.push(c);
}

/// Decode `bytes[from..to]` to a string, one character per byte.
pub fn lat1_range(bytes: &Vec<u8>, from: usize, to: usize) -> (s: String)
    requires
        from <= to <= bytes@.len(),
    ensures
        s@ == lat1(bytes@.subrange(from as int, to as int)),
{
    let mut s = String::new();
    let mut i: usize = from;
    while i < to
        invariant
            from <= i <= to <= bytes@.len(),
            s@ == lat1(bytes@.subrange(from as int, i as int)),
        decreases to - i,
    {
        let b = bytes[i];
        push_char(&mut s, b as char);
        proof {
            assert(s@ =~= lat1(bytes@.subrange(from as int, (i + 1) as int)));
        }
        i = i + 1;
    }
    s
}

// ---------------------------------------------------------------------------
// Decimal numerals
// ---------------------------------------------------------------------------
/// The character for one decimal digit value.
pub open spec fn digit_char(d: int) -> char {
    if d == 0 {
        '0'
    } else if d == 1 {
        '1'
    } else if d == 2 {
        '2'
    } else if d == 3 {
        '3'
    } else if d == 4 {
        '4'
    } else if d == 5 {
        '5'
    } else if d == 6 {
        '6'
    } else if d == 7 {
        '7'
    } else if d == 8 {
        '8'
    } else {
        '9'
    }
}

/// The decimal numeral of `n`, most significant digit first, no sign and no
/// leading zeros (`0` itself is the single digit `0`).
pub open spec fn dec_chars(n: nat) -> Seq<char>
    decreases n,
{
    if n < 10 {
        seq![digit_char(n as int)]
    } else {
        dec_chars(n / 10) + seq![digit_char((n % 10) as int)]
    }
}

fn push_digit(s: &mut String, d: u64)
    requires
        d < 10,
    ensures
        final(s)@ == old(s)@ + seq![digit_char(d as int)],
{
    let c: char = if d == 0 {
        '0'
    } else if d == 1 {
        '1'
    } else if d == 2 {
        '2'
    } else if d == 3 {
        '3'
    } else if d == 4 {
        '4'
    } else if d == 5 {
        '5'
    } else if d == 6 {
        '6'
    } else if d == 7 {
        '7'
    } else if d == 8 {
        '8'
    } else {
        '9'
    };
    push_char(s, c);
}

/// Append the decimal numeral of `n` to `s`.
pub fn push_dec(s: &mut String, n: u64)
    ensures
        final(s)@ == old(s)@ + dec_chars(n as nat),
    decreases n,
{
    if n < 10 {
        push_digit(s, n);
    } else {
        push_dec(s, n / 10);
        push_digit(s, n % 10);
    }
}

// ---------------------------------------------------------------------------
// Scanning bytes
// ---------------------------------------------------------------------------
/// The index of the first occurrence of `b` in `s` at or after `from`, or
/// `s.len()` if there is none (or `from` is out of range).
pub open spec fn find_byte(s: Seq<u8>, b: u8, from: int) -> int
    decreases s.len() - from,
{
    if from < 0 || from >= s.len() {
        s.len() as int
    } else if s[from] == b {
        from
    } else {
        find_byte(s, b, from + 1)
    }
}

/// What `find_byte` finds: the first occurrence, or the length.
pub proof fn lemma_find_byte(s: Seq<u8>, b: u8, from: int)
    requires
        0 <= from <= s.len(),
    ensures
        from <= find_byte(s, b, from) <= s.len(),
        find_byte(s, b, from) < s.len() ==> s[find_byte(s, b, from)] == b,
        forall|j: int| from <= j < find_byte(s, b, from) ==> s[j] != b,
    decreases s.len() - from,
{
    if from < s.len() && s[from] != b {
        lemma_find_byte(s, b, from + 1);
    }
}

/// `find_byte` returns exactly the position a scan stopped at.
pub proof fn lemma_find_byte_at(s: Seq<u8>, b: u8, from: int, i: int)
    requires
        0 <= from <= i <= s.len(),
        forall|j: int| from <= j < i ==> s[j] != b,
        i < s.len() ==> s[i] == b,
    ensures
        find_byte(s, b, from) == i,
    decreases i - from,
{
    if from < i {
        lemma_find_byte_at(s, b, from + 1, i);
    }
}

// ---------------------------------------------------------------------------
// Parsing decimal and hexadecimal numerals from bytes
// ---------------------------------------------------------------------------
pub open spec fn is_dec_digit(b: u8) -> bool {
    48 <= b <= 57
}

pub open spec fn all_dec_digits(s: Seq<u8>) -> bool {
    forall|i: int| 0 <= i < s.len() ==> is_dec_digit(#[trigger] s[i])
}

/// The value of a string of decimal digit bytes (0 for the empty string).
pub open spec fn dec_val(s: Seq<u8>) -> nat
    decreases s.len(),
{
    if s.len() == 0 {
        0
    } else {
        (dec_val(s.drop_last()) * 10 + (s.last() - 48)) as nat
    }
}

pub open spec fn is_hex_digit(b: u8) -> bool {
    48 <= b <= 57 || 97 <= b <= 102 || 65 <= b <= 70
}

pub open spec fn all_hex_digits(s: Seq<u8>) -> bool {
    forall|i: int| 0 <= i < s.len() ==> is_hex_digit(#[trigger] s[i])
}

pub open spec fn hex_digit_val(b: u8) -> nat {
    if 48 <= b <= 57 {
        (b - 48) as nat
    } else if 97 <= b <= 102 {
        (b - 97 + 10) as nat
    } else if 65 <= b <= 70 {
        (b - 65 + 10) as nat
    } else {
        0
    }
}

/// The value of a string of hexadecimal digit bytes (0 for the empty string).
pub open spec fn hex_val(s: Seq<u8>) -> nat
    decreases s.len(),
{
    if s.len() == 0 {
        0
    } else {
        hex_val(s.drop_last()) * 16 + hex_digit_val(s.last())
    }
}

/// The byte of one hexadecimal digit value, lower case.
pub open spec fn hex_digit_byte(d: nat) -> u8 {
    if d < 10 {
        (48 + d) as u8
    } else {
        (87 + d) as u8
    }
}

/// The hexadecimal numeral of `n`, most significant digit first, no
/// leading zeros (`0` itself is the single digit `0`).
pub open spec fn hex_numeral(n: nat) -> Seq<u8>
    decreases n,
{
    if n < 16 {
        seq![hex_digit_byte(n)]
    } else {
        hex_numeral(n / 16) + seq![hex_digit_byte(n % 16)]
    }
}

/// The hexadecimal numeral of `n` names `n`: it is a nonempty string of
/// hexadecimal digits, free of line breaks and of the `;` that starts
/// chunk extensions, whose value is `n`.
pub proof fn lemma_hex_numeral(n: nat)
    ensures
        hex_numeral(n).len() >= 1,
        all_hex_digits(hex_numeral(n)),
        hex_val(hex_numeral(n)) == n,
        forall|j: int|
            0 <= j < hex_numeral(n).len() ==> #[trigger] hex_numeral(n)[j] != 10 && hex_numeral(
                n,
            )[j] != 13 && hex_numeral(n)[j] != 59,
    decreases n,
{
    if n < 16 {
        let s = hex_numeral(n);
        assert(s.drop_last() =~= Seq::<u8>::empty());
        assert(hex_val(Seq::<u8>::empty()) == 0);
        assert(hex_digit_val(hex_digit_byte(n)) == n);
    } else {
        lemma_hex_numeral(n / 16);
        let s = hex_numeral(n);
        assert(s.drop_last() =~= hex_numeral(n / 16));
        assert(s.last() == hex_digit_byte(n % 16));
        assert(hex_digit_val(hex_digit_byte(n % 16)) == n % 16);
        assert(hex_val(s) == (n / 16) * 16 + n % 16);
        assert((n / 16) * 16 + n % 16 == n) by {
            vstd::arithmetic::div_mod::lemma_fundamental_div_mod(n as int, 16);
        }
    }
}

/// A longer digit string never has a smaller value than its prefix times the
/// base, so a prefix past the range bound keeps the whole numeral past it.
proof fn lemma_dec_val_extend(s: Seq<u8>, i: int)
    requires
        0 <= i < s.len(),
        is_dec_digit(s[i]),
    ensures
        dec_val(s.subrange(0, i + 1)) == dec_val(s.subrange(0, i)) * 10 + (s[i] - 48),
{
    let p = s.subrange(0, i + 1);
    assert(p.drop_last() =~= s.subrange(0, i));
    assert(p.last() == s[i]);
}

proof fn lemma_hex_val_extend(s: Seq<u8>, i: int)
    requires
        0 <= i < s.len(),
    ensures
        hex_val(s.subrange(0, i + 1)) == hex_val(s.subrange(0, i)) * 16 + hex_digit_val(s[i]),
{
    let p = s.subrange(0, i + 1);
    assert(p.drop_last() =~= s.subrange(0, i));
    assert(p.last() == s[i]);
}

/// Parse `bytes[from..to]` as a decimal numeral of a 16-bit value.
/// `None` exactly when the range is empty, holds a non-digit, or the value
/// does not fit in `u16`.
pub fn parse_dec_u16(bytes: &Vec<u8>, from: usize, to: usize) -> (r: Option<u16>)
    requires
        from <= to <= bytes@.len(),
    ensures
        ({
            let s = bytes@.subrange(from as int, to as int);
            match r {
                Some(v) => s.len() > 0 && all_dec_digits(s) && dec_val(s) == v,
                None => s.len() == 0 || !all_dec_digits(s) || dec_val(s) > 0xffff,
            }
        }),
{
    let ghost s = bytes@.subrange(from as int, to as int);
    if from == to {
        return None;
    }
    let mut acc: u32 = 0;
    let mut i: usize = from;
    while i < to
        invariant
            from <= i <= to <= bytes@.len(),
            s == bytes@.subrange(from as int, to as int),
            all_dec_digits(s.subrange(0, i - from)),
            acc <= 0xffff ==> acc == dec_val(s.subrange(0, i - from)),
            acc > 0xffff ==> acc == 0x10000 && dec_val(s.subrange(0, i - from)) > 0xffff,
        decreases to - i,
    {
        let b = bytes[i];
        if b < 48 || b > 57 {
            proof {
                assert(s[i - from] == b);
                assert(!is_dec_digit(s[i - from]));
            }
            return None;
        }
        let d: u32 = (b - 48) as u32;
        proof {
            lemma_dec_val_extend(s, i - from);
            assert(s.subrange(0, i - from + 1) == s.subrange(0, i - from).push(s[i - from]));
        }
        if acc > 0xffff || acc * 10 + d > 0xffff {
            acc = 0x10000;
        } else {
            acc = acc * 10 + d;
        }
        i = i + 1;
    }
    proof {
        assert(s.subrange(0, to - from) =~= s);
    }
    if acc > 0xffff {
        None
    } else {
        Some(acc as u16)
    }
}

/// Parse `bytes[from..to]` as a hexadecimal numeral. `None` exactly when
/// the range is empty, holds a non-digit, or the value is too large for
/// this machine to hold.
pub fn parse_hex_usize(bytes: &Vec<u8>, from: usize, to: usize) -> (r: Option<usize>)
    requires
        from <= to <= bytes@.len(),
    ensures
        ({
            let s = bytes@.subrange(from as int, to as int);
            match r {
                Some(v) => s.len() > 0 && all_hex_digits(s) && hex_val(s) == v,
                None => s.len() == 0 || !all_hex_digits(s) || hex_val(s) > usize::MAX,
            }
        }),
{
    let ghost s = bytes@.subrange(from as int, to as int);
    if from == to {
        return None;
    }
    let mut acc: usize = 0;
    let mut over: bool = false;
    let mut i: usize = from;
    while i < to
        invariant
            from <= i <= to <= bytes@.len(),
            s == bytes@.subrange(from as int, to as int),
            all_hex_digits(s.subrange(0, i - from)),
            !over ==> acc == hex_val(s.subrange(0, i - from)),
            over ==> hex_val(s.subrange(0, i - from)) > usize::MAX,
        decreases to - i,
    {
        let b = bytes[i];
        let d: usize = if b >= 48 && b <= 57 {
            (b - 48) as usize
        } else if b >= 97 && b <= 102 {
            (b - 97 + 10) as usize
        } else if b >= 65 && b <= 70 {
            (b - 65 + 10) as usize
        } else {
            proof {
                assert(s[i - from] == b);
                assert(!is_hex_digit(s[i - from]));
            }
            return None;
        };
        proof {
            lemma_hex_val_extend(s, i - from);
            assert(s[i - from] == b);
            assert(hex_digit_val(b) == d);
        }
        if over {
            proof {
                assert(hex_val(s.subrange(0, i - from + 1)) >= hex_val(s.subrange(0, i - from)));
            }
        } else {
            match acc.checked_mul(16) {
                Some(x) => match x.checked_add(d) {
                    Some(y) => {
                        acc = y;
                    },
                    None => {
                        over = true;
                    },
                },
                None => {
                    over = true;
                },
            }
        }
        i = i + 1;
    }
    proof {
        assert(s.subrange(0, to - from) =~= s);
    }
    if over {
        None
    } else {
        Some(acc)
    }
}

// ---------------------------------------------------------------------------
// Comparing strings
// ---------------------------------------------------------------------------
/// Whether two strings hold the same characters.
pub fn str_eq(a: &str, b: &str) -> (r: bool)
    ensures
        r == (a@ == b@),
{
    let an = a.unicode_len();
    let bn = b.unicode_len();
    if an != bn {
        proof {
            assert(a@ != b@);
        }
        return false;
    }
    let mut i: usize = 0;
    while i < an
        invariant
            a@.len() == an,
            b@.len() == an,
            i <= an,
            forall|j: int| 0 <= j < i ==> a@[j] == b@[j],
        decreases an - i,
    {
        if a.get_char(i) != b.get_char(i) {
            return false;
        }
        i = i + 1;
    }
    proof {
        assert(a@ =~= b@);
    }
    true
}

/// The code point of `c` with an ASCII capital letter folded to lower case.
pub open spec fn lower_code(c: char) -> u32 {
    if 65 <= c as u32 <= 90 {
        (c as u32 + 32) as u32
    } else {
        c as u32
    }
}

/// Character equality up to ASCII case.
pub open spec fn chars_ci_equal(a: char, b: char) -> bool {
    lower_code(a) == lower_code(b)
}

/// String equality up to ASCII case.
pub open spec fn seq_ci_equal(a: Seq<char>, b: Seq<char>) -> bool {
    a.len() == b.len() && forall|i: int| 0 <= i < a.len() ==> chars_ci_equal(a[i], b[i])
}

fn lower_code_exec(c: char) -> (r: u32)
    ensures
        r == lower_code(c),
{
    let u = c as u32;
    if 65 <= u && u <= 90 {
        u + 32
    } else {
        u
    }
}

/// Whether two strings are equal up to ASCII case.
pub fn str_ci_eq(a: &str, b: &str) -> (r: bool)
    ensures
        r == seq_ci_equal(a@, b@),
{
    let an = a.unicode_len();
    let bn = b.unicode_len();
    if an != bn {
        return false;
    }
    let mut i: usize = 0;
    while i < an
        invariant
            a@.len() == an,
            b@.len() == an,
            i <= an,
            forall|j: int| 0 <= j < i ==> chars_ci_equal(a@[j], b@[j]),
        decreases an - i,
    {
        if lower_code_exec(a.get_char(i)) != lower_code_exec(b.get_char(i)) {
            return false;
        }
        i = i + 1;
    }
    true
}

// ---------------------------------------------------------------------------
// Parsing a decimal numeral from a string
// ---------------------------------------------------------------------------
pub open spec fn is_dec_digit_char(c: char) -> bool {
    48 <= c as u32 <= 57
}

pub open spec fn all_dec_digit_chars(s: Seq<char>) -> bool {
    forall|i: int| 0 <= i < s.len() ==> is_dec_digit_char(#[trigger] s[i])
}

/// The value of a string of decimal digit characters (0 for the empty string).
pub open spec fn dec_val_chars(s: Seq<char>) -> nat
    decreases s.len(),
{
    if s.len() == 0 {
        0
    } else {
        (dec_val_chars(s.drop_last()) * 10 + (s.last() as u32 - 48)) as nat
    }
}

proof fn lemma_dec_val_chars_extend(s: Seq<char>, i: int)
    requires
        0 <= i < s.len(),
        is_dec_digit_char(s[i]),
    ensures
        dec_val_chars(s.subrange(0, i + 1)) == dec_val_chars(s.subrange(0, i)) * 10 + (s[i] as u32
            - 48),
{
    let p = s.subrange(0, i + 1);
    assert(p.drop_last() =~= s.subrange(0, i));
    assert(p.last() == s[i]);
}

/// Parse a whole string as a decimal numeral. `None` exactly when the
/// string is empty, holds a non-digit, or the value is too large for this
/// machine to hold.
pub fn parse_dec_usize_str(v: &str) -> (r: Option<usize>)
    ensures
        match r {
            Some(n) => v@.len() > 0 && all_dec_digit_chars(v@) && dec_val_chars(v@) == n,
            None => v@.len() == 0 || !all_dec_digit_chars(v@) || dec_val_chars(v@) > usize::MAX,
        },
{
    let n = v.unicode_len();
    if n == 0 {
        return None;
    }
    let mut acc: usize = 0;
    let mut over: bool = false;
    let mut i: usize = 0;
    while i < n
        invariant
            v@.len() == n,
            i <= n,
            all_dec_digit_chars(v@.subrange(0, i as int)),
            !over ==> acc == dec_val_chars(v@.subrange(0, i as int)),
            over ==> dec_val_chars(v@.subrange(0, i as int)) > usize::MAX,
        decreases n - i,
    {
        let u = v.get_char(i) as u32;
        if u < 48 || u > 57 {
            proof {
                assert(!is_dec_digit_char(v@[i as int]));
            }
            return None;
        }
        let d: usize = (u - 48) as usize;
        proof {
            lemma_dec_val_chars_extend(v@, i as int);
        }
        if over {
            proof {
                assert(dec_val_chars(v@.subrange(0, i + 1)) >= dec_val_chars(
                    v@.subrange(0, i as int),
                ));
            }
        } else {
            match acc.checked_mul(10) {
                Some(x) => match x.checked_add(d) {
                    Some(y) => {
                        acc = y;
                    },
                    None => {
                        over = true;
                    },
                },
                None => {
                    over = true;
                },
            }
        }
        i = i + 1;
    }
    proof {
        assert(v@.subrange(0, n as int) =~= v@);
    }
    if over {
        None
    } else {
        Some(acc)
    }
}

// ---------------------------------------------------------------------------
// Trimming whitespace
// ---------------------------------------------------------------------------
/// ASCII whitespace: space, tab, carriage return, line feed.
pub open spec fn is_ws(b: u8) -> bool {
    b == 32 || b == 9 || b == 13 || b == 10
}

pub open spec fn trim_start(s: Seq<u8>) -> Seq<u8>
    decreases s.len(),
{
    if s.len() > 0 && is_ws(s[0]) {
        trim_start(s.drop_first())
    } else {
        s
    }
}

pub open spec fn trim_end(s: Seq<u8>) -> Seq<u8>
    decreases s.len(),
{
    if s.len() > 0 && is_ws(s.last()) {
        trim_end(s.drop_last())
    } else {
        s
    }
}

/// The string with leading and trailing ASCII whitespace removed.
pub open spec fn trim_ws(s: Seq<u8>) -> Seq<u8> {
    trim_end(trim_start(s))
}

proof fn lemma_trim_start_at(s: Seq<u8>, k: int)
    requires
        0 <= k <= s.len(),
        forall|j: int| 0 <= j < k ==> is_ws(s[j]),
        k < s.len() ==> !is_ws(s[k]),
    ensures
        trim_start(s) == s.subrange(k, s.len() as int),
    decreases k,
{
    if k == 0 {
        assert(s.subrange(0, s.len() as int) =~= s);
    } else {
        let t = s.drop_first();
        assert(forall|j: int| 0 <= j < k - 1 ==> is_ws(t[j]));
        lemma_trim_start_at(t, k - 1);
        assert(t.subrange(k - 1, t.len() as int) =~= s.subrange(k, s.len() as int));
    }
}

proof fn lemma_trim_end_at(s: Seq<u8>, k: int)
    requires
        0 <= k <= s.len(),
        forall|j: int| k <= j < s.len() ==> is_ws(s[j]),
        k > 0 ==> !is_ws(s[k - 1]),
    ensures
        trim_end(s) == s.subrange(0, k),
    decreases s.len(),
{
    if k == s.len() {
        assert(s.subrange(0, k) =~= s);
    } else {
        let t = s.drop_last();
        assert(is_ws(s.last()));
        lemma_trim_end_at(t, k);
        assert(t.subrange(0, k) =~= s.subrange(0, k));
    }
}

/// Decode `bytes[from..to]`, with surrounding ASCII whitespace dropped, to a
/// string of one character per byte.
pub fn trim_lat1(bytes: &Vec<u8>, from: usize, to: usize) -> (s: String)
    requires
        from <= to <= bytes@.len(),
    ensures
        s@ == lat1(trim_ws(bytes@.subrange(from as int, to as int))),
{
    let ghost sub = bytes@.subrange(from as int, to as int);
    let mut a: usize = from;
    while a < to && (bytes[a] == 32 || bytes[a] == 9 || bytes[a] == 13 || bytes[a] == 10)
        invariant
            from <= a <= to <= bytes@.len(),
            forall|j: int| from <= j < a ==> is_ws(bytes@[j]),
        decreases to - a,
    {
        a = a + 1;
    }
    let mut b: usize = to;
    while b > a && (bytes[b - 1] == 32 || bytes[b - 1] == 9 || bytes[b - 1] == 13 || bytes[b - 1]
        == 10)
        invariant
            from <= a <= b <= to <= bytes@.len(),
            forall|j: int| from <= j < a ==> is_ws(bytes@[j]),
            forall|j: int| b <= j < to ==> is_ws(bytes@[j]),
        decreases b,
    {
        b = b - 1;
    }
    proof {
        assert(forall|j: int| 0 <= j < a - from ==> is_ws(sub[j]));
        assert(a - from < sub.len() ==> !is_ws(sub[a - from]));
        lemma_trim_start_at(sub, a - from);
        let t = sub.subrange(a - from, sub.len() as int);
        assert(forall|j: int| b - a <= j < t.len() ==> is_ws(t[j]));
        assert(b - a > 0 ==> !is_ws(t[b - a - 1]));
        lemma_trim_end_at(t, b - a);
        assert(trim_ws(sub) =~= bytes@.subrange(a as int, b as int));
    }
    lat1_range(bytes, a, b)
}

} // verus!
