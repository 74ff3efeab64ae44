//! The canonical record text: a JSON-shaped grammar over ASCII bytes
//! that carries the transport token's structured record.
//!
//! The grammar has no whitespace and four kinds of value: `null`,
//! unsigned decimal numbers that fit sixty-four bits, quoted strings,
//! and one level of `{"key":value}` objects inside the top-level
//! object.  Strings escape `"` and `\`; every other character outside
//! printable ASCII is written as a `\u` escape, supplementary
//! characters as a surrogate pair.  The writer emits exactly this
//! form; the parser accepts it and nothing else.
use crate::hexutil::hex4_bytes;
use crate::hexutil::lemma_hex4_val;
use crate::hexutil::hex_val8;
use crate::hexutil::is_hex_digit8;
use crate::strutil::char_of_scalar;
use crate::strutil::string_push;
use vstd::string::StrSliceExecFns;
use vstd::prelude::*;

verus! {

/// A scalar value of the record grammar.
pub enum Scalar {
    Null,
    Num(u64),
    Str(String),
}

/// Mathematical form of a scalar value.
pub enum GScalar {
    Null,
    Num(u64),
    Str(Seq<char>),
}

/// A key-value pair of an inner object.
pub struct InnerMember {
    pub key: String,
    pub val: Scalar,
}

/// Mathematical form of an inner member.
pub struct GInnerMember {
    pub key: Seq<char>,
    pub val: GScalar,
}

/// A value of the top-level object: a scalar or one inner object.
pub enum TopVal {
    Sc(Scalar),
    Obj(Vec<InnerMember>),
}

/// Mathematical form of a top-level value.
pub enum GTopVal {
    Sc(GScalar),
    Obj(Seq<GInnerMember>),
}

/// A key-value pair of the top-level object.
pub struct TopMember {
    pub key: String,
    pub val: TopVal,
}

/// Mathematical form of a top-level member.
pub struct GTopMember {
    pub key: Seq<char>,
    pub val: GTopVal,
}

impl View for Scalar {
    type V = GScalar;

    open spec fn view(&self) -> GScalar {
        match self {
            Scalar::Null => GScalar::Null,
            Scalar::Num(n) => GScalar::Num(*n),
            Scalar::Str(s) => GScalar::Str(s@),
        }
    }
}

impl View for InnerMember {
    type V = GInnerMember;

    open spec fn view(&self) -> GInnerMember {
        GInnerMember { key: self.key@, val: self.val@ }
    }
}

impl View for TopVal {
    type V = GTopVal;

    open spec fn view(&self) -> GTopVal {
        match self {
            TopVal::Sc(s) => GTopVal::Sc(s@),
            TopVal::Obj(ms) => GTopVal::Obj(ms@.map_values(|m: InnerMember| m@)),
        }
    }
}

impl View for TopMember {
    type V = GTopMember;

    open spec fn view(&self) -> GTopMember {
        GTopMember { key: self.key@, val: self.val@ }
    }
}

/// Mathematical form of a whole record.
pub open spec fn view_members(ms: Seq<TopMember>) -> Seq<GTopMember> {
    ms.map_values(|m: TopMember| m@)
}

// ------------------------------------------------------------------
// The writer, as a mathematical function from values to bytes.
// ------------------------------------------------------------------
/// The bytes that write one character inside a quoted string.
pub open spec fn escape_char(c: char) -> Seq<u8> {
    let u = c as u32;
    if u == 34 {
        seq![92u8, 34u8]
    } else if u == 92 {
        seq![92u8, 92u8]
    } else if 32 <= u && u < 127 {
        seq![u as u8]
    } else if u < 0x10000 {
        seq![92u8, 117u8] + hex4_bytes(u as int)
    } else {
        seq![92u8, 117u8] + hex4_bytes(0xD800 + (u - 0x10000) / 0x400) + seq![92u8, 117u8]
            + hex4_bytes(0xDC00 + (u - 0x10000) % 0x400)
    }
}

/// The bytes that write the body of a quoted string.
pub open spec fn escape_str(s: Seq<char>) -> Seq<u8>
    decreases s.len(),
{
    if s.len() == 0 {
        Seq::empty()
    } else {
        escape_char(s[0]) + escape_str(s.skip(1))
    }
}

/// The bytes that write a quoted string.
pub open spec fn ser_string(s: Seq<char>) -> Seq<u8> {
    seq![34u8] + escape_str(s) + seq![34u8]
}

/// The decimal digits of a nonnegative number, most significant
/// first.
pub open spec fn dec_digits(n: int) -> Seq<u8>
    recommends
        0 <= n,
    decreases n,
{
    if n < 10 {
        seq![(48 + n) as u8]
    } else {
        dec_digits(n / 10) + seq![(48 + n % 10) as u8]
    }
}

/// The bytes that write a scalar value.
pub open spec fn ser_scalar(v: GScalar) -> Seq<u8> {
    match v {
        GScalar::Null => seq![110u8, 117u8, 108u8, 108u8],
        GScalar::Num(n) => dec_digits(n as int),
        GScalar::Str(s) => ser_string(s),
    }
}

/// The bytes that write a nonempty inner member list, closing brace
/// included.
pub open spec fn ser_inner_members(ms: Seq<GInnerMember>) -> Seq<u8>
    recommends
        ms.len() > 0,
    decreases ms.len(),
{
    if ms.len() == 0 {
        seq![125u8]
    } else {
        ser_string(ms[0].key) + seq![58u8] + ser_scalar(ms[0].val) + (if ms.len() == 1 {
            seq![125u8]
        } else {
            seq![44u8] + ser_inner_members(ms.skip(1))
        })
    }
}

/// The bytes that write an inner object.
pub open spec fn ser_inner_obj(ms: Seq<GInnerMember>) -> Seq<u8> {
    seq![123u8] + (if ms.len() == 0 {
        seq![125u8]
    } else {
        ser_inner_members(ms)
    })
}

/// The bytes that write a top-level value.
pub open spec fn ser_top_val(v: GTopVal) -> Seq<u8> {
    match v {
        GTopVal::Sc(s) => ser_scalar(s),
        GTopVal::Obj(ms) => ser_inner_obj(ms),
    }
}

/// The bytes that write a nonempty top-level member list, closing
/// brace included.
pub open spec fn ser_top_members(ms: Seq<GTopMember>) -> Seq<u8>
    recommends
        ms.len() > 0,
    decreases ms.len(),
{
    if ms.len() == 0 {
        seq![125u8]
    } else {
        ser_string(ms[0].key) + seq![58u8] + ser_top_val(ms[0].val) + (if ms.len() == 1 {
            seq![125u8]
        } else {
            seq![44u8] + ser_top_members(ms.skip(1))
        })
    }
}

/// The bytes that write a whole record.
pub open spec fn ser_record(ms: Seq<GTopMember>) -> Seq<u8> {
    seq![123u8] + (if ms.len() == 0 {
        seq![125u8]
    } else {
        ser_top_members(ms)
    })
}

// ------------------------------------------------------------------
// The parser, as a mathematical function from bytes to values.  Each
// function takes the position it starts at and yields the parsed
// value with the position just past it, or nothing.
// ------------------------------------------------------------------
/// A decimal digit byte.
pub open spec fn is_digit8(b: u8) -> bool {
    48 <= b && b <= 57
}

/// Four hexadecimal digit bytes read as one value.
pub open spec fn sp_hex4(b: Seq<u8>, i: int) -> Option<int> {
    if i + 4 <= b.len() && is_hex_digit8(b[i]) && is_hex_digit8(b[i + 1]) && is_hex_digit8(
        b[i + 2],
    ) && is_hex_digit8(b[i + 3]) {
        Some(0x1000 * hex_val8(b[i]) + 0x100 * hex_val8(b[i + 1]) + 16 * hex_val8(b[i + 2])
            + hex_val8(b[i + 3]))
    } else {
        None
    }
}

/// One escape sequence, read from its backslash.
pub open spec fn sp_escape(b: Seq<u8>, i: int) -> Option<(char, int)> {
    if i + 2 > b.len() {
        None
    } else if b[i + 1] == 34 {
        Some(('"', i + 2))
    } else if b[i + 1] == 92 {
        Some(('\\', i + 2))
    } else if b[i + 1] == 117 {
        match sp_hex4(b, i + 2) {
            None => None,
            Some(v) => if 0xD800 <= v && v < 0xDC00 {
                if i + 12 <= b.len() && b[i + 6] == 92 && b[i + 7] == 117 {
                    match sp_hex4(b, i + 8) {
                        None => None,
                        Some(w) => if 0xDC00 <= w && w < 0xE000 {
                            Some(
                                (
                                    (((0x10000 + (v - 0xD800) * 0x400 + (w - 0xDC00)) as u32)
                                        as char),
                                    i + 12,
                                ),
                            )
                        } else {
                            None
                        },
                    }
                } else {
                    None
                }
            } else if 0xDC00 <= v && v < 0xE000 {
                None
            } else {
                Some(((v as u32) as char, i + 6))
            },
        }
    } else {
        None
    }
}

/// The body of a quoted string, read up to and past its closing
/// quote.
pub open spec fn sp_strbody(b: Seq<u8>, i: int) -> Option<(Seq<char>, int)>
    decreases b.len() - i,
{
    if i < 0 || i >= b.len() {
        None
    } else if b[i] == 34 {
        Some((Seq::empty(), i + 1))
    } else if b[i] == 92 {
        match sp_escape(b, i) {
            None => None,
            Some((c, j)) => if j <= i {
                None
            } else {
                match sp_strbody(b, j) {
                    None => None,
                    Some((s, k)) => Some((seq![c] + s, k)),
                }
            },
        }
    } else if 32 <= b[i] && b[i] < 127 {
        match sp_strbody(b, i + 1) {
            None => None,
            Some((s, k)) => Some((seq![(b[i] as u32) as char] + s, k)),
        }
    } else {
        None
    }
}

/// A quoted string, read from its opening quote.
pub open spec fn sp_string(b: Seq<u8>, i: int) -> Option<(Seq<char>, int)> {
    if 0 <= i && i < b.len() && b[i] == 34 {
        sp_strbody(b, i + 1)
    } else {
        None
    }
}

/// The position just past the run of digit bytes starting at `i`.
pub open spec fn digit_run_end(b: Seq<u8>, i: int) -> int
    decreases b.len() - i,
{
    if 0 <= i && i < b.len() && is_digit8(b[i]) {
        digit_run_end(b, i + 1)
    } else {
        i
    }
}

/// The value of the digit bytes from `i` up to `j`.
pub open spec fn num_val(b: Seq<u8>, i: int, j: int) -> int
    decreases j - i,
{
    if j <= i {
        0
    } else {
        num_val(b, i, j - 1) * 10 + (b[j - 1] - 48)
    }
}

/// A decimal number: a maximal digit run without a leading zero whose
/// value fits sixty-four bits.
pub open spec fn sp_number(b: Seq<u8>, i: int) -> Option<(u64, int)> {
    let j = digit_run_end(b, i);
    if j == i {
        None
    } else if b[i] == 48 && j > i + 1 {
        None
    } else if num_val(b, i, j) > u64::MAX {
        None
    } else {
        Some((num_val(b, i, j) as u64, j))
    }
}

/// A scalar value: `null`, a number, or a string.
pub open spec fn sp_scalar(b: Seq<u8>, i: int) -> Option<(GScalar, int)> {
    if i < 0 || i >= b.len() {
        None
    } else if b[i] == 34 {
        match sp_string(b, i) {
            None => None,
            Some((s, j)) => Some((GScalar::Str(s), j)),
        }
    } else if b[i] == 110 {
        if i + 4 <= b.len() && b[i + 1] == 117 && b[i + 2] == 108 && b[i + 3] == 108 {
            Some((GScalar::Null, i + 4))
        } else {
            None
        }
    } else if is_digit8(b[i]) {
        match sp_number(b, i) {
            None => None,
            Some((n, j)) => Some((GScalar::Num(n), j)),
        }
    } else {
        None
    }
}

/// A nonempty inner member list, read up to and past the closing
/// brace.
pub open spec fn sp_inner_members(b: Seq<u8>, i: int) -> Option<(Seq<GInnerMember>, int)>
    decreases b.len() - i,
{
    match sp_string(b, i) {
        None => None,
        Some((k, j)) => if j < b.len() && b[j] == 58 {
            match sp_scalar(b, j + 1) {
                None => None,
                Some((v, l)) => if l < b.len() && b[l] == 44 {
                    if l + 1 <= i {
                        None
                    } else {
                        match sp_inner_members(b, l + 1) {
                            None => None,
                            Some((ms, e)) => Some(
                                (seq![GInnerMember { key: k, val: v }] + ms, e),
                            ),
                        }
                    }
                } else if l < b.len() && b[l] == 125 {
                    Some((seq![GInnerMember { key: k, val: v }], l + 1))
                } else {
                    None
                },
            }
        } else {
            None
        },
    }
}

/// An inner object, read from its opening brace.
pub open spec fn sp_inner_obj(b: Seq<u8>, i: int) -> Option<(Seq<GInnerMember>, int)> {
    if 0 <= i && i < b.len() && b[i] == 123 {
        if i + 1 < b.len() && b[i + 1] == 125 {
            Some((Seq::empty(), i + 2))
        } else {
            sp_inner_members(b, i + 1)
        }
    } else {
        None
    }
}

/// A top-level value: a scalar or an inner object.
pub open spec fn sp_top_val(b: Seq<u8>, i: int) -> Option<(GTopVal, int)> {
    if 0 <= i && i < b.len() && b[i] == 123 {
        match sp_inner_obj(b, i) {
            None => None,
            Some((ms, j)) => Some((GTopVal::Obj(ms), j)),
        }
    } else {
        match sp_scalar(b, i) {
            None => None,
            Some((v, j)) => Some((GTopVal::Sc(v), j)),
        }
    }
}

/// A nonempty top-level member list, read up to and past the closing
/// brace.
pub open spec fn sp_top_members(b: Seq<u8>, i: int) -> Option<(Seq<GTopMember>, int)>
    decreases b.len() - i,
{
    match sp_string(b, i) {
        None => None,
        Some((k, j)) => if j < b.len() && b[j] == 58 {
            match sp_top_val(b, j + 1) {
                None => None,
                Some((v, l)) => if l < b.len() && b[l] == 44 {
                    if l + 1 <= i {
                        None
                    } else {
                        match sp_top_members(b, l + 1) {
                            None => None,
                            Some((ms, e)) => Some((seq![GTopMember { key: k, val: v }] + ms, e)),
                        }
                    }
                } else if l < b.len() && b[l] == 125 {
                    Some((seq![GTopMember { key: k, val: v }], l + 1))
                } else {
                    None
                },
            }
        } else {
            None
        },
    }
}

/// A whole record: one top-level object filling the byte string.
pub open spec fn sp_record(b: Seq<u8>) -> Option<Seq<GTopMember>> {
    if b.len() >= 2 && b[0] == 123 {
        if b[1] == 125 {
            if b.len() == 2 {
                Some(Seq::empty())
            } else {
                None
            }
        } else {
            match sp_top_members(b, 1) {
                None => None,
                Some((ms, e)) => if e == b.len() {
                    Some(ms)
                } else {
                    None
                },
            }
        }
    } else {
        None
    }
}

// ------------------------------------------------------------------
// Facts about digit runs and their values.
// ------------------------------------------------------------------
/// The value of a digit run is nonnegative.
pub proof fn lemma_num_val_nonneg(b: Seq<u8>, i: int, j: int)
    requires
        forall|m: int| i <= m < j ==> is_digit8(#[trigger] b[m]),
    ensures
        num_val(b, i, j) >= 0,
    decreases j - i,
{
    if j > i {
        lemma_num_val_nonneg(b, i, j - 1);
    }
}

/// Reading further digits never shrinks the value of a digit run.
pub proof fn lemma_num_val_mono(b: Seq<u8>, i: int, k: int, j: int)
    requires
        i <= k <= j,
        forall|m: int| i <= m < j ==> is_digit8(#[trigger] b[m]),
    ensures
        num_val(b, i, j) >= num_val(b, i, k),
    decreases j - k,
{
    if j > k {
        lemma_num_val_mono(b, i, k, j - 1);
        lemma_num_val_nonneg(b, i, j - 1);
    }
}

// ------------------------------------------------------------------
// The executable parser.  Each function returns exactly what its
// mathematical counterpart describes.
// ------------------------------------------------------------------
/// Numeric value of a hexadecimal ASCII byte, executable form.
fn hex_val8_exec(d: u8) -> (r: Option<u8>)
    ensures
        match r {
            Some(v) => is_hex_digit8(d) && v as int == hex_val8(d),
            None => !is_hex_digit8(d),
        },
{
    if 48 <= d && d <= 57 {
        Some(d - 48)
    } else if 97 <= d && d <= 102 {
        Some(d - 97 + 10)
    } else if 65 <= d && d <= 70 {
        Some(d - 65 + 10)
    } else {
        None
    }
}

/// Four hexadecimal digit bytes read as one value.
fn parse_hex4(b: &Vec<u8>, i: usize) -> (r: Option<u32>)
    ensures
        match r {
            Some(v) => sp_hex4(b@, i as int) == Some(v as int) && v < 0x10000,
            None => sp_hex4(b@, i as int) is None,
        },
{
    if b.len() < 4 || i > b.len() - 4 {
        return None;
    }
    let d0 = hex_val8_exec(b[i]);
    let d1 = hex_val8_exec(b[i + 1]);
    let d2 = hex_val8_exec(b[i + 2]);
    let d3 = hex_val8_exec(b[i + 3]);
    match (d0, d1, d2, d3) {
        (Some(a), Some(x), Some(y), Some(z)) => Some(
            0x1000 * (a as u32) + 0x100 * (x as u32) + 16 * (y as u32) + (z as u32),
        ),
        _ => None,
    }
}

/// One escape sequence, read from its backslash.
fn parse_escape(b: &Vec<u8>, i: usize) -> (r: Option<(char, usize)>)
    requires
        i < b@.len(),
    ensures
        match r {
            Some((c, j)) => sp_escape(b@, i as int) == Some((c, j as int)) && i < j <= b@.len(),
            None => sp_escape(b@, i as int) is None,
        },
{
    if b.len() - i < 2 {
        return None;
    }
    let e = b[i + 1];
    if e == 34 {
        Some(('"', i + 2))
    } else if e == 92 {
        Some(('\\', i + 2))
    } else if e == 117 {
        match parse_hex4(b, i + 2) {
            None => None,
            Some(v) => {
                if 0xD800 <= v && v < 0xDC00 {
                    if b.len() - i >= 12 && b[i + 6] == 92 && b[i + 7] == 117 {
                        match parse_hex4(b, i + 8) {
                            None => None,
                            Some(w) => {
                                if 0xDC00 <= w && w < 0xE000 {
                                    let cp: u32 = 0x10000 + (v - 0xD800) * 0x400 + (w - 0xDC00);
                                    let c = char_of_scalar(cp);
                                    Some((c, i + 12))
                                } else {
                                    None
                                }
                            },
                        }
                    } else {
                        None
                    }
                } else if 0xDC00 <= v && v < 0xE000 {
                    None
                } else {
                    let c = char_of_scalar(v);
                    Some((c, i + 6))
                }
            },
        }
    } else {
        None
    }
}

/// Relation carried through the string-body loop: what remains to be
/// read at `i`, put after `acc`, is what the whole body read from
/// `start` yields.
spec fn strbody_rel(b: Seq<u8>, start: int, i: int, acc: Seq<char>) -> bool {
    match sp_strbody(b, i) {
        None => sp_strbody(b, start) is None,
        Some((s, j)) => sp_strbody(b, start) == Some((acc + s, j)),
    }
}

/// The body of a quoted string, read up to and past its closing
/// quote.
fn parse_strbody(b: &Vec<u8>, start: usize) -> (r: Option<(String, usize)>)
    ensures
        match r {
            Some((s, j)) => sp_strbody(b@, start as int) == Some((s@, j as int)) && start < j
                <= b@.len(),
            None => sp_strbody(b@, start as int) is None,
        },
{
    let mut i = start;
    let mut acc = String::new();
    proof {
        match sp_strbody(b@, start as int) {
            Some((s, j)) => {
                assert(Seq::<char>::empty() + s =~= s);
            },
            None => {},
        }
    }
    loop
        invariant
            start <= i,
            strbody_rel(b@, start as int, i as int, acc@),
        decreases b@.len() - i,
    {
        if i >= b.len() {
            return None;
        }
        let c = b[i];
        if c == 34 {
            proof {
                assert(acc@ + Seq::<char>::empty() =~= acc@);
            }
            return Some((acc, i + 1));
        } else if c == 92 {
            match parse_escape(b, i) {
                None => {
                    return None;
                },
                Some((ch, j)) => {
                    proof {
                        match sp_strbody(b@, j as int) {
                            Some((s, e)) => {
                                assert((acc@ + seq![ch]) + s =~= acc@ + (seq![ch] + s));
                                assert(acc@.push(ch) =~= acc@ + seq![ch]);
                            },
                            None => {},
                        }
                    }
                    string_push(&mut acc, ch);
                    i = j;
                },
            }
        } else if 32 <= c && c < 127 {
            let ch = char_of_scalar(c as u32);
            proof {
                match sp_strbody(b@, i + 1) {
                    Some((s, e)) => {
                        assert((acc@ + seq![ch]) + s =~= acc@ + (seq![ch] + s));
                        assert(acc@.push(ch) =~= acc@ + seq![ch]);
                    },
                    None => {},
                }
            }
            string_push(&mut acc, ch);
            i = i + 1;
        } else {
            return None;
        }
    }
}

/// A quoted string, read from its opening quote.
fn parse_string(b: &Vec<u8>, start: usize) -> (r: Option<(String, usize)>)
    ensures
        match r {
            Some((s, j)) => sp_string(b@, start as int) == Some((s@, j as int)) && start < j
                <= b@.len(),
            None => sp_string(b@, start as int) is None,
        },
{
    if start < b.len() && b[start] == 34 {
        parse_strbody(b, start + 1)
    } else {
        None
    }
}

/// A decimal number: a maximal digit run without a leading zero whose
/// value fits sixty-four bits.
fn parse_number(b: &Vec<u8>, start: usize) -> (r: Option<(u64, usize)>)
    ensures
        match r {
            Some((n, j)) => sp_number(b@, start as int) == Some((n, j as int)) && start < j
                <= b@.len(),
            None => sp_number(b@, start as int) is None,
        },
{
    if start >= b.len() {
        return None;
    }
    let mut j = start;
    while j < b.len() && 48 <= b[j] && b[j] <= 57
        invariant
            start <= j <= b@.len(),
            forall|m: int| start <= m < j ==> is_digit8(#[trigger] b@[m]),
            digit_run_end(b@, start as int) == digit_run_end(b@, j as int),
        decreases b@.len() - j,
    {
        j = j + 1;
    }
    if j == start {
        return None;
    }
    if b[start] == 48 && j > start + 1 {
        return None;
    }
    let mut acc: u64 = 0;
    let mut k = start;
    while k < j
        invariant
            start <= k <= j <= b@.len(),
            forall|m: int| start <= m < j ==> is_digit8(#[trigger] b@[m]),
            digit_run_end(b@, start as int) == j,
            acc as int == num_val(b@, start as int, k as int),
            b@[start as int] == 48 ==> j == start + 1,
        decreases j - k,
    {
        let d = b[k] - 48;
        let m10 = match acc.checked_mul(10) {
            Some(x) => x,
            None => {
                proof {
                    lemma_num_val_mono(b@, start as int, k + 1, j as int);
                    lemma_num_val_nonneg(b@, start as int, k as int);
                }
                return None;
            },
        };
        let a2 = match m10.checked_add(d as u64) {
            Some(x) => x,
            None => {
                proof {
                    lemma_num_val_mono(b@, start as int, k + 1, j as int);
                }
                return None;
            },
        };
        acc = a2;
        k = k + 1;
    }
    Some((acc, j))
}

/// A scalar value: `null`, a number, or a string.
fn parse_scalar(b: &Vec<u8>, start: usize) -> (r: Option<(Scalar, usize)>)
    ensures
        match r {
            Some((v, j)) => sp_scalar(b@, start as int) == Some((v@, j as int)) && start < j
                <= b@.len(),
            None => sp_scalar(b@, start as int) is None,
        },
{
    if start >= b.len() {
        return None;
    }
    let c = b[start];
    if c == 34 {
        match parse_string(b, start) {
            None => None,
            Some((s, j)) => Some((Scalar::Str(s), j)),
        }
    } else if c == 110 {
        if b.len() - start >= 4 && b[start + 1] == 117 && b[start + 2] == 108 && b[start + 3]
            == 108 {
            Some((Scalar::Null, start + 4))
        } else {
            None
        }
    } else if 48 <= c && c <= 57 {
        match parse_number(b, start) {
            None => None,
            Some((n, j)) => Some((Scalar::Num(n), j)),
        }
    } else {
        None
    }
}

/// Relation carried through the inner member loop.
spec fn inner_rel(b: Seq<u8>, start: int, i: int, acc: Seq<GInnerMember>) -> bool {
    match sp_inner_members(b, i) {
        None => sp_inner_members(b, start) is None,
        Some((ms, e)) => sp_inner_members(b, start) == Some((acc + ms, e)),
    }
}

/// A nonempty inner member list, read up to and past the closing
/// brace.
fn parse_inner_members(b: &Vec<u8>, start: usize) -> (r: Option<(Vec<InnerMember>, usize)>)
    ensures
        match r {
            Some((ms, j)) => sp_inner_members(b@, start as int) == Some(
                (ms@.map_values(|m: InnerMember| m@), j as int),
            ) && start < j <= b@.len(),
            None => sp_inner_members(b@, start as int) is None,
        },
{
    let mut i = start;
    let mut acc: Vec<InnerMember> = Vec::new();
    proof {
        match sp_inner_members(b@, start as int) {
            Some((ms, e)) => {
                assert(Seq::<GInnerMember>::empty() + ms =~= ms);
                assert(acc@.map_values(|m: InnerMember| m@) =~= Seq::<GInnerMember>::empty());
            },
            None => {},
        }
    }
    loop
        invariant
            start <= i,
            inner_rel(b@, start as int, i as int, acc@.map_values(|m: InnerMember| m@)),
        decreases b@.len() - i,
    {
        let (key, j) = match parse_string(b, i) {
            None => {
                return None;
            },
            Some(kj) => kj,
        };
        if j >= b.len() || b[j] != 58 {
            return None;
        }
        let (val, l) = match parse_scalar(b, j + 1) {
            None => {
                return None;
            },
            Some(vl) => vl,
        };
        let gm = Ghost(GInnerMember { key: key@, val: val@ });
        let m = InnerMember { key, val };
        if l < b.len() && b[l] == 44 {
            proof {
                match sp_inner_members(b@, l + 1) {
                    Some((ms, e)) => {
                        let cur = acc@.map_values(|x: InnerMember| x@);
                        assert((cur + seq![gm@]) + ms =~= cur + (seq![gm@] + ms));
                        assert(acc@.push(m).map_values(|x: InnerMember| x@) =~= cur + seq![gm@]);
                    },
                    None => {},
                }
            }
            acc.push(m);
            i = l + 1;
        } else if l < b.len() && b[l] == 125 {
            proof {
                let cur = acc@.map_values(|x: InnerMember| x@);
                assert(acc@.push(m).map_values(|x: InnerMember| x@) =~= cur + seq![gm@]);
            }
            acc.push(m);
            return Some((acc, l + 1));
        } else {
            return None;
        }
    }
}

/// An inner object, read from its opening brace.
fn parse_inner_obj(b: &Vec<u8>, start: usize) -> (r: Option<(Vec<InnerMember>, usize)>)
    ensures
        match r {
            Some((ms, j)) => sp_inner_obj(b@, start as int) == Some(
                (ms@.map_values(|m: InnerMember| m@), j as int),
            ) && start < j <= b@.len(),
            None => sp_inner_obj(b@, start as int) is None,
        },
{
    if start < b.len() && b[start] == 123 {
        if start + 1 < b.len() && b[start + 1] == 125 {
            let ms: Vec<InnerMember> = Vec::new();
            proof {
                assert(ms@.map_values(|m: InnerMember| m@) =~= Seq::<GInnerMember>::empty());
            }
            Some((ms, start + 2))
        } else {
            parse_inner_members(b, start + 1)
        }
    } else {
        None
    }
}

/// A top-level value: a scalar or an inner object.
fn parse_top_val(b: &Vec<u8>, start: usize) -> (r: Option<(TopVal, usize)>)
    ensures
        match r {
            Some((v, j)) => sp_top_val(b@, start as int) == Some((v@, j as int)) && start < j
                <= b@.len(),
            None => sp_top_val(b@, start as int) is None,
        },
{
    if start < b.len() && b[start] == 123 {
        match parse_inner_obj(b, start) {
            None => None,
            Some((ms, j)) => Some((TopVal::Obj(ms), j)),
        }
    } else {
        match parse_scalar(b, start) {
            None => None,
            Some((v, j)) => Some((TopVal::Sc(v), j)),
        }
    }
}

/// Relation carried through the top-level member loop.
spec fn top_rel(b: Seq<u8>, start: int, i: int, acc: Seq<GTopMember>) -> bool {
    match sp_top_members(b, i) {
        None => sp_top_members(b, start) is None,
        Some((ms, e)) => sp_top_members(b, start) == Some((acc + ms, e)),
    }
}

/// A nonempty top-level member list, read up to and past the closing
/// brace.
fn parse_top_members(b: &Vec<u8>, start: usize) -> (r: Option<(Vec<TopMember>, usize)>)
    ensures
        match r {
            Some((ms, j)) => sp_top_members(b@, start as int) == Some(
                (view_members(ms@), j as int),
            ) && start < j <= b@.len(),
            None => sp_top_members(b@, start as int) is None,
        },
{
    let mut i = start;
    let mut acc: Vec<TopMember> = Vec::new();
    proof {
        match sp_top_members(b@, start as int) {
            Some((ms, e)) => {
                assert(Seq::<GTopMember>::empty() + ms =~= ms);
                assert(view_members(acc@) =~= Seq::<GTopMember>::empty());
            },
            None => {},
        }
    }
    loop
        invariant
            start <= i,
            top_rel(b@, start as int, i as int, view_members(acc@)),
        decreases b@.len() - i,
    {
        let (key, j) = match parse_string(b, i) {
            None => {
                return None;
            },
            Some(kj) => kj,
        };
        if j >= b.len() || b[j] != 58 {
            return None;
        }
        let (val, l) = match parse_top_val(b, j + 1) {
            None => {
                return None;
            },
            Some(vl) => vl,
        };
        let gm = Ghost(GTopMember { key: key@, val: val@ });
        let m = TopMember { key, val };
        if l < b.len() && b[l] == 44 {
            proof {
                match sp_top_members(b@, l + 1) {
                    Some((ms, e)) => {
                        let cur = view_members(acc@);
                        assert((cur + seq![gm@]) + ms =~= cur + (seq![gm@] + ms));
                        assert(view_members(acc@.push(m)) =~= cur + seq![gm@]);
                    },
                    None => {},
                }
            }
            acc.push(m);
            i = l + 1;
        } else if l < b.len() && b[l] == 125 {
            proof {
                let cur = view_members(acc@);
                assert(view_members(acc@.push(m)) =~= cur + seq![gm@]);
            }
            acc.push(m);
            return Some((acc, l + 1));
        } else {
            return None;
        }
    }
}

/// A whole record: one top-level object filling the byte string.
pub fn parse_record(b: &Vec<u8>) -> (r: Option<Vec<TopMember>>)
    ensures
        match r {
            Some(ms) => sp_record(b@) == Some(view_members(ms@)),
            None => sp_record(b@) is None,
        },
{
    if b.len() < 2 || b[0] != 123 {
        return None;
    }
    if b[1] == 125 {
        if b.len() == 2 {
            let ms: Vec<TopMember> = Vec::new();
            proof {
                assert(view_members(ms@) =~= Seq::<GTopMember>::empty());
            }
            return Some(ms);
        } else {
            return None;
        }
    }
    match parse_top_members(b, 1) {
        None => None,
        Some((ms, e)) => {
            if e == b.len() {
                Some(ms)
            } else {
                None
            }
        },
    }
}

// ------------------------------------------------------------------
// The executable writer.
// ------------------------------------------------------------------
/// Appends the four hexadecimal digit bytes of a sixteen-bit value.
fn write_hex4(out: &mut Vec<u8>, v: u32)
    requires
        v < 0x10000,
    ensures
        final(out)@ == old(out)@ + hex4_bytes(v as int),
{
    let d0 = (v / 0x1000 % 16) as u8;
    let d1 = (v / 0x100 % 16) as u8;
    let d2 = (v / 16 % 16) as u8;
    let d3 = (v % 16) as u8;
    out.push(if d0 < 10 { 48 + d0 } else { 87 + d0 });
    out.push(if d1 < 10 { 48 + d1 } else { 87 + d1 });
    out.push(if d2 < 10 { 48 + d2 } else { 87 + d2 });
    out.push(if d3 < 10 { 48 + d3 } else { 87 + d3 });
    proof {
        assert(out@ =~= old(out)@ + hex4_bytes(v as int));
    }
}

/// Writing one more character extends the written body.
pub proof fn lemma_escape_str_push(s: Seq<char>, c: char)
    ensures
        escape_str(s.push(c)) == escape_str(s) + escape_char(c),
    decreases s.len(),
{
    if s.len() == 0 {
        assert(s.push(c)[0] == c);
        assert(s.push(c).skip(1) =~= s);
        assert(escape_char(c) + Seq::<u8>::empty() =~= escape_char(c));
        assert(Seq::<u8>::empty() + escape_char(c) =~= escape_char(c));
    } else {
        assert(s.push(c)[0] == s[0]);
        assert(s.push(c).skip(1) =~= s.skip(1).push(c));
        lemma_escape_str_push(s.skip(1), c);
        assert(escape_char(s[0]) + (escape_str(s.skip(1)) + escape_char(c)) =~= (escape_char(s[0])
            + escape_str(s.skip(1))) + escape_char(c));
    }
}

/// Appends the escaped body of a string.
fn write_escaped(out: &mut Vec<u8>, s: &str)
    ensures
        final(out)@ == old(out)@ + escape_str(s@),
{
    let n = s.unicode_len();
    let mut i: usize = 0;
    proof {
        assert(s@.take(0) =~= Seq::<char>::empty());
        assert(out@ + Seq::<u8>::empty() =~= out@);
    }
    while i < n
        invariant
            i <= n,
            n as nat == s@.len(),
            out@ == old(out)@ + escape_str(s@.take(i as int)),
        decreases n - i,
    {
        let c = s.get_char(i);
        let u = c as u32;
        proof {
            vstd::utf8::char_is_scalar(c);
            lemma_escape_str_push(s@.take(i as int), c);
            assert(s@.take(i + 1) =~= s@.take(i as int).push(s@[i as int]));
        }
        if u == 34 {
            out.push(92);
            out.push(34);
        } else if u == 92 {
            out.push(92);
            out.push(92);
        } else if 32 <= u && u < 127 {
            out.push(u as u8);
        } else if u < 0x10000 {
            out.push(92);
            out.push(117);
            write_hex4(out, u);
        } else {
            out.push(92);
            out.push(117);
            write_hex4(out, 0xD800 + (u - 0x10000) / 0x400);
            out.push(92);
            out.push(117);
            write_hex4(out, 0xDC00 + (u - 0x10000) % 0x400);
        }
        proof {
            assert(out@ =~= old(out)@ + (escape_str(s@.take(i as int)) + escape_char(c)));
        }
        i = i + 1;
    }
    proof {
        assert(s@.take(n as int) =~= s@);
    }
}

/// Appends a quoted string.
pub fn write_string(out: &mut Vec<u8>, s: &str)
    ensures
        final(out)@ == old(out)@ + ser_string(s@),
{
    out.push(34);
    write_escaped(out, s);
    out.push(34);
    proof {
        assert(out@ =~= old(out)@ + ser_string(s@));
    }
}

/// Appends the decimal digits of a number.
pub fn write_number(out: &mut Vec<u8>, n: u64)
    ensures
        final(out)@ == old(out)@ + dec_digits(n as int),
    decreases n,
{
    if n < 10 {
        out.push(48 + n as u8);
        proof {
            assert(out@ =~= old(out)@ + dec_digits(n as int));
        }
    } else {
        write_number(out, n / 10);
        out.push(48 + (n % 10) as u8);
        proof {
            assert(out@ =~= old(out)@ + dec_digits(n as int));
        }
    }
}

/// Appends a scalar value.
fn write_scalar(out: &mut Vec<u8>, v: &Scalar)
    ensures
        final(out)@ == old(out)@ + ser_scalar(v@),
{
    match v {
        Scalar::Null => {
            out.push(110);
            out.push(117);
            out.push(108);
            out.push(108);
            proof {
                assert(out@ =~= old(out)@ + ser_scalar(v@));
            }
        },
        Scalar::Num(n) => {
            write_number(out, *n);
        },
        Scalar::Str(s) => {
            write_string(out, s.as_str());
        },
    }
}

// ------------------------------------------------------------------
// The writer and the parser are inverse: reading what was written
// yields the written value.
// ------------------------------------------------------------------
/// Every byte of the string is below 128.
pub open spec fn all_ascii(b: Seq<u8>) -> bool {
    forall|k: int| 0 <= k < b.len() ==> #[trigger] b[k] < 128
}

/// One byte of a known subrange of a byte string.
proof fn lemma_sub_index(b: Seq<u8>, i: int, p: Seq<u8>, k: int)
    requires
        0 <= i,
        i + p.len() <= b.len(),
        b.subrange(i, i + p.len()) == p,
        0 <= k < p.len(),
    ensures
        b[i + k] == p[k],
{
    assert(b.subrange(i, i + p.len())[k] == b[i + k]);
}

/// Splits a known concatenation inside a byte string.
proof fn lemma_sub_split(b: Seq<u8>, i: int, p: Seq<u8>, q: Seq<u8>)
    requires
        0 <= i,
        i + p.len() + q.len() <= b.len(),
        b.subrange(i, i + p.len() + q.len()) == p + q,
    ensures
        b.subrange(i, i + p.len()) == p,
        b.subrange(i + p.len(), i + p.len() + q.len()) == q,
{
    assert forall|k: int| 0 <= k < p.len() implies b.subrange(i, i + p.len())[k] == p[k] by {
        lemma_sub_index(b, i, p + q, k);
        assert((p + q)[k] == p[k]);
    }
    assert(b.subrange(i, i + p.len()) =~= p);
    assert forall|k: int| 0 <= k < q.len() implies b.subrange(
        i + p.len(),
        i + p.len() + q.len(),
    )[k] == q[k] by {
        lemma_sub_index(b, i, p + q, p.len() + k);
        assert((p + q)[p.len() + k] == q[k]);
    }
    assert(b.subrange(i + p.len(), i + p.len() + q.len()) =~= q);
}

/// Reading an escape sequence where one was written yields the
/// character it wrote.
proof fn lemma_sp_escape_ser(b: Seq<u8>, i: int, c: char)
    requires
        0 <= i,
        escape_char(c).len() >= 2,
        i + escape_char(c).len() <= b.len(),
        b.subrange(i, i + escape_char(c).len()) == escape_char(c),
    ensures
        sp_escape(b, i) == Some((c, i + escape_char(c).len())),
{
    let u = c as u32;
    let ec = escape_char(c);
    vstd::utf8::char_is_scalar(c);
    if u == 34 {
        lemma_sub_index(b, i, ec, 1);
        vstd::utf8::char_u32_cast(c, 34);
        vstd::utf8::char_u32_cast('"', ('"' as u32));
        assert(c == '"');
    } else if u == 92 {
        lemma_sub_index(b, i, ec, 1);
        vstd::utf8::char_u32_cast(c, 92);
        vstd::utf8::char_u32_cast('\\', ('\\' as u32));
        assert(c == '\\');
    } else if u < 0x10000 {
        lemma_hex4_val(u as int);
        lemma_sub_index(b, i, ec, 1);
        assert(b[i + 1] == 117);
        lemma_sub_index(b, i, ec, 2);
        lemma_sub_index(b, i, ec, 3);
        lemma_sub_index(b, i, ec, 4);
        lemma_sub_index(b, i, ec, 5);
        assert(b[i + 2] == hex4_bytes(u as int)[0]);
        assert(b[i + 3] == hex4_bytes(u as int)[1]);
        assert(b[i + 4] == hex4_bytes(u as int)[2]);
        assert(b[i + 5] == hex4_bytes(u as int)[3]);
        assert(sp_hex4(b, i + 2) == Some(u as int));
        assert(!(0xD800 <= u && u < 0xE000));
        vstd::utf8::char_u32_cast(c, u);
    } else {
        let hi = 0xD800 + (u - 0x10000) / 0x400;
        let lo = 0xDC00 + (u - 0x10000) % 0x400;
        assert(0 <= (u - 0x10000) / 0x400 < 0x400 && 0 <= (u - 0x10000) % 0x400 < 0x400)
            by (nonlinear_arith)
            requires
                0x10000 <= u <= 0x10FFFF,
        ;
        lemma_hex4_val(hi);
        lemma_hex4_val(lo);
        assert(ec == seq![92u8, 117u8] + hex4_bytes(hi) + seq![92u8, 117u8] + hex4_bytes(lo));
        lemma_sub_index(b, i, ec, 1);
        lemma_sub_index(b, i, ec, 2);
        lemma_sub_index(b, i, ec, 3);
        lemma_sub_index(b, i, ec, 4);
        lemma_sub_index(b, i, ec, 5);
        lemma_sub_index(b, i, ec, 6);
        lemma_sub_index(b, i, ec, 7);
        lemma_sub_index(b, i, ec, 8);
        lemma_sub_index(b, i, ec, 9);
        lemma_sub_index(b, i, ec, 10);
        lemma_sub_index(b, i, ec, 11);
        assert(b[i + 1] == 117);
        assert(b[i + 2] == hex4_bytes(hi)[0]);
        assert(b[i + 3] == hex4_bytes(hi)[1]);
        assert(b[i + 4] == hex4_bytes(hi)[2]);
        assert(b[i + 5] == hex4_bytes(hi)[3]);
        assert(sp_hex4(b, i + 2) == Some(hi));
        assert(b[i + 6] == 92 && b[i + 7] == 117);
        assert(b[i + 8] == hex4_bytes(lo)[0]);
        assert(b[i + 9] == hex4_bytes(lo)[1]);
        assert(b[i + 10] == hex4_bytes(lo)[2]);
        assert(b[i + 11] == hex4_bytes(lo)[3]);
        assert(sp_hex4(b, i + 8) == Some(lo));
        assert(0x10000 + (hi - 0xD800) * 0x400 + (lo - 0xDC00) == u) by (nonlinear_arith)
            requires
                hi == 0xD800 + (u - 0x10000) / 0x400,
                lo == 0xDC00 + (u - 0x10000) % 0x400,
                0x10000 <= u <= 0x10FFFF,
        ;
        vstd::utf8::char_u32_cast(c, u);
    }
}

/// Reading a string body where one was written yields the written
/// characters.
proof fn lemma_sp_strbody_ser(b: Seq<u8>, i: int, s: Seq<char>)
    requires
        0 <= i,
        i + escape_str(s).len() + 1 <= b.len(),
        b.subrange(i, i + escape_str(s).len() + 1) == escape_str(s) + seq![34u8],
    ensures
        sp_strbody(b, i) == Some((s, i + escape_str(s).len() + 1)),
    decreases s.len(),
{
    if s.len() == 0 {
        lemma_sub_index(b, i, escape_str(s) + seq![34u8], 0);
        assert(b[i] == 34);
        assert(s =~= Seq::<char>::empty());
    } else {
        let c = s[0];
        let u = c as u32;
        let ec = escape_char(c);
        let rest = escape_str(s.skip(1));
        vstd::utf8::char_is_scalar(c);
        assert(escape_str(s) == ec + rest);
        assert(escape_str(s) + seq![34u8] =~= ec + (rest + seq![34u8]));
        lemma_sub_split(b, i, ec, rest + seq![34u8]);
        let j = i + ec.len();
        lemma_sp_strbody_ser(b, j, s.skip(1));
        assert(seq![c] + s.skip(1) =~= s);
        if 32 <= u && u < 127 && u != 34 && u != 92 {
            assert(ec == seq![u as u8]);
            lemma_sub_index(b, i, ec, 0);
            assert(b[i] == (u as u8));
            assert(b[i] != 34 && b[i] != 92 && 32 <= b[i] && b[i] < 127);
            vstd::utf8::char_u32_cast(c, u);
            assert((b[i] as u32) == u);
        } else {
            assert(ec.len() >= 2);
            lemma_sub_index(b, i, ec, 0);
            assert(b[i] == 92);
            lemma_sp_escape_ser(b, i, c);
        }
    }
}

/// The value of a digit run depends only on the bytes it covers.
proof fn lemma_num_val_congruent(b1: Seq<u8>, i1: int, b2: Seq<u8>, i2: int, len: int)
    requires
        forall|k: int| 0 <= k < len ==> b1[i1 + k] == #[trigger] b2[i2 + k],
    ensures
        num_val(b1, i1, i1 + len) == num_val(b2, i2, i2 + len),
    decreases len,
{
    if len > 0 {
        lemma_num_val_congruent(b1, i1, b2, i2, len - 1);
        assert(b1[i1 + (len - 1)] == b2[i2 + (len - 1)]);
    }
}

/// The decimal digits of a number are digits, and read back to the
/// number.
proof fn lemma_dec_digits_props(n: int)
    requires
        0 <= n,
    ensures
        dec_digits(n).len() >= 1,
        forall|k: int| 0 <= k < dec_digits(n).len() ==> is_digit8(#[trigger] dec_digits(n)[k]),
        n > 0 ==> dec_digits(n)[0] != 48,
        num_val(dec_digits(n), 0, dec_digits(n).len() as int) == n,
    decreases n,
{
    if n < 10 {
        assert(num_val(dec_digits(n), 0, 0) == 0);
        assert(num_val(dec_digits(n), 0, 1) == (dec_digits(n)[0] - 48));
    } else {
        lemma_dec_digits_props(n / 10);
        let d = dec_digits(n);
        let p = dec_digits(n / 10);
        let l = d.len() as int;
        assert(d == p + seq![(48 + n % 10) as u8]);
        assert(d[0] == p[0]);
        assert forall|k: int| 0 <= k < l - 1 implies d[0 + k] == #[trigger] p[0 + k] by {
            assert(d[k] == (p + seq![(48 + n % 10) as u8])[k]);
        }
        lemma_num_val_congruent(d, 0, p, 0, l - 1);
        assert(num_val(d, 0, l) == num_val(d, 0, l - 1) * 10 + (d[l - 1] - 48));
        assert((n / 10) * 10 + n % 10 == n) by (nonlinear_arith)
            requires
                n >= 10,
        ;
    }
}

/// A run of digits followed by a non-digit ends exactly there.
proof fn lemma_digit_run(b: Seq<u8>, i: int, j: int)
    requires
        0 <= i <= j <= b.len(),
        forall|m: int| i <= m < j ==> is_digit8(#[trigger] b[m]),
        j == b.len() || !is_digit8(b[j]),
    ensures
        digit_run_end(b, i) == j,
    decreases j - i,
{
    if i < j {
        lemma_digit_run(b, i + 1, j);
    }
}

/// Reading a number where one was written yields the written number.
proof fn lemma_sp_number_ser(b: Seq<u8>, i: int, n: u64)
    requires
        0 <= i,
        i + dec_digits(n as int).len() <= b.len(),
        b.subrange(i, i + dec_digits(n as int).len()) == dec_digits(n as int),
        i + dec_digits(n as int).len() == b.len() || !is_digit8(b[i + dec_digits(n as int).len()]),
    ensures
        sp_number(b, i) == Some((n, i + dec_digits(n as int).len())),
{
    let d = dec_digits(n as int);
    let l = d.len() as int;
    lemma_dec_digits_props(n as int);
    assert forall|m: int| i <= m < i + l implies is_digit8(#[trigger] b[m]) by {
        lemma_sub_index(b, i, d, m - i);
        assert(is_digit8(d[m - i]));
    }
    lemma_digit_run(b, i, i + l);
    assert forall|k: int| 0 <= k < l implies b[i + k] == #[trigger] d[0 + k] by {
        lemma_sub_index(b, i, d, k);
    }
    lemma_num_val_congruent(b, i, d, 0, l);
    assert(num_val(b, i, i + l) == n);
    lemma_sub_index(b, i, d, 0);
    if n == 0 {
        assert(l == 1);
    } else {
        assert(b[i] == d[0] && d[0] != 48);
    }
}

/// Reading a scalar where one was written yields the written scalar.
proof fn lemma_sp_scalar_ser(b: Seq<u8>, i: int, v: GScalar)
    requires
        0 <= i,
        i + ser_scalar(v).len() <= b.len(),
        b.subrange(i, i + ser_scalar(v).len()) == ser_scalar(v),
        i + ser_scalar(v).len() == b.len() || !is_digit8(b[i + ser_scalar(v).len()]),
    ensures
        sp_scalar(b, i) == Some((v, i + ser_scalar(v).len())),
{
    let sv = ser_scalar(v);
    match v {
        GScalar::Null => {
            lemma_sub_index(b, i, sv, 0);
            lemma_sub_index(b, i, sv, 1);
            lemma_sub_index(b, i, sv, 2);
            lemma_sub_index(b, i, sv, 3);
            assert(b[i] == 110 && b[i + 1] == 117 && b[i + 2] == 108 && b[i + 3] == 108);
        },
        GScalar::Num(n) => {
            lemma_dec_digits_props(n as int);
            lemma_sub_index(b, i, sv, 0);
            assert(is_digit8(b[i]));
            lemma_sp_number_ser(b, i, n);
        },
        GScalar::Str(s) => {
            lemma_sub_index(b, i, sv, 0);
            assert(b[i] == 34);
            assert(seq![34u8] + (escape_str(s) + seq![34u8]) =~= ser_string(s));
            lemma_sub_split(b, i, seq![34u8], escape_str(s) + seq![34u8]);
            lemma_sp_strbody_ser(b, i + 1, s);
        },
    }
}

/// Reading an inner member list where one was written yields the
/// written members.
#[verifier::rlimit(100)]
proof fn lemma_sp_inner_members_ser(b: Seq<u8>, i: int, ms: Seq<GInnerMember>)
    requires
        ms.len() >= 1,
        0 <= i,
        i + ser_inner_members(ms).len() <= b.len(),
        b.subrange(i, i + ser_inner_members(ms).len()) == ser_inner_members(ms),
    ensures
        sp_inner_members(b, i) == Some((ms, i + ser_inner_members(ms).len())),
    decreases ms.len(),
{
    let k0 = ms[0].key;
    let v0 = ms[0].val;
    let sk = ser_string(k0);
    let sv = ser_scalar(v0);
    let tail: Seq<u8> = if ms.len() == 1 {
        seq![125u8]
    } else {
        seq![44u8] + ser_inner_members(ms.skip(1))
    };
    assert(ser_inner_members(ms) == sk + seq![58u8] + sv + tail);
    assert(ser_inner_members(ms) =~= sk + (seq![58u8] + (sv + tail)));
    lemma_sub_split(b, i, sk, seq![58u8] + (sv + tail));
    assert(seq![34u8] + (escape_str(k0) + seq![34u8]) =~= sk);
    lemma_sub_split(b, i, seq![34u8], escape_str(k0) + seq![34u8]);
    lemma_sub_index(b, i, sk, 0);
    assert(b[i] == 34);
    lemma_sp_strbody_ser(b, i + 1, k0);
    let j = i + sk.len();
    assert(sp_string(b, i) == Some((k0, j)));
    lemma_sub_split(b, j, seq![58u8], sv + tail);
    lemma_sub_index(b, j, seq![58u8], 0);
    assert(b[j] == 58);
    lemma_sub_split(b, j + 1, sv, tail);
    let l = j + 1 + sv.len();
    lemma_sub_index(b, l, tail, 0);
    assert(!is_digit8(b[l]));
    lemma_sp_scalar_ser(b, j + 1, v0);
    if ms.len() == 1 {
        assert(b[l] == 125);
        assert((GInnerMember { key: k0, val: v0 }) == ms[0]);
        assert(seq![ms[0]] =~= ms);
        assert(sp_inner_members(b, i) == Some((ms, l + 1)));
    } else {
        assert(b[l] == 44);
        assert(tail =~= seq![44u8] + ser_inner_members(ms.skip(1)));
        lemma_sub_split(b, l, seq![44u8], ser_inner_members(ms.skip(1)));
        lemma_sp_inner_members_ser(b, l + 1, ms.skip(1));
        assert(seq![GInnerMember { key: k0, val: v0 }] + ms.skip(1) =~= ms);
    }
}

/// Reading an inner object where one was written yields the written
/// members.
proof fn lemma_sp_inner_obj_ser(b: Seq<u8>, i: int, ms: Seq<GInnerMember>)
    requires
        0 <= i,
        i + ser_inner_obj(ms).len() <= b.len(),
        b.subrange(i, i + ser_inner_obj(ms).len()) == ser_inner_obj(ms),
    ensures
        sp_inner_obj(b, i) == Some((ms, i + ser_inner_obj(ms).len())),
{
    let so = ser_inner_obj(ms);
    lemma_sub_index(b, i, so, 0);
    assert(b[i] == 123);
    if ms.len() == 0 {
        lemma_sub_index(b, i, so, 1);
        assert(b[i + 1] == 125);
        assert(ms =~= Seq::<GInnerMember>::empty());
    } else {
        let body = ser_inner_members(ms);
        assert(so =~= seq![123u8] + body);
        lemma_sub_split(b, i, seq![123u8], body);
        lemma_sub_index(b, i + 1, body, 0);
        assert(body[0] == ser_string(ms[0].key)[0]);
        assert(ser_string(ms[0].key)[0] == 34);
        assert(b[i + 1] == 34);
        lemma_sp_inner_members_ser(b, i + 1, ms);
    }
}

/// Reading a top-level value where one was written yields the written
/// value.
proof fn lemma_sp_top_val_ser(b: Seq<u8>, i: int, v: GTopVal)
    requires
        0 <= i,
        i + ser_top_val(v).len() <= b.len(),
        b.subrange(i, i + ser_top_val(v).len()) == ser_top_val(v),
        i + ser_top_val(v).len() == b.len() || !is_digit8(b[i + ser_top_val(v).len()]),
    ensures
        sp_top_val(b, i) == Some((v, i + ser_top_val(v).len())),
{
    match v {
        GTopVal::Obj(ms) => {
            lemma_sub_index(b, i, ser_top_val(v), 0);
            assert(b[i] == 123);
            lemma_sp_inner_obj_ser(b, i, ms);
        },
        GTopVal::Sc(sc) => {
            lemma_sub_index(b, i, ser_top_val(v), 0);
            match sc {
                GScalar::Null => assert(b[i] == 110),
                GScalar::Num(n) => {
                    lemma_dec_digits_props(n as int);
                    assert(b[i] == dec_digits(n as int)[0]);
                },
                GScalar::Str(s) => assert(b[i] == 34),
            }
            assert(b[i] != 123);
            lemma_sp_scalar_ser(b, i, sc);
        },
    }
}

/// Reading a top-level member list where one was written yields the
/// written members.
#[verifier::rlimit(100)]
proof fn lemma_sp_top_members_ser(b: Seq<u8>, i: int, ms: Seq<GTopMember>)
    requires
        ms.len() >= 1,
        0 <= i,
        i + ser_top_members(ms).len() <= b.len(),
        b.subrange(i, i + ser_top_members(ms).len()) == ser_top_members(ms),
    ensures
        sp_top_members(b, i) == Some((ms, i + ser_top_members(ms).len())),
    decreases ms.len(),
{
    let k0 = ms[0].key;
    let v0 = ms[0].val;
    let sk = ser_string(k0);
    let sv = ser_top_val(v0);
    let tail: Seq<u8> = if ms.len() == 1 {
        seq![125u8]
    } else {
        seq![44u8] + ser_top_members(ms.skip(1))
    };
    assert(ser_top_members(ms) == sk + seq![58u8] + sv + tail);
    assert(ser_top_members(ms) =~= sk + (seq![58u8] + (sv + tail)));
    lemma_sub_split(b, i, sk, seq![58u8] + (sv + tail));
    assert(seq![34u8] + (escape_str(k0) + seq![34u8]) =~= sk);
    lemma_sub_split(b, i, seq![34u8], escape_str(k0) + seq![34u8]);
    lemma_sub_index(b, i, sk, 0);
    assert(b[i] == 34);
    lemma_sp_strbody_ser(b, i + 1, k0);
    let j = i + sk.len();
    assert(sp_string(b, i) == Some((k0, j)));
    lemma_sub_split(b, j, seq![58u8], sv + tail);
    lemma_sub_index(b, j, seq![58u8], 0);
    assert(b[j] == 58);
    lemma_sub_split(b, j + 1, sv, tail);
    let l = j + 1 + sv.len();
    lemma_sub_index(b, l, tail, 0);
    assert(!is_digit8(b[l]));
    lemma_sp_top_val_ser(b, j + 1, v0);
    if ms.len() == 1 {
        assert(b[l] == 125);
        assert((GTopMember { key: k0, val: v0 }) == ms[0]);
        assert(seq![ms[0]] =~= ms);
        assert(sp_top_members(b, i) == Some((ms, l + 1)));
    } else {
        assert(b[l] == 44);
        assert(tail =~= seq![44u8] + ser_top_members(ms.skip(1)));
        lemma_sub_split(b, l, seq![44u8], ser_top_members(ms.skip(1)));
        lemma_sp_top_members_ser(b, l + 1, ms.skip(1));
        assert(seq![GTopMember { key: k0, val: v0 }] + ms.skip(1) =~= ms);
    }
}

/// Reading a record where one was written yields the written members.
pub proof fn lemma_sp_record_ser(ms: Seq<GTopMember>)
    ensures
        sp_record(ser_record(ms)) == Some(ms),
{
    let b = ser_record(ms);
    assert(b[0] == 123);
    if ms.len() == 0 {
        assert(b.len() == 2 && b[1] == 125);
        assert(ms =~= Seq::<GTopMember>::empty());
    } else {
        let body = ser_top_members(ms);
        assert(b =~= seq![123u8] + body);
        assert(b[1] == body[0]);
        assert(body[0] == ser_string(ms[0].key)[0]);
        assert(ser_string(ms[0].key)[0] == 34);
        assert(b.subrange(1, 1 + body.len() as int) =~= body);
        lemma_sp_top_members_ser(b, 1, ms);
    }
}

// ------------------------------------------------------------------
// Everything the writer emits is ASCII.
// ------------------------------------------------------------------
/// ASCII survives concatenation.
pub proof fn lemma_all_ascii_concat(a: Seq<u8>, b: Seq<u8>)
    requires
        all_ascii(a),
        all_ascii(b),
    ensures
        all_ascii(a + b),
{
    assert forall|k: int| 0 <= k < (a + b).len() implies #[trigger] (a + b)[k] < 128 by {
        if k < a.len() {
            assert((a + b)[k] == a[k]);
        } else {
            assert((a + b)[k] == b[k - a.len()]);
        }
    }
}

/// The escaped form of a character is ASCII.
proof fn lemma_escape_char_ascii(c: char)
    ensures
        all_ascii(escape_char(c)),
{
    let u = c as u32;
    vstd::utf8::char_is_scalar(c);
    if u == 34 || u == 92 {
    } else if 32 <= u && u < 127 {
    } else if u < 0x10000 {
        lemma_hex4_ascii(u as int);
        lemma_all_ascii_concat(seq![92u8, 117u8], hex4_bytes(u as int));
    } else {
        let hi = 0xD800 + (u - 0x10000) / 0x400;
        let lo = 0xDC00 + (u - 0x10000) % 0x400;
        assert(0 <= (u - 0x10000) / 0x400 && 0 <= (u - 0x10000) % 0x400) by (nonlinear_arith)
            requires
                0x10000 <= u,
        ;
        lemma_hex4_ascii(hi);
        lemma_hex4_ascii(lo);
        lemma_all_ascii_concat(seq![92u8, 117u8], hex4_bytes(hi));
        lemma_all_ascii_concat(seq![92u8, 117u8] + hex4_bytes(hi), seq![92u8, 117u8]);
        lemma_all_ascii_concat(
            seq![92u8, 117u8] + hex4_bytes(hi) + seq![92u8, 117u8],
            hex4_bytes(lo),
        );
    }
}

/// Four hexadecimal digit bytes are ASCII.
proof fn lemma_hex4_ascii(v: int)
    requires
        0 <= v,
    ensures
        all_ascii(hex4_bytes(v)),
{
    crate::hexutil::lemma_hex_digit8_val(v / 0x1000 % 16);
    crate::hexutil::lemma_hex_digit8_val(v / 0x100 % 16);
    crate::hexutil::lemma_hex_digit8_val(v / 16 % 16);
    crate::hexutil::lemma_hex_digit8_val(v % 16);
}

/// The escaped body of a string is ASCII.
proof fn lemma_escape_str_ascii(s: Seq<char>)
    ensures
        all_ascii(escape_str(s)),
    decreases s.len(),
{
    if s.len() == 0 {
    } else {
        lemma_escape_char_ascii(s[0]);
        lemma_escape_str_ascii(s.skip(1));
        lemma_all_ascii_concat(escape_char(s[0]), escape_str(s.skip(1)));
    }
}

/// A written string is ASCII.
pub proof fn lemma_ser_string_ascii(s: Seq<char>)
    ensures
        all_ascii(ser_string(s)),
{
    lemma_escape_str_ascii(s);
    lemma_all_ascii_concat(seq![34u8], escape_str(s));
    lemma_all_ascii_concat(seq![34u8] + escape_str(s), seq![34u8]);
}

/// Written digits are ASCII.
pub proof fn lemma_dec_digits_ascii(n: int)
    requires
        0 <= n,
    ensures
        all_ascii(dec_digits(n)),
    decreases n,
{
    if n >= 10 {
        lemma_dec_digits_ascii(n / 10);
        lemma_all_ascii_concat(dec_digits(n / 10), seq![(48 + n % 10) as u8]);
    }
}

/// A written scalar is ASCII.
proof fn lemma_ser_scalar_ascii(v: GScalar)
    ensures
        all_ascii(ser_scalar(v)),
{
    match v {
        GScalar::Null => {},
        GScalar::Num(n) => lemma_dec_digits_ascii(n as int),
        GScalar::Str(s) => lemma_ser_string_ascii(s),
    }
}

/// A written inner member list is ASCII.
proof fn lemma_ser_inner_members_ascii(ms: Seq<GInnerMember>)
    requires
        ms.len() >= 1,
    ensures
        all_ascii(ser_inner_members(ms)),
    decreases ms.len(),
{
    let sk = ser_string(ms[0].key);
    let sv = ser_scalar(ms[0].val);
    lemma_ser_string_ascii(ms[0].key);
    lemma_ser_scalar_ascii(ms[0].val);
    lemma_all_ascii_concat(sk, seq![58u8]);
    lemma_all_ascii_concat(sk + seq![58u8], sv);
    if ms.len() == 1 {
        lemma_all_ascii_concat(sk + seq![58u8] + sv, seq![125u8]);
    } else {
        lemma_ser_inner_members_ascii(ms.skip(1));
        lemma_all_ascii_concat(seq![44u8], ser_inner_members(ms.skip(1)));
        lemma_all_ascii_concat(sk + seq![58u8] + sv, seq![44u8] + ser_inner_members(ms.skip(1)));
    }
}

/// A written top-level value is ASCII.
proof fn lemma_ser_top_val_ascii(v: GTopVal)
    ensures
        all_ascii(ser_top_val(v)),
{
    match v {
        GTopVal::Sc(sc) => lemma_ser_scalar_ascii(sc),
        GTopVal::Obj(ms) => {
            if ms.len() == 0 {
                lemma_all_ascii_concat(seq![123u8], seq![125u8]);
            } else {
                lemma_ser_inner_members_ascii(ms);
                lemma_all_ascii_concat(seq![123u8], ser_inner_members(ms));
            }
        },
    }
}

/// A written top-level member list is ASCII.
proof fn lemma_ser_top_members_ascii(ms: Seq<GTopMember>)
    requires
        ms.len() >= 1,
    ensures
        all_ascii(ser_top_members(ms)),
    decreases ms.len(),
{
    let sk = ser_string(ms[0].key);
    let sv = ser_top_val(ms[0].val);
    lemma_ser_string_ascii(ms[0].key);
    lemma_ser_top_val_ascii(ms[0].val);
    lemma_all_ascii_concat(sk, seq![58u8]);
    lemma_all_ascii_concat(sk + seq![58u8], sv);
    if ms.len() == 1 {
        lemma_all_ascii_concat(sk + seq![58u8] + sv, seq![125u8]);
    } else {
        lemma_ser_top_members_ascii(ms.skip(1));
        lemma_all_ascii_concat(seq![44u8], ser_top_members(ms.skip(1)));
        lemma_all_ascii_concat(sk + seq![58u8] + sv, seq![44u8] + ser_top_members(ms.skip(1)));
    }
}

/// A written record is ASCII.
pub proof fn lemma_ser_record_ascii(ms: Seq<GTopMember>)
    ensures
        all_ascii(ser_record(ms)),
{
    if ms.len() == 0 {
        lemma_all_ascii_concat(seq![123u8], seq![125u8]);
    } else {
        lemma_ser_top_members_ascii(ms);
        lemma_all_ascii_concat(seq![123u8], ser_top_members(ms));
    }
}

/// Appends a nonempty inner member list from `from` on, closing
/// brace included.
fn write_inner_tail(out: &mut Vec<u8>, ms: &Vec<InnerMember>, from: usize)
    requires
        from < ms@.len(),
    ensures
        final(out)@ == old(out)@ + ser_inner_members(
            ms@.map_values(|m: InnerMember| m@).skip(from as int),
        ),
    decreases ms@.len() - from,
{
    let ghost gs = ms@.map_values(|m: InnerMember| m@).skip(from as int);
    proof {
        assert(gs[0] == ms@[from as int]@);
    }
    let n = ms.len();
    write_string(out, ms[from].key.as_str());
    out.push(58);
    write_scalar(out, &ms[from].val);
    if from + 1 == n {
        out.push(125);
        proof {
            assert(out@ =~= old(out)@ + ser_inner_members(gs));
        }
    } else {
        out.push(44);
        write_inner_tail(out, ms, from + 1);
        proof {
            assert(gs.skip(1) =~= ms@.map_values(|m: InnerMember| m@).skip(from + 1));
            assert(out@ =~= old(out)@ + ser_inner_members(gs));
        }
    }
}

/// Appends an inner object.
fn write_inner_obj(out: &mut Vec<u8>, ms: &Vec<InnerMember>)
    ensures
        final(out)@ == old(out)@ + ser_inner_obj(ms@.map_values(|m: InnerMember| m@)),
{
    out.push(123);
    if ms.len() == 0 {
        out.push(125);
        proof {
            assert(out@ =~= old(out)@ + ser_inner_obj(ms@.map_values(|m: InnerMember| m@)));
        }
    } else {
        write_inner_tail(out, ms, 0);
        proof {
            assert(ms@.map_values(|m: InnerMember| m@).skip(0) =~= ms@.map_values(
                |m: InnerMember| m@,
            ));
            assert(out@ =~= old(out)@ + ser_inner_obj(ms@.map_values(|m: InnerMember| m@)));
        }
    }
}

/// Appends a top-level value.
fn write_top_val(out: &mut Vec<u8>, v: &TopVal)
    ensures
        final(out)@ == old(out)@ + ser_top_val(v@),
{
    match v {
        TopVal::Sc(sc) => write_scalar(out, sc),
        TopVal::Obj(ms) => write_inner_obj(out, ms),
    }
}

/// Appends a nonempty top-level member list from `from` on, closing
/// brace included.
fn write_top_tail(out: &mut Vec<u8>, ms: &Vec<TopMember>, from: usize)
    requires
        from < ms@.len(),
    ensures
        final(out)@ == old(out)@ + ser_top_members(view_members(ms@).skip(from as int)),
    decreases ms@.len() - from,
{
    let ghost gs = view_members(ms@).skip(from as int);
    proof {
        assert(gs[0] == ms@[from as int]@);
    }
    let n = ms.len();
    write_string(out, ms[from].key.as_str());
    out.push(58);
    write_top_val(out, &ms[from].val);
    if from + 1 == n {
        out.push(125);
        proof {
            assert(out@ =~= old(out)@ + ser_top_members(gs));
        }
    } else {
        out.push(44);
        write_top_tail(out, ms, from + 1);
        proof {
            assert(gs.skip(1) =~= view_members(ms@).skip(from + 1));
            assert(out@ =~= old(out)@ + ser_top_members(gs));
        }
    }
}

/// Appends a whole record.
pub fn write_record(out: &mut Vec<u8>, ms: &Vec<TopMember>)
    ensures
        final(out)@ == old(out)@ + ser_record(view_members(ms@)),
{
    out.push(123);
    if ms.len() == 0 {
        out.push(125);
        proof {
            assert(out@ =~= old(out)@ + ser_record(view_members(ms@)));
        }
    } else {
        write_top_tail(out, ms, 0);
        proof {
            assert(view_members(ms@).skip(0) =~= view_members(ms@));
            assert(out@ =~= old(out)@ + ser_record(view_members(ms@)));
        }
    }
}

} // verus!
