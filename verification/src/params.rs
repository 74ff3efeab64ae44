//! Coercion of command-line arguments onto a method's declared
//! parameters.
//!
//! The caller supplies the raw `--name value` tokens and the method's
//! input parameters as loaded from the contract schema; the result is
//! the JSON argument text whose keys are exactly the declared
//! parameter names.  A single raw token is passed through unchanged
//! as prebuilt argument text.
use crate::convert::convert_spec;
use crate::convert::convert_token;
use vstd::prelude::*;
use vstd::string::StrSliceExecFns;

verus! {

/// The declared kind of a contract parameter.
#[derive(Debug, PartialEq, Eq)]
pub enum AbiKind {
    /// An unsigned integer of the given bit width.
    Uint(usize),
    /// A signed integer of the given bit width.
    Int(usize),
    /// An array of the given element kind.
    Array(Box<AbiKind>),
    /// Any other declared kind; its values pass through untouched.
    Other,
}

/// A declared contract parameter: its name and kind.
#[derive(Debug, PartialEq, Eq)]
pub struct AbiParam {
    pub name: String,
    pub kind: AbiKind,
}

/// Mathematical form of a declared parameter.
pub struct GAbiParam {
    pub name: Seq<char>,
    pub kind: AbiKind,
}

impl View for AbiParam {
    type V = GAbiParam;

    open spec fn view(&self) -> GAbiParam {
        GAbiParam { name: self.name@, kind: self.kind }
    }
}

/// Why coercion failed.
#[derive(Debug, PartialEq, Eq)]
pub enum ParamError {
    /// No raw token names the parameter.
    MissingArgument(String, AbiKind),
    /// The naming token is the last element, so no value follows it.
    MissingArgumentValue(String, AbiKind),
    /// A value routed through token-amount conversion is malformed.
    Conversion,
}

/// Mathematical form of a coercion failure.
pub enum GParamError {
    MissingArgument(Seq<char>, AbiKind),
    MissingArgumentValue(Seq<char>, AbiKind),
    Conversion,
}

impl View for ParamError {
    type V = GParamError;

    open spec fn view(&self) -> GParamError {
        match self {
            ParamError::MissingArgument(n, k) => GParamError::MissingArgument(n@, *k),
            ParamError::MissingArgumentValue(n, k) => GParamError::MissingArgumentValue(n@, *k),
            ParamError::Conversion => GParamError::Conversion,
        }
    }
}

/// The string with every leading dash dropped.
pub open spec fn trim_dashes(s: Seq<char>) -> Seq<char>
    decreases s.len(),
{
    if s.len() > 0 && s[0] == '-' {
        trim_dashes(s.skip(1))
    } else {
        s
    }
}

/// The string with every leading quote dropped.
pub open spec fn ltrim_q(s: Seq<char>) -> Seq<char>
    decreases s.len(),
{
    if s.len() > 0 && s[0] == '"' {
        ltrim_q(s.skip(1))
    } else {
        s
    }
}

/// The string with every trailing quote dropped.
pub open spec fn rtrim_q(s: Seq<char>) -> Seq<char>
    decreases s.len(),
{
    if s.len() > 0 && s[s.len() - 1] == '"' {
        rtrim_q(s.take(s.len() - 1))
    } else {
        s
    }
}

/// The string with every trailing `T` dropped.
pub open spec fn rtrim_t(s: Seq<char>) -> Seq<char>
    decreases s.len(),
{
    if s.len() > 0 && s[s.len() - 1] == 'T' {
        rtrim_t(s.take(s.len() - 1))
    } else {
        s
    }
}

/// What coercing an integer-kind value yields: the quote-trimmed
/// text, routed through token-amount conversion when it carries the
/// `T` suffix.
pub open spec fn int_param_spec(v: Seq<char>) -> Option<Seq<char>> {
    let t = rtrim_q(ltrim_q(v));
    if t.len() > 0 && t[t.len() - 1] == 'T' {
        convert_spec(rtrim_t(t))
    } else {
        Some(t)
    }
}

/// Coerces one integer-kind value.
pub fn parse_integer_param(value: &str) -> (r: Result<String, ParamError>)
    ensures
        match r {
            Ok(s) => int_param_spec(value@) == Some(s@),
            Err(e) => int_param_spec(value@) is None && e@ == GParamError::Conversion,
        },
{
    let n = value.unicode_len();
    let mut lo: usize = 0;
    proof {
        assert(value@.skip(0) =~= value@);
    }
    while lo < n && value.get_char(lo) == '"'
        invariant
            lo <= n,
            n == value@.len(),
            ltrim_q(value@) == ltrim_q(value@.skip(lo as int)),
        decreases n - lo,
    {
        proof {
            assert(value@.skip(lo as int).skip(1) =~= value@.skip(lo + 1));
        }
        lo = lo + 1;
    }
    proof {
        assert(ltrim_q(value@) == value@.skip(lo as int));
    }
    let mut hi: usize = n;
    proof {
        assert(value@.subrange(lo as int, n as int) =~= value@.skip(lo as int));
    }
    while hi > lo && value.get_char(hi - 1) == '"'
        invariant
            lo <= hi <= n,
            n == value@.len(),
            ltrim_q(value@) == value@.skip(lo as int),
            rtrim_q(value@.skip(lo as int)) == rtrim_q(value@.subrange(lo as int, hi as int)),
        decreases hi,
    {
        proof {
            let cur = value@.subrange(lo as int, hi as int);
            assert(cur[cur.len() - 1] == value@[hi - 1]);
            assert(cur.take(cur.len() - 1) =~= value@.subrange(lo as int, hi - 1));
        }
        hi = hi - 1;
    }
    proof {
        let cur = value@.subrange(lo as int, hi as int);
        if cur.len() > 0 {
            assert(cur[cur.len() - 1] == value@[hi - 1]);
        }
        assert(rtrim_q(value@.skip(lo as int)) == cur);
    }
    let ghost t = value@.subrange(lo as int, hi as int);
    if hi > lo && value.get_char(hi - 1) == 'T' {
        proof {
            assert(t[t.len() - 1] == value@[hi - 1]);
        }
        let mut te: usize = hi;
        proof {
            assert(value@.subrange(lo as int, hi as int) =~= t);
        }
        while te > lo && value.get_char(te - 1) == 'T'
            invariant
                lo <= te <= hi <= n,
                n == value@.len(),
                t == value@.subrange(lo as int, hi as int),
                rtrim_t(t) == rtrim_t(value@.subrange(lo as int, te as int)),
            decreases te,
        {
            proof {
                let cur = value@.subrange(lo as int, te as int);
                assert(cur[cur.len() - 1] == value@[te - 1]);
                assert(cur.take(cur.len() - 1) =~= value@.subrange(lo as int, te - 1));
            }
            te = te - 1;
        }
        proof {
            let cur = value@.subrange(lo as int, te as int);
            if cur.len() > 0 {
                assert(cur[cur.len() - 1] == value@[te - 1]);
            }
            assert(rtrim_t(t) == cur);
        }
        let sub = value.substring_char(lo, te);
        match convert_token(sub) {
            Ok(s) => Ok(s),
            Err(_) => Err(ParamError::Conversion),
        }
    } else {
        proof {
            if t.len() > 0 {
                assert(t[t.len() - 1] == value@[hi - 1]);
            }
        }
        let sub = value.substring_char(lo, hi);
        Ok(sub.to_owned())
    }
}

/// A list separator in an array-of-integer value.
pub open spec fn is_sep(c: char) -> bool {
    c == ',' || c == '[' || c == ']'
}

/// The position just past the separator-free run starting at `i`.
pub open spec fn frag_end(s: Seq<char>, i: int) -> int
    decreases s.len() - i,
{
    if 0 <= i && i < s.len() && !is_sep(s[i]) {
        frag_end(s, i + 1)
    } else {
        i
    }
}

/// The nonempty separator-free fragments of the string from `i` on.
pub open spec fn split_frags(s: Seq<char>, i: int) -> Seq<Seq<char>>
    decreases s.len() - i,
{
    if i < 0 || i >= s.len() {
        Seq::empty()
    } else if is_sep(s[i]) {
        split_frags(s, i + 1)
    } else {
        let e = frag_end(s, i);
        if e <= i || e > s.len() {
            Seq::empty()
        } else {
            seq![s.subrange(i, e)] + split_frags(s, e)
        }
    }
}

/// What coercing each fragment yields, or nothing when one is
/// malformed.
pub open spec fn coerce_frags(fs: Seq<Seq<char>>) -> Option<Seq<Seq<char>>>
    decreases fs.len(),
{
    if fs.len() == 0 {
        Some(Seq::empty())
    } else {
        match int_param_spec(fs[0]) {
            None => None,
            Some(x) => match coerce_frags(fs.skip(1)) {
                None => None,
                Some(xs) => Some(seq![x] + xs),
            },
        }
    }
}

/// Tests for a list separator.
fn is_sep_exec(c: char) -> (r: bool)
    ensures
        r == is_sep(c),
{
    c == ',' || c == '[' || c == ']'
}

/// Splits an array value on `,`, `[` and `]` and coerces each
/// fragment as an integer value.
pub fn coerce_array(value: &str) -> (r: Result<Vec<String>, ParamError>)
    ensures
        match r {
            Ok(vs) => coerce_frags(split_frags(value@, 0)) == Some(
                vs@.map_values(|s: String| s@),
            ),
            Err(e) => coerce_frags(split_frags(value@, 0)) is None && e@ == GParamError::Conversion,
        },
{
    let n = value.unicode_len();
    let mut i: usize = 0;
    let mut acc: Vec<String> = Vec::new();
    proof {
        match coerce_frags(split_frags(value@, 0)) {
            Some(xs) => {
                assert(Seq::<Seq<char>>::empty() + xs =~= xs);
                assert(acc@.map_values(|s: String| s@) =~= Seq::<Seq<char>>::empty());
            },
            None => {},
        }
    }
    while i < n
        invariant
            i <= n,
            n == value@.len(),
            match coerce_frags(split_frags(value@, i as int)) {
                None => coerce_frags(split_frags(value@, 0)) is None,
                Some(xs) => coerce_frags(split_frags(value@, 0)) == Some(
                    acc@.map_values(|s: String| s@) + xs,
                ),
            },
        decreases n - i,
    {
        if is_sep_exec(value.get_char(i)) {
            i = i + 1;
        } else {
            let mut fe: usize = i + 1;
            proof {
                assert(frag_end(value@, i as int) == frag_end(value@, i + 1));
            }
            while fe < n && !is_sep_exec(value.get_char(fe))
                invariant
                    i < fe <= n,
                    n == value@.len(),
                    !is_sep(value@[i as int]),
                    frag_end(value@, i as int) == frag_end(value@, fe as int),
                decreases n - fe,
            {
                fe = fe + 1;
            }
            proof {
                assert(frag_end(value@, i as int) == fe as int);
            }
            let sub = value.substring_char(i, fe);
            let coerced = match parse_integer_param(sub) {
                Ok(s) => s,
                Err(_) => {
                    proof {
                        assert(split_frags(value@, i as int) == seq![
                            value@.subrange(i as int, fe as int),
                        ] + split_frags(value@, fe as int));
                        assert(coerce_frags(split_frags(value@, i as int)) is None);
                    }
                    return Err(ParamError::Conversion);
                },
            };
            proof {
                assert(split_frags(value@, i as int) == seq![
                    value@.subrange(i as int, fe as int),
                ] + split_frags(value@, fe as int));
                assert((seq![value@.subrange(i as int, fe as int)] + split_frags(
                    value@,
                    fe as int,
                )).skip(1) =~= split_frags(value@, fe as int));
                let cur = acc@.map_values(|s: String| s@);
                match coerce_frags(split_frags(value@, fe as int)) {
                    Some(xs) => {
                        assert(acc@.push(coerced).map_values(|s: String| s@) =~= cur + seq![
                            coerced@,
                        ]);
                        assert((cur + seq![coerced@]) + xs =~= cur + (seq![coerced@] + xs));
                    },
                    None => {},
                }
            }
            acc.push(coerced);
            i = fe;
        }
    }
    proof {
        assert(acc@.map_values(|s: String| s@) + Seq::<Seq<char>>::empty() =~= acc@.map_values(
            |s: String| s@,
        ));
    }
    Ok(acc)
}

/// A coerced argument value: a single string or a list of strings.
pub enum ArgVal {
    AStr(String),
    AList(Vec<String>),
}

/// Mathematical form of a coerced argument value.
pub enum GArg {
    AStr(Seq<char>),
    AList(Seq<Seq<char>>),
}

impl View for ArgVal {
    type V = GArg;

    open spec fn view(&self) -> GArg {
        match self {
            ArgVal::AStr(s) => GArg::AStr(s@),
            ArgVal::AList(vs) => GArg::AList(vs@.map_values(|s: String| s@)),
        }
    }
}

/// One coerced argument: the parameter name and its value.
pub struct ArgMember {
    pub name: String,
    pub val: ArgVal,
}

/// Mathematical form of a coerced argument.
pub struct GArgMember {
    pub name: Seq<char>,
    pub val: GArg,
}

impl View for ArgMember {
    type V = GArgMember;

    open spec fn view(&self) -> GArgMember {
        GArgMember { name: self.name@, val: self.val@ }
    }
}

/// Mathematical form of an argument list.
pub open spec fn view_arg_members(ms: Seq<ArgMember>) -> Seq<GArgMember> {
    ms.map_values(|m: ArgMember| m@)
}

/// The bytes that write a nonempty string list, closing bracket
/// included.
pub open spec fn ser_list_items(items: Seq<Seq<char>>) -> Seq<u8>
    recommends
        items.len() > 0,
    decreases items.len(),
{
    if items.len() == 0 {
        seq![93u8]
    } else {
        crate::jsontext::ser_string(items[0]) + (if items.len() == 1 {
            seq![93u8]
        } else {
            seq![44u8] + ser_list_items(items.skip(1))
        })
    }
}

/// The bytes that write a coerced argument value.
pub open spec fn ser_arg(a: GArg) -> Seq<u8> {
    match a {
        GArg::AStr(s) => crate::jsontext::ser_string(s),
        GArg::AList(items) => seq![91u8] + (if items.len() == 0 {
            seq![93u8]
        } else {
            ser_list_items(items)
        }),
    }
}

/// The bytes that write a nonempty argument member list, closing
/// brace included.
pub open spec fn ser_arg_members(ms: Seq<GArgMember>) -> Seq<u8>
    recommends
        ms.len() > 0,
    decreases ms.len(),
{
    if ms.len() == 0 {
        seq![125u8]
    } else {
        crate::jsontext::ser_string(ms[0].name) + seq![58u8] + ser_arg(ms[0].val) + (if ms.len()
            == 1 {
            seq![125u8]
        } else {
            seq![44u8] + ser_arg_members(ms.skip(1))
        })
    }
}

/// The bytes that write the whole argument object.
pub open spec fn ser_args(ms: Seq<GArgMember>) -> Seq<u8> {
    seq![123u8] + (if ms.len() == 0 {
        seq![125u8]
    } else {
        ser_arg_members(ms)
    })
}

/// Appends a nonempty string list from `from` on, closing bracket
/// included.
fn write_list_items(out: &mut Vec<u8>, items: &Vec<String>, from: usize)
    requires
        from < items@.len(),
    ensures
        final(out)@ == old(out)@ + ser_list_items(
            items@.map_values(|s: String| s@).skip(from as int),
        ),
    decreases items@.len() - from,
{
    let ghost gs = items@.map_values(|s: String| s@).skip(from as int);
    proof {
        assert(gs[0] == items@[from as int]@);
    }
    let n = items.len();
    crate::jsontext::write_string(out, items[from].as_str());
    if from + 1 == n {
        out.push(93);
        proof {
            assert(out@ =~= old(out)@ + ser_list_items(gs));
        }
    } else {
        out.push(44);
        write_list_items(out, items, from + 1);
        proof {
            assert(gs.skip(1) =~= items@.map_values(|s: String| s@).skip(from + 1));
            assert(out@ =~= old(out)@ + ser_list_items(gs));
        }
    }
}

/// Appends a coerced argument value.
fn write_arg(out: &mut Vec<u8>, a: &ArgVal)
    ensures
        final(out)@ == old(out)@ + ser_arg(a@),
{
    match a {
        ArgVal::AStr(s) => {
            crate::jsontext::write_string(out, s.as_str());
        },
        ArgVal::AList(items) => {
            out.push(91);
            if items.len() == 0 {
                out.push(93);
                proof {
                    assert(out@ =~= old(out)@ + ser_arg(a@));
                }
            } else {
                write_list_items(out, items, 0);
                proof {
                    assert(items@.map_values(|s: String| s@).skip(0) =~= items@.map_values(
                        |s: String| s@,
                    ));
                    assert(out@ =~= old(out)@ + ser_arg(a@));
                }
            }
        },
    }
}

/// Appends a nonempty argument member list from `from` on, closing
/// brace included.
fn write_arg_members(out: &mut Vec<u8>, ms: &Vec<ArgMember>, from: usize)
    requires
        from < ms@.len(),
    ensures
        final(out)@ == old(out)@ + ser_arg_members(view_arg_members(ms@).skip(from as int)),
    decreases ms@.len() - from,
{
    let ghost gs = view_arg_members(ms@).skip(from as int);
    proof {
        assert(gs[0] == ms@[from as int]@);
    }
    let n = ms.len();
    crate::jsontext::write_string(out, ms[from].name.as_str());
    out.push(58);
    write_arg(out, &ms[from].val);
    if from + 1 == n {
        out.push(125);
        proof {
            assert(out@ =~= old(out)@ + ser_arg_members(gs));
        }
    } else {
        out.push(44);
        write_arg_members(out, ms, from + 1);
        proof {
            assert(gs.skip(1) =~= view_arg_members(ms@).skip(from + 1));
            assert(out@ =~= old(out)@ + ser_arg_members(gs));
        }
    }
}

/// Appends the whole argument object.
fn write_args(out: &mut Vec<u8>, ms: &Vec<ArgMember>)
    ensures
        final(out)@ == old(out)@ + ser_args(view_arg_members(ms@)),
{
    out.push(123);
    if ms.len() == 0 {
        out.push(125);
        proof {
            assert(out@ =~= old(out)@ + ser_args(view_arg_members(ms@)));
        }
    } else {
        write_arg_members(out, ms, 0);
        proof {
            assert(view_arg_members(ms@).skip(0) =~= view_arg_members(ms@));
            assert(out@ =~= old(out)@ + ser_args(view_arg_members(ms@)));
        }
    }
}

/// A written string list is ASCII.
proof fn lemma_ser_list_items_ascii(items: Seq<Seq<char>>)
    requires
        items.len() >= 1,
    ensures
        crate::jsontext::all_ascii(ser_list_items(items)),
    decreases items.len(),
{
    crate::jsontext::lemma_ser_string_ascii(items[0]);
    if items.len() == 1 {
        crate::jsontext::lemma_all_ascii_concat(
            crate::jsontext::ser_string(items[0]),
            seq![93u8],
        );
    } else {
        lemma_ser_list_items_ascii(items.skip(1));
        crate::jsontext::lemma_all_ascii_concat(seq![44u8], ser_list_items(items.skip(1)));
        crate::jsontext::lemma_all_ascii_concat(
            crate::jsontext::ser_string(items[0]),
            seq![44u8] + ser_list_items(items.skip(1)),
        );
    }
}

/// A written argument value is ASCII.
proof fn lemma_ser_arg_ascii(a: GArg)
    ensures
        crate::jsontext::all_ascii(ser_arg(a)),
{
    match a {
        GArg::AStr(s) => crate::jsontext::lemma_ser_string_ascii(s),
        GArg::AList(items) => {
            if items.len() == 0 {
                crate::jsontext::lemma_all_ascii_concat(seq![91u8], seq![93u8]);
            } else {
                lemma_ser_list_items_ascii(items);
                crate::jsontext::lemma_all_ascii_concat(seq![91u8], ser_list_items(items));
            }
        },
    }
}

/// A written argument member list is ASCII.
proof fn lemma_ser_arg_members_ascii(ms: Seq<GArgMember>)
    requires
        ms.len() >= 1,
    ensures
        crate::jsontext::all_ascii(ser_arg_members(ms)),
    decreases ms.len(),
{
    let sk = crate::jsontext::ser_string(ms[0].name);
    crate::jsontext::lemma_ser_string_ascii(ms[0].name);
    lemma_ser_arg_ascii(ms[0].val);
    crate::jsontext::lemma_all_ascii_concat(sk, seq![58u8]);
    crate::jsontext::lemma_all_ascii_concat(sk + seq![58u8], ser_arg(ms[0].val));
    if ms.len() == 1 {
        crate::jsontext::lemma_all_ascii_concat(sk + seq![58u8] + ser_arg(ms[0].val), seq![125u8]);
    } else {
        lemma_ser_arg_members_ascii(ms.skip(1));
        crate::jsontext::lemma_all_ascii_concat(seq![44u8], ser_arg_members(ms.skip(1)));
        crate::jsontext::lemma_all_ascii_concat(
            sk + seq![58u8] + ser_arg(ms[0].val),
            seq![44u8] + ser_arg_members(ms.skip(1)),
        );
    }
}

/// A written argument object is ASCII.
proof fn lemma_ser_args_ascii(ms: Seq<GArgMember>)
    ensures
        crate::jsontext::all_ascii(ser_args(ms)),
{
    if ms.len() == 0 {
        crate::jsontext::lemma_all_ascii_concat(seq![123u8], seq![125u8]);
    } else {
        lemma_ser_arg_members_ascii(ms);
        crate::jsontext::lemma_all_ascii_concat(seq![123u8], ser_arg_members(ms));
    }
}

/// The raw argument strings as character sequences.
pub open spec fn view_args(s: Seq<&str>) -> Seq<Seq<char>> {
    s.map_values(|x: &str| x@)
}

/// The declared parameters in mathematical form.
pub open spec fn view_params(s: Seq<AbiParam>) -> Seq<GAbiParam> {
    s.map_values(|p: AbiParam| p@)
}

/// The index of the first raw token whose dash-trimmed form is the
/// name, or the list length when there is none.
pub open spec fn find_flag(args: Seq<Seq<char>>, name: Seq<char>, i: int) -> int
    decreases args.len() - i,
{
    if i < 0 || i >= args.len() {
        args.len() as int
    } else if trim_dashes(args[i]) == name {
        i
    } else {
        find_flag(args, name, i + 1)
    }
}

/// What coercing one declared parameter against the raw tokens
/// yields.
pub open spec fn coerce_one(args: Seq<Seq<char>>, p: GAbiParam) -> Result<GArgMember, GParamError> {
    let f = find_flag(args, p.name, 0);
    if f >= args.len() {
        Result::Err(GParamError::MissingArgument(p.name, p.kind))
    } else if f + 1 >= args.len() {
        Result::Err(GParamError::MissingArgumentValue(p.name, p.kind))
    } else {
        let v = args[f + 1];
        match p.kind {
            AbiKind::Uint(_) => match int_param_spec(v) {
                Some(s) => Result::Ok(GArgMember { name: p.name, val: GArg::AStr(s) }),
                None => Result::Err(GParamError::Conversion),
            },
            AbiKind::Int(_) => match int_param_spec(v) {
                Some(s) => Result::Ok(GArgMember { name: p.name, val: GArg::AStr(s) }),
                None => Result::Err(GParamError::Conversion),
            },
            AbiKind::Array(inner) => if (*inner) is Uint {
                match coerce_frags(split_frags(v, 0)) {
                    Some(xs) => Result::Ok(GArgMember { name: p.name, val: GArg::AList(xs) }),
                    None => Result::Err(GParamError::Conversion),
                }
            } else {
                Result::Ok(GArgMember { name: p.name, val: GArg::AStr(v) })
            },
            AbiKind::Other => Result::Ok(GArgMember { name: p.name, val: GArg::AStr(v) }),
        }
    }
}

/// What coercing every declared parameter yields: the argument
/// members in declaration order, or the first failure.
pub open spec fn coerce_args_spec(args: Seq<Seq<char>>, inputs: Seq<GAbiParam>) -> Result<
    Seq<GArgMember>,
    GParamError,
>
    decreases inputs.len(),
{
    if inputs.len() == 0 {
        Result::Ok(Seq::empty())
    } else {
        match coerce_one(args, inputs[0]) {
            Result::Err(e) => Result::Err(e),
            Result::Ok(m) => match coerce_args_spec(args, inputs.skip(1)) {
                Result::Err(e) => Result::Err(e),
                Result::Ok(ms) => Result::Ok(seq![m] + ms),
            },
        }
    }
}

/// A copy of a declared kind.
impl AbiKind {
    /// Builds an identical kind value.
    pub fn duplicate(&self) -> (r: AbiKind)
        ensures
            r == *self,
        decreases self,
    {
        match self {
            AbiKind::Uint(w) => AbiKind::Uint(*w),
            AbiKind::Int(w) => AbiKind::Int(*w),
            AbiKind::Array(inner) => AbiKind::Array(Box::new(inner.duplicate())),
            AbiKind::Other => AbiKind::Other,
        }
    }
}

/// The raw token with its leading dashes dropped.
fn trim_dashes_exec(s: &str) -> (r: String)
    ensures
        r@ == trim_dashes(s@),
{
    let n = s.unicode_len();
    let mut lo: usize = 0;
    proof {
        assert(s@.skip(0) =~= s@);
    }
    while lo < n && s.get_char(lo) == '-'
        invariant
            lo <= n,
            n == s@.len(),
            trim_dashes(s@) == trim_dashes(s@.skip(lo as int)),
        decreases n - lo,
    {
        proof {
            assert(s@.skip(lo as int).skip(1) =~= s@.skip(lo + 1));
        }
        lo = lo + 1;
    }
    proof {
        assert(trim_dashes(s@) == s@.skip(lo as int));
        assert(s@.subrange(lo as int, n as int) =~= s@.skip(lo as int));
    }
    s.substring_char(lo, n).to_owned()
}

/// The index of the first raw token that names the parameter.
fn find_flag_exec(args: &Vec<&str>, name: &String) -> (r: usize)
    ensures
        r as int == find_flag(view_args(args@), name@, 0),
        r <= args@.len(),
{
    let n = args.len();
    let mut j: usize = 0;
    while j < n
        invariant
            j <= n,
            n == args@.len(),
            find_flag(view_args(args@), name@, 0) == find_flag(view_args(args@), name@, j as int),
        decreases n - j,
    {
        let trimmed = trim_dashes_exec(args[j]);
        proof {
            assert(view_args(args@)[j as int] == args@[j as int]@);
        }
        if trimmed == *name {
            return j;
        }
        j = j + 1;
    }
    n
}

/// Builds the JSON argument text for the declared parameters from
/// the raw tokens.
pub fn build_json_from_params(params_vec: Vec<&str>, inputs: &Vec<AbiParam>) -> (r: Result<
    String,
    ParamError,
>)
    ensures
        match (r, coerce_args_spec(view_args(params_vec@), view_params(inputs@))) {
            (Ok(s), Ok(gms)) => s@ == crate::strutil::chars_of_ascii(ser_args(gms)),
            (Err(e), Err(ge)) => e@ == ge,
            _ => false,
        },
{
    let ghost ga = view_args(params_vec@);
    let ghost gp = view_params(inputs@);
    let mut ms: Vec<ArgMember> = Vec::new();
    let mut t: usize = 0;
    let np = inputs.len();
    proof {
        assert(gp.skip(0) =~= gp);
        match coerce_args_spec(ga, gp) {
            Result::Ok(tail) => {
                assert(view_arg_members(ms@) =~= Seq::<GArgMember>::empty());
                assert(Seq::<GArgMember>::empty() + tail =~= tail);
            },
            Result::Err(_) => {},
        }
    }
    while t < np
        invariant
            t <= np,
            np == inputs@.len(),
            ga == view_args(params_vec@),
            gp == view_params(inputs@),
            match coerce_args_spec(ga, gp.skip(t as int)) {
                Result::Err(e) => coerce_args_spec(ga, gp) == Result::<Seq<GArgMember>,
                    GParamError,
                >::Err(e),
                Result::Ok(tail) => coerce_args_spec(ga, gp) == Result::<Seq<GArgMember>,
                    GParamError,
                >::Ok(view_arg_members(ms@) + tail),
            },
        decreases np - t,
    {
        proof {
            assert(gp.skip(t as int)[0] == gp[t as int]);
            assert(gp[t as int] == inputs@[t as int]@);
            assert(gp.skip(t as int).skip(1) =~= gp.skip(t + 1));
        }
        let f = find_flag_exec(&params_vec, &inputs[t].name);
        let n = params_vec.len();
        if f >= n {
            return Err(
                ParamError::MissingArgument(inputs[t].name.clone(), inputs[t].kind.duplicate()),
            );
        }
        if f + 1 >= n {
            return Err(
                ParamError::MissingArgumentValue(
                    inputs[t].name.clone(),
                    inputs[t].kind.duplicate(),
                ),
            );
        }
        proof {
            assert(ga[f + 1] == params_vec@[f + 1]@);
        }
        let value: &str = params_vec[f + 1];
        let val: ArgVal = match &inputs[t].kind {
            AbiKind::Uint(_) => match parse_integer_param(value) {
                Ok(s) => ArgVal::AStr(s),
                Err(e) => {
                    return Err(e);
                },
            },
            AbiKind::Int(_) => match parse_integer_param(value) {
                Ok(s) => ArgVal::AStr(s),
                Err(e) => {
                    return Err(e);
                },
            },
            AbiKind::Array(inner) => match &**inner {
                AbiKind::Uint(_) => match coerce_array(value) {
                    Ok(vs) => ArgVal::AList(vs),
                    Err(e) => {
                        return Err(e);
                    },
                },
                _ => ArgVal::AStr(value.to_owned()),
            },
            AbiKind::Other => ArgVal::AStr(value.to_owned()),
        };
        let m = ArgMember { name: inputs[t].name.clone(), val };
        let ghost gm = m@;
        proof {
            assert(coerce_one(ga, gp[t as int]) == Result::<GArgMember, GParamError>::Ok(gm));
            let cur = view_arg_members(ms@);
            match coerce_args_spec(ga, gp.skip(t + 1)) {
                Result::Ok(tail) => {
                    assert(view_arg_members(ms@.push(m)) =~= cur + seq![gm]);
                    assert((cur + seq![gm]) + tail =~= cur + (seq![gm] + tail));
                },
                Result::Err(_) => {},
            }
        }
        ms.push(m);
        t = t + 1;
    }
    proof {
        assert(gp.skip(np as int).len() == 0);
        assert(view_arg_members(ms@) + Seq::<GArgMember>::empty() =~= view_arg_members(ms@));
    }
    let mut out: Vec<u8> = Vec::new();
    write_args(&mut out, &ms);
    proof {
        lemma_ser_args_ascii(view_arg_members(ms@));
    }
    Ok(crate::strutil::ascii_string(out))
}

/// Turns the raw argument list into the structured argument text: a
/// single raw token passes through unchanged, anything else is built
/// from the declared parameters.
pub fn parse_params(params_vec: Vec<&str>, inputs: &Vec<AbiParam>) -> (r: Result<
    String,
    ParamError,
>)
    ensures
        params_vec@.len() == 1 ==> r is Ok && r->Ok_0@ == params_vec@[0]@,
        params_vec@.len() != 1 ==> (match (
            r,
            coerce_args_spec(view_args(params_vec@), view_params(inputs@)),
        ) {
            (Ok(s), Ok(gms)) => s@ == crate::strutil::chars_of_ascii(ser_args(gms)),
            (Err(e), Err(ge)) => e@ == ge,
            _ => false,
        }),
{
    if params_vec.len() == 1 {
        Ok(params_vec[0].to_owned())
    } else {
        build_json_from_params(params_vec, inputs)
    }
}

/// A value that ends in the token suffix is coerced through
/// token-amount conversion of the text before the suffix: for any
/// value without surrounding quotes and without its own trailing
/// suffix letter, coercing the value with `T` appended yields exactly
/// what converting the value yields.
pub proof fn lemma_token_suffix(s: Seq<char>)
    requires
        s.len() > 0,
        s[0] != '"',
        s[s.len() - 1] != '"',
        s[s.len() - 1] != 'T',
    ensures
        int_param_spec(s.push('T')) == convert_spec(s),
{
    let v = s.push('T');
    assert(v[0] == s[0]);
    assert(v[v.len() - 1] == 'T');
    assert(ltrim_q(v) == v);
    assert(rtrim_q(v) == v);
    assert(v.take(v.len() - 1) =~= s);
    assert(rtrim_t(v) == rtrim_t(s));
    assert(rtrim_t(s) == s);
}

/// A fragment run stays inside the string.
proof fn lemma_frag_end_bounds(s: Seq<char>, i: int)
    requires
        0 <= i <= s.len(),
    ensures
        i <= frag_end(s, i) <= s.len(),
    decreases s.len() - i,
{
    if i < s.len() && !is_sep(s[i]) {
        lemma_frag_end_bounds(s, i + 1);
    }
}

/// A fragment run is unmoved by text before the position.
proof fn lemma_frag_end_shift(p: Seq<char>, s: Seq<char>, i: int)
    requires
        0 <= i <= s.len(),
    ensures
        frag_end(p + s, p.len() + i) == p.len() + frag_end(s, i),
    decreases s.len() - i,
{
    let b = p + s;
    if i < s.len() {
        assert(b[p.len() + i] == s[i]);
        if !is_sep(s[i]) {
            lemma_frag_end_shift(p, s, i + 1);
        }
    }
}

/// Splitting is unmoved by text before the position.
proof fn lemma_split_shift(p: Seq<char>, s: Seq<char>, i: int)
    requires
        0 <= i <= s.len(),
    ensures
        split_frags(p + s, p.len() + i) == split_frags(s, i),
    decreases s.len() - i,
{
    let b = p + s;
    if i < s.len() {
        assert(b[p.len() + i] == s[i]);
        if is_sep(s[i]) {
            lemma_split_shift(p, s, i + 1);
        } else {
            lemma_frag_end_bounds(s, i + 1);
            lemma_frag_end_shift(p, s, i);
            let e = frag_end(s, i);
            assert(e == frag_end(s, i + 1));
            assert(b.subrange(p.len() + i, p.len() + e) =~= s.subrange(i, e));
            lemma_split_shift(p, s, e);
        }
    }
}

/// A fragment run is unmoved by a separator appended at the end.
proof fn lemma_frag_end_append(s: Seq<char>, c: char, i: int)
    requires
        is_sep(c),
        0 <= i <= s.len(),
    ensures
        frag_end(s + seq![c], i) == frag_end(s, i),
    decreases s.len() - i,
{
    let b = s + seq![c];
    if i < s.len() {
        assert(b[i] == s[i]);
        if !is_sep(s[i]) {
            lemma_frag_end_append(s, c, i + 1);
        }
    } else {
        assert(b[i] == c);
    }
}

/// Splitting is unmoved by a separator appended at the end.
proof fn lemma_split_append_sep(s: Seq<char>, c: char, i: int)
    requires
        is_sep(c),
        0 <= i <= s.len(),
    ensures
        split_frags(s + seq![c], i) == split_frags(s, i),
    decreases s.len() - i,
{
    let b = s + seq![c];
    if i < s.len() {
        assert(b[i] == s[i]);
        if is_sep(s[i]) {
            lemma_split_append_sep(s, c, i + 1);
        } else {
            lemma_frag_end_bounds(s, i + 1);
            lemma_frag_end_append(s, c, i);
            let e = frag_end(s, i);
            assert(e == frag_end(s, i + 1));
            assert(b.subrange(i, e) =~= s.subrange(i, e));
            lemma_split_append_sep(s, c, e);
        }
    } else {
        assert(b[i] == c);
        assert(split_frags(b, i + 1) == Seq::<Seq<char>>::empty());
        assert(split_frags(b, i) == split_frags(b, i + 1));
        assert(split_frags(s, i) == Seq::<Seq<char>>::empty());
    }
}

/// Surrounding brackets change nothing: an array value coerces to
/// the same sequence with and without them.
pub proof fn lemma_brackets_immaterial(s: Seq<char>)
    ensures
        coerce_frags(split_frags(seq!['['] + s + seq![']'], 0)) == coerce_frags(
            split_frags(s, 0),
        ),
{
    let inner = s + seq![']'];
    let b = seq!['['] + inner;
    assert(seq!['['] + s + seq![']'] =~= b);
    assert(b[0] == '[');
    assert(split_frags(b, 0) == split_frags(b, 1));
    lemma_split_shift(seq!['['], inner, 0);
    lemma_split_append_sep(s, ']', 0);
}

} // verus!
