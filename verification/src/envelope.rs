//! The message envelope and its transport token codec.
//!
//! A prepared call is carried out-of-band as one hexadecimal token:
//! the canonical record text of `{"msg":{"message_id":...,
//! "message_body":...,"expire":...},"method":...}`, hex-encoded.
//! Packing and unpacking are inverse: `unpack_message` returns
//! exactly the envelope and method that `pack_message` was given.
use crate::hexutil::hex_decode;
use crate::hexutil::hex_encode;
use crate::hexutil::hex_of;
use crate::hexutil::is_hex_str;
use crate::hexutil::lemma_unhex_hex;
use crate::hexutil::unhex_of;
use crate::jsontext::all_ascii;
use crate::jsontext::lemma_ser_record_ascii;
use crate::jsontext::lemma_sp_record_ser;
use crate::jsontext::parse_record;
use crate::jsontext::ser_record;
use crate::jsontext::sp_record;
use crate::jsontext::view_members;
use crate::jsontext::write_record;
use crate::jsontext::GInnerMember;
use crate::jsontext::GScalar;
use crate::jsontext::GTopMember;
use crate::jsontext::GTopVal;
use crate::jsontext::InnerMember;
use crate::jsontext::Scalar;
use crate::jsontext::TopMember;
use crate::jsontext::TopVal;
use vstd::prelude::*;

verus! {

/// A prepared contract call: an opaque identifier, the binary
/// message body, and an optional expiration time in seconds.
#[derive(Debug, PartialEq, Eq)]
pub struct EncodedMessage {
    pub message_id: String,
    pub message_body: Vec<u8>,
    pub expire: Option<u32>,
}

/// Mathematical form of an envelope.
pub struct GEncodedMessage {
    pub message_id: Seq<char>,
    pub message_body: Seq<u8>,
    pub expire: Option<u32>,
}

impl View for EncodedMessage {
    type V = GEncodedMessage;

    open spec fn view(&self) -> GEncodedMessage {
        GEncodedMessage {
            message_id: self.message_id@,
            message_body: self.message_body@,
            expire: self.expire,
        }
    }
}

/// Why a transport token was rejected.
#[derive(Debug, PartialEq, Eq)]
pub enum UnpackError {
    /// The token is not an even-length hexadecimal string.
    MalformedToken,
    /// The token's content is not ASCII record text, or its body
    /// field is not hexadecimal.
    CorruptToken,
    /// The record text does not parse.
    DecodeError,
    /// The named field is absent or has the wrong shape.
    FieldMissing(String),
}

/// Mathematical form of an unpacking failure.
pub enum GUnpackError {
    MalformedToken,
    CorruptToken,
    DecodeError,
    FieldMissing(Seq<char>),
}

impl View for UnpackError {
    type V = GUnpackError;

    open spec fn view(&self) -> GUnpackError {
        match self {
            UnpackError::MalformedToken => GUnpackError::MalformedToken,
            UnpackError::CorruptToken => GUnpackError::CorruptToken,
            UnpackError::DecodeError => GUnpackError::DecodeError,
            UnpackError::FieldMissing(s) => GUnpackError::FieldMissing(s@),
        }
    }
}

/// The first top-level member named `k`, if any.
pub open spec fn find_top(ms: Seq<GTopMember>, k: Seq<char>) -> Option<GTopVal>
    decreases ms.len(),
{
    if ms.len() == 0 {
        None
    } else if ms[0].key == k {
        Some(ms[0].val)
    } else {
        find_top(ms.skip(1), k)
    }
}

/// The first inner member named `k`, if any.
pub open spec fn find_inner(ms: Seq<GInnerMember>, k: Seq<char>) -> Option<GScalar>
    decreases ms.len(),
{
    if ms.len() == 0 {
        None
    } else if ms[0].key == k {
        Some(ms[0].val)
    } else {
        find_inner(ms.skip(1), k)
    }
}

/// The members of the `msg` object, or nothing if it is absent or not
/// an object.
pub open spec fn msg_members(v: Option<GTopVal>) -> Seq<GInnerMember> {
    match v {
        Some(GTopVal::Obj(ms)) => ms,
        _ => Seq::empty(),
    }
}

/// The expiration read from the `expire` field: a number taken to
/// thirty-two bits, anything else no expiration.
pub open spec fn expire_of(v: Option<GScalar>) -> Option<u32> {
    match v {
        Some(GScalar::Num(n)) => Some(n as u32),
        _ => None,
    }
}

/// The inner members that carry an envelope.
pub open spec fn pack_inner_of(e: GEncodedMessage) -> Seq<GInnerMember> {
    seq![
        GInnerMember { key: "message_id"@, val: GScalar::Str(e.message_id) },
        GInnerMember { key: "message_body"@, val: GScalar::Str(hex_of(e.message_body)) },
        GInnerMember {
            key: "expire"@,
            val: match e.expire {
                Some(x) => GScalar::Num(x as u64),
                None => GScalar::Null,
            },
        },
    ]
}

/// The record that carries an envelope and its method name.
pub open spec fn pack_record_of(e: GEncodedMessage, m: Seq<char>) -> Seq<GTopMember> {
    seq![
        GTopMember { key: "msg"@, val: GTopVal::Obj(pack_inner_of(e)) },
        GTopMember { key: "method"@, val: GTopVal::Sc(GScalar::Str(m)) },
    ]
}

/// The transport token of an envelope and method name.
pub open spec fn pack_spec(e: GEncodedMessage, m: Seq<char>) -> Seq<char> {
    hex_of(ser_record(pack_record_of(e, m)))
}

/// What unpacking a token yields: the envelope and method, or the
/// failure, for every token.
pub open spec fn unpack_spec(t: Seq<char>) -> Result<(GEncodedMessage, Seq<char>), GUnpackError> {
    if !is_hex_str(t) {
        Result::Err(GUnpackError::MalformedToken)
    } else {
        let bytes = unhex_of(t);
        if !all_ascii(bytes) {
            Result::Err(GUnpackError::CorruptToken)
        } else {
            match sp_record(bytes) {
                None => Result::Err(GUnpackError::DecodeError),
            Some(ms) => match find_top(ms, "method"@) {
                Some(GTopVal::Sc(GScalar::Str(m))) => {
                    let inner = msg_members(find_top(ms, "msg"@));
                    match find_inner(inner, "message_id"@) {
                        Some(GScalar::Str(id)) => match find_inner(inner, "message_body"@) {
                            Some(GScalar::Str(bh)) => if is_hex_str(bh) {
                                Result::Ok(
                                    (
                                        GEncodedMessage {
                                            message_id: id,
                                            message_body: unhex_of(bh),
                                            expire: expire_of(find_inner(inner, "expire"@)),
                                        },
                                        m,
                                    ),
                                )
                            } else {
                                Result::Err(GUnpackError::CorruptToken)
                            },
                            _ => Result::Err(GUnpackError::FieldMissing("message_body"@)),
                        },
                        _ => Result::Err(GUnpackError::FieldMissing("message_id"@)),
                    }
                },
                    _ => Result::Err(GUnpackError::FieldMissing("method"@)),
                },
            }
        }
    }
}

/// The first top-level member named `k`, if any.
fn find_top_exec<'a>(ms: &'a Vec<TopMember>, k: &String) -> (r: Option<&'a TopVal>)
    ensures
        match r {
            Some(v) => find_top(view_members(ms@), k@) == Some(v@),
            None => find_top(view_members(ms@), k@) is None,
        },
{
    let n = ms.len();
    let mut i: usize = 0;
    proof {
        assert(view_members(ms@).skip(0) =~= view_members(ms@));
    }
    while i < n
        invariant
            i <= n,
            n == ms@.len(),
            find_top(view_members(ms@), k@) == find_top(view_members(ms@).skip(i as int), k@),
        decreases n - i,
    {
        if ms[i].key == *k {
            proof {
                assert(view_members(ms@).skip(i as int)[0] == ms@[i as int]@);
            }
            return Some(&ms[i].val);
        }
        proof {
            assert(view_members(ms@).skip(i as int)[0] == ms@[i as int]@);
            assert(view_members(ms@).skip(i as int).skip(1) =~= view_members(ms@).skip(i + 1));
        }
        i = i + 1;
    }
    None
}

/// The first inner member named `k`, if any.
fn find_inner_exec<'a>(ms: &'a Vec<InnerMember>, k: &String) -> (r: Option<&'a Scalar>)
    ensures
        match r {
            Some(v) => find_inner(ms@.map_values(|m: InnerMember| m@), k@) == Some(v@),
            None => find_inner(ms@.map_values(|m: InnerMember| m@), k@) is None,
        },
{
    let n = ms.len();
    let mut i: usize = 0;
    proof {
        assert(ms@.map_values(|m: InnerMember| m@).skip(0) =~= ms@.map_values(
            |m: InnerMember| m@,
        ));
    }
    while i < n
        invariant
            i <= n,
            n == ms@.len(),
            find_inner(ms@.map_values(|m: InnerMember| m@), k@) == find_inner(
                ms@.map_values(|m: InnerMember| m@).skip(i as int),
                k@,
            ),
        decreases n - i,
    {
        if ms[i].key == *k {
            proof {
                assert(ms@.map_values(|m: InnerMember| m@).skip(i as int)[0] == ms@[i as int]@);
            }
            return Some(&ms[i].val);
        }
        proof {
            let mapped = ms@.map_values(|m: InnerMember| m@);
            assert(mapped.skip(i as int)[0] == ms@[i as int]@);
            assert(mapped.skip(i as int).skip(1) =~= mapped.skip(i + 1));
        }
        i = i + 1;
    }
    None
}

/// The members of the top-level `msg` object, if it is an object.
fn get_msg_obj<'a>(rec: &'a Vec<TopMember>, k: &String) -> (r: Option<&'a Vec<InnerMember>>)
    ensures
        match r {
            Some(ms) => msg_members(find_top(view_members(rec@), k@)) == ms@.map_values(
                |m: InnerMember| m@,
            ),
            None => msg_members(find_top(view_members(rec@), k@)) == Seq::<GInnerMember>::empty(),
        },
{
    match find_top_exec(rec, k) {
        Some(TopVal::Obj(ms)) => Some(ms),
        Some(_) => None,
        None => None,
    }
}

/// The string value of the top-level member named `k`, if it is a
/// string.
fn get_top_str<'a>(rec: &'a Vec<TopMember>, k: &String) -> (r: Option<&'a String>)
    ensures
        match r {
            Some(s) => find_top(view_members(rec@), k@) == Some(GTopVal::Sc(GScalar::Str(s@))),
            None => match find_top(view_members(rec@), k@) {
                Some(GTopVal::Sc(GScalar::Str(_))) => false,
                _ => true,
            },
        },
{
    match find_top_exec(rec, k) {
        Some(TopVal::Sc(Scalar::Str(s))) => Some(s),
        Some(_) => None,
        None => None,
    }
}

/// The string value of the inner member named `k`, if it is a string.
fn get_inner_str<'a>(ms: &'a Vec<InnerMember>, k: &String) -> (r: Option<&'a String>)
    ensures
        match r {
            Some(s) => find_inner(ms@.map_values(|m: InnerMember| m@), k@) == Some(
                GScalar::Str(s@),
            ),
            None => match find_inner(ms@.map_values(|m: InnerMember| m@), k@) {
                Some(GScalar::Str(_)) => false,
                _ => true,
            },
        },
{
    match find_inner_exec(ms, k) {
        Some(Scalar::Str(s)) => Some(s),
        Some(_) => None,
        None => None,
    }
}

/// The numeric value of the inner member named `k`, if it is a
/// number.
fn get_inner_num(ms: &Vec<InnerMember>, k: &String) -> (r: Option<u64>)
    ensures
        r == (match find_inner(ms@.map_values(|m: InnerMember| m@), k@) {
            Some(GScalar::Num(n)) => Some(n),
            _ => None::<u64>,
        }),
{
    match find_inner_exec(ms, k) {
        Some(Scalar::Num(n)) => Some(*n),
        Some(_) => None,
        None => None,
    }
}

/// Builds the header text that asks the client for the given
/// expiration time.
pub fn expiration_header(expire_at: u32) -> (r: String)
    ensures
        r@ == crate::strutil::chars_of_ascii(
            seq![123u8] + crate::jsontext::ser_string("expire"@) + seq![58u8]
                + crate::jsontext::dec_digits(expire_at as int) + seq![125u8],
        ),
{
    let mut out: Vec<u8> = Vec::new();
    out.push(123);
    crate::jsontext::write_string(&mut out, "expire");
    out.push(58);
    crate::jsontext::write_number(&mut out, expire_at as u64);
    out.push(125);
    proof {
        let chunk = seq![123u8] + crate::jsontext::ser_string("expire"@) + seq![58u8]
            + crate::jsontext::dec_digits(expire_at as int) + seq![125u8];
        assert(out@ =~= chunk);
        crate::jsontext::lemma_ser_string_ascii("expire"@);
        crate::jsontext::lemma_dec_digits_ascii(expire_at as int);
        crate::jsontext::lemma_all_ascii_concat(
            seq![123u8],
            crate::jsontext::ser_string("expire"@),
        );
        crate::jsontext::lemma_all_ascii_concat(
            seq![123u8] + crate::jsontext::ser_string("expire"@),
            seq![58u8],
        );
        crate::jsontext::lemma_all_ascii_concat(
            seq![123u8] + crate::jsontext::ser_string("expire"@) + seq![58u8],
            crate::jsontext::dec_digits(expire_at as int),
        );
        crate::jsontext::lemma_all_ascii_concat(
            seq![123u8] + crate::jsontext::ser_string("expire"@) + seq![58u8]
                + crate::jsontext::dec_digits(expire_at as int),
            seq![125u8],
        );
    }
    crate::strutil::ascii_string(out)
}

/// Packs an envelope and its target method into one transport token.
pub fn pack_message(msg: &EncodedMessage, method: &str) -> (r: String)
    ensures
        r@ == pack_spec(msg@, method@),
{
    let mut inner: Vec<InnerMember> = Vec::new();
    inner.push(
        InnerMember { key: "message_id".to_owned(), val: Scalar::Str(msg.message_id.clone()) },
    );
    let body_hex = hex_encode(msg.message_body.as_slice());
    inner.push(InnerMember { key: "message_body".to_owned(), val: Scalar::Str(body_hex) });
    inner.push(
        InnerMember {
            key: "expire".to_owned(),
            val: match msg.expire {
                Some(x) => Scalar::Num(x as u64),
                None => Scalar::Null,
            },
        },
    );
    let mut rec: Vec<TopMember> = Vec::new();
    rec.push(TopMember { key: "msg".to_owned(), val: TopVal::Obj(inner) });
    rec.push(TopMember { key: "method".to_owned(), val: TopVal::Sc(Scalar::Str(method.to_owned())) });
    let mut out: Vec<u8> = Vec::new();
    write_record(&mut out, &rec);
    proof {
        match rec@[0].val {
            TopVal::Obj(iv) => {
                assert(iv@.map_values(|m: InnerMember| m@) =~= pack_inner_of(msg@));
            },
            _ => {
                assert(false);
            },
        }
        assert(view_members(rec@) =~= pack_record_of(msg@, method@));
    }
    hex_encode(out.as_slice())
}

/// Unpacks a transport token back into its envelope and method.
pub fn unpack_message(token: &str) -> (r: Result<(EncodedMessage, String), UnpackError>)
    ensures
        match (r, unpack_spec(token@)) {
            (Ok((msg, m)), Ok((gmsg, gm))) => msg@ == gmsg && m@ == gm,
            (Err(e), Err(ge)) => e@ == ge,
            _ => false,
        },
{
    let bytes = match hex_decode(token) {
        None => {
            return Err(UnpackError::MalformedToken);
        },
        Some(v) => v,
    };
    let mut i: usize = 0;
    while i < bytes.len()
        invariant
            i <= bytes@.len(),
            is_hex_str(token@),
            bytes@ == unhex_of(token@),
            forall|k: int| 0 <= k < i ==> #[trigger] bytes@[k] < 128,
        decreases bytes@.len() - i,
    {
        if bytes[i] >= 128 {
            proof {
                assert(!(bytes@[i as int] < 128));
                assert(!all_ascii(bytes@));
            }
            return Err(UnpackError::CorruptToken);
        }
        i = i + 1;
    }
    let rec = match parse_record(&bytes) {
        None => {
            return Err(UnpackError::DecodeError);
        },
        Some(ms) => ms,
    };
    let method_key = "method".to_owned();
    let m: String = match get_top_str(&rec, &method_key) {
        Some(s) => s.clone(),
        None => {
            return Err(UnpackError::FieldMissing(method_key));
        },
    };
    let msg_key = "msg".to_owned();
    let empty_inner: Vec<InnerMember> = Vec::new();
    proof {
        assert(empty_inner@.map_values(|x: InnerMember| x@) =~= Seq::<GInnerMember>::empty());
    }
    let inner: &Vec<InnerMember> = match get_msg_obj(&rec, &msg_key) {
        Some(ms) => ms,
        None => &empty_inner,
    };
    let id_key = "message_id".to_owned();
    let id: String = match get_inner_str(inner, &id_key) {
        Some(s) => s.clone(),
        None => {
            return Err(UnpackError::FieldMissing(id_key));
        },
    };
    let body_key = "message_body".to_owned();
    let body: Vec<u8> = match get_inner_str(inner, &body_key) {
        Some(s) => match hex_decode(s.as_str()) {
            None => {
                return Err(UnpackError::CorruptToken);
            },
            Some(v) => v,
        },
        None => {
            return Err(UnpackError::FieldMissing(body_key));
        },
    };
    let expire_key = "expire".to_owned();
    let expire: Option<u32> = match get_inner_num(inner, &expire_key) {
        Some(n) => Some(n as u32),
        None => None,
    };
    Ok((EncodedMessage { message_id: id, message_body: body, expire }, m))
}

/// The packed record holds its fields under their names.
proof fn lemma_find_pack_fields(e: GEncodedMessage, m: Seq<char>)
    ensures
        find_top(pack_record_of(e, m), "method"@) == Some(GTopVal::Sc(GScalar::Str(m))),
        find_top(pack_record_of(e, m), "msg"@) == Some(GTopVal::Obj(pack_inner_of(e))),
        find_inner(pack_inner_of(e), "message_id"@) == Some(GScalar::Str(e.message_id)),
        find_inner(pack_inner_of(e), "message_body"@) == Some(GScalar::Str(hex_of(e.message_body))),
        find_inner(pack_inner_of(e), "expire"@) == Some(
            match e.expire {
                Some(x) => GScalar::Num(x as u64),
                None => GScalar::Null,
            },
        ),
{
    reveal_with_fuel(find_top, 3);
    reveal_with_fuel(find_inner, 4);
    reveal_strlit("msg");
    reveal_strlit("method");
    reveal_strlit("message_id");
    reveal_strlit("message_body");
    reveal_strlit("expire");
    assert("msg"@.len() == 3 && "method"@.len() == 6 && "message_id"@.len() == 10
        && "message_body"@.len() == 12 && "expire"@.len() == 6);
    assert("expire"@[0] == 'e' && "method"@[0] == 'm');
    let r = pack_record_of(e, m);
    let i3 = pack_inner_of(e);
    assert(r.skip(1) =~= seq![r[1]]);
    assert(i3.skip(1) =~= seq![i3[1], i3[2]]);
    assert(seq![i3[1], i3[2]].skip(1) =~= seq![i3[2]]);
    assert(find_top(r, "method"@) == Some(GTopVal::Sc(GScalar::Str(m))));
    assert(find_top(r, "msg"@) == Some(GTopVal::Obj(i3)));
    assert(find_inner(i3, "message_id"@) == Some(GScalar::Str(e.message_id)));
    assert(find_inner(i3, "message_body"@) == Some(GScalar::Str(hex_of(e.message_body))));
}

/// Packing then unpacking yields the original envelope and method,
/// for every envelope and method name.
#[verifier::rlimit(100)]
pub proof fn lemma_pack_unpack(e: GEncodedMessage, m: Seq<char>)
    ensures
        unpack_spec(pack_spec(e, m)) == Result::<(GEncodedMessage, Seq<char>), GUnpackError>::Ok(
            (e, m),
        ),
{
    let r = pack_record_of(e, m);
    let bytes = ser_record(r);
    lemma_unhex_hex(bytes);
    lemma_ser_record_ascii(r);
    lemma_sp_record_ser(r);
    lemma_find_pack_fields(e, m);
    lemma_unhex_hex(e.message_body);
    match e.expire {
        Some(x) => {
            assert(expire_of(find_inner(pack_inner_of(e), "expire"@)) == Some(x));
        },
        None => {
            assert(expire_of(find_inner(pack_inner_of(e), "expire"@)) is None);
        },
    }
}

} // verus!
