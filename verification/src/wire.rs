//! The byte encoding of the protocol: requests and responses travel as a
//! concatenation of self-delimiting records in the same format as the log,
//! and a decoder reports the exact byte offset after each one.
//!
//! `Set` and `Remove` requests are encoded exactly like log records; a
//! `Get` request is `{"Get":{"key":"…"}}`.  A response is `{"Ok":null}`,
//! `{"Ok":"…"}` or `{"Err":"…"}`.
use crate::common::{GetResponse, RemoveResponse, Request, SetResponse};
use crate::errors::KvsErr;
use crate::record::{
    enc_content, enc_remove_cmd, enc_set_cmd, lit_obj_end, lit_remove, lit_set, parse_cmd,
    parse_one, parse_two, string_from_utf8, Parse,
};
use crate::scan::{escape_append, lit_match, scan_exec, scan_string, LitCheck, Scan, ScanStep};
use vstd::prelude::*;
use vstd::utf8::{decode_utf8, encode_utf8, valid_utf8};

verus! {

/// A decoded request at the byte level.
#[verifier::ext_equal]
pub ghost enum PReq {
    QGet { key: Seq<u8> },
    QSet { key: Seq<u8>, value: Seq<u8> },
    QRemove { key: Seq<u8> },
}

/// A decoded `Get` response at the byte level.
#[verifier::ext_equal]
pub ghost enum PGetResp {
    GNone,
    GSome { value: Seq<u8> },
    GFail { message: Seq<u8> },
}

/// A decoded `Set` or `Remove` response at the byte level.
#[verifier::ext_equal]
pub ghost enum PUnitResp {
    UDone,
    UFail { message: Seq<u8> },
}

/// `{"Get":{"key":"`
pub open spec fn lit_get() -> Seq<u8> {
    seq![123u8, 34u8, 71u8, 101u8, 116u8, 34u8, 58u8, 123u8, 34u8, 107u8, 101u8, 121u8, 34u8, 58u8, 34u8]
}

/// `{"Ok":null}`
pub open spec fn lit_ok_null() -> Seq<u8> {
    seq![123u8, 34u8, 79u8, 107u8, 34u8, 58u8, 110u8, 117u8, 108u8, 108u8, 125u8]
}

/// `{"Ok":"`
pub open spec fn lit_ok_str() -> Seq<u8> {
    seq![123u8, 34u8, 79u8, 107u8, 34u8, 58u8, 34u8]
}

/// `{"Err":"`
pub open spec fn lit_err_str() -> Seq<u8> {
    seq![123u8, 34u8, 69u8, 114u8, 114u8, 34u8, 58u8, 34u8]
}

/// `}`
pub open spec fn lit_close() -> Seq<u8> {
    seq![125u8]
}

/// Parses `<content>"}` at offset `off` of `bs`.
pub open spec fn parse_str_close(bs: Seq<u8>, off: int) -> Parse<Seq<u8>> {
    match scan_string(bs.skip(off)) {
        Scan::Hit { content: k, used: u1 } => match lit_match(bs.skip(off + u1), lit_close()) {
            LitCheck::LHit => Parse::Got { v: k, used: off + u1 + 1 },
            LitCheck::LMore => Parse::NeedMore,
            LitCheck::LFail => Parse::Corrupt,
        },
        Scan::More => Parse::NeedMore,
        Scan::Bad => Parse::Corrupt,
    }
}

/// Parses one request at the front of `bs`.
pub open spec fn parse_request(bs: Seq<u8>) -> Parse<PReq> {
    if lit_match(bs, lit_get()) is LHit {
        match parse_one(bs, 15) {
            Parse::Got { v, used } => Parse::Got { v: PReq::QGet { key: v }, used },
            Parse::NeedMore => Parse::NeedMore,
            Parse::Corrupt => Parse::Corrupt,
        }
    } else if lit_match(bs, lit_set()) is LHit {
        match parse_two(bs, 15) {
            Parse::Got { v, used } => Parse::Got { v: PReq::QSet { key: v.0, value: v.1 }, used },
            Parse::NeedMore => Parse::NeedMore,
            Parse::Corrupt => Parse::Corrupt,
        }
    } else if lit_match(bs, lit_remove()) is LHit {
        match parse_one(bs, 18) {
            Parse::Got { v, used } => Parse::Got { v: PReq::QRemove { key: v }, used },
            Parse::NeedMore => Parse::NeedMore,
            Parse::Corrupt => Parse::Corrupt,
        }
    } else if lit_match(bs, lit_get()) is LMore || lit_match(bs, lit_set()) is LMore || lit_match(
        bs,
        lit_remove(),
    ) is LMore {
        Parse::NeedMore
    } else {
        Parse::Corrupt
    }
}

/// Parses one `Get` response at the front of `bs`.
pub open spec fn parse_get_response(bs: Seq<u8>) -> Parse<PGetResp> {
    if lit_match(bs, lit_ok_null()) is LHit {
        Parse::Got { v: PGetResp::GNone, used: 11 }
    } else if lit_match(bs, lit_ok_str()) is LHit {
        match parse_str_close(bs, 7) {
            Parse::Got { v, used } => Parse::Got { v: PGetResp::GSome { value: v }, used },
            Parse::NeedMore => Parse::NeedMore,
            Parse::Corrupt => Parse::Corrupt,
        }
    } else if lit_match(bs, lit_err_str()) is LHit {
        match parse_str_close(bs, 8) {
            Parse::Got { v, used } => Parse::Got { v: PGetResp::GFail { message: v }, used },
            Parse::NeedMore => Parse::NeedMore,
            Parse::Corrupt => Parse::Corrupt,
        }
    } else if lit_match(bs, lit_ok_null()) is LMore || lit_match(bs, lit_ok_str()) is LMore
        || lit_match(bs, lit_err_str()) is LMore {
        Parse::NeedMore
    } else {
        Parse::Corrupt
    }
}

/// Parses one `Set` or `Remove` response at the front of `bs`.
pub open spec fn parse_unit_response(bs: Seq<u8>) -> Parse<PUnitResp> {
    if lit_match(bs, lit_ok_null()) is LHit {
        Parse::Got { v: PUnitResp::UDone, used: 11 }
    } else if lit_match(bs, lit_err_str()) is LHit {
        match parse_str_close(bs, 8) {
            Parse::Got { v, used } => Parse::Got { v: PUnitResp::UFail { message: v }, used },
            Parse::NeedMore => Parse::NeedMore,
            Parse::Corrupt => Parse::Corrupt,
        }
    } else if lit_match(bs, lit_ok_null()) is LMore || lit_match(bs, lit_err_str()) is LMore {
        Parse::NeedMore
    } else {
        Parse::Corrupt
    }
}

/// The encoding of a `Get` request.
pub open spec fn enc_get_req(key: Seq<char>) -> Seq<u8> {
    lit_get() + enc_content(key) + seq![34u8] + lit_obj_end()
}

/// The encoding of any request.
pub open spec fn enc_request(r: &Request) -> Seq<u8> {
    match r {
        Request::GetKey { key } => enc_get_req(key@),
        Request::SetKey { key, value } => enc_set_cmd(key@, value@),
        Request::RemoveKey { key } => enc_remove_cmd(key@),
    }
}

/// The byte-level record a request encodes to.
pub open spec fn preq_of(r: &Request) -> PReq {
    match r {
        Request::GetKey { key } => PReq::QGet { key: encode_utf8(key@) },
        Request::SetKey { key, value } => PReq::QSet {
            key: encode_utf8(key@),
            value: encode_utf8(value@),
        },
        Request::RemoveKey { key } => PReq::QRemove { key: encode_utf8(key@) },
    }
}

/// The encoding of a `Get` response.
pub open spec fn enc_get_response(r: &GetResponse) -> Seq<u8> {
    match r {
        GetResponse::Done(Some(v)) => lit_ok_str() + enc_content(v@) + seq![34u8] + lit_close(),
        GetResponse::Done(None) => lit_ok_null(),
        GetResponse::Failed(m) => lit_err_str() + enc_content(m@) + seq![34u8] + lit_close(),
    }
}

pub open spec fn pget_resp_of(r: &GetResponse) -> PGetResp {
    match r {
        GetResponse::Done(Some(v)) => PGetResp::GSome { value: encode_utf8(v@) },
        GetResponse::Done(None) => PGetResp::GNone,
        GetResponse::Failed(m) => PGetResp::GFail { message: encode_utf8(m@) },
    }
}

/// The encoding of a `Set` response.
pub open spec fn enc_set_response(r: &SetResponse) -> Seq<u8> {
    match r {
        SetResponse::Done(u) => lit_ok_null(),
        SetResponse::Failed(m) => lit_err_str() + enc_content(m@) + seq![34u8] + lit_close(),
    }
}

/// The encoding of a `Remove` response.
pub open spec fn enc_remove_response(r: &RemoveResponse) -> Seq<u8> {
    match r {
        RemoveResponse::Done(u) => lit_ok_null(),
        RemoveResponse::Failed(m) => lit_err_str() + enc_content(m@) + seq![34u8] + lit_close(),
    }
}

pub open spec fn punit_resp_of_set(r: &SetResponse) -> PUnitResp {
    match r {
        SetResponse::Done(u) => PUnitResp::UDone,
        SetResponse::Failed(m) => PUnitResp::UFail { message: encode_utf8(m@) },
    }
}

pub open spec fn punit_resp_of_remove(r: &RemoveResponse) -> PUnitResp {
    match r {
        RemoveResponse::Done(u) => PUnitResp::UDone,
        RemoveResponse::Failed(m) => PUnitResp::UFail { message: encode_utf8(m@) },
    }
}

/// Round trip: an encoded request parses back to itself and consumes
/// exactly its own bytes, whatever follows it.
#[verifier::rlimit(50)]
pub proof fn lemma_parse_enc_request(r: &Request, rest: Seq<u8>)
    ensures
        parse_request(enc_request(r) + rest) == (Parse::Got {
            v: preq_of(r),
            used: enc_request(r).len() as int,
        }),
{
    let bs = enc_request(r) + rest;
    match r {
        Request::GetKey { key } => {
            let kb = enc_content(key@);
            assert(bs.take(15) =~= lit_get());
            assert(lit_match(bs, lit_get()) is LHit);
            let tail = lit_obj_end() + rest;
            assert(bs.skip(15) =~= kb + seq![34u8] + tail);
            crate::scan::lemma_scan_escape(encode_utf8(key@), tail);
            let u1 = kb.len() as int + 1;
            assert(bs.skip(15 + u1) =~= tail);
            assert(bs.skip(15 + u1).take(2) =~= lit_obj_end());
            assert(lit_match(bs.skip(15 + u1), lit_obj_end()) is LHit);
            assert(15 + u1 + 2 == enc_request(r).len() as int);
            assert(parse_request(bs) =~= (Parse::Got {
                v: preq_of(r),
                used: enc_request(r).len() as int,
            }));
        },
        Request::SetKey { key, value } => {
            crate::record::lemma_parse_enc_set(key@, value@, rest);
            assert(bs.take(15)[2] == 83);
            assert(lit_get()[2] == 71);
            assert(lit_match(bs, lit_get()) is LFail);
            assert(parse_cmd(bs) matches Parse::Got { v, used });
            assert(parse_request(bs) =~= (Parse::Got {
                v: preq_of(r),
                used: enc_request(r).len() as int,
            }));
        },
        Request::RemoveKey { key } => {
            crate::record::lemma_parse_enc_remove(key@, rest);
            assert(bs.take(15)[2] == 82);
            assert(lit_get()[2] == 71);
            assert(lit_set()[2] == 83);
            assert(lit_match(bs, lit_get()) is LFail);
            assert(lit_match(bs, lit_set()) is LFail);
            assert(parse_request(bs) =~= (Parse::Got {
                v: preq_of(r),
                used: enc_request(r).len() as int,
            }));
        },
    }
}

/// Round trip for `Get` responses.
#[verifier::rlimit(50)]
pub proof fn lemma_parse_enc_get_response(r: &GetResponse, rest: Seq<u8>)
    ensures
        parse_get_response(enc_get_response(r) + rest) == (Parse::Got {
            v: pget_resp_of(r),
            used: enc_get_response(r).len() as int,
        }),
{
    let bs = enc_get_response(r) + rest;
    match r {
        GetResponse::Done(None) => {
            assert(bs.take(11) =~= lit_ok_null());
            assert(lit_match(bs, lit_ok_null()) is LHit);
        },
        GetResponse::Done(Some(v)) => {
            let vb = enc_content(v@);
            assert(bs.take(7) =~= lit_ok_str());
            assert(lit_match(bs, lit_ok_str()) is LHit);
            assert(bs.take(11)[6] == 34 || bs.len() < 11);
            assert(lit_ok_null()[6] == 110);
            assert(lit_match(bs, lit_ok_null()) !is LHit) by {
                if bs.len() >= 11 && bs.take(11) == lit_ok_null() {
                    assert(bs.take(11)[6] == 110 && bs.take(7)[6] == 34);
                    assert(bs[6] == 110 && bs[6] == 34);
                }
            }
            let tail = lit_close() + rest;
            assert(bs.skip(7) =~= vb + seq![34u8] + tail);
            crate::scan::lemma_scan_escape(encode_utf8(v@), tail);
            let u1 = vb.len() as int + 1;
            assert(bs.skip(7 + u1) =~= tail);
            assert(bs.skip(7 + u1).take(1) =~= lit_close());
            assert(lit_match(bs.skip(7 + u1), lit_close()) is LHit);
            assert(7 + u1 + 1 == enc_get_response(r).len() as int);
            assert(parse_get_response(bs) =~= (Parse::Got {
                v: pget_resp_of(r),
                used: enc_get_response(r).len() as int,
            }));
        },
        GetResponse::Failed(m) => {
            let mb = enc_content(m@);
            assert(bs.take(8) =~= lit_err_str());
            assert(lit_match(bs, lit_err_str()) is LHit);
            assert(lit_ok_null()[2] == 79 && lit_ok_str()[2] == 79 && lit_err_str()[2] == 69);
            assert(bs[2] == 69);
            assert(lit_match(bs, lit_ok_null()) !is LHit) by {
                if bs.len() >= 11 && bs.take(11) == lit_ok_null() {
                    assert(bs.take(11)[2] == 79);
                }
            }
            assert(lit_match(bs, lit_ok_str()) !is LHit) by {
                if bs.len() >= 7 && bs.take(7) == lit_ok_str() {
                    assert(bs.take(7)[2] == 79);
                }
            }
            let tail = lit_close() + rest;
            assert(bs.skip(8) =~= mb + seq![34u8] + tail);
            crate::scan::lemma_scan_escape(encode_utf8(m@), tail);
            let u1 = mb.len() as int + 1;
            assert(bs.skip(8 + u1) =~= tail);
            assert(bs.skip(8 + u1).take(1) =~= lit_close());
            assert(lit_match(bs.skip(8 + u1), lit_close()) is LHit);
            assert(8 + u1 + 1 == enc_get_response(r).len() as int);
            assert(parse_get_response(bs) =~= (Parse::Got {
                v: pget_resp_of(r),
                used: enc_get_response(r).len() as int,
            }));
        },
    }
}

/// Round trip for `Set` and `Remove` responses, which share one encoding.
#[verifier::rlimit(50)]
pub proof fn lemma_parse_enc_unit_response(done: bool, message: Seq<char>, rest: Seq<u8>)
    ensures
        done ==> parse_unit_response(lit_ok_null() + rest) == (Parse::Got {
            v: PUnitResp::UDone,
            used: 11int,
        }),
        !done ==> parse_unit_response(
            lit_err_str() + enc_content(message) + seq![34u8] + lit_close() + rest,
        ) == (Parse::Got {
            v: (PUnitResp::UFail { message: encode_utf8(message) }),
            used: lit_err_str().len() + enc_content(message).len() + 1 + lit_close().len() as int,
        }),
{
    if done {
        let bs = lit_ok_null() + rest;
        assert(bs.take(11) =~= lit_ok_null());
        assert(lit_match(bs, lit_ok_null()) is LHit);
    } else {
        let mb = enc_content(message);
        let bs = lit_err_str() + mb + seq![34u8] + lit_close() + rest;
        assert(bs.take(8) =~= lit_err_str());
        assert(lit_match(bs, lit_err_str()) is LHit);
        assert(bs[2] == 69 && lit_ok_null()[2] == 79);
        assert(lit_match(bs, lit_ok_null()) !is LHit) by {
            if bs.len() >= 11 && bs.take(11) == lit_ok_null() {
                assert(bs.take(11)[2] == 79);
            }
        }
        let tail = lit_close() + rest;
        assert(bs.skip(8) =~= mb + seq![34u8] + tail);
        crate::scan::lemma_scan_escape(encode_utf8(message), tail);
        let u1 = mb.len() as int + 1;
        assert(bs.skip(8 + u1) =~= tail);
        assert(bs.skip(8 + u1).take(1) =~= lit_close());
        assert(lit_match(bs.skip(8 + u1), lit_close()) is LHit);
        assert(parse_unit_response(bs) =~= (Parse::Got {
            v: (PUnitResp::UFail { message: encode_utf8(message) }),
            used: lit_err_str().len() + mb.len() + 1 + lit_close().len() as int,
        }));
    }
}

fn lit_get_vec() -> (v: Vec<u8>)
    ensures
        v@ == lit_get(),
{
    let mut v: Vec<u8> = Vec::new();
    v.push(123);
    v.push(34);
    v.push(71);
    v.push(101);
    v.push(116);
    v.push(34);
    v.push(58);
    v.push(123);
    v.push(34);
    v.push(107);
    v.push(101);
    v.push(121);
    v.push(34);
    v.push(58);
    v.push(34);
    proof {
        assert(v@ =~= lit_get());
    }
    v
}

fn lit_ok_null_vec() -> (v: Vec<u8>)
    ensures
        v@ == lit_ok_null(),
{
    let mut v: Vec<u8> = Vec::new();
    v.push(123);
    v.push(34);
    v.push(79);
    v.push(107);
    v.push(34);
    v.push(58);
    v.push(110);
    v.push(117);
    v.push(108);
    v.push(108);
    v.push(125);
    proof {
        assert(v@ =~= lit_ok_null());
    }
    v
}

fn lit_ok_str_vec() -> (v: Vec<u8>)
    ensures
        v@ == lit_ok_str(),
{
    let mut v: Vec<u8> = Vec::new();
    v.push(123);
    v.push(34);
    v.push(79);
    v.push(107);
    v.push(34);
    v.push(58);
    v.push(34);
    proof {
        assert(v@ =~= lit_ok_str());
    }
    v
}

fn lit_err_str_vec() -> (v: Vec<u8>)
    ensures
        v@ == lit_err_str(),
{
    let mut v: Vec<u8> = Vec::new();
    v.push(123);
    v.push(34);
    v.push(69);
    v.push(114);
    v.push(114);
    v.push(34);
    v.push(58);
    v.push(34);
    proof {
        assert(v@ =~= lit_err_str());
    }
    v
}

/// Encodes one request as one record.
pub fn encode_request(r: &Request) -> (out: Vec<u8>)
    ensures
        out@ == enc_request(r),
{
    match r {
        Request::GetKey { key } => {
            let mut out: Vec<u8> = Vec::new();
            let l1 = lit_get_vec();
            out.extend_from_slice(l1.as_slice());
            escape_append(&mut out, key.as_str().as_bytes());
            out.push(34);
            let l2 = crate::record::lit_obj_end_vec();
            out.extend_from_slice(l2.as_slice());
            proof {
                assert(out@ =~= enc_get_req(key@));
            }
            out
        },
        Request::SetKey { key, value } => crate::record::encode_set(
            key.as_str(),
            value.as_str(),
        ),
        Request::RemoveKey { key } => crate::record::encode_remove(key.as_str()),
    }
}

/// Encodes one `Get` response.
pub fn encode_get_response(r: &GetResponse) -> (out: Vec<u8>)
    ensures
        out@ == enc_get_response(r),
{
    match r {
        GetResponse::Done(None) => lit_ok_null_vec(),
        GetResponse::Done(Some(v)) => {
            let mut out = lit_ok_str_vec();
            escape_append(&mut out, v.as_str().as_bytes());
            out.push(34);
            out.push(125);
            proof {
                assert(out@ =~= enc_get_response(r));
            }
            out
        },
        GetResponse::Failed(m) => {
            let mut out = lit_err_str_vec();
            escape_append(&mut out, m.as_str().as_bytes());
            out.push(34);
            out.push(125);
            proof {
                assert(out@ =~= enc_get_response(r));
            }
            out
        },
    }
}

/// Encodes one `Set` response.
pub fn encode_set_response(r: &SetResponse) -> (out: Vec<u8>)
    ensures
        out@ == enc_set_response(r),
{
    match r {
        SetResponse::Done(u) => lit_ok_null_vec(),
        SetResponse::Failed(m) => {
            let mut out = lit_err_str_vec();
            escape_append(&mut out, m.as_str().as_bytes());
            out.push(34);
            out.push(125);
            proof {
                assert(out@ =~= enc_set_response(r));
            }
            out
        },
    }
}

/// Encodes one `Remove` response.
pub fn encode_remove_response(r: &RemoveResponse) -> (out: Vec<u8>)
    ensures
        out@ == enc_remove_response(r),
{
    match r {
        RemoveResponse::Done(u) => lit_ok_null_vec(),
        RemoveResponse::Failed(m) => {
            let mut out = lit_err_str_vec();
            escape_append(&mut out, m.as_str().as_bytes());
            out.push(34);
            out.push(125);
            proof {
                assert(out@ =~= enc_remove_response(r));
            }
            out
        },
    }
}

/// Outcome of decoding one request out of a buffer.
pub enum ReqStep {
    RGot { req: Request, next: usize },
    RMore,
    RBad,
}

/// Decodes one request at offset `start` of `data`, mirroring
/// [`parse_request`] on the suffix; fields that are not valid UTF-8 are
/// malformed.
pub fn decode_request(data: &Vec<u8>, start: usize) -> (r: ReqStep)
    requires
        start <= data@.len(),
    ensures
        (match parse_request(data@.skip(start as int)) {
            Parse::Got { v, used } => (match v {
                PReq::QGet { key: kb } => {
                    if valid_utf8(kb) {
                        r matches ReqStep::RGot { req, next } && req matches Request::GetKey {
                            key,
                        } && key@ == decode_utf8(kb) && next == start + used && start < next
                            <= data@.len()
                    } else {
                        r is RBad
                    }
                },
                PReq::QSet { key: kb, value: vb } => {
                    if valid_utf8(kb) && valid_utf8(vb) {
                        r matches ReqStep::RGot { req, next } && req matches Request::SetKey {
                            key,
                            value,
                        } && key@ == decode_utf8(kb) && value@ == decode_utf8(vb) && next == start
                            + used && start < next <= data@.len()
                    } else {
                        r is RBad
                    }
                },
                PReq::QRemove { key: kb } => {
                    if valid_utf8(kb) {
                        r matches ReqStep::RGot { req, next } && req matches Request::RemoveKey {
                            key,
                        } && key@ == decode_utf8(kb) && next == start + used && start < next
                            <= data@.len()
                    } else {
                        r is RBad
                    }
                },
            }),
            Parse::NeedMore => r is RMore,
            Parse::Corrupt => r is RBad,
        }),
{
    let ghost bs = data@.skip(start as int);
    let data_len = data.len();
    proof {
        assert(data@.len() == data_len <= usize::MAX);
        crate::record::lemma_parse_bounds(bs);
    }
    let lget = lit_get_vec();
    match crate::scan::match_lit(data, start, lget.as_slice()) {
        crate::scan::LitStep::LYes => {
            proof {
                assert(bs.len() >= lit_get().len());
                assert(start + 15 <= data@.len());
                assert(bs.skip(15) =~= data@.skip(start + 15));
            }
            match scan_exec(data, start + 15) {
                ScanStep::Done { content: kcontent, next: knext } => {
                    proof {
                        assert(bs.skip(knext - start) =~= data@.skip(knext as int));
                    }
                    let lend = crate::record::lit_obj_end_vec();
                    match crate::scan::match_lit(data, knext, lend.as_slice()) {
                        crate::scan::LitStep::LYes => {
                            match string_from_utf8(kcontent) {
                                Some(key) => ReqStep::RGot {
                                    req: Request::GetKey { key },
                                    next: knext + 2,
                                },
                                None => ReqStep::RBad,
                            }
                        },
                        crate::scan::LitStep::LNeed => ReqStep::RMore,
                        crate::scan::LitStep::LNo => ReqStep::RBad,
                    }
                },
                ScanStep::Partial => ReqStep::RMore,
                ScanStep::Malformed => ReqStep::RBad,
            }
        },
        crate::scan::LitStep::LNeed => ReqStep::RMore,
        crate::scan::LitStep::LNo => {
            match crate::record::decode_cmd(data, start) {
                crate::record::CmdStep::CSet { key, value, next } => ReqStep::RGot {
                    req: Request::SetKey { key, value },
                    next,
                },
                crate::record::CmdStep::CRemove { key, next } => ReqStep::RGot {
                    req: Request::RemoveKey { key },
                    next,
                },
                crate::record::CmdStep::CMore => ReqStep::RMore,
                crate::record::CmdStep::CBad => ReqStep::RBad,
            }
        },
    }
}

/// Outcome of decoding one `Get` response out of a buffer.
pub enum GetRespStep {
    GGot { resp: GetResponse, next: usize },
    GMore,
    GBad,
}

/// Decodes one `Get` response at offset `start` of `data`, mirroring
/// [`parse_get_response`] on the suffix.
pub fn decode_get_response(data: &Vec<u8>, start: usize) -> (r: GetRespStep)
    requires
        start <= data@.len(),
    ensures
        (match parse_get_response(data@.skip(start as int)) {
            Parse::Got { v, used } => (match v {
                PGetResp::GNone => r matches GetRespStep::GGot { resp, next } && resp
                    == GetResponse::Done(None::<String>) && next == start + used && start < next
                    <= data@.len(),
                PGetResp::GSome { value: vb } => {
                    if valid_utf8(vb) {
                        r matches GetRespStep::GGot { resp, next } && resp
                            matches GetResponse::Done(Some(v2)) && v2@ == decode_utf8(vb) && next
                            == start + used && start < next <= data@.len()
                    } else {
                        r is GBad
                    }
                },
                PGetResp::GFail { message: mb } => {
                    if valid_utf8(mb) {
                        r matches GetRespStep::GGot { resp, next } && resp
                            matches GetResponse::Failed(m2) && m2@ == decode_utf8(mb) && next
                            == start + used && start < next <= data@.len()
                    } else {
                        r is GBad
                    }
                },
            }),
            Parse::NeedMore => r is GMore,
            Parse::Corrupt => r is GBad,
        }),
{
    let ghost bs = data@.skip(start as int);
    let data_len = data.len();
    proof {
        assert(data@.len() == data_len <= usize::MAX);
    }
    let lnull = lit_ok_null_vec();
    match crate::scan::match_lit(data, start, lnull.as_slice()) {
        crate::scan::LitStep::LYes => {
            proof {
                assert(bs.len() >= lit_ok_null().len());
            }
            return GetRespStep::GGot { resp: GetResponse::Done(None), next: start + 11 };
        },
        _ => {},
    }
    let lok = lit_ok_str_vec();
    match crate::scan::match_lit(data, start, lok.as_slice()) {
        crate::scan::LitStep::LYes => {
            proof {
                assert(bs.len() >= lit_ok_str().len());
                assert(start + 7 <= data@.len());
                assert(bs.skip(7) =~= data@.skip(start + 7));
                crate::scan::lemma_scan_bounds(bs.skip(7));
            }
            match scan_exec(data, start + 7) {
                ScanStep::Done { content: vcontent, next: vnext } => {
                    proof {
                        assert(bs.skip(vnext - start) =~= data@.skip(vnext as int));
                    }
                    if vnext == data.len() {
                        proof {
                            assert(data@.skip(vnext as int) =~= Seq::<u8>::empty());
                            assert(lit_close().take(0) =~= Seq::<u8>::empty());
                        }
                        return GetRespStep::GMore;
                    }
                    if data[vnext] != 125 {
                        proof {
                            assert(data@.skip(vnext as int)[0] == data@[vnext as int]);
                            assert(lit_close()[0] == 125);
                        }
                        return GetRespStep::GBad;
                    }
                    proof {
                        assert(data@.skip(vnext as int).take(1) =~= lit_close());
                    }
                    match string_from_utf8(vcontent) {
                        Some(value) => GetRespStep::GGot {
                            resp: GetResponse::Done(Some(value)),
                            next: vnext + 1,
                        },
                        None => GetRespStep::GBad,
                    }
                },
                ScanStep::Partial => GetRespStep::GMore,
                ScanStep::Malformed => GetRespStep::GBad,
            }
        },
        crate::scan::LitStep::LNeed => GetRespStep::GMore,
        crate::scan::LitStep::LNo => {
            let lerr = lit_err_str_vec();
            match crate::scan::match_lit(data, start, lerr.as_slice()) {
                crate::scan::LitStep::LYes => {
                    proof {
                        assert(bs.len() >= lit_err_str().len());
                        assert(start + 8 <= data@.len());
                        assert(bs.skip(8) =~= data@.skip(start + 8));
                        crate::scan::lemma_scan_bounds(bs.skip(8));
                    }
                    match scan_exec(data, start + 8) {
                        ScanStep::Done { content: mcontent, next: mnext } => {
                            proof {
                                assert(bs.skip(mnext - start) =~= data@.skip(mnext as int));
                            }
                            if mnext == data.len() {
                                proof {
                                    assert(data@.skip(mnext as int) =~= Seq::<u8>::empty());
                                    assert(lit_close().take(0) =~= Seq::<u8>::empty());
                                }
                                return GetRespStep::GMore;
                            }
                            if data[mnext] != 125 {
                                proof {
                                    assert(data@.skip(mnext as int)[0] == data@[mnext as int]);
                                    assert(lit_close()[0] == 125);
                                }
                                return GetRespStep::GBad;
                            }
                            proof {
                                assert(data@.skip(mnext as int).take(1) =~= lit_close());
                            }
                            match string_from_utf8(mcontent) {
                                Some(message) => GetRespStep::GGot {
                                    resp: GetResponse::Failed(message),
                                    next: mnext + 1,
                                },
                                None => GetRespStep::GBad,
                            }
                        },
                        ScanStep::Partial => GetRespStep::GMore,
                        ScanStep::Malformed => GetRespStep::GBad,
                    }
                },
                crate::scan::LitStep::LNeed => GetRespStep::GMore,
                crate::scan::LitStep::LNo => {
                    match crate::scan::match_lit(data, start, lnull.as_slice()) {
                        crate::scan::LitStep::LNeed => GetRespStep::GMore,
                        _ => GetRespStep::GBad,
                    }
                },
            }
        },
    }
}

/// Outcome of decoding one `Set` or `Remove` response out of a buffer.
pub enum UnitRespStep {
    UGot { failed: Option<String>, next: usize },
    UMore,
    UBad,
}

/// Decodes one `Set` or `Remove` response at offset `start` of `data`,
/// mirroring [`parse_unit_response`] on the suffix: no message means the
/// operation succeeded.
pub fn decode_unit_response(data: &Vec<u8>, start: usize) -> (r: UnitRespStep)
    requires
        start <= data@.len(),
    ensures
        (match parse_unit_response(data@.skip(start as int)) {
            Parse::Got { v, used } => (match v {
                PUnitResp::UDone => r matches UnitRespStep::UGot { failed, next } && failed
                    is None && next == start + used && start < next <= data@.len(),
                PUnitResp::UFail { message: mb } => {
                    if valid_utf8(mb) {
                        r matches UnitRespStep::UGot { failed, next } && failed matches Some(m2)
                            && m2@ == decode_utf8(mb) && next == start + used && start < next
                            <= data@.len()
                    } else {
                        r is UBad
                    }
                },
            }),
            Parse::NeedMore => r is UMore,
            Parse::Corrupt => r is UBad,
        }),
{
    let ghost bs = data@.skip(start as int);
    let data_len = data.len();
    proof {
        assert(data@.len() == data_len <= usize::MAX);
    }
    let lnull = lit_ok_null_vec();
    match crate::scan::match_lit(data, start, lnull.as_slice()) {
        crate::scan::LitStep::LYes => {
            proof {
                assert(bs.len() >= lit_ok_null().len());
            }
            return UnitRespStep::UGot { failed: None, next: start + 11 };
        },
        _ => {},
    }
    let lerr = lit_err_str_vec();
    match crate::scan::match_lit(data, start, lerr.as_slice()) {
        crate::scan::LitStep::LYes => {
            proof {
                assert(bs.len() >= lit_err_str().len());
                assert(start + 8 <= data@.len());
                assert(bs.skip(8) =~= data@.skip(start + 8));
            }
            match scan_exec(data, start + 8) {
                ScanStep::Done { content: mcontent, next: mnext } => {
                    proof {
                        assert(bs.skip(mnext - start) =~= data@.skip(mnext as int));
                    }
                    if mnext == data.len() {
                        proof {
                            assert(data@.skip(mnext as int) =~= Seq::<u8>::empty());
                            assert(lit_close().take(0) =~= Seq::<u8>::empty());
                        }
                        return UnitRespStep::UMore;
                    }
                    if data[mnext] != 125 {
                        proof {
                            assert(data@.skip(mnext as int)[0] == data@[mnext as int]);
                            assert(lit_close()[0] == 125);
                        }
                        return UnitRespStep::UBad;
                    }
                    proof {
                        assert(data@.skip(mnext as int).take(1) =~= lit_close());
                    }
                    match string_from_utf8(mcontent) {
                        Some(message) => UnitRespStep::UGot {
                            failed: Some(message),
                            next: mnext + 1,
                        },
                        None => UnitRespStep::UBad,
                    }
                },
                ScanStep::Partial => UnitRespStep::UMore,
                ScanStep::Malformed => UnitRespStep::UBad,
            }
        },
        crate::scan::LitStep::LNeed => UnitRespStep::UMore,
        crate::scan::LitStep::LNo => {
            let r_null_more = crate::scan::match_lit(data, start, lnull.as_slice());
            match r_null_more {
                crate::scan::LitStep::LNeed => UnitRespStep::UMore,
                _ => UnitRespStep::UBad,
            }
        },
    }
}

/// Translates a decoded `Get` response into the client's result, as the
/// client surfaces it: a failure text from the peer becomes the domain
/// error carrying that text.
pub fn interpret_get_response(resp: GetResponse) -> (r: Result<Option<String>, KvsErr>)
    ensures
        (match resp {
            GetResponse::Done(v) => r == Ok::<Option<String>, KvsErr>(v),
            GetResponse::Failed(m) => r matches Err(KvsErr::StringErr(s)) && s@ == m@,
        }),
{
    match resp {
        GetResponse::Done(v) => Ok(v),
        GetResponse::Failed(m) => Err(KvsErr::StringErr(m)),
    }
}

/// Translates a decoded `Set` response into the client's result.
pub fn interpret_set_response(resp: SetResponse) -> (r: Result<(), KvsErr>)
    ensures
        (match resp {
            SetResponse::Done(u) => r is Ok,
            SetResponse::Failed(m) => r matches Err(KvsErr::StringErr(s)) && s@ == m@,
        }),
{
    match resp {
        SetResponse::Done(()) => Ok(()),
        SetResponse::Failed(m) => Err(KvsErr::StringErr(m)),
    }
}

/// Translates a decoded `Remove` response into the client's result.
pub fn interpret_remove_response(resp: RemoveResponse) -> (r: Result<(), KvsErr>)
    ensures
        (match resp {
            RemoveResponse::Done(u) => r is Ok,
            RemoveResponse::Failed(m) => r matches Err(KvsErr::StringErr(s)) && s@ == m@,
        }),
{
    match resp {
        RemoveResponse::Done(()) => Ok(()),
        RemoveResponse::Failed(m) => Err(KvsErr::StringErr(m)),
    }
}

} // verus!
