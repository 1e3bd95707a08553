//! The self-delimiting record format of the log and of the wire protocol.
//!
//! A record is one object with a discriminant field naming the variant and
//! the variant's string fields, written without any whitespace, for example
//! `{"Set":{"key":"a","value":"1"}}` or `{"Remove":{"key":"a"}}`.  Records
//! can be concatenated freely; a decoder reports the exact byte offset after
//! each record it yields, or that the input ends mid-record, or that the
//! input is malformed.
use crate::scan::{
    escape_append, escape_bytes, lit_match, scan_exec, scan_string, LitCheck, Scan, ScanStep,
};
use vstd::prelude::*;
use vstd::utf8::{decode_utf8, encode_utf8, valid_utf8};

verus! {

/// A decoded record at the byte level: the string fields are raw content
/// bytes, not yet checked to be UTF-8.
#[verifier::ext_equal]
pub ghost enum PCmd {
    PSet { key: Seq<u8>, value: Seq<u8> },
    PRemove { key: Seq<u8> },
}

/// Outcome of a parse: a value and the number of bytes it took, a request
/// for more input, or malformed input.
#[verifier::ext_equal]
pub ghost enum Parse<T> {
    Got { v: T, used: int },
    NeedMore,
    Corrupt,
}

/// `{"Set":{"key":"`
pub open spec fn lit_set() -> Seq<u8> {
    seq![123u8, 34u8, 83u8, 101u8, 116u8, 34u8, 58u8, 123u8, 34u8, 107u8, 101u8, 121u8, 34u8, 58u8, 34u8]
}

/// `{"Remove":{"key":"`
pub open spec fn lit_remove() -> Seq<u8> {
    seq![123u8, 34u8, 82u8, 101u8, 109u8, 111u8, 118u8, 101u8, 34u8, 58u8, 123u8, 34u8, 107u8, 101u8, 121u8, 34u8, 58u8, 34u8]
}

/// `,"value":"`
pub open spec fn lit_val_sep() -> Seq<u8> {
    seq![44u8, 34u8, 118u8, 97u8, 108u8, 117u8, 101u8, 34u8, 58u8, 34u8]
}

/// `}}`
pub open spec fn lit_obj_end() -> Seq<u8> {
    seq![125u8, 125u8]
}

/// Parses `<content>","value":"<content>"}}` at offset `off` of `bs`.
pub open spec fn parse_two(bs: Seq<u8>, off: int) -> Parse<(Seq<u8>, Seq<u8>)> {
    match scan_string(bs.skip(off)) {
        Scan::Hit { content: k, used: u1 } => match lit_match(bs.skip(off + u1), lit_val_sep()) {
            LitCheck::LHit => match scan_string(bs.skip(off + u1 + 10)) {
                Scan::Hit { content: v, used: u2 } => match lit_match(
                    bs.skip(off + u1 + 10 + u2),
                    lit_obj_end(),
                ) {
                    LitCheck::LHit => Parse::Got { v: (k, v), used: off + u1 + 10 + u2 + 2 },
                    LitCheck::LMore => Parse::NeedMore,
                    LitCheck::LFail => Parse::Corrupt,
                },
                Scan::More => Parse::NeedMore,
                Scan::Bad => Parse::Corrupt,
            },
            LitCheck::LMore => Parse::NeedMore,
            LitCheck::LFail => Parse::Corrupt,
        },
        Scan::More => Parse::NeedMore,
        Scan::Bad => Parse::Corrupt,
    }
}

/// Parses `<content>"}}` at offset `off` of `bs`.
pub open spec fn parse_one(bs: Seq<u8>, off: int) -> Parse<Seq<u8>> {
    match scan_string(bs.skip(off)) {
        Scan::Hit { content: k, used: u1 } => match lit_match(bs.skip(off + u1), lit_obj_end()) {
            LitCheck::LHit => Parse::Got { v: k, used: off + u1 + 2 },
            LitCheck::LMore => Parse::NeedMore,
            LitCheck::LFail => Parse::Corrupt,
        },
        Scan::More => Parse::NeedMore,
        Scan::Bad => Parse::Corrupt,
    }
}

/// Parses one log record at the front of `bs`.
pub open spec fn parse_cmd(bs: Seq<u8>) -> Parse<PCmd> {
    if lit_match(bs, lit_set()) is LHit {
        match parse_two(bs, 15) {
            Parse::Got { v, used } => Parse::Got { v: PCmd::PSet { key: v.0, value: v.1 }, used },
            Parse::NeedMore => Parse::NeedMore,
            Parse::Corrupt => Parse::Corrupt,
        }
    } else if lit_match(bs, lit_remove()) is LHit {
        match parse_one(bs, 18) {
            Parse::Got { v, used } => Parse::Got { v: PCmd::PRemove { key: v }, used },
            Parse::NeedMore => Parse::NeedMore,
            Parse::Corrupt => Parse::Corrupt,
        }
    } else if lit_match(bs, lit_set()) is LMore || lit_match(bs, lit_remove()) is LMore {
        Parse::NeedMore
    } else {
        Parse::Corrupt
    }
}

/// The escaped content bytes of a string field.
pub open spec fn enc_content(s: Seq<char>) -> Seq<u8> {
    escape_bytes(encode_utf8(s))
}

/// The encoding of `Set { key, value }`.
pub open spec fn enc_set_cmd(key: Seq<char>, value: Seq<char>) -> Seq<u8> {
    lit_set() + enc_content(key) + seq![34u8] + lit_val_sep() + enc_content(value) + seq![34u8]
        + lit_obj_end()
}

/// The encoding of `Remove { key }`.
pub open spec fn enc_remove_cmd(key: Seq<char>) -> Seq<u8> {
    lit_remove() + enc_content(key) + seq![34u8] + lit_obj_end()
}

/// The byte-level record an encoded `Set` decodes to.
pub open spec fn pset_of(key: Seq<char>, value: Seq<char>) -> PCmd {
    PCmd::PSet { key: encode_utf8(key), value: encode_utf8(value) }
}

/// The byte-level record an encoded `Remove` decodes to.
pub open spec fn premove_of(key: Seq<char>) -> PCmd {
    PCmd::PRemove { key: encode_utf8(key) }
}

/// Round trip: a freshly encoded `Set` record parses back to itself and
/// consumes exactly its own bytes, whatever follows it.
#[verifier::rlimit(50)]
pub proof fn lemma_parse_enc_set(key: Seq<char>, value: Seq<char>, rest: Seq<u8>)
    ensures
        parse_cmd(enc_set_cmd(key, value) + rest) == (Parse::<PCmd>::Got {
            v: pset_of(key, value),
            used: enc_set_cmd(key, value).len() as int,
        }),
{
    let kb = enc_content(key);
    let vb = enc_content(value);
    let bs = enc_set_cmd(key, value) + rest;
    assert(bs.take(15) =~= lit_set());
    assert(lit_match(bs, lit_set()) is LHit);
    let tail1 = vb + seq![34u8] + lit_obj_end() + rest;
    assert(bs.skip(15) =~= kb + seq![34u8] + (lit_val_sep() + tail1));
    crate::scan::lemma_scan_escape(encode_utf8(key), lit_val_sep() + tail1);
    let u1 = kb.len() as int + 1;
    assert(scan_string(bs.skip(15)) == (Scan::Hit { content: encode_utf8(key), used: u1 }));
    assert(bs.skip(15 + u1) =~= lit_val_sep() + tail1);
    assert(bs.skip(15 + u1).take(10) =~= lit_val_sep());
    assert(lit_match(bs.skip(15 + u1), lit_val_sep()) is LHit);
    let tail2 = lit_obj_end() + rest;
    assert(bs.skip(15 + u1 + 10) =~= vb + seq![34u8] + tail2);
    crate::scan::lemma_scan_escape(encode_utf8(value), tail2);
    let u2 = vb.len() as int + 1;
    assert(scan_string(bs.skip(15 + u1 + 10)) == (Scan::Hit {
        content: encode_utf8(value),
        used: u2,
    }));
    assert(bs.skip(15 + u1 + 10 + u2) =~= tail2);
    assert(bs.skip(15 + u1 + 10 + u2).take(2) =~= lit_obj_end());
    assert(lit_match(bs.skip(15 + u1 + 10 + u2), lit_obj_end()) is LHit);
    assert(15 + u1 + 10 + u2 + 2 == enc_set_cmd(key, value).len() as int);
    assert(parse_cmd(bs) =~= (Parse::<PCmd>::Got {
        v: pset_of(key, value),
        used: enc_set_cmd(key, value).len() as int,
    }));
}

/// Round trip for `Remove`, as for `Set`.
pub proof fn lemma_parse_enc_remove(key: Seq<char>, rest: Seq<u8>)
    ensures
        parse_cmd(enc_remove_cmd(key) + rest) == (Parse::<PCmd>::Got {
            v: premove_of(key),
            used: enc_remove_cmd(key).len() as int,
        }),
{
    let kb = enc_content(key);
    let bs = enc_remove_cmd(key) + rest;
    assert(bs.take(18) =~= lit_remove());
    assert(lit_match(bs, lit_remove()) is LHit);
    assert(bs.take(15)[2] == 82);
    assert(lit_set()[2] == 83);
    assert(lit_match(bs, lit_set()) is LFail);
    let tail2 = lit_obj_end() + rest;
    assert(bs.skip(18) =~= kb + seq![34u8] + tail2);
    crate::scan::lemma_scan_escape(encode_utf8(key), tail2);
    let u1 = kb.len() as int + 1;
    assert(scan_string(bs.skip(18)) == (Scan::Hit { content: encode_utf8(key), used: u1 }));
    assert(bs.skip(18 + u1) =~= tail2);
    assert(bs.skip(18 + u1).take(2) =~= lit_obj_end());
    assert(lit_match(bs.skip(18 + u1), lit_obj_end()) is LHit);
    assert(18 + u1 + 2 == enc_remove_cmd(key).len() as int);
    assert(parse_cmd(bs) =~= (Parse::<PCmd>::Got {
        v: premove_of(key),
        used: enc_remove_cmd(key).len() as int,
    }));
}

/// A parsed record took at least one byte and no more than the input.
pub proof fn lemma_parse_bounds(bs: Seq<u8>)
    ensures
        parse_cmd(bs) matches Parse::Got { v, used } ==> 1 <= used <= bs.len(),
{
    if lit_match(bs, lit_set()) is LHit {
        if parse_two(bs, 15) matches Parse::Got { v, used } {
            crate::scan::lemma_scan_bounds(bs.skip(15));
            let u1 = scan_string(bs.skip(15))->Hit_used;
            crate::scan::lemma_scan_bounds(bs.skip(15 + u1 + 10));
        }
    } else if lit_match(bs, lit_remove()) is LHit {
        if parse_one(bs, 18) matches Parse::Got { v, used } {
            crate::scan::lemma_scan_bounds(bs.skip(18));
        }
    }
}

/// A parsed record is determined by the bytes it took: any input agreeing on
/// that prefix parses the same way.
pub proof fn lemma_parse_local(bs: Seq<u8>, bs2: Seq<u8>)
    requires
        parse_cmd(bs) matches Parse::Got { v, used },
        bs2.len() >= parse_cmd(bs)->Got_used,
        bs2.take(parse_cmd(bs)->Got_used) == bs.take(parse_cmd(bs)->Got_used),
    ensures
        parse_cmd(bs2) == parse_cmd(bs),
{
    lemma_parse_bounds(bs);
    let used = parse_cmd(bs)->Got_used;
    assert(forall|i: int| 0 <= i < used ==> bs2[i] == #[trigger] bs[i]) by {
        assert(forall|i: int| 0 <= i < used ==> bs2.take(used)[i] == bs2[i] && bs.take(used)[i]
            == #[trigger] bs[i]);
    }
    if lit_match(bs, lit_set()) is LHit {
        crate::scan::lemma_scan_bounds(bs.skip(15));
        let u1 = scan_string(bs.skip(15))->Hit_used;
        crate::scan::lemma_scan_bounds(bs.skip(15 + u1 + 10));
        let u2 = scan_string(bs.skip(15 + u1 + 10))->Hit_used;
        assert(used == 15 + u1 + 10 + u2 + 2);
        assert(bs2.take(15) =~= bs.take(15));
        assert(lit_match(bs2, lit_set()) is LHit);
        assert(bs2.skip(15).take(u1) =~= bs.skip(15).take(u1));
        crate::scan::lemma_scan_local(bs.skip(15), bs2.skip(15));
        assert(bs2.skip(15 + u1).take(10) =~= bs.skip(15 + u1).take(10));
        assert(lit_match(bs2.skip(15 + u1), lit_val_sep()) == lit_match(
            bs.skip(15 + u1),
            lit_val_sep(),
        ));
        assert(bs2.skip(15 + u1 + 10).take(u2) =~= bs.skip(15 + u1 + 10).take(u2));
        crate::scan::lemma_scan_local(bs.skip(15 + u1 + 10), bs2.skip(15 + u1 + 10));
        assert(bs2.skip(15 + u1 + 10 + u2).take(2) =~= bs.skip(15 + u1 + 10 + u2).take(2));
        assert(lit_match(bs2.skip(15 + u1 + 10 + u2), lit_obj_end()) == lit_match(
            bs.skip(15 + u1 + 10 + u2),
            lit_obj_end(),
        ));
    } else {
        assert(lit_match(bs, lit_remove()) is LHit);
        crate::scan::lemma_scan_bounds(bs.skip(18));
        let u1 = scan_string(bs.skip(18))->Hit_used;
        assert(used == 18 + u1 + 2);
        assert(bs2.take(18) =~= bs.take(18));
        assert(lit_match(bs2, lit_remove()) is LHit);
        assert(bs2.take(15)[2] == bs.take(15)[2]);
        assert(lit_match(bs2, lit_set()) !is LHit) by {
            assert(bs.take(15)[2] == 82 || bs.len() < 15);
            if bs2.len() >= 15 && bs2.take(15) == lit_set() {
                assert(bs2.take(15)[2] == 83);
                assert(bs2[2] == 83 && bs[2] == 82);
            }
        }
        assert(bs2.skip(18).take(u1) =~= bs.skip(18).take(u1));
        crate::scan::lemma_scan_local(bs.skip(18), bs2.skip(18));
        assert(bs2.skip(18 + u1).take(2) =~= bs.skip(18 + u1).take(2));
        assert(lit_match(bs2.skip(18 + u1), lit_obj_end()) == lit_match(
            bs.skip(18 + u1),
            lit_obj_end(),
        ));
    }
}

/// Relies on `String::from_utf8`: it succeeds exactly on valid UTF-8 input
/// and returns the string whose UTF-8 encoding is that input.
#[verifier::external_body]
pub fn string_from_utf8(v: Vec<u8>) -> (r: Option<String>)
    ensures
        (match r {
            Some(s) => valid_utf8(v@) && s@ == decode_utf8(v@),
            None => !valid_utf8(v@),
        }),
{
    match String::from_utf8(v) {
        Ok(s) => Some(s),
        Err(_) => None,
    }
}

pub fn lit_set_vec() -> (v: Vec<u8>)
    ensures
        v@ == lit_set(),
{
    let mut v: Vec<u8> = Vec::new();
    v.push(123);
    v.push(34);
    v.push(83);
    v.push(101);
    v.push(116);
    v.push(34);
    v.push(58);
    v.push(123);
    v.push(34);
    v.push(107);
    v.push(101);
    v.push(121);
    v.push(34);
    v.push(58);
    v.push(34);
    proof {
        assert(v@ =~= lit_set());
    }
    v
}

pub fn lit_remove_vec() -> (v: Vec<u8>)
    ensures
        v@ == lit_remove(),
{
    let mut v: Vec<u8> = Vec::new();
    v.push(123);
    v.push(34);
    v.push(82);
    v.push(101);
    v.push(109);
    v.push(111);
    v.push(118);
    v.push(101);
    v.push(34);
    v.push(58);
    v.push(123);
    v.push(34);
    v.push(107);
    v.push(101);
    v.push(121);
    v.push(34);
    v.push(58);
    v.push(34);
    proof {
        assert(v@ =~= lit_remove());
    }
    v
}

pub fn lit_val_sep_vec() -> (v: Vec<u8>)
    ensures
        v@ == lit_val_sep(),
{
    let mut v: Vec<u8> = Vec::new();
    v.push(44);
    v.push(34);
    v.push(118);
    v.push(97);
    v.push(108);
    v.push(117);
    v.push(101);
    v.push(34);
    v.push(58);
    v.push(34);
    proof {
        assert(v@ =~= lit_val_sep());
    }
    v
}

pub fn lit_obj_end_vec() -> (v: Vec<u8>)
    ensures
        v@ == lit_obj_end(),
{
    let mut v: Vec<u8> = Vec::new();
    v.push(125);
    v.push(125);
    proof {
        assert(v@ =~= lit_obj_end());
    }
    v
}

/// Encodes `Set { key, value }` as one record.
pub fn encode_set(key: &str, value: &str) -> (out: Vec<u8>)
    ensures
        out@ == enc_set_cmd(key@, value@),
{
    let mut out: Vec<u8> = Vec::new();
    let l1 = lit_set_vec();
    out.extend_from_slice(l1.as_slice());
    escape_append(&mut out, key.as_bytes());
    out.push(34);
    let l2 = lit_val_sep_vec();
    out.extend_from_slice(l2.as_slice());
    escape_append(&mut out, value.as_bytes());
    out.push(34);
    let l3 = lit_obj_end_vec();
    out.extend_from_slice(l3.as_slice());
    proof {
        assert(out@ =~= enc_set_cmd(key@, value@));
    }
    out
}

/// Encodes `Remove { key }` as one record.
pub fn encode_remove(key: &str) -> (out: Vec<u8>)
    ensures
        out@ == enc_remove_cmd(key@),
{
    let mut out: Vec<u8> = Vec::new();
    let l1 = lit_remove_vec();
    out.extend_from_slice(l1.as_slice());
    escape_append(&mut out, key.as_bytes());
    out.push(34);
    let l3 = lit_obj_end_vec();
    out.extend_from_slice(l3.as_slice());
    proof {
        assert(out@ =~= enc_remove_cmd(key@));
    }
    out
}

/// Outcome of decoding one record out of a buffer.
pub enum CmdStep {
    CSet { key: String, value: String, next: usize },
    CRemove { key: String, next: usize },
    CMore,
    CBad,
}

/// Decodes one record at offset `start` of `data`, mirroring [`parse_cmd`]
/// on the suffix; string fields that are not valid UTF-8 are malformed.
pub fn decode_cmd(data: &Vec<u8>, start: usize) -> (r: CmdStep)
    requires
        start <= data@.len(),
    ensures
        (match parse_cmd(data@.skip(start as int)) {
            Parse::Got { v, used } => (match v {
                PCmd::PSet { key: kb, value: vb } => {
                    if valid_utf8(kb) && valid_utf8(vb) {
                        r matches CmdStep::CSet { key, value, next } && key@ == decode_utf8(kb)
                            && value@ == decode_utf8(vb) && next == start + used && start < next
                            <= data@.len()
                    } else {
                        r is CBad
                    }
                },
                PCmd::PRemove { key: kb } => {
                    if valid_utf8(kb) {
                        r matches CmdStep::CRemove { key, next } && key@ == decode_utf8(kb) && next
                            == start + used && start < next <= data@.len()
                    } else {
                        r is CBad
                    }
                },
            }),
            Parse::NeedMore => r is CMore,
            Parse::Corrupt => r is CBad,
        }),
{
    let ghost bs = data@.skip(start as int);
    let data_len = data.len();
    proof {
        lemma_parse_bounds(bs);
        assert(data@.len() == data_len <= usize::MAX);
    }
    let lset = lit_set_vec();
    match crate::scan::match_lit(data, start, lset.as_slice()) {
        crate::scan::LitStep::LYes => {
            proof {
                assert(bs.len() >= lit_set().len());
                assert(start + 15 <= data@.len());
                assert(bs.skip(15) =~= data@.skip(start + 15));
            }
            match scan_exec(data, start + 15) {
                ScanStep::Done { content: kcontent, next: knext } => {
                    proof {
                        assert(bs.skip(knext - start) =~= data@.skip(knext as int));
                    }
                    let lsep = lit_val_sep_vec();
                    match crate::scan::match_lit(data, knext, lsep.as_slice()) {
                        crate::scan::LitStep::LYes => {
                            proof {
                                assert(data@.skip(knext as int).len() >= lit_val_sep().len());
                                assert(knext + 10 <= data@.len());
                                assert(bs.skip(knext + 10 - start) =~= data@.skip(knext + 10));
                            }
                            match scan_exec(data, knext + 10) {
                                ScanStep::Done { content: vcontent, next: vnext } => {
                                    proof {
                                        assert(bs.skip(vnext - start) =~= data@.skip(
                                            vnext as int,
                                        ));
                                    }
                                    let lend = lit_obj_end_vec();
                                    match crate::scan::match_lit(data, vnext, lend.as_slice()) {
                                        crate::scan::LitStep::LYes => {
                                            match string_from_utf8(kcontent) {
                                                Some(key) => match string_from_utf8(vcontent) {
                                                    Some(value) => CmdStep::CSet {
                                                        key,
                                                        value,
                                                        next: vnext + 2,
                                                    },
                                                    None => CmdStep::CBad,
                                                },
                                                None => CmdStep::CBad,
                                            }
                                        },
                                        crate::scan::LitStep::LNeed => CmdStep::CMore,
                                        crate::scan::LitStep::LNo => CmdStep::CBad,
                                    }
                                },
                                ScanStep::Partial => CmdStep::CMore,
                                ScanStep::Malformed => CmdStep::CBad,
                            }
                        },
                        crate::scan::LitStep::LNeed => CmdStep::CMore,
                        crate::scan::LitStep::LNo => CmdStep::CBad,
                    }
                },
                ScanStep::Partial => CmdStep::CMore,
                ScanStep::Malformed => CmdStep::CBad,
            }
        },
        crate::scan::LitStep::LNeed => CmdStep::CMore,
        crate::scan::LitStep::LNo => {
            let lrem = lit_remove_vec();
            match crate::scan::match_lit(data, start, lrem.as_slice()) {
                crate::scan::LitStep::LYes => {
                    proof {
                        assert(bs.skip(18) =~= data@.skip(start + 18));
                    }
                    match scan_exec(data, start + 18) {
                        ScanStep::Done { content: kcontent, next: knext } => {
                            proof {
                                assert(bs.skip(knext - start) =~= data@.skip(knext as int));
                            }
                            let lend = lit_obj_end_vec();
                            match crate::scan::match_lit(data, knext, lend.as_slice()) {
                                crate::scan::LitStep::LYes => {
                                    match string_from_utf8(kcontent) {
                                        Some(key) => CmdStep::CRemove { key, next: knext + 2 },
                                        None => CmdStep::CBad,
                                    }
                                },
                                crate::scan::LitStep::LNeed => CmdStep::CMore,
                                crate::scan::LitStep::LNo => CmdStep::CBad,
                            }
                        },
                        ScanStep::Partial => CmdStep::CMore,
                        ScanStep::Malformed => CmdStep::CBad,
                    }
                },
                crate::scan::LitStep::LNeed => CmdStep::CMore,
                crate::scan::LitStep::LNo => CmdStep::CBad,
            }
        },
    }
}

} // verus!
