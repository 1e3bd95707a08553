//! Byte-level escaping of string contents inside a record, and the scanner
//! that reads an escaped string back up to its closing quote.
//!
//! A record carries its key and value as quoted strings.  Inside the quotes
//! a byte is written as itself, except for the quote and the backslash,
//! which are written `\"` and `\\`, and control bytes below 0x20, which are
//! written with the usual short escapes (`\b`, `\t`, `\n`, `\f`, `\r`) or as
//! `\u00XX` with lower-case hex digits.  Bytes 0x20 and above other than the
//! two specials pass through unchanged, so a multi-byte UTF-8 sequence is
//! kept verbatim.
use vstd::prelude::*;

verus! {

/// The lower-case hex digit of a nibble.
pub open spec fn hex_digit(n: u8) -> u8 {
    if n < 10 {
        (48 + n) as u8
    } else {
        (87 + n) as u8
    }
}

/// The numeric value of a lower-case hex digit.
pub open spec fn hex_val(c: u8) -> u8 {
    if 48 <= c && c <= 57 {
        (c - 48) as u8
    } else {
        (c - 87) as u8
    }
}

pub open spec fn is_hex_lower(c: u8) -> bool {
    (48 <= c && c <= 57) || (97 <= c && c <= 102)
}

/// How one content byte is written inside the quotes.
pub open spec fn esc_byte(b: u8) -> Seq<u8> {
    if b == 34 {
        seq![92u8, 34u8]
    } else if b == 92 {
        seq![92u8, 92u8]
    } else if b == 8 {
        seq![92u8, 98u8]
    } else if b == 9 {
        seq![92u8, 116u8]
    } else if b == 10 {
        seq![92u8, 110u8]
    } else if b == 12 {
        seq![92u8, 102u8]
    } else if b == 13 {
        seq![92u8, 114u8]
    } else if b < 32 {
        seq![92u8, 117u8, 48u8, 48u8, hex_digit(b / 16), hex_digit(b % 16)]
    } else {
        seq![b]
    }
}

/// The escaped form of a whole byte string.
pub open spec fn escape_bytes(bs: Seq<u8>) -> Seq<u8>
    decreases bs.len(),
{
    if bs.len() == 0 {
        Seq::<u8>::empty()
    } else {
        esc_byte(bs[0]) + escape_bytes(bs.skip(1))
    }
}

/// Outcome of scanning an escaped string: the content and the number of
/// bytes read including the closing quote, or a request for more input, or
/// a malformed escape.
#[verifier::ext_equal]
pub ghost enum Scan {
    Hit { content: Seq<u8>, used: int },
    More,
    Bad,
}

pub open spec fn scan_cons(b: u8, k: int, r: Scan) -> Scan {
    match r {
        Scan::Hit { content, used } => Scan::Hit { content: seq![b] + content, used: used + k },
        Scan::More => Scan::More,
        Scan::Bad => Scan::Bad,
    }
}

/// Reads an escaped string up to and including its closing quote.
pub open spec fn scan_string(bs: Seq<u8>) -> Scan
    decreases bs.len(),
{
    if bs.len() == 0 {
        Scan::More
    } else if bs[0] == 34 {
        Scan::Hit { content: Seq::<u8>::empty(), used: 1 }
    } else if bs[0] == 92 {
        if bs.len() < 2 {
            Scan::More
        } else if bs[1] == 34 || bs[1] == 92 {
            scan_cons(bs[1], 2, scan_string(bs.skip(2)))
        } else if bs[1] == 98 {
            scan_cons(8, 2, scan_string(bs.skip(2)))
        } else if bs[1] == 116 {
            scan_cons(9, 2, scan_string(bs.skip(2)))
        } else if bs[1] == 110 {
            scan_cons(10, 2, scan_string(bs.skip(2)))
        } else if bs[1] == 102 {
            scan_cons(12, 2, scan_string(bs.skip(2)))
        } else if bs[1] == 114 {
            scan_cons(13, 2, scan_string(bs.skip(2)))
        } else if bs[1] == 117 {
            if bs.len() < 3 {
                Scan::More
            } else if bs[2] != 48 {
                Scan::Bad
            } else if bs.len() < 4 {
                Scan::More
            } else if bs[3] != 48 {
                Scan::Bad
            } else if bs.len() < 5 {
                Scan::More
            } else if !(bs[4] == 48 || bs[4] == 49) {
                Scan::Bad
            } else if bs.len() < 6 {
                Scan::More
            } else if !is_hex_lower(bs[5]) {
                Scan::Bad
            } else {
                scan_cons((16 * (bs[4] - 48) + hex_val(bs[5])) as u8, 6, scan_string(bs.skip(6)))
            }
        } else {
            Scan::Bad
        }
    } else if bs[0] < 32 {
        Scan::Bad
    } else {
        scan_cons(bs[0], 1, scan_string(bs.skip(1)))
    }
}

/// A successful scan reads at least the closing quote and no more than the
/// input.
pub proof fn lemma_scan_bounds(bs: Seq<u8>)
    ensures
        scan_string(bs) matches Scan::Hit { content, used } ==> 1 <= used <= bs.len(),
    decreases bs.len(),
{
    if bs.len() == 0 {
    } else if bs[0] == 34 {
    } else if bs[0] == 92 {
        if bs.len() >= 2 {
            lemma_scan_bounds(bs.skip(2));
            if bs.len() >= 6 {
                lemma_scan_bounds(bs.skip(6));
            }
        }
    } else {
        lemma_scan_bounds(bs.skip(1));
    }
}

/// A successful scan is determined by the bytes it read: any input that
/// agrees on that prefix scans the same way.
pub proof fn lemma_scan_local(bs: Seq<u8>, bs2: Seq<u8>)
    requires
        scan_string(bs) matches Scan::Hit { content, used },
        bs2.len() >= scan_string(bs)->Hit_used,
        bs2.take(scan_string(bs)->Hit_used) == bs.take(scan_string(bs)->Hit_used),
    ensures
        scan_string(bs2) == scan_string(bs),
    decreases bs.len(),
{
    lemma_scan_bounds(bs);
    let used = scan_string(bs)->Hit_used;
    assert(forall|i: int| 0 <= i < used ==> bs2[i] == #[trigger] bs[i]) by {
        assert(forall|i: int| 0 <= i < used ==> bs2.take(used)[i] == bs2[i] && bs.take(used)[i]
            == #[trigger] bs[i]);
    }
    if bs[0] == 34 {
        assert(scan_string(bs2) == (Scan::Hit { content: Seq::<u8>::empty(), used: 1 as int }));
    } else if bs[0] == 92 {
        let k: int = if bs[1] == 117 {
            6
        } else {
            2
        };
        let sub = scan_string(bs.skip(k));
        assert(sub is Hit);
        lemma_scan_bounds(bs.skip(k));
        assert(bs.skip(k).take(used - k) =~= bs.take(used).skip(k));
        assert(bs2.skip(k).take(used - k) =~= bs2.take(used).skip(k));
        lemma_scan_local(bs.skip(k), bs2.skip(k));
    } else {
        let sub = scan_string(bs.skip(1));
        assert(sub is Hit);
        lemma_scan_bounds(bs.skip(1));
        assert(bs.skip(1).take(used - 1) =~= bs.take(used).skip(1));
        assert(bs2.skip(1).take(used - 1) =~= bs2.take(used).skip(1));
        lemma_scan_local(bs.skip(1), bs2.skip(1));
    }
}

/// Escaping distributes over concatenation.
pub proof fn lemma_escape_concat(a: Seq<u8>, b: Seq<u8>)
    ensures
        escape_bytes(a + b) == escape_bytes(a) + escape_bytes(b),
    decreases a.len(),
{
    if a.len() == 0 {
        assert(a + b =~= b);
        assert(escape_bytes(a) + escape_bytes(b) =~= escape_bytes(b));
    } else {
        assert((a + b).skip(1) =~= a.skip(1) + b);
        lemma_escape_concat(a.skip(1), b);
        assert(esc_byte(a[0]) + (escape_bytes(a.skip(1)) + escape_bytes(b)) =~= (esc_byte(a[0])
            + escape_bytes(a.skip(1))) + escape_bytes(b));
    }
}

/// Scanning the escaped form of a byte string followed by a closing quote
/// recovers the string exactly, whatever follows the quote.
pub proof fn lemma_scan_escape(content: Seq<u8>, rest: Seq<u8>)
    ensures
        scan_string(escape_bytes(content) + seq![34u8] + rest) == (Scan::Hit {
            content: content,
            used: escape_bytes(content).len() as int + 1,
        }),
    decreases content.len(),
{
    let bs = escape_bytes(content) + seq![34u8] + rest;
    if content.len() == 0 {
        assert(bs[0] == 34);
    } else {
        let b = content[0];
        let e = esc_byte(b);
        let tail = escape_bytes(content.skip(1)) + seq![34u8] + rest;
        assert(bs =~= e + tail);
        lemma_scan_escape(content.skip(1), rest);
        assert(seq![b] + content.skip(1) =~= content);
        let goal = Scan::Hit { content: content, used: escape_bytes(content).len() as int + 1 };
        if b == 34 || b == 92 {
            assert(bs.skip(2) =~= tail);
            assert(bs[0] == 92 && bs[1] == b);
            assert(scan_string(bs) =~= goal);
        } else if b == 8 || b == 9 || b == 10 || b == 12 || b == 13 {
            assert(bs.skip(2) =~= tail);
            assert(bs[0] == 92);
            assert(scan_string(bs) =~= goal);
        } else if b < 32 {
            assert(bs.skip(6) =~= tail);
            assert(bs[0] == 92 && bs[1] == 117 && bs[2] == 48 && bs[3] == 48);
            assert(b / 16 == 0 || b / 16 == 1);
            assert(bs[4] == hex_digit(b / 16) && bs[5] == hex_digit(b % 16));
            assert(hex_digit(b / 16) == 48 || hex_digit(b / 16) == 49);
            assert(is_hex_lower(hex_digit(b % 16)));
            assert(hex_val(hex_digit(b % 16)) == b % 16);
            assert(16 * (hex_digit(b / 16) - 48) + hex_val(hex_digit(b % 16)) == b);
            assert(scan_string(bs) =~= goal);
        } else {
            assert(bs.skip(1) =~= tail);
            assert(bs[0] == b);
            assert(scan_string(bs) =~= goal);
        }
    }
}

/// Appends the escaped form of `s` to `out`.
pub fn escape_append(out: &mut Vec<u8>, s: &[u8])
    ensures
        final (out)@ == old(out)@ + escape_bytes(s@),
{
    let mut i: usize = 0;
    proof {
        assert(s@.take(0) =~= Seq::<u8>::empty());
        assert(out@ + escape_bytes(s@.take(0)) =~= out@);
    }
    while i < s.len()
        invariant
            i <= s@.len(),
            out@ == old(out)@ + escape_bytes(s@.take(i as int)),
        decreases s@.len() - i,
    {
        let b = s[i];
        proof {
            assert(s@.take(i + 1) =~= s@.take(i as int) + seq![b]);
            lemma_escape_concat(s@.take(i as int), seq![b]);
            assert(seq![b].skip(1) =~= Seq::<u8>::empty());
            assert(escape_bytes(Seq::<u8>::empty()) =~= Seq::<u8>::empty());
            assert(escape_bytes(seq![b]) =~= esc_byte(b));
        }
        if b == 34 {
            out.push(92);
            out.push(34);
        } else if b == 92 {
            out.push(92);
            out.push(92);
        } else if b == 8 {
            out.push(92);
            out.push(98);
        } else if b == 9 {
            out.push(92);
            out.push(116);
        } else if b == 10 {
            out.push(92);
            out.push(110);
        } else if b == 12 {
            out.push(92);
            out.push(102);
        } else if b == 13 {
            out.push(92);
            out.push(114);
        } else if b < 32 {
            out.push(92);
            out.push(117);
            out.push(48);
            out.push(48);
            let hi = b / 16;
            let lo = b % 16;
            out.push(if hi < 10 { 48 + hi } else { 87 + hi });
            out.push(if lo < 10 { 48 + lo } else { 87 + lo });
        } else {
            out.push(b);
        }
        proof {
            assert(out@ =~= old(out)@ + escape_bytes(s@.take(i + 1)));
        }
        i = i + 1;
    }
    proof {
        assert(s@.take(s@.len() as int) =~= s@);
    }
}

/// Outcome of matching a fixed literal at the front of the input: it is
/// there, or the input is a proper prefix of it, or it is not there.
pub ghost enum LitCheck {
    LHit,
    LMore,
    LFail,
}

pub open spec fn lit_match(bs: Seq<u8>, lit: Seq<u8>) -> LitCheck {
    if bs.len() >= lit.len() {
        if bs.take(lit.len() as int) == lit {
            LitCheck::LHit
        } else {
            LitCheck::LFail
        }
    } else {
        if bs == lit.take(bs.len() as int) {
            LitCheck::LMore
        } else {
            LitCheck::LFail
        }
    }
}

/// Outcome of the executable literal matcher.
pub enum LitStep {
    LYes,
    LNeed,
    LNo,
}

/// Matches `lit` at offset `start` of `data`, mirroring [`lit_match`] on the
/// suffix.
pub fn match_lit(data: &Vec<u8>, start: usize, lit: &[u8]) -> (r: LitStep)
    requires
        start <= data@.len(),
    ensures
        (match r {
            LitStep::LYes => lit_match(data@.skip(start as int), lit@) is LHit,
            LitStep::LNeed => lit_match(data@.skip(start as int), lit@) is LMore,
            LitStep::LNo => lit_match(data@.skip(start as int), lit@) is LFail,
        }),
{
    let ghost bs = data@.skip(start as int);
    let avail = data.len() - start;
    let n = if avail >= lit.len() {
        lit.len()
    } else {
        avail
    };
    let mut j: usize = 0;
    while j < n
        invariant
            start <= data@.len(),
            data@.len() <= usize::MAX,
            avail == data@.len() - start,
            n <= avail,
            n <= lit@.len(),
            j <= n,
            bs == data@.skip(start as int),
            forall|i: int| 0 <= i < j ==> bs[i] == lit@[i],
        decreases n - j,
    {
        proof {
            assert(start + j < data@.len());
            assert(bs[j as int] == data@[start + j]);
        }
        if data[start + j] != lit[j] {
            proof {
                if bs.len() >= lit@.len() {
                    assert(bs.take(lit@.len() as int)[j as int] == bs[j as int]);
                    assert(bs.take(lit@.len() as int) != lit@);
                } else {
                    assert(lit@.take(bs.len() as int)[j as int] == lit@[j as int]);
                    assert(bs != lit@.take(bs.len() as int));
                }
            }
            return LitStep::LNo;
        }
        j = j + 1;
    }
    if avail >= lit.len() {
        proof {
            assert(bs.take(lit@.len() as int) =~= lit@);
        }
        LitStep::LYes
    } else {
        proof {
            assert(bs =~= lit@.take(bs.len() as int));
        }
        LitStep::LNeed
    }
}

/// Outcome of the executable scanner.
pub enum ScanStep {
    Done { content: Vec<u8>, next: usize },
    Partial,
    Malformed,
}

/// Reads an escaped string out of `data` starting at `start`, mirroring
/// [`scan_string`] on the suffix.
pub fn scan_exec(data: &Vec<u8>, start: usize) -> (r: ScanStep)
    requires
        start <= data@.len(),
    ensures
        (match r {
            ScanStep::Done { content, next } => scan_string(data@.skip(start as int)) == (Scan::Hit {
                content: content@,
                used: next - start,
            }) && start < next <= data@.len(),
            ScanStep::Partial => scan_string(data@.skip(start as int)) is More,
            ScanStep::Malformed => scan_string(data@.skip(start as int)) is Bad,
        }),
    decreases data@.len() - start,
{
    let ghost bs = data@.skip(start as int);
    let n = data.len();
    if start == n {
        return ScanStep::Partial;
    }
    let b0 = data[start];
    assert(b0 == bs[0]);
    if b0 == 34 {
        return ScanStep::Done { content: Vec::new(), next: start + 1 };
    }
    if b0 == 92 {
        if start + 1 == n {
            return ScanStep::Partial;
        }
        let b1 = data[start + 1];
        assert(b1 == bs[1]);
        if b1 == 34 || b1 == 92 || b1 == 98 || b1 == 116 || b1 == 110 || b1 == 102 || b1 == 114 {
            let decoded: u8 = if b1 == 34 {
                34
            } else if b1 == 92 {
                92
            } else if b1 == 98 {
                8
            } else if b1 == 116 {
                9
            } else if b1 == 110 {
                10
            } else if b1 == 102 {
                12
            } else {
                13
            };
            proof {
                assert(bs.skip(2) =~= data@.skip(start + 2));
            }
            match scan_exec(data, start + 2) {
                ScanStep::Done { mut content, next } => {
                    let ghost c0 = content@;
                    content.insert(0, decoded);
                    proof {
                        assert(content@ =~= seq![decoded] + c0);
                        assert(scan_string(bs) =~= (Scan::Hit {
                            content: content@,
                            used: next - start,
                        }));
                    }
                    return ScanStep::Done { content, next };
                },
                ScanStep::Partial => {
                    return ScanStep::Partial;
                },
                ScanStep::Malformed => {
                    return ScanStep::Malformed;
                },
            }
        }
        if b1 == 117 {
            if start + 2 == n {
                return ScanStep::Partial;
            }
            if data[start + 2] != 48 {
                return ScanStep::Malformed;
            }
            if start + 3 == n {
                return ScanStep::Partial;
            }
            if data[start + 3] != 48 {
                return ScanStep::Malformed;
            }
            if start + 4 == n {
                return ScanStep::Partial;
            }
            let hi = data[start + 4];
            if !(hi == 48 || hi == 49) {
                return ScanStep::Malformed;
            }
            if start + 5 == n {
                return ScanStep::Partial;
            }
            let lo = data[start + 5];
            let lo_ok = (48 <= lo && lo <= 57) || (97 <= lo && lo <= 102);
            if !lo_ok {
                return ScanStep::Malformed;
            }
            let lo_val: u8 = if lo <= 57 {
                lo - 48
            } else {
                lo - 87
            };
            let decoded: u8 = 16 * (hi - 48) + lo_val;
            proof {
                assert(bs.skip(6) =~= data@.skip(start + 6));
            }
            match scan_exec(data, start + 6) {
                ScanStep::Done { mut content, next } => {
                    let ghost c0 = content@;
                    content.insert(0, decoded);
                    proof {
                        assert(content@ =~= seq![decoded] + c0);
                        assert(scan_string(bs) =~= (Scan::Hit {
                            content: content@,
                            used: next - start,
                        }));
                    }
                    return ScanStep::Done { content, next };
                },
                ScanStep::Partial => {
                    return ScanStep::Partial;
                },
                ScanStep::Malformed => {
                    return ScanStep::Malformed;
                },
            }
        }
        return ScanStep::Malformed;
    }
    if b0 < 32 {
        return ScanStep::Malformed;
    }
    proof {
        assert(bs.skip(1) =~= data@.skip(start + 1));
    }
    match scan_exec(data, start + 1) {
        ScanStep::Done { mut content, next } => {
            let ghost c0 = content@;
            content.insert(0, b0);
            proof {
                assert(content@ =~= seq![b0] + c0);
                assert(scan_string(bs) =~= (Scan::Hit { content: content@, used: next - start }));
            }
            return ScanStep::Done { content, next };
        },
        ScanStep::Partial => {
            return ScanStep::Partial;
        },
        ScanStep::Malformed => {
            return ScanStep::Malformed;
        },
    }
}

} // verus!
