//! Segment file names: a segment lives in a file named `<version>.log`,
//! where the version is written in decimal.  Recovery parses such names
//! back; names of any other shape are skipped.
use vstd::prelude::*;
use vstd::string::{StrSliceExecFns, StringExecFns};

verus! {

/// The character of one decimal digit.
pub open spec fn digit_char(d: int) -> char {
    ((48 + d) as u8) as char
}

/// The canonical decimal form of a non-negative number.
pub open spec fn dec_str(v: int) -> Seq<char>
    decreases v,
{
    if v < 10 {
        seq![digit_char(v)]
    } else {
        dec_str(v / 10).push(digit_char(v % 10))
    }
}

pub open spec fn is_digit(c: char) -> bool {
    48 <= c as u32 <= 57
}

/// Reads decimal digits left to right; fails on a non-digit or when the
/// value outgrows 64 bits.
pub open spec fn pdig(s: Seq<char>, i: int, acc: int) -> Option<int>
    decreases s.len() - i,
{
    if i < 0 || i >= s.len() {
        Some(acc)
    } else if !is_digit(s[i]) {
        None
    } else {
        let a2 = acc * 10 + (s[i] as u32 - 48);
        if a2 > u64::MAX {
            None
        } else {
            pdig(s, i + 1, a2)
        }
    }
}

/// The version a file name carries, if its shape is `<u64>.log`.
pub open spec fn parse_name(name: Seq<char>) -> Option<int> {
    if name.len() >= 5 && name.skip(name.len() - 4) == ".log"@ {
        pdig(name.take(name.len() - 4), 0, 0)
    } else {
        None
    }
}

/// Reading one more digit multiplies the value read so far by ten and
/// adds it.
pub proof fn lemma_pdig_snoc(s: Seq<char>, c: char, i: int, acc: int)
    requires
        0 <= i <= s.len(),
    ensures
        pdig(s.push(c), i, acc) == (match pdig(s, i, acc) {
            Some(a) => if is_digit(c) && a * 10 + (c as u32 - 48) <= u64::MAX {
                Some(a * 10 + (c as u32 - 48))
            } else {
                None
            },
            None => None,
        }),
    decreases s.len() - i,
{
    if i >= s.len() {
        assert(s.push(c)[i] == c);
        if is_digit(c) {
            let a2 = acc * 10 + (c as u32 - 48);
            if a2 <= u64::MAX {
                assert(pdig(s.push(c), i + 1, a2) == Some(a2));
            }
        }
    } else {
        assert(s.push(c)[i] == s[i]);
        if is_digit(s[i]) {
            let a2 = acc * 10 + (s[i] as u32 - 48);
            if a2 <= u64::MAX {
                lemma_pdig_snoc(s, c, i + 1, a2);
            }
        }
    }
}

/// A number's canonical decimal form reads back as the number.
pub proof fn lemma_dec_digits(v: int)
    requires
        0 <= v <= u64::MAX,
    ensures
        pdig(dec_str(v), 0, 0) == Some(v),
        dec_str(v).len() >= 1,
    decreases v,
{
    if v < 10 {
        assert(is_digit(digit_char(v)));
        assert(digit_char(v) as u32 - 48 == v);
        assert(pdig(dec_str(v), 1, v) == Some(v));
    } else {
        lemma_dec_digits(v / 10);
        lemma_pdig_snoc(dec_str(v / 10), digit_char(v % 10), 0, 0);
        assert(is_digit(digit_char(v % 10)));
        assert(digit_char(v % 10) as u32 - 48 == v % 10);
        assert((v / 10) * 10 + v % 10 == v);
    }
}

/// The file name a version is written under parses back to the version.
pub proof fn lemma_parse_seg_name(v: int)
    requires
        0 <= v <= u64::MAX,
    ensures
        parse_name(dec_str(v) + ".log"@) == Some(v),
{
    reveal_strlit(".log");
    lemma_dec_digits(v);
    let name = dec_str(v) + ".log"@;
    assert(name.len() >= 5);
    assert(name.skip(name.len() - 4) =~= ".log"@);
    assert(name.take(name.len() - 4) =~= dec_str(v));
}

/// Appends the decimal form of `v` to `s`.
pub fn push_dec(s: &mut String, v: u64)
    ensures
        final (s)@ == old(s)@ + dec_str(v as int),
    decreases v,
{
    if v >= 10 {
        push_dec(s, v / 10);
    }
    let d = (v % 10) as u8;
    proof {
        reveal_strlit("0");
        reveal_strlit("1");
        reveal_strlit("2");
        reveal_strlit("3");
        reveal_strlit("4");
        reveal_strlit("5");
        reveal_strlit("6");
        reveal_strlit("7");
        reveal_strlit("8");
        reveal_strlit("9");
    }
    if d == 0 {
        s.append("0");
    } else if d == 1 {
        s.append("1");
    } else if d == 2 {
        s.append("2");
    } else if d == 3 {
        s.append("3");
    } else if d == 4 {
        s.append("4");
    } else if d == 5 {
        s.append("5");
    } else if d == 6 {
        s.append("6");
    } else if d == 7 {
        s.append("7");
    } else if d == 8 {
        s.append("8");
    } else {
        s.append("9");
    }
    proof {
        assert(s@ =~= old(s)@ + dec_str(v as int));
    }
}

/// The file name of a segment: `<version>.log`.
pub fn seg_file_name(version: u64) -> (r: String)
    ensures
        r@ == dec_str(version as int) + ".log"@,
{
    let mut s = String::new();
    push_dec(&mut s, version);
    s.append(".log");
    proof {
        assert(s@ =~= dec_str(version as int) + ".log"@);
    }
    s
}

/// The path of a segment file under the store directory.
pub fn log_path(dir: &str, version: u64) -> (r: String)
    ensures
        r@ == dir@ + "/"@ + dec_str(version as int) + ".log"@,
{
    let mut s = String::new();
    s.append(dir);
    s.append("/");
    push_dec(&mut s, version);
    s.append(".log");
    proof {
        assert(s@ =~= dir@ + "/"@ + dec_str(version as int) + ".log"@);
    }
    s
}

/// Parses a file name of the shape `<u64>.log`.
pub fn parse_log_name(name: &str) -> (r: Option<u64>)
    ensures
        (match parse_name(name@) {
            Some(v) => r matches Some(u) && u as int == v,
            None => r is None,
        }),
{
    let n = name.unicode_len();
    if n < 5 {
        return None;
    }
    proof {
        reveal_strlit(".log");
    }
    let ok_suffix = name.get_char(n - 4) == '.' && name.get_char(n - 3) == 'l' && name.get_char(
        n - 2,
    ) == 'o' && name.get_char(n - 1) == 'g';
    if !ok_suffix {
        proof {
            assert(name@.skip(n - 4 as int) != ".log"@) by {
                if name@.skip(n - 4 as int) == ".log"@ {
                    assert(name@.skip(n - 4 as int)[0] == '.' && name@.skip(n - 4 as int)[1] == 'l'
                        && name@.skip(n - 4 as int)[2] == 'o' && name@.skip(n - 4 as int)[3]
                        == 'g');
                }
            }
        }
        return None;
    }
    proof {
        assert(name@.skip(n - 4 as int) =~= ".log"@);
    }
    let ghost stem = name@.take(n - 4 as int);
    let mut acc: u64 = 0;
    let mut i: usize = 0;
    while i < n - 4
        invariant
            5 <= n == name@.len(),
            i <= n - 4,
            stem == name@.take(n - 4 as int),
            pdig(stem, 0, 0) == pdig(stem, i as int, acc as int),
        decreases n - 4 - i,
    {
        let c = name.get_char(i);
        proof {
            assert(stem[i as int] == name@[i as int]);
        }
        let u = c as u32;
        if u < 48 || u > 57 {
            return None;
        }
        let d = (u - 48) as u64;
        match acc.checked_mul(10) {
            Some(t) => match t.checked_add(d) {
                Some(a2) => {
                    acc = a2;
                },
                None => {
                    return None;
                },
            },
            None => {
                return None;
            },
        }
        i = i + 1;
    }
    Some(acc)
}

} // verus!
