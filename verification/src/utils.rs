//! Small helpers for presenting numbers to users.

use vstd::prelude::*;
use vstd::string::StrSliceExecFns;
use vstd::string::StringExecFns;

verus! {

/// The character for a single decimal digit.
pub open spec fn digit_char(d: nat) -> char {
    if d == 0 {
        '0'
    } else if d == 1 {
        '1'
    } else if d == 2 {
        '2'
    } else if d == 3 {
        '3'
    } else if d == 4 {
        '4'
    } else if d == 5 {
        '5'
    } else if d == 6 {
        '6'
    } else if d == 7 {
        '7'
    } else if d == 8 {
        '8'
    } else {
        '9'
    }
}

/// Decimal digits of `n`, most significant first, without leading zeros
/// (a single `'0'` for zero).
pub open spec fn spec_digits(n: nat) -> Seq<char>
    decreases n,
{
    if n < 10 {
        seq![digit_char(n)]
    } else {
        spec_digits(n / 10) + seq![digit_char(n % 10)]
    }
}

/// The last `width` decimal digits of `n`, most significant first,
/// padded on the left with zeros.
pub open spec fn spec_fixed_digits(n: nat, width: nat) -> Seq<char>
    decreases width,
{
    if width == 0 {
        Seq::empty()
    } else {
        spec_fixed_digits(n / 10, (width - 1) as nat) + seq![digit_char(n % 10)]
    }
}

/// `s` with every trailing `'0'` removed.
pub open spec fn strip_trailing_zeros(s: Seq<char>) -> Seq<char>
    decreases s.len(),
{
    if s.len() > 0 && s.last() == '0' {
        strip_trailing_zeros(s.drop_last())
    } else {
        s
    }
}

/// The shortest decimal rendering of `num / 1000000`: the integer part,
/// then, when the remainder is not zero, a dot and the six-digit fraction
/// with its trailing zeros removed.
pub open spec fn spec_millions_repr(num: nat) -> Seq<char> {
    let ip: nat = num / 1000000;
    let frac: nat = num % 1000000;
    if frac == 0 {
        spec_digits(ip)
    } else {
        spec_digits(ip) + seq!['.'] + strip_trailing_zeros(spec_fixed_digits(frac, 6))
    }
}

/// What `human_number` returns: numbers below a thousand verbatim, numbers
/// below a million as whole thousands with a `" K"` suffix, and larger
/// numbers as millions with three significant figures and a `" M"` suffix
/// (the millions rendering truncated to four characters, then stripped of
/// trailing zeros).
pub open spec fn spec_human_number(num: nat) -> Seq<char> {
    if num < 1000 {
        spec_digits(num)
    } else if num < 1000000 {
        spec_digits(num / 1000) + seq![' ', 'K']
    } else {
        let m = spec_millions_repr(num);
        let kept = if m.len() < 4 { m.len() as int } else { 4 };
        strip_trailing_zeros(m.take(kept)) + seq![' ', 'M']
    }
}

/// A one-character string for the digit `d`.
fn digit_str(d: u32) -> (r: &'static str)
    requires
        d < 10,
    ensures
        r@ == seq![digit_char(d as nat)],
{
    proof {
        reveal_strlit("0");
        reveal_strlit("1");
        reveal_strlit("2");
        reveal_strlit("3");
        reveal_strlit("4");
        reveal_strlit("5");
        reveal_strlit("6");
        reveal_strlit("7");
        reveal_strlit("8");
        reveal_strlit("9");
    }
    let r: &'static str = match d {
        0 => "0",
        1 => "1",
        2 => "2",
        3 => "3",
        4 => "4",
        5 => "5",
        6 => "6",
        7 => "7",
        8 => "8",
        _ => "9",
    };
    proof {
        assert(r@ =~= seq![digit_char(d as nat)]);
    }
    r
}

/// `n` in decimal, without leading zeros.
fn format_u32(n: u32) -> (r: String)
    ensures
        r@ == spec_digits(n as nat),
    decreases n,
{
    if n < 10 {
        let r = digit_str(n).to_owned();
        proof {
            assert(r@ =~= spec_digits(n as nat));
        }
        r
    } else {
        let mut s = format_u32(n / 10);
        s.append(digit_str(n % 10));
        proof {
            assert(s@ =~= spec_digits(n as nat));
        }
        s
    }
}

/// The last `width` decimal digits of `n`, left-padded with zeros.
fn format_fixed(n: u32, width: u32) -> (r: String)
    ensures
        r@ == spec_fixed_digits(n as nat, width as nat),
    decreases width,
{
    if width == 0 {
        let r = String::new();
        proof {
            assert(r@ =~= spec_fixed_digits(n as nat, 0));
        }
        r
    } else {
        let mut s = format_fixed(n / 10, width - 1);
        s.append(digit_str(n % 10));
        proof {
            assert(s@ =~= spec_fixed_digits(n as nat, width as nat));
        }
        s
    }
}

proof fn lemma_strip_is_take(s: Seq<char>, end: int)
    requires
        0 <= end <= s.len(),
        forall|i: int| end <= i < s.len() ==> s[i] == '0',
        end > 0 ==> s[end - 1] != '0',
    ensures
        strip_trailing_zeros(s) == s.take(end),
    decreases s.len(),
{
    if s.len() > end {
        assert(s.last() == '0');
        lemma_strip_is_take(s.drop_last(), end);
        assert(s.drop_last().take(end) =~= s.take(end));
    } else {
        assert(s.take(end) =~= s);
    }
}

/// A compact, human-readable rendering of a listener count, as shown in
/// artist tables: `0` stays `"0"`, `999` stays `"999"`, `10000` becomes
/// `"10 K"`, and `1100000` becomes `"1.1 M"`. Counts of a billion or more
/// are out of range.
pub fn human_number(num: u32) -> (r: String)
    requires
        num < 1000000000,
    ensures
        r@ == spec_human_number(num as nat),
{
    proof {
        reveal_strlit(" K");
        reveal_strlit(" M");
        reveal_strlit(".");
    }
    if num < 1000 {
        format_u32(num)
    } else if num < 1000000 {
        let mut s = format_u32(num / 1000);
        s.append(" K");
        proof {
            assert(s@ =~= spec_human_number(num as nat));
        }
        s
    } else {
        let ip: u32 = num / 1000000;
        let frac: u32 = num % 1000000;
        let mut s = format_u32(ip);
        if frac > 0 {
            s.append(".");
            let f = format_fixed(frac, 6);
            // keep the shortest fraction: strip its trailing zeros
            let fs = f.as_str();
            let flen: usize = fs.unicode_len();
            let mut fend: usize = flen;
            while fend > 0 && fs.get_char(fend - 1) == '0'
                invariant
                    fend <= flen,
                    flen == f@.len(),
                    fs@ == f@,
                    forall|i: int| fend <= i < f@.len() ==> f@[i] == '0',
                decreases fend,
            {
                fend = fend - 1;
            }
            proof {
                lemma_strip_is_take(f@, fend as int);
            }
            s.append(fs.substring_char(0, fend));
            proof {
                assert(s@ =~= spec_digits(ip as nat) + seq!['.'] + strip_trailing_zeros(
                    spec_fixed_digits(frac as nat, 6),
                ));
            }
        }
        proof {
            assert(s@ =~= spec_millions_repr(num as nat));
        }
        // three significant figures: truncate to four characters, then strip zeros
        let sr = s.as_str();
        let slen: usize = sr.unicode_len();
        let keep: usize = if slen < 4 {
            slen
        } else {
            4
        };
        let t = sr.substring_char(0, keep);
        let mut end: usize = keep;
        while end > 0 && t.get_char(end - 1) == '0'
            invariant
                end <= keep,
                keep == t@.len(),
                forall|i: int| end <= i < t@.len() ==> t@[i] == '0',
            decreases end,
        {
            end = end - 1;
        }
        proof {
            lemma_strip_is_take(t@, end as int);
        }
        let mut r = t.substring_char(0, end).to_owned();
        r.append(" M");
        proof {
            assert(r@ =~= spec_human_number(num as nat));
        }
        r
    }
}

} // verus!
