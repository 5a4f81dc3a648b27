//! Decimal text for balances: parsing as `str::parse::<i64>` behaves, and
//! rendering back, with the mathematical statements of both.

use vstd::prelude::*;
use vstd::string::StrSliceExecFns;
use vstd::string::StringExecFns;

verus! {

pub open spec fn is_digit(c: char) -> bool {
    c == '0' || c == '1' || c == '2' || c == '3' || c == '4' || c == '5' || c == '6'
        || c == '7' || c == '8' || c == '9'
}

pub open spec fn digit_val(c: char) -> int {
    if c == '0' {
        0
    } else if c == '1' {
        1
    } else if c == '2' {
        2
    } else if c == '3' {
        3
    } else if c == '4' {
        4
    } else if c == '5' {
        5
    } else if c == '6' {
        6
    } else if c == '7' {
        7
    } else if c == '8' {
        8
    } else {
        9
    }
}

pub open spec fn digit_char(d: int) -> char {
    if d == 0 {
        '0'
    } else if d == 1 {
        '1'
    } else if d == 2 {
        '2'
    } else if d == 3 {
        '3'
    } else if d == 4 {
        '4'
    } else if d == 5 {
        '5'
    } else if d == 6 {
        '6'
    } else if d == 7 {
        '7'
    } else if d == 8 {
        '8'
    } else {
        '9'
    }
}

pub open spec fn all_digits(s: Seq<char>) -> bool {
    forall|i: int| 0 <= i < s.len() ==> is_digit(s[i])
}

/// The number a string of digit characters denotes.
pub open spec fn digits_val(s: Seq<char>) -> int
    decreases s.len(),
{
    if s.len() == 0 {
        0
    } else {
        digits_val(s.drop_last()) * 10 + digit_val(s.last())
    }
}

/// The value `str::parse::<i64>` yields on `s`, `None` where it errs: an
/// optional sign, then at least one ASCII digit, and a value within the
/// type's range.
pub open spec fn parse_i64(s: Seq<char>) -> Option<int> {
    let signed = s.len() > 0 && (s[0] == '+' || s[0] == '-');
    let body = if signed {
        s.drop_first()
    } else {
        s
    };
    let neg = s.len() > 0 && s[0] == '-';
    if body.len() == 0 || !all_digits(body) {
        None
    } else {
        let v = if neg {
            -digits_val(body)
        } else {
            digits_val(body)
        };
        if i64::MIN <= v <= i64::MAX {
            Some(v)
        } else {
            None
        }
    }
}

/// The parse with the load path's fallback: a field that does not parse
/// counts as balance 0.
pub open spec fn parse_or_zero(s: Seq<char>) -> int {
    match parse_i64(s) {
        Some(v) => v,
        None => 0,
    }
}

/// The decimal digits of `n >= 0`, most significant first.
pub open spec fn dec_digits(n: int) -> Seq<char>
    decreases n,
{
    if n < 10 {
        seq![digit_char(n)]
    } else {
        dec_digits(n / 10).push(digit_char(n % 10))
    }
}

/// The decimal text of an integer, as `i64`'s `Display` writes it.
pub open spec fn dec_int(v: int) -> Seq<char> {
    if v < 0 {
        seq!['-'] + dec_digits(-v)
    } else {
        dec_digits(v)
    }
}

pub proof fn lemma_digits_val_nonneg(s: Seq<char>)
    requires
        all_digits(s),
    ensures
        digits_val(s) >= 0,
    decreases s.len(),
{
    if s.len() > 0 {
        assert(all_digits(s.drop_last()));
        lemma_digits_val_nonneg(s.drop_last());
    }
}

/// Rendered digits read back as the number they were made from.
pub proof fn lemma_dec_digits(n: int)
    requires
        n >= 0,
    ensures
        dec_digits(n).len() >= 1,
        all_digits(dec_digits(n)),
        digits_val(dec_digits(n)) == n,
    decreases n,
{
    if n >= 10 {
        lemma_dec_digits(n / 10);
        let s = dec_digits(n);
        assert(s.drop_last() == dec_digits(n / 10));
        assert(all_digits(s));
        assert(digits_val(s) == (n / 10) * 10 + (n % 10));
        assert((n / 10) * 10 + (n % 10) == n) by (nonlinear_arith);
        assert(0 <= n % 10 < 10);
        assert(digit_val(s.last()) == n % 10);
        assert(digits_val(s) == n);
    } else {
        let s = dec_digits(n);
        assert(s =~= seq![digit_char(n)]);
        assert(s.drop_last() =~= Seq::<char>::empty());
        assert(s.last() == digit_char(n));
        assert(digits_val(s) == digits_val(Seq::<char>::empty()) * 10 + digit_val(
            digit_char(n),
        ));
        assert(digit_val(digit_char(n)) == n);
    }
}

/// Every character of a rendered integer is a digit or a leading minus
/// sign; none is whitespace, a comma or a line break.
pub proof fn lemma_dec_int_chars(v: int)
    ensures
        dec_int(v).len() >= 1,
        is_digit(dec_int(v).last()),
        forall|i: int| 0 <= i < dec_int(v).len() ==> is_digit(#[trigger] dec_int(v)[i])
            || dec_int(v)[i] == '-',
{
    if v < 0 {
        lemma_dec_digits(-v);
        let s = dec_int(v);
        assert(s.last() == dec_digits(-v).last());
        assert(is_digit(dec_digits(-v).last()));
        assert forall|i: int| 0 <= i < s.len() implies is_digit(#[trigger] s[i]) || s[i]
            == '-' by {
            if i > 0 {
                assert(s[i] == dec_digits(-v)[i - 1]);
            }
        }
    } else {
        lemma_dec_digits(v);
        assert(is_digit(dec_int(v).last()));
    }
}

/// The number-level round trip: rendering an `i64` and parsing it back
/// gives the value itself.
pub proof fn lemma_parse_of_dec(v: int)
    requires
        i64::MIN <= v <= i64::MAX,
    ensures
        parse_or_zero(dec_int(v)) == v,
{
    if v < 0 {
        lemma_dec_digits(-v);
        let s = dec_int(v);
        assert(s[0] == '-');
        assert(s.drop_first() =~= dec_digits(-v));
        assert(parse_i64(s) == Some(v));
    } else {
        lemma_dec_digits(v);
        let s = dec_int(v);
        assert(s[0] == dec_digits(v)[0]);
        assert(is_digit(s[0]));
        assert(s[0] != '+' && s[0] != '-');
        assert(parse_i64(s) == Some(v));
    }
}

pub(crate) fn is_digit_char(c: char) -> (r: bool)
    ensures
        r == is_digit(c),
{
    c == '0' || c == '1' || c == '2' || c == '3' || c == '4' || c == '5' || c == '6'
        || c == '7' || c == '8' || c == '9'
}

fn char_digit_val(c: char) -> (d: u64)
    requires
        is_digit(c),
    ensures
        d as int == digit_val(c),
        d < 10,
{
    if c == '0' {
        0
    } else if c == '1' {
        1
    } else if c == '2' {
        2
    } else if c == '3' {
        3
    } else if c == '4' {
        4
    } else if c == '5' {
        5
    } else if c == '6' {
        6
    } else if c == '7' {
        7
    } else if c == '8' {
        8
    } else {
        9
    }
}

fn digit_str(d: u64) -> (r: &'static str)
    requires
        d < 10,
    ensures
        r@ == seq![digit_char(d as int)],
{
    match d {
        0 => {
            let s: &'static str = "0";
            proof {
                reveal_strlit("0");
                assert(s@ =~= seq![digit_char(d as int)]);
            }
            s
        },
        1 => {
            let s: &'static str = "1";
            proof {
                reveal_strlit("1");
                assert(s@ =~= seq![digit_char(d as int)]);
            }
            s
        },
        2 => {
            let s: &'static str = "2";
            proof {
                reveal_strlit("2");
                assert(s@ =~= seq![digit_char(d as int)]);
            }
            s
        },
        3 => {
            let s: &'static str = "3";
            proof {
                reveal_strlit("3");
                assert(s@ =~= seq![digit_char(d as int)]);
            }
            s
        },
        4 => {
            let s: &'static str = "4";
            proof {
                reveal_strlit("4");
                assert(s@ =~= seq![digit_char(d as int)]);
            }
            s
        },
        5 => {
            let s: &'static str = "5";
            proof {
                reveal_strlit("5");
                assert(s@ =~= seq![digit_char(d as int)]);
            }
            s
        },
        6 => {
            let s: &'static str = "6";
            proof {
                reveal_strlit("6");
                assert(s@ =~= seq![digit_char(d as int)]);
            }
            s
        },
        7 => {
            let s: &'static str = "7";
            proof {
                reveal_strlit("7");
                assert(s@ =~= seq![digit_char(d as int)]);
            }
            s
        },
        8 => {
            let s: &'static str = "8";
            proof {
                reveal_strlit("8");
                assert(s@ =~= seq![digit_char(d as int)]);
            }
            s
        },
        _ => {
            let s: &'static str = "9";
            proof {
                reveal_strlit("9");
                assert(s@ =~= seq![digit_char(d as int)]);
            }
            s
        },
    }
}

/// Parses a balance field as the loader does: `str::parse::<i64>` with
/// errors falling back to 0.
pub fn parse_i64_or_zero(s: &str) -> (r: i64)
    ensures
        r as int == parse_or_zero(s@),
{
    let n = s.unicode_len();
    if n == 0 {
        return 0;
    }
    let c0 = s.get_char(0);
    let neg = c0 == '-';
    let start: usize = if c0 == '-' || c0 == '+' {
        1
    } else {
        0
    };
    if start >= n {
        return 0;
    }
    let ghost body = if start == 1 {
        s@.drop_first()
    } else {
        s@
    };
    proof {
        assert(body =~= s@.subrange(start as int, n as int));
    }
    let lim10: u64 = 922337203685477580;
    let limr: u64 = if neg {
        8
    } else {
        7
    };
    let ghost limit: int = if neg {
        9223372036854775808int
    } else {
        9223372036854775807int
    };
    let mut acc: u64 = 0;
    let mut over = false;
    let mut j: usize = start;
    while j < n
        invariant
            start <= j <= n,
            n == s@.len(),
            start < n,
            start == 1 <==> (s@[0] == '+' || s@[0] == '-'),
            start <= 1,
            neg <==> s@[0] == '-',
            body == if start == 1 {
                s@.drop_first()
            } else {
                s@
            },
            body == s@.subrange(start as int, n as int),
            limit == if neg {
                9223372036854775808int
            } else {
                9223372036854775807int
            },
            lim10 == 922337203685477580,
            limr == if neg {
                8int
            } else {
                7int
            },
            forall|k: int| start <= k < j ==> is_digit(s@[k]),
            !over ==> acc as int == digits_val(s@.subrange(start as int, j as int))
                && acc as int <= limit,
            over ==> digits_val(s@.subrange(start as int, j as int)) > limit,
        decreases n - j,
    {
        let c = s.get_char(j);
        if !is_digit_char(c) {
            proof {
                assert(body[j - start] == s@[j as int]);
                assert(!all_digits(body));
            }
            return 0;
        }
        let d = char_digit_val(c);
        let ghost pre = s@.subrange(start as int, j as int);
        let ghost ext = s@.subrange(start as int, j as int + 1);
        proof {
            assert(ext.drop_last() =~= pre);
            assert(ext.last() == s@[j as int]);
            assert(digits_val(ext) == digits_val(pre) * 10 + d);
        }
        if !over {
            if acc > lim10 || (acc == lim10 && d > limr) {
                over = true;
                proof {
                    assert(digits_val(ext) > limit);
                }
            } else {
                proof {
                    assert(acc * 10 + d <= limit);
                }
                acc = acc * 10 + d;
            }
        } else {
            proof {
                assert(all_digits(pre));
                lemma_digits_val_nonneg(pre);
                assert(digits_val(ext) > limit);
            }
        }
        j += 1;
    }
    proof {
        assert(all_digits(body));
    }
    if over {
        proof {
            assert(digits_val(body) > limit);
            if neg {
                assert(-digits_val(body) < i64::MIN);
            } else {
                assert(digits_val(body) > i64::MAX);
            }
            assert(parse_i64(s@) is None);
        }
        return 0;
    }
    if neg {
        if acc == 9223372036854775808u64 {
            i64::MIN
        } else {
            proof {
                lemma_digits_val_nonneg(body);
            }
            -(acc as i64)
        }
    } else {
        acc as i64
    }
}

/// The digit values collected least significant first, read back as the
/// characters of the number, most significant first.
spec fn rev_chars(rs: Seq<u64>) -> Seq<char>
    decreases rs.len(),
{
    if rs.len() == 0 {
        Seq::empty()
    } else {
        seq![digit_char(rs.last() as int)] + rev_chars(rs.drop_last())
    }
}

proof fn lemma_rev_chars(rs: Seq<u64>)
    ensures
        rev_chars(rs).len() == rs.len(),
        forall|k: int| 0 <= k < rs.len() ==> rev_chars(rs)[k] == digit_char(
            rs[rs.len() - 1 - k] as int,
        ),
    decreases rs.len(),
{
    if rs.len() > 0 {
        lemma_rev_chars(rs.drop_last());
        assert forall|k: int| 0 <= k < rs.len() implies rev_chars(rs)[k] == digit_char(
            rs[rs.len() - 1 - k] as int,
        ) by {
            if k > 0 {
                assert(rev_chars(rs)[k] == rev_chars(rs.drop_last())[k - 1]);
                assert(rs.drop_last()[rs.drop_last().len() - 1 - (k - 1)] == rs[rs.len() - 1
                    - k]);
            }
        }
    }
}

/// Renders a balance as `i64`'s `Display` does.
pub fn i64_to_string(v: i64) -> (r: String)
    ensures
        r@ == dec_int(v as int),
{
    let mut out = String::new();
    let ghost sign: Seq<char> = if v < 0 {
        seq!['-']
    } else {
        Seq::empty()
    };
    let mag: u64;
    if v < 0 {
        out.append("-");
        mag = ((-(v + 1)) as u64) + 1;
        proof {
            reveal_strlit("-");
            assert(out@ =~= sign);
            assert(mag as int == -(v as int));
        }
    } else {
        mag = v as u64;
        proof {
            assert(out@ =~= sign);
        }
    }
    let ghost gmag: int = mag as int;
    let mut rev: Vec<u64> = Vec::new();
    let mut cur: u64 = mag;
    proof {
        assert(dec_digits(gmag) =~= dec_digits(cur as int) + rev_chars(rev@));
    }
    while cur >= 10
        invariant
            gmag == mag as int,
            dec_digits(gmag) == dec_digits(cur as int) + rev_chars(rev@),
            forall|k: int| 0 <= k < rev@.len() ==> rev@[k] < 10,
        decreases cur,
    {
        let d = cur % 10;
        let ghost rv = rev@;
        let ghost oc = cur as int;
        rev.push(d);
        cur = cur / 10;
        proof {
            assert(rev@.drop_last() =~= rv);
            assert(rev_chars(rev@) =~= seq![digit_char(d as int)] + rev_chars(rv));
            assert(dec_digits(oc) == dec_digits(oc / 10).push(digit_char(oc % 10)));
            assert(dec_digits(oc / 10).push(digit_char(d as int)) + rev_chars(rv)
                =~= dec_digits(oc / 10) + (seq![digit_char(d as int)] + rev_chars(rv)));
        }
    }
    let ds = digit_str(cur);
    out.append(ds);
    proof {
        assert(dec_digits(cur as int) == seq![digit_char(cur as int)]);
        lemma_rev_chars(rev@);
        assert(out@ =~= sign + seq![digit_char(cur as int)] + rev_chars(rev@).subrange(
            0,
            (rev@.len() - rev@.len()) as int,
        ));
    }
    let mut j: usize = rev.len();
    while j > 0
        invariant
            j <= rev@.len(),
            forall|k: int| 0 <= k < rev@.len() ==> rev@[k] < 10,
            forall|k: int| 0 <= k < rev@.len() ==> rev_chars(rev@)[k] == digit_char(
                rev@[rev@.len() - 1 - k] as int,
            ),
            rev_chars(rev@).len() == rev@.len(),
            out@ == sign + seq![digit_char(cur as int)] + rev_chars(rev@).subrange(
                0,
                rev@.len() - j,
            ),
        decreases j,
    {
        let ghost oj = j as int;
        let d2 = digit_str(rev[j - 1]);
        out.append(d2);
        j -= 1;
        proof {
            assert(rev_chars(rev@)[rev@.len() - oj] == digit_char(rev@[oj - 1] as int));
            assert(rev_chars(rev@).subrange(0, rev@.len() - oj + 1) =~= rev_chars(
                rev@,
            ).subrange(0, rev@.len() - oj).push(rev_chars(rev@)[rev@.len() - oj]));
            assert(out@ =~= sign + seq![digit_char(cur as int)] + rev_chars(rev@).subrange(
                0,
                rev@.len() - j,
            ));
        }
    }
    proof {
        assert(rev_chars(rev@).subrange(0, rev@.len() as int) =~= rev_chars(rev@));
        assert(out@ =~= sign + dec_digits(gmag));
        if v < 0 {
            assert(out@ =~= dec_int(v as int));
        } else {
            assert(sign + dec_digits(gmag) =~= dec_digits(gmag));
        }
    }
    out
}

} // verus!
