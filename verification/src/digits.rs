//! Decimal text for the integer fields of a tile key.
//!
//! Formatting and parsing are both specified exactly, so that the key
//! codec can prove them inverse to each other.

use vstd::prelude::*;

verus! {

/// The character for a single decimal digit value.
pub open spec fn digit_char(d: int) -> char {
    if d == 0 {
        '0'
    } else if d == 1 {
        '1'
    } else if d == 2 {
        '2'
    } else if d == 3 {
        '3'
    } else if d == 4 {
        '4'
    } else if d == 5 {
        '5'
    } else if d == 6 {
        '6'
    } else if d == 7 {
        '7'
    } else if d == 8 {
        '8'
    } else {
        '9'
    }
}

/// The decimal digits of a nonnegative integer, most significant first.
pub open spec fn dec_digits(n: nat) -> Seq<char>
    decreases n,
{
    if n < 10 {
        seq![digit_char(n as int)]
    } else {
        dec_digits(n / 10) + seq![digit_char((n % 10) as int)]
    }
}

/// The decimal text of an integer: a minus sign, then digits, for a
/// negative value; just digits otherwise.
pub open spec fn int_chars(i: int) -> Seq<char> {
    if i < 0 {
        seq!['-'] + dec_digits((-i) as nat)
    } else {
        dec_digits(i as nat)
    }
}

pub open spec fn is_digit(c: char) -> bool {
    '0' <= c && c <= '9'
}

/// The value of a single decimal digit character.
pub open spec fn digit_val(c: char) -> int {
    c as int - '0' as int
}

pub open spec fn all_digits(s: Seq<char>) -> bool {
    forall|i: int| 0 <= i < s.len() ==> is_digit(#[trigger] s[i])
}

/// The value of a sequence of decimal digit characters.
pub open spec fn digits_val(s: Seq<char>) -> int
    decreases s.len(),
{
    if s.len() == 0 {
        0
    } else {
        digits_val(s.drop_last()) * 10 + digit_val(s.last())
    }
}

pub proof fn lemma_dec_digits_are_digits(n: nat)
    ensures
        dec_digits(n).len() >= 1,
        all_digits(dec_digits(n)),
    decreases n,
{
    if n >= 10 {
        lemma_dec_digits_are_digits(n / 10);
        assert forall|i: int| 0 <= i < dec_digits(n).len() implies is_digit(
            #[trigger] dec_digits(n)[i],
        ) by {
            if i < dec_digits(n / 10).len() {
                assert(dec_digits(n)[i] == dec_digits(n / 10)[i]);
            } else {
                assert(dec_digits(n)[i] == digit_char((n % 10) as int));
            }
        }
    }
}

pub proof fn lemma_digits_val_dec_digits(n: nat)
    ensures
        digits_val(dec_digits(n)) == n,
    decreases n,
{
    if n < 10 {
        assert(dec_digits(n) =~= seq![digit_char(n as int)]);
        assert(dec_digits(n).drop_last() =~= Seq::<char>::empty());
        assert(digits_val(Seq::<char>::empty()) == 0);
        assert(digit_val(digit_char(n as int)) == n);
        assert(digits_val(dec_digits(n)) == digits_val(dec_digits(n).drop_last()) * 10
            + digit_val(dec_digits(n).last()));
    } else {
        lemma_digits_val_dec_digits(n / 10);
        assert(dec_digits(n).drop_last() =~= dec_digits(n / 10));
        assert(dec_digits(n).last() == digit_char((n % 10) as int));
        assert(digit_val(digit_char((n % 10) as int)) == n % 10);
        assert(digits_val(dec_digits(n)) == digits_val(dec_digits(n).drop_last()) * 10
            + digit_val(dec_digits(n).last()));
        assert(digits_val(dec_digits(n)) == (n / 10) * 10 + n % 10);
    }
}

pub proof fn lemma_all_digits_val_nonneg(s: Seq<char>)
    requires
        all_digits(s),
    ensures
        digits_val(s) >= 0,
    decreases s.len(),
{
    if s.len() > 0 {
        assert(all_digits(s.drop_last()));
        lemma_all_digits_val_nonneg(s.drop_last());
    }
}

/// Reading more digits never shrinks the value: the value of a prefix
/// is a lower bound for the value of the whole sequence.
pub proof fn lemma_digits_val_prefix_le(s: Seq<char>, j: int)
    requires
        all_digits(s),
        0 <= j <= s.len(),
    ensures
        digits_val(s.take(j)) <= digits_val(s),
    decreases s.len() - j,
{
    if j < s.len() {
        lemma_digits_val_prefix_le(s, j + 1);
        assert(s.take(j + 1).drop_last() =~= s.take(j));
        assert(all_digits(s.take(j)));
        lemma_all_digits_val_nonneg(s.take(j));
        assert(digits_val(s.take(j + 1)) == digits_val(s.take(j)) * 10 + digit_val(s[j]));
    } else {
        assert(s.take(j) =~= s);
    }
}

/// A one-character string for a decimal digit value.
fn digit_str(d: u8) -> (r: &'static str)
    requires
        d < 10,
    ensures
        r@ =~= seq![digit_char(d as int)],
{
    proof {
        reveal_strlit("0");
        reveal_strlit("1");
        reveal_strlit("2");
        reveal_strlit("3");
        reveal_strlit("4");
        reveal_strlit("5");
        reveal_strlit("6");
        reveal_strlit("7");
        reveal_strlit("8");
        reveal_strlit("9");
    }
    match d {
        0 => "0",
        1 => "1",
        2 => "2",
        3 => "3",
        4 => "4",
        5 => "5",
        6 => "6",
        7 => "7",
        8 => "8",
        _ => "9",
    }
}

/// The digit characters named by a sequence of digit values, read in
/// reverse: the last value first.
spec fn rev_digit_chars(s: Seq<u8>) -> Seq<char> {
    Seq::new(s.len(), |i: int| digit_char(s[s.len() - 1 - i] as int))
}

/// Appends the decimal digits of `n` to `out`.
pub fn push_dec_u64(out: &mut String, n: u64)
    ensures
        final(out)@ == old(out)@ + dec_digits(n as nat),
{
    let mut rev: Vec<u8> = Vec::new();
    let mut m = n;
    loop
        invariant_except_break
            m == 0 ==> rev@.len() == 0,
            forall|j: int| 0 <= j < rev@.len() ==> rev@[j] < 10,
            dec_digits(n as nat) == (if m > 0 || rev@.len() == 0 {
                dec_digits(m as nat) + rev_digit_chars(rev@)
            } else {
                rev_digit_chars(rev@)
            }),
        ensures
            rev@.len() >= 1,
            forall|j: int| 0 <= j < rev@.len() ==> rev@[j] < 10,
            dec_digits(n as nat) == rev_digit_chars(rev@),
        decreases m, (if rev@.len() == 0 { 1int } else { 0int }),
    {
        let ghost m0 = m as nat;
        let ghost rev0 = rev@;
        let d = (m % 10) as u8;
        rev.push(d);
        m = m / 10;
        proof {
            assert(rev_digit_chars(rev@) =~= seq![digit_char(d as int)] + rev_digit_chars(rev0));
            if m0 == 0 {
                assert(rev0.len() == 0);
                assert(rev_digit_chars(rev@) =~= seq![digit_char(0)]);
                assert(dec_digits(0) =~= seq![digit_char(0)]);
            } else if m0 < 10 {
                assert(m == 0);
                assert(dec_digits(m0) =~= seq![digit_char(m0 as int)]);
                assert(dec_digits(n as nat) =~= rev_digit_chars(rev@));
            } else {
                assert(dec_digits(m0) =~= dec_digits(m0 / 10) + seq![
                    digit_char((m0 % 10) as int),
                ]);
                assert(dec_digits(m as nat) + rev_digit_chars(rev@) =~= dec_digits(m0)
                    + rev_digit_chars(rev0));
            }
        }
        if m == 0 {
            break ;
        }
    }
    let ghost base = out@;
    let mut i = rev.len();
    while i > 0
        invariant
            i <= rev@.len(),
            forall|j: int| 0 <= j < rev@.len() ==> rev@[j] < 10,
            dec_digits(n as nat) == rev_digit_chars(rev@),
            out@ == base + rev_digit_chars(rev@).take(rev@.len() - i),
        decreases i,
    {
        i = i - 1;
        let ghost before = out@;
        out.append(digit_str(rev[i]));
        proof {
            let k = rev@.len() - i;
            assert(rev_digit_chars(rev@)[k - 1] == digit_char(rev@[i as int] as int));
            assert(rev_digit_chars(rev@).take(k) =~= rev_digit_chars(rev@).take(k - 1) + seq![
                digit_char(rev@[i as int] as int),
            ]);
            assert(out@ =~= base + rev_digit_chars(rev@).take(k));
        }
    }
    proof {
        assert(rev_digit_chars(rev@).take(rev@.len() as int) =~= rev_digit_chars(rev@));
        assert(out@ =~= base + dec_digits(n as nat));
    }
}

/// Appends the decimal text of `v` to `out`, minus sign included.
pub fn push_int_i64(out: &mut String, v: i64)
    ensures
        final(out)@ == old(out)@ + int_chars(v as int),
{
    if v < 0 {
        out.append("-");
        proof {
            reveal_strlit("-");
        }
        let mag: u64 = ((-(v + 1)) as u64) + 1;
        assert(mag as int == -(v as int));
        let ghost mid = out@;
        push_dec_u64(out, mag);
        proof {
            assert(mid =~= old(out)@ + seq!['-']);
            assert(out@ =~= old(out)@ + (seq!['-'] + dec_digits((-(v as int)) as nat)));
        }
    } else {
        push_dec_u64(out, v as u64);
    }
}

/// Parses the characters of `cs` between `lo` and `hi` as an unsigned
/// decimal number of value at most `max`.
pub fn parse_digits_range(cs: &Vec<char>, lo: usize, hi: usize, max: u64) -> (r: Option<u64>)
    requires
        lo <= hi <= cs@.len(),
    ensures
        ({
            let s = cs@.subrange(lo as int, hi as int);
            match r {
                Some(v) => s.len() >= 1 && all_digits(s) && digits_val(s) == v && v <= max,
                None => !(s.len() >= 1 && all_digits(s) && digits_val(s) <= max as int),
            }
        }),
{
    let ghost s = cs@.subrange(lo as int, hi as int);
    if lo == hi {
        return None;
    }
    let mut acc: u64 = 0;
    let mut i = lo;
    while i < hi
        invariant
            lo <= i <= hi <= cs@.len(),
            s == cs@.subrange(lo as int, hi as int),
            all_digits(s.take(i - lo)),
            acc == digits_val(s.take(i - lo)),
            acc <= max,
        decreases hi - i,
    {
        let c = cs[i];
        assert(c == s[i - lo]);
        if c < '0' || c > '9' {
            assert(!is_digit(s[i - lo]));
            return None;
        }
        let d = (c as u32 - 48) as u64;
        assert(d == digit_val(c) && d <= 9);
        proof {
            assert(s.take(i - lo + 1).drop_last() =~= s.take(i - lo));
            assert(s.take(i - lo + 1).last() == c);
        }
        if acc > max / 10 || (acc == max / 10 && d > max % 10) {
            proof {
                assert(digits_val(s.take(i - lo + 1)) == acc * 10 + d);
                assert(acc * 10 + d > max) by (nonlinear_arith)
                    requires
                        acc > max / 10 || (acc == max / 10 && d > max % 10),
                        max == (max / 10) * 10 + max % 10,
                        max % 10 <= 9,
                        d <= 9,
                ;
                if all_digits(s) {
                    lemma_digits_val_prefix_le(s, i - lo + 1);
                }
            }
            return None;
        }
        proof {
            assert(acc * 10 + d <= max) by (nonlinear_arith)
                requires
                    acc <= max / 10,
                    acc < max / 10 || d <= max % 10,
                    max == (max / 10) * 10 + max % 10,
                    max % 10 <= 9,
                    d <= 9,
            ;
        }
        acc = acc * 10 + d;
        i = i + 1;
    }
    proof {
        assert(s.take(hi - lo) =~= s);
    }
    Some(acc)
}

} // verus!

