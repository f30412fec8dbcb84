//! Turning one line of input into a guess: trimming surrounding whitespace
//! and reading the remainder as a non-negative base-10 integer, exactly as
//! the session's validation step demands.

use vstd::prelude::*;

verus! {

/// ASCII whitespace, as stripped from the ends of an input line.
pub open spec fn is_space(b: u8) -> bool {
    b == 32 || b == 9 || b == 10 || b == 11 || b == 12 || b == 13
}

/// ASCII decimal digit.
pub open spec fn is_digit(b: u8) -> bool {
    48 <= b <= 57
}

/// Numeric value of one decimal digit byte.
pub open spec fn digit_val(b: u8) -> nat
    recommends
        is_digit(b),
{
    (b - 48) as nat
}

pub open spec fn all_digits(s: Seq<u8>) -> bool {
    forall|i: int| 0 <= i < s.len() ==> is_digit(s[i])
}

/// Value of a run of decimal digits, most significant first.
pub open spec fn digits_val(s: Seq<u8>) -> nat
    decreases s.len(),
{
    if s.len() == 0 {
        0
    } else {
        digits_val(s.drop_last()) * 10 + digit_val(s.last())
    }
}

/// The line with leading whitespace removed.
pub open spec fn trim_front(s: Seq<u8>) -> Seq<u8>
    decreases s.len(),
{
    if s.len() > 0 && is_space(s[0]) {
        trim_front(s.drop_first())
    } else {
        s
    }
}

/// The line with trailing whitespace removed.
pub open spec fn trim_back(s: Seq<u8>) -> Seq<u8>
    decreases s.len(),
{
    if s.len() > 0 && is_space(s.last()) {
        trim_back(s.drop_last())
    } else {
        s
    }
}

/// The line with surrounding whitespace removed.
pub open spec fn trimmed(s: Seq<u8>) -> Seq<u8> {
    trim_back(trim_front(s))
}

/// The digits of the trimmed line, once an optional leading plus sign is
/// dropped.
pub open spec fn digits_part(s: Seq<u8>) -> Seq<u8> {
    let t = trimmed(s);
    if t.len() > 0 && t[0] == 43 {
        t.drop_first()
    } else {
        t
    }
}

/// What parsing the line as a guess yields: after trimming and an optional
/// plus sign there must be one or more decimal digits, and their value must
/// fit in a `u32`; anything else is rejected.
pub open spec fn parse_u32(s: Seq<u8>) -> Option<u32> {
    let d = digits_part(s);
    if d.len() > 0 && all_digits(d) && digits_val(d) <= u32::MAX {
        Some(digits_val(d) as u32)
    } else {
        None
    }
}

fn space_byte(b: u8) -> (r: bool)
    ensures
        r == is_space(b),
{
    b == 32 || b == 9 || b == 10 || b == 11 || b == 12 || b == 13
}

proof fn lemma_trim_front_subrange(s: Seq<u8>, i: int)
    requires
        0 <= i <= s.len(),
        forall|j: int| 0 <= j < i ==> is_space(s[j]),
        i == s.len() || !is_space(s[i]),
    ensures
        trim_front(s) == s.subrange(i, s.len() as int),
    decreases i,
{
    if i == 0 {
        assert(s =~= s.subrange(0, s.len() as int));
    } else {
        assert(is_space(s[0]));
        let s1 = s.drop_first();
        lemma_trim_front_subrange(s1, i - 1);
        assert(s1.subrange(i - 1, s1.len() as int) =~= s.subrange(i, s.len() as int));
    }
}

proof fn lemma_trim_back_subrange(s: Seq<u8>, k: int)
    requires
        0 <= k <= s.len(),
        forall|j: int| k <= j < s.len() ==> is_space(s[j]),
        k == 0 || !is_space(s[k - 1]),
    ensures
        trim_back(s) == s.subrange(0, k),
    decreases s.len() - k,
{
    if k == s.len() {
        assert(s =~= s.subrange(0, k));
    } else {
        assert(is_space(s.last()));
        let s1 = s.drop_last();
        lemma_trim_back_subrange(s1, k);
        assert(s1.subrange(0, k) =~= s.subrange(0, k));
    }
}

proof fn lemma_digits_val_prefix(s: Seq<u8>, k: int)
    requires
        0 <= k <= s.len(),
    ensures
        digits_val(s.subrange(0, k)) <= digits_val(s),
    decreases s.len(),
{
    if k == s.len() {
        assert(s.subrange(0, k) =~= s);
    } else {
        let s1 = s.drop_last();
        lemma_digits_val_prefix(s1, k);
        assert(s1.subrange(0, k) =~= s.subrange(0, k));
        assert(digits_val(s) == digits_val(s1) * 10 + digit_val(s.last()));
        assert(digits_val(s1) * 10 >= digits_val(s1));
    }
}

/// Reads one line of input as a guess: the result is exactly what the
/// parsing specification assigns to the line's bytes.
pub fn parse_guess(line: &[u8]) -> (r: Option<u32>)
    ensures
        r == parse_u32(line@),
{
    let n = line.len();
    let mut lo: usize = 0;
    while lo < n && space_byte(line[lo])
        invariant
            lo <= n,
            n == line@.len(),
            forall|j: int| 0 <= j < lo ==> is_space(line@[j]),
        decreases n - lo,
    {
        lo = lo + 1;
    }
    proof {
        lemma_trim_front_subrange(line@, lo as int);
    }
    let mut hi: usize = n;
    while hi > lo && space_byte(line[hi - 1])
        invariant
            lo <= hi <= n,
            n == line@.len(),
            forall|j: int| hi <= j < n ==> is_space(line@[j]),
        decreases hi,
    {
        hi = hi - 1;
    }
    proof {
        let t = line@.subrange(lo as int, n as int);
        assert forall|j: int| hi - lo <= j < t.len() implies is_space(t[j]) by {
            assert(t[j] == line@[j + lo]);
        }
        lemma_trim_back_subrange(t, hi as int - lo as int);
        assert(t.subrange(0, hi as int - lo as int) =~= line@.subrange(
            lo as int,
            hi as int,
        ));
        assert(trimmed(line@) == line@.subrange(lo as int, hi as int));
    }
    let mut i = lo;
    if i < hi && line[i] == 43 {
        i = i + 1;
        proof {
            assert(line@.subrange(lo as int, hi as int).drop_first() =~= line@.subrange(
                i as int,
                hi as int,
            ));
        }
    }
    let ghost d = line@.subrange(i as int, hi as int);
    proof {
        assert(digits_part(line@) == d);
    }
    if i == hi {
        proof {
            assert(d.len() == 0);
        }
        return None;
    }
    let mut val: u32 = 0;
    let mut j = i;
    while j < hi
        invariant
            i <= j <= hi <= n,
            n == line@.len(),
            i < hi,
            d == line@.subrange(i as int, hi as int),
            d == digits_part(line@),
            forall|k: int| i <= k < j ==> is_digit(line@[k]),
            val == digits_val(line@.subrange(i as int, j as int)),
        decreases hi - j,
    {
        let b = line[j];
        if b < 48 || b > 57 {
            proof {
                assert(d[j - i] == line@[j as int]);
                assert(!all_digits(d));
            }
            return None;
        }
        let digit = (b - 48) as u32;
        let limit = (u32::MAX - digit) / 10;
        proof {
            let p = line@.subrange(i as int, j as int);
            let p1 = line@.subrange(i as int, j as int + 1);
            assert(p1.drop_last() =~= p);
            assert(p1.last() == line@[j as int]);
            assert(digits_val(p1) == digits_val(p) * 10 + digit_val(line@[j as int]));
        }
        if val > limit {
            proof {
                let p1 = line@.subrange(i as int, j as int + 1);
                assert(val * 10 + digit > u32::MAX) by {
                    assert(limit * 10 + 10 > u32::MAX - digit);
                };
                assert(digits_val(p1) > u32::MAX);
                if all_digits(d) {
                    assert(d.subrange(0, j + 1 - i) =~= p1);
                    lemma_digits_val_prefix(d, j + 1 - i);
                    assert(digits_val(d) > u32::MAX);
                }
            }
            return None;
        }
        proof {
            assert(val * 10 + digit <= u32::MAX) by {
                assert(limit * 10 <= u32::MAX - digit);
            };
        }
        val = val * 10 + digit;
        j = j + 1;
    }
    proof {
        assert(line@.subrange(i as int, j as int) =~= d);
        assert forall|k: int| 0 <= k < d.len() implies is_digit(d[k]) by {
            assert(d[k] == line@[k + i]);
        }
        assert(digits_val(d) == val);
    }
    Some(val)
}

/// Canonical decimal representation of a number, most significant digit
/// first and without sign, padding or leading zeroes.
pub open spec fn dec_rep(n: nat) -> Seq<u8>
    decreases n,
{
    if n < 10 {
        seq![(48 + n) as u8]
    } else {
        dec_rep(n / 10).push((48 + n % 10) as u8)
    }
}

proof fn lemma_dec_rep_digits(n: nat)
    ensures
        dec_rep(n).len() > 0,
        all_digits(dec_rep(n)),
    decreases n,
{
    if n >= 10 {
        lemma_dec_rep_digits(n / 10);
        let s = dec_rep(n / 10);
        let b = (48 + n % 10) as u8;
        assert forall|i: int| 0 <= i < s.push(b).len() implies is_digit(s.push(b)[i]) by {
            if i < s.len() {
                assert(s.push(b)[i] == s[i]);
            }
        }
    }
}

proof fn lemma_dec_rep_val(n: nat)
    ensures
        digits_val(dec_rep(n)) == n,
    decreases n,
{
    if n < 10 {
        let s = dec_rep(n);
        assert(s.drop_last() =~= Seq::<u8>::empty());
        assert(digits_val(Seq::<u8>::empty()) == 0);
        assert(s.last() == (48 + n) as u8);
        assert(digits_val(s) == digits_val(s.drop_last()) * 10 + digit_val(s.last()));
        assert(digit_val((48 + n) as u8) == n);
    } else {
        lemma_dec_rep_val(n / 10);
        let s = dec_rep(n / 10);
        let b = (48 + n % 10) as u8;
        assert(s.push(b).drop_last() =~= s);
        assert(s.push(b).last() == b);
        assert(digits_val(s.push(b)) == digits_val(s) * 10 + digit_val(b));
        assert(n / 10 * 10 + n % 10 == n);
    }
}

/// The round trip that lets a script name the secret: parsing the decimal
/// representation of a number gives back exactly that number.
pub proof fn lemma_parse_dec_rep(n: u32)
    ensures
        parse_u32(dec_rep(n as nat)) == Some(n),
{
    lemma_dec_rep_digits(n as nat);
    lemma_dec_rep_val(n as nat);
    let d = dec_rep(n as nat);
    assert(is_digit(d[0]));
    assert(!is_space(d[0]));
    assert(is_digit(d.last()));
    assert(!is_space(d.last()));
    assert(trim_front(d) == d);
    assert(trim_back(d) == d);
    assert(trimmed(d) == d);
    assert(d[0] != 43);
    assert(digits_part(d) == d);
}

/// Writes a number the way a user would type it: the canonical decimal
/// digits, which parse back to the same number.
pub fn decimal_bytes(n: u32) -> (r: Vec<u8>)
    ensures
        r@ == dec_rep(n as nat),
        parse_u32(r@) == Some(n),
    decreases n,
{
    proof {
        lemma_parse_dec_rep(n);
    }
    if n < 10 {
        let mut v: Vec<u8> = Vec::new();
        v.push(48 + n as u8);
        proof {
            assert(v@ =~= seq![(48 + n as nat) as u8]);
        }
        v
    } else {
        proof {
            assert(n / 10 < n) by (nonlinear_arith)
                requires
                    n >= 10,
            ;
        }
        let mut v = decimal_bytes(n / 10);
        v.push(48 + (n % 10) as u8);
        proof {
            assert(v@ =~= dec_rep(n as nat / 10).push((48 + n as nat % 10) as u8));
        }
        v
    }
}

} // verus!
