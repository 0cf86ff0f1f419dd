//! Decimal text for the integers of the snapshot format.

use vstd::prelude::*;

verus! {

/// An ASCII digit byte.
pub open spec fn is_digit_byte(b: u8) -> bool {
    48 <= b && b <= 57
}

/// The decimal digits of `n`, most significant first.
pub open spec fn dec_nat(n: nat) -> Seq<u8>
    decreases n,
{
    if n < 10 {
        seq![(48 + n) as u8]
    } else {
        dec_nat(n / 10) + seq![(48 + n % 10) as u8]
    }
}

/// The decimal digits of `t`, with a leading `-` when negative.
pub open spec fn dec_int(t: int) -> Seq<u8> {
    if t >= 0 {
        dec_nat(t as nat)
    } else {
        seq![45u8] + dec_nat((-t) as nat)
    }
}

/// The value of a run of digit bytes, most significant first.
pub open spec fn digits_val(s: Seq<u8>) -> int
    decreases s.len(),
{
    if s.len() == 0 {
        0
    } else {
        digits_val(s.drop_last()) * 10 + (s.last() - 48)
    }
}

/// The first position at or after `start` that does not hold a digit byte.
pub open spec fn digit_run_end(s: Seq<u8>, start: int) -> int
    decreases s.len() - start,
{
    if start < 0 || start >= s.len() {
        start
    } else if !is_digit_byte(s[start]) {
        start
    } else {
        digit_run_end(s, start + 1)
    }
}

/// The decimal digits of `n` are non-empty digit bytes that evaluate to `n`.
pub proof fn lemma_dec_nat(n: nat)
    ensures
        dec_nat(n).len() >= 1,
        forall|i: int| 0 <= i < dec_nat(n).len() ==> is_digit_byte(#[trigger] dec_nat(n)[i]),
        digits_val(dec_nat(n)) == n,
    decreases n,
{
    if n < 10 {
        let s = dec_nat(n);
        assert(s.len() == 1);
        assert(s.drop_last() =~= Seq::<u8>::empty());
        assert(s.last() == (48 + n) as u8);
        assert((48 + n) as u8 == 48 + n);
        assert(digits_val(s) == digits_val(s.drop_last()) * 10 + (s.last() - 48));
        assert(digits_val(s.drop_last()) == 0);
    } else {
        lemma_dec_nat(n / 10);
        let a = dec_nat(n / 10);
        let s = dec_nat(n);
        assert(s == a + seq![(48 + n % 10) as u8]);
        assert(s.drop_last() =~= a);
        assert(s.last() == (48 + n % 10) as u8);
        assert(digits_val(s) == digits_val(a) * 10 + (n % 10));
        assert((n / 10) * 10 + n % 10 == n) by (nonlinear_arith);
        assert(forall|i: int| 0 <= i < a.len() ==> s[i] == a[i]);
    }
}

/// The run end is where the first non-digit stands.
pub proof fn lemma_digit_run_end_is(s: Seq<u8>, start: int, e: int)
    requires
        0 <= start <= e <= s.len(),
        forall|i: int| start <= i < e ==> is_digit_byte(#[trigger] s[i]),
        e == s.len() || !is_digit_byte(s[e]),
    ensures
        digit_run_end(s, start) == e,
    decreases e - start,
{
    if start < e {
        lemma_digit_run_end_is(s, start + 1, e);
    }
}

/// Basic bounds of the run end.
pub proof fn lemma_digit_run_end_bounds(s: Seq<u8>, start: int)
    requires
        0 <= start <= s.len(),
    ensures
        start <= digit_run_end(s, start) <= s.len(),
        forall|i: int| start <= i < digit_run_end(s, start) ==> is_digit_byte(#[trigger] s[i]),
        digit_run_end(s, start) == s.len() || !is_digit_byte(s[digit_run_end(s, start)]),
    decreases s.len() - start,
{
    if start < s.len() && is_digit_byte(s[start]) {
        lemma_digit_run_end_bounds(s, start + 1);
    }
}

/// A run of digit bytes has a non-negative value.
pub proof fn lemma_digits_val_nonneg(s: Seq<u8>)
    requires
        forall|i: int| 0 <= i < s.len() ==> is_digit_byte(#[trigger] s[i]),
    ensures
        digits_val(s) >= 0,
    decreases s.len(),
{
    if s.len() > 0 {
        assert(forall|i: int|
            0 <= i < s.drop_last().len() ==> #[trigger] s.drop_last()[i] == s[i]);
        lemma_digits_val_nonneg(s.drop_last());
    }
}

/// Extending a run of digits never shrinks its value.
pub proof fn lemma_digits_val_extend(s: Seq<u8>, start: int, i: int, j: int)
    requires
        0 <= start <= i <= j <= s.len(),
        forall|k: int| start <= k < j ==> is_digit_byte(#[trigger] s[k]),
    ensures
        digits_val(s.subrange(start, j)) >= digits_val(s.subrange(start, i)),
    decreases j - i,
{
    if i < j {
        lemma_digits_val_extend(s, start, i, j - 1);
        let a = s.subrange(start, j - 1);
        let b = s.subrange(start, j);
        assert(b.drop_last() =~= a);
        assert(forall|k: int| 0 <= k < a.len() ==> #[trigger] a[k] == s[start + k]);
        lemma_digits_val_nonneg(a);
        assert(is_digit_byte(b.last()));
        assert(digits_val(b) == digits_val(a) * 10 + (b.last() - 48));
        assert(digits_val(a) * 10 >= digits_val(a)) by (nonlinear_arith)
            requires
                digits_val(a) >= 0,
        ;
    }
}

/// The decimal digits of `n`, as bytes.
pub fn dec_u64_vec(n: u64) -> (v: Vec<u8>)
    ensures
        v@ == dec_nat(n as nat),
    decreases n,
{
    if n < 10 {
        let mut v: Vec<u8> = Vec::new();
        v.push(48 + n as u8);
        proof {
            assert(v@ =~= dec_nat(n as nat));
        }
        v
    } else {
        let mut v = dec_u64_vec(n / 10);
        v.push(48 + (n % 10) as u8);
        proof {
            assert(v@ =~= dec_nat(n as nat));
        }
        v
    }
}

/// The decimal digits of `t`, with a leading `-` when negative.
pub fn dec_i64_vec(t: i64) -> (v: Vec<u8>)
    ensures
        v@ == dec_int(t as int),
{
    if t >= 0 {
        dec_u64_vec(t as u64)
    } else {
        let mag = (-(t as i128)) as u64;
        let mut v: Vec<u8> = Vec::new();
        v.push(45);
        let mut d = dec_u64_vec(mag);
        v.append(&mut d);
        proof {
            assert(v@ =~= dec_int(t as int));
        }
        v
    }
}

/// What parsing an unsigned decimal at `start` yields: the value and the
/// position after the digits, or nothing when no digit stands at `start`
/// or the run exceeds `u64::MAX`.
pub open spec fn parse_nat_spec(s: Seq<u8>, start: int) -> Option<(int, int)> {
    let e = digit_run_end(s, start);
    if 0 <= start < s.len() && is_digit_byte(s[start]) && digits_val(s.subrange(start, e))
        <= u64::MAX as int {
        Some((digits_val(s.subrange(start, e)), e))
    } else {
        None
    }
}

/// What parsing a signed decimal at `start` yields; a leading `-` negates,
/// and the value must fit an `i64`.
pub open spec fn parse_int_spec(s: Seq<u8>, start: int) -> Option<(int, int)> {
    if 0 <= start < s.len() && s[start] == 45 {
        match parse_nat_spec(s, start + 1) {
            Option::Some((v, e)) => if v <= 0x8000_0000_0000_0000 {
                Some((-v, e))
            } else {
                None
            },
            Option::None => None,
        }
    } else {
        match parse_nat_spec(s, start) {
            Option::Some((v, e)) => if v <= i64::MAX as int {
                Some((v, e))
            } else {
                None
            },
            Option::None => None,
        }
    }
}

/// Parses an unsigned decimal.
pub fn parse_u64(s: &Vec<u8>, start: usize) -> (r: Option<(u64, usize)>)
    requires
        start <= s@.len(),
    ensures
        (match r {
            Option::Some((v, e)) => parse_nat_spec(s@, start as int) == Some((v as int, e as int)),
            Option::None => parse_nat_spec(s@, start as int) is None,
        }),
        r matches Some((v, e)) ==> start <= e <= s@.len(),
{
    let n = s.len();
    proof {
        lemma_digit_run_end_bounds(s@, start as int);
    }
    if start >= n {
        return None;
    }
    let b0 = s[start];
    if !(48 <= b0 && b0 <= 57) {
        return None;
    }
    let mut acc: u64 = 0;
    let mut i: usize = start;
    proof {
        assert(s@.subrange(start as int, start as int) =~= Seq::<u8>::empty());
    }
    while i < n
        invariant
            start <= i <= n,
            n == s@.len(),
            is_digit_byte(s@[start as int]),
            forall|k: int| start <= k < i ==> is_digit_byte(#[trigger] s@[k]),
            digit_run_end(s@, start as int) == digit_run_end(s@, i as int),
            acc as int == digits_val(s@.subrange(start as int, i as int)),
        decreases n - i,
    {
        let b = s[i];
        if !(48 <= b && b <= 57) {
            proof {
                lemma_digit_run_end_is(s@, i as int, i as int);
            }
            return Some((acc, i));
        }
        let d = (b - 48) as u64;
        proof {
            let pre = s@.subrange(start as int, i as int);
            let post = s@.subrange(start as int, i + 1);
            assert(post.drop_last() =~= pre);
            assert(post.last() == s@[i as int]);
            assert(digits_val(post) == digits_val(pre) * 10 + (b - 48));
            lemma_digit_run_end_bounds(s@, start as int);
        }
        if acc > (u64::MAX - d) / 10 {
            proof {
                assert(acc as int * 10 + d as int > u64::MAX as int) by (nonlinear_arith)
                    requires
                        acc as int > (u64::MAX as int - d as int) / 10,
                        0 <= d as int <= 9,
                ;
                let e = digit_run_end(s@, start as int);
                lemma_digit_run_end_bounds(s@, i as int);
                assert(e == digit_run_end(s@, i as int));
                assert(e >= i + 1) by {
                    assert(is_digit_byte(s@[i as int]));
                }
                lemma_digits_val_extend(s@, start as int, i + 1, e);
                assert(digits_val(s@.subrange(start as int, e)) > u64::MAX as int);
            }
            return None;
        }
        proof {
            assert(acc as int * 10 + d as int <= u64::MAX as int) by (nonlinear_arith)
                requires
                    acc as int <= (u64::MAX as int - d as int) / 10,
                    0 <= d as int <= 9,
            ;
        }
        acc = acc * 10 + d;
        i = i + 1;
    }
    proof {
        lemma_digit_run_end_is(s@, i as int, i as int);
    }
    Some((acc, n))
}

/// Parses a signed decimal into an `i64`.
pub fn parse_i64(s: &Vec<u8>, start: usize) -> (r: Option<(i64, usize)>)
    requires
        start <= s@.len(),
    ensures
        (match r {
            Option::Some((v, e)) => parse_int_spec(s@, start as int) == Some((v as int, e as int)),
            Option::None => parse_int_spec(s@, start as int) is None,
        }),
        r matches Some((v, e)) ==> start <= e <= s@.len(),
{
    let n = s.len();
    if start < n && s[start] == 45 {
        match parse_u64(s, start + 1) {
            Option::Some((v, e)) => {
                if v > 0x8000_0000_0000_0000u64 {
                    None
                } else {
                    let t = (-(v as i128)) as i64;
                    Some((t, e))
                }
            },
            Option::None => None,
        }
    } else {
        match parse_u64(s, start) {
            Option::Some((v, e)) => {
                if v > i64::MAX as u64 {
                    None
                } else {
                    Some((v as i64, e))
                }
            },
            Option::None => None,
        }
    }
}

/// Parsing starts over the decimal digits of `n` when a non-digit (or the
/// end) follows them, and yields exactly `n`.
pub proof fn lemma_parse_nat_of_dec(s: Seq<u8>, start: int, n: nat)
    requires
        0 <= start,
        n <= u64::MAX,
        start + dec_nat(n).len() <= s.len(),
        s.subrange(start, start + dec_nat(n).len() as int) == dec_nat(n),
        start + dec_nat(n).len() == s.len() || !is_digit_byte(s[start + dec_nat(n).len()]),
    ensures
        parse_nat_spec(s, start) == Some((n as int, start + dec_nat(n).len())),
{
    lemma_dec_nat(n);
    let d = dec_nat(n);
    let e = start + d.len();
    assert(forall|i: int| start <= i < e ==> s[i] == d[i - start]);
    assert(forall|i: int| start <= i < e ==> is_digit_byte(#[trigger] s[i]));
    lemma_digit_run_end_is(s, start, e);
    assert(s.subrange(start, e) == d);
    assert(is_digit_byte(s[start]));
}

/// Parsing starts over the decimal text of `t` when a non-digit (or the
/// end) follows it, and yields exactly `t`.
pub proof fn lemma_parse_int_of_dec(s: Seq<u8>, start: int, t: int)
    requires
        0 <= start,
        i64::MIN <= t <= i64::MAX,
        start + dec_int(t).len() <= s.len(),
        s.subrange(start, start + dec_int(t).len() as int) == dec_int(t),
        start + dec_int(t).len() == s.len() || !is_digit_byte(s[start + dec_int(t).len()]),
    ensures
        parse_int_spec(s, start) == Some((t, start + dec_int(t).len())),
{
    if t >= 0 {
        lemma_parse_int_of_dec_pos(s, start, t);
    } else {
        lemma_parse_int_of_dec_neg(s, start, t);
    }
}

proof fn lemma_parse_int_of_dec_pos(s: Seq<u8>, start: int, t: int)
    requires
        0 <= start,
        0 <= t <= i64::MAX,
        start + dec_int(t).len() <= s.len(),
        s.subrange(start, start + dec_int(t).len() as int) == dec_int(t),
        start + dec_int(t).len() == s.len() || !is_digit_byte(s[start + dec_int(t).len()]),
    ensures
        parse_int_spec(s, start) == Some((t, start + dec_int(t).len())),
{
    let d = dec_int(t);
    assert(d == dec_nat(t as nat));
    lemma_dec_nat(t as nat);
    lemma_parse_nat_of_dec(s, start, t as nat);
    assert(s.subrange(start, start + d.len() as int)[0] == s[start]);
    assert(is_digit_byte(d[0]));
    assert(s[start] != 45);
}

proof fn lemma_parse_int_of_dec_neg(s: Seq<u8>, start: int, t: int)
    requires
        0 <= start,
        i64::MIN <= t < 0,
        start + dec_int(t).len() <= s.len(),
        s.subrange(start, start + dec_int(t).len() as int) == dec_int(t),
        start + dec_int(t).len() == s.len() || !is_digit_byte(s[start + dec_int(t).len()]),
    ensures
        parse_int_spec(s, start) == Some((t, start + dec_int(t).len())),
{
    let d = dec_int(t);
    let m = (-t) as nat;
    lemma_dec_nat(m);
    assert(d == seq![45u8] + dec_nat(m));
    assert(d.len() == 1 + dec_nat(m).len());
    assert(s.subrange(start, start + d.len() as int)[0] == s[start]);
    assert(d[0] == 45);
    assert(s[start] == 45);
    let sub = s.subrange(start + 1, start + 1 + dec_nat(m).len() as int);
    assert(sub =~= dec_nat(m)) by {
        assert forall|i: int| 0 <= i < dec_nat(m).len() implies sub[i] == dec_nat(m)[i] by {
            assert(sub[i] == s[start + 1 + i]);
            assert(s.subrange(start, start + d.len() as int)[1 + i] == s[start + 1 + i]);
            assert(d[1 + i] == dec_nat(m)[i]);
        }
    }
    lemma_parse_nat_of_dec(s, start + 1, m);
    assert(m <= 0x8000_0000_0000_0000);
    assert(-(m as int) == t);
}

} // verus!
