//! Decimal text encoding of the unsigned 64-bit fields that travel on the
//! wire (sizes, checksums, chunk indices).

use vstd::prelude::*;

verus! {

/// The decimal digit sequence of `n`, most significant digit first.
pub open spec fn dec_digits(n: nat) -> Seq<u8>
    decreases n,
{
    if n < 10 {
        seq![(48 + n) as u8]
    } else {
        dec_digits(n / 10).push((48 + n % 10) as u8)
    }
}

pub open spec fn is_digit(b: u8) -> bool {
    48 <= b <= 57
}

pub open spec fn all_digits(s: Seq<u8>) -> bool {
    forall|i: int| 0 <= i < s.len() ==> is_digit(#[trigger] s[i])
}

/// The numeric value of a digit string (0 when empty).
pub open spec fn dec_val(s: Seq<u8>) -> nat
    decreases s.len(),
{
    if s.len() == 0 {
        0
    } else {
        dec_val(s.drop_last()) * 10 + (s.last() - 48) as nat
    }
}

proof fn lemma_dec_digits_shape(n: nat)
    ensures
        dec_digits(n).len() >= 1,
        all_digits(dec_digits(n)),
    decreases n,
{
    if n >= 10 {
        lemma_dec_digits_shape(n / 10);
        assert forall|i: int| 0 <= i < dec_digits(n).len() implies is_digit(
            #[trigger] dec_digits(n)[i],
        ) by {
            if i < dec_digits(n / 10).len() {
                assert(dec_digits(n)[i] == dec_digits(n / 10)[i]);
            }
        }
    }
}

/// Formatting then evaluating a number gives the number back.
pub proof fn lemma_dec_round_trip(n: nat)
    ensures
        dec_digits(n).len() >= 1,
        all_digits(dec_digits(n)),
        dec_val(dec_digits(n)) == n,
    decreases n,
{
    lemma_dec_digits_shape(n);
    if n < 10 {
        assert(dec_digits(n).drop_last() =~= Seq::<u8>::empty());
        assert(dec_val(Seq::<u8>::empty()) == 0);
    } else {
        lemma_dec_round_trip(n / 10);
        assert(dec_digits(n).drop_last() =~= dec_digits(n / 10));
        assert(dec_digits(n).last() == (48 + n % 10) as u8);
        assert(((48 + n % 10) as u8 - 48) as nat == n % 10);
        assert(dec_val(dec_digits(n)) == dec_val(dec_digits(n).drop_last()) * 10 + (dec_digits(
            n,
        ).last() - 48) as nat);
        vstd::arithmetic::div_mod::lemma_fundamental_div_mod(n as int, 10);
    }
}

/// Render `n` as decimal text.
pub fn fmt_u64(n: u64) -> (r: Vec<u8>)
    ensures
        r@ == dec_digits(n as nat),
{
    let mut rev: Vec<u8> = Vec::new();
    let mut m: u64 = n;
    while m >= 10
        invariant
            dec_digits(n as nat) == dec_digits(m as nat) + rev@.reverse(),
        decreases m,
    {
        let d: u8 = (m % 10) as u8;
        rev.push(48 + d);
        proof {
            assert(rev@.reverse() =~= seq![(48 + d) as u8] + rev@.drop_last().reverse());
            assert(dec_digits(m as nat) =~= dec_digits(m as nat / 10).push(
                (48 + m as nat % 10) as u8,
            ));
            assert(dec_digits(m as nat / 10).push((48 + m as nat % 10) as u8) + rev@.drop_last().reverse()
                =~= dec_digits(m as nat / 10) + rev@.reverse());
        }
        m = m / 10;
    }
    let mut r: Vec<u8> = Vec::new();
    r.push(48 + (m as u8));
    proof {
        assert(dec_digits(m as nat) =~= seq![(48 + m as nat) as u8]);
        assert(r@ =~= dec_digits(m as nat));
    }
    let ghost whole = dec_digits(n as nat);
    proof {
        assert(whole.len() == 1 + rev@.len());
        assert(r@ =~= whole.take(1));
    }
    let mut i: usize = rev.len();
    while i > 0
        invariant
            i <= rev.len(),
            whole == dec_digits(n as nat),
            whole.len() == 1 + rev@.len(),
            whole == whole.take(1) + rev@.reverse(),
            r@ == whole.take(1 + rev@.len() - i),
        decreases i,
    {
        i = i - 1;
        let d = rev[i];
        proof {
            assert(whole[1 + rev@.len() - 1 - i] == rev@.reverse()[rev@.len() - 1 - i]);
            assert(rev@.reverse()[rev@.len() - 1 - i] == rev@[i as int]);
            assert(r@.push(d) =~= whole.take(1 + rev@.len() - i));
        }
        r.push(d);
    }
    proof {
        assert(whole.take(1 + rev@.len() as int) =~= whole);
    }
    r
}

/// Parse unsigned decimal text: `Some(n)` exactly when `s` is a nonempty
/// digit string whose value fits in a `u64`.
pub fn parse_u64(s: &[u8]) -> (r: Option<u64>)
    ensures
        match r {
            Some(n) => s@.len() > 0 && all_digits(s@) && dec_val(s@) == n,
            None => !(s@.len() > 0 && all_digits(s@) && dec_val(s@) <= u64::MAX),
        },
{
    if s.len() == 0 {
        return None;
    }
    let mut val: u64 = 0;
    let mut i: usize = 0;
    while i < s.len()
        invariant
            0 <= i <= s@.len(),
            all_digits(s@.take(i as int)),
            val == dec_val(s@.take(i as int)),
        decreases s@.len() - i,
    {
        let b = s[i];
        if b < 48 || b > 57 {
            assert(!is_digit(s@[i as int]));
            return None;
        }
        let d: u64 = (b - 48) as u64;
        if val > (u64::MAX - d) / 10 {
            proof {
                lemma_dec_val_prefix_bound(s@, i as int + 1);
                assert(s@.take(i as int + 1).drop_last() =~= s@.take(i as int));
                assert(dec_val(s@.take(i as int + 1)) == val * 10 + d);
                assert(val * 10 + d > u64::MAX) by (nonlinear_arith)
                    requires
                        val > (u64::MAX - d) / 10,
                        d <= 9,
                ;
            }
            return None;
        }
        proof {
            assert(val * 10 + d <= u64::MAX) by (nonlinear_arith)
                requires
                    val <= (u64::MAX - d) / 10,
                    d <= 9,
            ;
            assert(s@.take(i as int + 1).drop_last() =~= s@.take(i as int));
        }
        val = val * 10 + d;
        i = i + 1;
    }
    proof {
        assert(s@.take(s@.len() as int) =~= s@);
    }
    Some(val)
}

/// A digit string is worth at least any of its prefixes.
pub proof fn lemma_dec_val_prefix_bound(s: Seq<u8>, i: int)
    requires
        0 <= i <= s.len(),
    ensures
        dec_val(s) >= dec_val(s.take(i)),
    decreases s.len() - i,
{
    if i < s.len() {
        lemma_dec_val_prefix_bound(s, i + 1);
        assert(s.take(i + 1).drop_last() =~= s.take(i));
        assert(dec_val(s.take(i + 1)) == dec_val(s.take(i)) * 10 + (s.take(i + 1).last()
            - 48) as nat);
        assert(dec_val(s.take(i)) * 10 >= dec_val(s.take(i))) by (nonlinear_arith);
    } else {
        assert(s.take(i) =~= s);
    }
}


/// A positive number's decimal text never starts with a zero digit.
pub proof fn lemma_dec_digits_no_leading_zero(n: nat)
    requires
        n > 0,
    ensures
        dec_digits(n)[0] != 48,
    decreases n,
{
    if n >= 10 {
        lemma_dec_digits_no_leading_zero(n / 10);
        assert(dec_digits(n)[0] == dec_digits(n / 10)[0]);
    }
}

} // verus!
