//! Decimal rendering of candidate offsets, with zero padding.
//!
//! Candidate names embed a non-negative offset as decimal digits, padded on
//! the left with zeros to a configured minimum width. The search over
//! candidates relies on distinct offsets yielding distinct digit strings,
//! which `lemma_padded_injective` establishes.

use vstd::prelude::*;

verus! {

/// The decimal digits of `n`, most significant first, with no leading zero
/// except for `n == 0` itself, which is rendered as `0`.
pub open spec fn spec_digits(n: nat) -> Seq<u8>
    decreases n,
{
    if n < 10 {
        seq![(n + 0x30) as u8]
    } else {
        spec_digits(n / 10).push((n % 10 + 0x30) as u8)
    }
}

/// A run of `k` zero characters.
pub open spec fn spec_zeros(k: nat) -> Seq<u8> {
    Seq::new(k, |i: int| 0x30u8)
}

/// The digits of `n`, left-padded with zeros to at least `w` characters.
pub open spec fn spec_padded(n: nat, w: nat) -> Seq<u8> {
    if spec_digits(n).len() >= w {
        spec_digits(n)
    } else {
        spec_zeros((w - spec_digits(n).len()) as nat) + spec_digits(n)
    }
}

/// Renders `n` in decimal.
pub fn digits(n: u64) -> (r: Vec<u8>)
    ensures
        r@ == spec_digits(n as nat),
    decreases n,
{
    if n < 10 {
        let mut r: Vec<u8> = Vec::new();
        r.push((n as u8) + 0x30);
        assert(r@ =~= spec_digits(n as nat));
        r
    } else {
        let mut r = digits(n / 10);
        r.push(((n % 10) as u8) + 0x30);
        assert(r@ =~= spec_digits(n as nat));
        r
    }
}

/// Renders `n` in decimal, left-padded with zeros to at least `w` characters.
pub fn padded(n: u64, w: u8) -> (r: Vec<u8>)
    ensures
        r@ == spec_padded(n as nat, w as nat),
{
    let d = digits(n);
    if d.len() >= w as usize {
        return d;
    }
    let mut r: Vec<u8> = Vec::new();
    let k = w as usize - d.len();
    let mut i: usize = 0;
    while i < k
        invariant
            i <= k,
            r@ =~= spec_zeros(i as nat),
        decreases k - i,
    {
        r.push(0x30);
        assert(r@ =~= spec_zeros(i as nat + 1));
        i = i + 1;
    }
    let mut j: usize = 0;
    while j < d.len()
        invariant
            j <= d@.len(),
            d@ == spec_digits(n as nat),
            r@ =~= spec_zeros(k as nat) + d@.take(j as int),
        decreases d@.len() - j,
    {
        r.push(d[j]);
        assert(r@ =~= spec_zeros(k as nat) + d@.take(j as int + 1));
        j = j + 1;
    }
    assert(d@.take(d@.len() as int) =~= d@);
    assert(r@ =~= spec_padded(n as nat, w as nat));
    r
}

/// Every digit string is non-empty.
pub proof fn lemma_digits_len(n: nat)
    ensures
        spec_digits(n).len() >= 1,
    decreases n,
{
    if n >= 10 {
        lemma_digits_len(n / 10);
    }
}

/// A positive number's digits never start with a zero character.
pub proof fn lemma_digits_no_leading_zero(n: nat)
    requires
        n > 0,
    ensures
        spec_digits(n)[0] != 0x30u8,
    decreases n,
{
    if n >= 10 {
        lemma_digits_len(n / 10);
        lemma_digits_no_leading_zero(n / 10);
    }
}

/// Distinct numbers render as distinct digit strings.
pub proof fn lemma_digits_injective(a: nat, b: nat)
    requires
        spec_digits(a) == spec_digits(b),
    ensures
        a == b,
    decreases a,
{
    lemma_digits_len(a);
    lemma_digits_len(b);
    if a < 10 && b < 10 {
        assert(spec_digits(a) == seq![(a + 0x30) as u8]);
        assert(spec_digits(b) == seq![(b + 0x30) as u8]);
        assert(seq![(a + 0x30) as u8].last() == (a + 0x30) as u8);
        assert(seq![(b + 0x30) as u8].last() == (b + 0x30) as u8);
        assert((a + 0x30) as u8 == (b + 0x30) as u8);
    } else if a < 10 && b >= 10 {
        lemma_digits_len(b / 10);
        assert(spec_digits(b).len() >= 2);
    } else if a >= 10 && b < 10 {
        lemma_digits_len(a / 10);
        assert(spec_digits(a).len() >= 2);
    } else {
        let da = spec_digits(a / 10);
        let db = spec_digits(b / 10);
        let xa = (a % 10 + 0x30) as u8;
        let xb = (b % 10 + 0x30) as u8;
        let pa = da.push(xa);
        let pb = db.push(xb);
        assert(spec_digits(a) == pa);
        assert(spec_digits(b) == pb);
        assert(da.len() == db.len());
        assert(da =~= pa.drop_last());
        assert(db =~= pb.drop_last());
        assert(da == db);
        lemma_digits_injective(a / 10, b / 10);
        assert(pa.last() == xa);
        assert(pb.last() == xb);
        assert(a % 10 == b % 10);
        assert(a == 10 * (a / 10) + a % 10) by (nonlinear_arith);
        assert(b == 10 * (b / 10) + b % 10) by (nonlinear_arith);
    }
}

/// Distinct numbers render as distinct strings even after zero padding to a
/// common width.
pub proof fn lemma_padded_injective(a: nat, b: nat, w: nat)
    requires
        spec_padded(a, w) == spec_padded(b, w),
    ensures
        a == b,
{
    let da = spec_digits(a);
    let db = spec_digits(b);
    lemma_digits_len(a);
    lemma_digits_len(b);
    if da.len() >= w && db.len() >= w {
        lemma_digits_injective(a, b);
    } else if da.len() < w && db.len() < w {
        // The digit parts must have the same length: were one shorter, the
        // longer one's first digit would fall inside the other's zero
        // padding, forcing a leading zero on a positive number.
        if da.len() < db.len() {
            let kb = w - db.len();
            assert(db[0] == spec_padded(b, w)[kb]);
            assert(spec_padded(a, w)[kb] == 0x30u8);
            if b > 0 {
                lemma_digits_no_leading_zero(b);
            }
            assert(b == 0);
            assert(db.len() == 1);
        } else if db.len() < da.len() {
            let ka = w - da.len();
            assert(da[0] == spec_padded(a, w)[ka]);
            assert(spec_padded(b, w)[ka] == 0x30u8);
            if a > 0 {
                lemma_digits_no_leading_zero(a);
            }
            assert(a == 0);
            assert(da.len() == 1);
        }
        assert(da.len() == db.len());
        let pa = spec_padded(a, w);
        let pb = spec_padded(b, w);
        let k = w - da.len();
        assert(pa.len() == w);
        assert(da =~= pa.subrange(k as int, w as int));
        assert(db =~= pb.subrange(k as int, w as int));
        assert(da == db);
        lemma_digits_injective(a, b);
    } else if da.len() < w {
        // padded(a) has length w, so db.len() == w > da.len(): db starts with
        // a zero taken from a's padding, which forces b == 0, whose single
        // digit cannot be shorter than da.
        assert(spec_padded(a, w).len() == w);
        assert(db[0] == spec_padded(a, w)[0]);
        assert(db[0] == 0x30u8);
        if b > 0 {
            lemma_digits_no_leading_zero(b);
        }
        assert(b == 0);
        assert(db.len() == 1);
    } else {
        assert(spec_padded(b, w).len() == w);
        assert(da[0] == spec_padded(b, w)[0]);
        assert(da[0] == 0x30u8);
        if a > 0 {
            lemma_digits_no_leading_zero(a);
        }
        assert(a == 0);
        assert(da.len() == 1);
    }
}

} // verus!
