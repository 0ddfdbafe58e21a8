//! Token amounts: unbounded natural numbers, held as big-endian bytes with
//! no leading zero, with the arithmetic that fees and balances need.
use vstd::prelude::*;

verus! {

/// The number that big-endian bytes write in base 256.
pub open spec fn bytes_value(s: Seq<u8>) -> nat
    decreases s.len(),
{
    if s.len() == 0 {
        0
    } else {
        (bytes_value(s.drop_last()) * 256 + s.last()) as nat
    }
}

/// A token amount, of any size.
#[derive(Debug, Clone, PartialEq, Eq)]
pub struct Amount {
    digits: Vec<u8>,
}

impl View for Amount {
    type V = nat;

    closed spec fn view(&self) -> nat {
        bytes_value(self.digits@)
    }
}

/// The value of the first `i + 1` bytes, from that of the first `i`.
proof fn lemma_take_step(s: Seq<u8>, i: int)
    requires
        0 <= i < s.len(),
    ensures
        bytes_value(s.take(i + 1)) == bytes_value(s.take(i)) * 256 + s[i],
{
    assert(s.take(i + 1).drop_last() =~= s.take(i));
}

/// A leading zero byte writes nothing.
proof fn lemma_leading_zero(s: Seq<u8>)
    requires
        s.len() > 0,
        s[0] == 0,
    ensures
        bytes_value(s) == bytes_value(s.skip(1)),
    decreases s.len(),
{
    if s.len() == 1 {
        assert(bytes_value(s.drop_last()) == 0);
        assert(bytes_value(s.skip(1)) == 0);
    } else {
        lemma_leading_zero(s.drop_last());
        assert(s.skip(1).drop_last() =~= s.drop_last().skip(1));
        assert(s.skip(1).last() == s.last());
    }
}

/// The bytes of `v` from index `k` on, where all before `k` are zero.
fn strip_from(v: &Vec<u8>, k: usize) -> (r: Vec<u8>)
    requires
        k <= v.len(),
        forall|j: int| 0 <= j < k ==> v@[j] == 0,
    ensures
        bytes_value(r@) == bytes_value(v@),
        r@.len() == 0 || r@[0] != 0,
    decreases v.len() - k,
{
    if k < v.len() && v[k] == 0 {
        strip_from(v, k + 1)
    } else {
        let mut r: Vec<u8> = Vec::new();
        let mut i = k;
        while i < v.len()
            invariant
                k <= i <= v.len(),
                r@ =~= v@.subrange(k as int, i as int),
            decreases v.len() - i,
        {
            r.push(v[i]);
            i = i + 1;
        }
        proof {
            lemma_zeros_prefix(v@, k as int);
        }
        r
    }
}

/// Zero bytes before index `k` write nothing.
proof fn lemma_zeros_prefix(s: Seq<u8>, k: int)
    requires
        0 <= k <= s.len(),
        forall|j: int| 0 <= j < k ==> s[j] == 0,
    ensures
        bytes_value(s) == bytes_value(s.subrange(k, s.len() as int)),
    decreases k,
{
    if k == 0 {
        assert(s.subrange(0, s.len() as int) =~= s);
    } else {
        lemma_leading_zero(s);
        let t = s.skip(1);
        assert forall|j: int| 0 <= j < k - 1 implies t[j] == 0 by {
            assert(t[j] == s[j + 1]);
        }
        lemma_zeros_prefix(t, k - 1);
        assert(t.subrange(k - 1, t.len() as int) =~= s.subrange(k, s.len() as int));
    }
}

/// The big-endian bytes of `x`, with no leading zero.
fn u128_digits(x: u128) -> (r: Vec<u8>)
    ensures
        bytes_value(r@) == x,
    decreases x,
{
    if x == 0 {
        Vec::new()
    } else {
        let mut r = u128_digits(x / 256);
        let ghost before = r@;
        r.push((x % 256) as u8);
        assert(r@.drop_last() =~= before);
        r
    }
}

/// The sum of the values of the first `i` bytes of `a`, the first `j` of
/// `b`, and a carry.
fn add_digits(a: &Vec<u8>, i: usize, b: &Vec<u8>, j: usize, carry: u8) -> (r: Vec<u8>)
    requires
        i <= a.len(),
        j <= b.len(),
        carry <= 1,
    ensures
        bytes_value(r@) == bytes_value(a@.take(i as int)) + bytes_value(b@.take(j as int)) + carry,
    decreases i + j,
{
    proof {
        if i > 0 {
            lemma_take_step(a@, i - 1);
        }
        if j > 0 {
            lemma_take_step(b@, j - 1);
        }
        assert(bytes_value(a@.take(0)) == 0);
        assert(bytes_value(b@.take(0)) == 0);
    }
    if i == 0 && j == 0 {
        let mut r: Vec<u8> = Vec::new();
        if carry > 0 {
            r.push(carry);
            assert(bytes_value(r@.drop_last()) == 0);
        }
        return r;
    }
    let da: u16 = if i > 0 { a[i - 1] as u16 } else { 0 };
    let db: u16 = if j > 0 { b[j - 1] as u16 } else { 0 };
    let t: u16 = da + db + carry as u16;
    let ni: usize = if i > 0 { i - 1 } else { 0 };
    let nj: usize = if j > 0 { j - 1 } else { 0 };
    let mut r = add_digits(a, ni, b, nj, (t / 256) as u8);
    let ghost before = r@;
    r.push((t % 256) as u8);
    assert(r@.drop_last() =~= before);
    r
}

/// The value of the first `i` bytes of `a`, less that of the first `j` of
/// `b` and a borrow; `None` where that is below zero.
fn sub_digits(a: &Vec<u8>, i: usize, b: &Vec<u8>, j: usize, borrow: u8) -> (r: Option<Vec<u8>>)
    requires
        i <= a.len(),
        j <= b.len(),
        borrow <= 1,
    ensures
        r matches Some(v) ==> bytes_value(v@) == bytes_value(a@.take(i as int)) - bytes_value(b@.take(j as int)) - borrow,
        r is None <==> bytes_value(a@.take(i as int)) < bytes_value(b@.take(j as int)) + borrow,
    decreases i + j,
{
    proof {
        if i > 0 {
            lemma_take_step(a@, i - 1);
        }
        if j > 0 {
            lemma_take_step(b@, j - 1);
        }
        assert(bytes_value(a@.take(0)) == 0);
        assert(bytes_value(b@.take(0)) == 0);
    }
    if i == 0 && j == 0 {
        if borrow > 0 {
            return None;
        }
        return Some(Vec::new());
    }
    let da: u16 = if i > 0 { a[i - 1] as u16 } else { 0 };
    let db: u16 = if j > 0 { b[j - 1] as u16 } else { 0 };
    let ni: usize = if i > 0 { i - 1 } else { 0 };
    let nj: usize = if j > 0 { j - 1 } else { 0 };
    let (d, next): (u16, u8) = if da >= db + borrow as u16 {
        (da - db - borrow as u16, 0)
    } else {
        (da + 256 - db - borrow as u16, 1)
    };
    match sub_digits(a, ni, b, nj, next) {
        None => None,
        Some(mut r) => {
            let ghost before = r@;
            r.push(d as u8);
            assert(r@.drop_last() =~= before);
            Some(r)
        },
    }
}

/// The value of the first `i` bytes of `a` times `f`, plus a carry.
fn mul_digits(a: &Vec<u8>, i: usize, f: u64, carry: u128) -> (r: Vec<u8>)
    requires
        i <= a.len(),
        carry <= f,
    ensures
        bytes_value(r@) == bytes_value(a@.take(i as int)) * f + carry,
    decreases i,
{
    if i == 0 {
        assert(bytes_value(a@.take(0)) == 0);
        return u128_digits(carry);
    }
    proof {
        lemma_take_step(a@, i - 1);
    }
    let da: u128 = a[i - 1] as u128;
    assert(da * (f as u128) <= 255 * (f as u128)) by (nonlinear_arith)
        requires da <= 255;
    let t: u128 = da * (f as u128) + carry;
    let mut r = mul_digits(a, i - 1, f, t / 256);
    let ghost before = r@;
    r.push((t % 256) as u8);
    assert(r@.drop_last() =~= before);
    let ghost p = bytes_value(a@.take(i - 1));
    assert((p * 256 + da) * f == p * f * 256 + da * f) by (nonlinear_arith);
    r
}

impl Amount {
    /// The amount 0.
    pub fn zero() -> (r: Self)
        ensures
            r@ == 0,
    {
        Amount { digits: Vec::new() }
    }

    /// The amount `x`.
    pub fn from_u128(x: u128) -> (r: Self)
        ensures
            r@ == x,
    {
        let v = u128_digits(x);
        let digits = strip_from(&v, 0);
        Amount { digits }
    }

    /// The amount that big-endian bytes write.
    pub fn from_bytes_be(bytes: &Vec<u8>) -> (r: Self)
        ensures
            r@ == bytes_value(bytes@),
    {
        Amount { digits: strip_from(bytes, 0) }
    }

    /// The big-endian bytes of the amount, with no leading zero.
    pub fn to_bytes_be(&self) -> (r: Vec<u8>)
        ensures
            bytes_value(r@) == self@,
    {
        self.digits.clone()
    }

    /// A copy of the amount.
    pub fn duplicate(&self) -> (r: Self)
        ensures
            r@ == self@,
    {
        Amount { digits: self.digits.clone() }
    }

    /// Whether the amount is 0.
    pub fn is_zero(&self) -> (r: bool)
        ensures
            r == (self@ == 0),
    {
        let z = Amount::zero();
        self.le(&z)
    }

    /// The sum of two amounts.
    pub fn add(&self, other: &Amount) -> (r: Self)
        ensures
            r@ == self@ + other@,
    {
        let v = add_digits(&self.digits, self.digits.len(), &other.digits, other.digits.len(), 0);
        assert(self.digits@.take(self.digits.len() as int) =~= self.digits@);
        assert(other.digits@.take(other.digits.len() as int) =~= other.digits@);
        Amount { digits: strip_from(&v, 0) }
    }

    /// The difference of two amounts, or `None` where `other` is the larger.
    pub fn checked_sub(&self, other: &Amount) -> (r: Option<Self>)
        ensures
            r matches Some(d) ==> d@ == self@ - other@,
            r is None <==> self@ < other@,
    {
        assert(self.digits@.take(self.digits.len() as int) =~= self.digits@);
        assert(other.digits@.take(other.digits.len() as int) =~= other.digits@);
        match sub_digits(&self.digits, self.digits.len(), &other.digits, other.digits.len(), 0) {
            None => None,
            Some(v) => Some(Amount { digits: strip_from(&v, 0) }),
        }
    }

    /// Whether this amount is at most `other`.
    pub fn le(&self, other: &Amount) -> (r: bool)
        ensures
            r == (self@ <= other@),
    {
        other.checked_sub(self).is_some()
    }

    /// Whether two amounts are equal.
    pub fn same(&self, other: &Amount) -> (r: bool)
        ensures
            r == (self@ == other@),
    {
        self.le(other) && other.le(self)
    }

    /// The amount times `f`.
    pub fn mul_small(&self, f: u64) -> (r: Self)
        ensures
            r@ == self@ * f,
    {
        assert(self.digits@.take(self.digits.len() as int) =~= self.digits@);
        let v = mul_digits(&self.digits, self.digits.len(), f, 0);
        Amount { digits: strip_from(&v, 0) }
    }

    /// The amount divided by `d`, rounding down.
    pub fn div_small(&self, d: u64) -> (r: Self)
        requires
            d > 0,
        ensures
            r@ == self@ / (d as nat),
    {
        let a = &self.digits;
        let n = a.len();
        let dd: u128 = d as u128;
        let mut q: Vec<u8> = Vec::new();
        let mut rem: u128 = 0;
        let mut i: usize = 0;
        assert(bytes_value(a@.take(0)) == 0);
        assert(bytes_value(q@) == 0);
        while i < n
            invariant
                n == a.len(),
                i <= n,
                dd == d,
                dd > 0,
                rem < dd,
                bytes_value(a@.take(i as int)) == dd * bytes_value(q@) + rem,
            decreases n - i,
        {
            proof {
                lemma_take_step(a@, i as int);
            }
            let ai: u128 = a[i] as u128;
            assert(rem * 256 + ai < dd * 256) by (nonlinear_arith)
                requires rem < dd, ai < 256;
            let t: u128 = rem * 256 + ai;
            let qi: u128 = t / dd;
            assert(qi < 256) by (nonlinear_arith)
                requires t < dd * 256, qi == t / dd, dd > 0;
            let ghost qv = bytes_value(q@);
            let ghost before = q@;
            q.push(qi as u8);
            assert(q@.drop_last() =~= before);
            let ghost pv = bytes_value(a@.take(i as int));
            assert(pv * 256 + ai == dd * (qv * 256 + qi) + t % dd) by (nonlinear_arith)
                requires pv == dd * qv + rem, t == rem * 256 + ai, qi == t / dd, dd > 0;
            rem = t % dd;
            i = i + 1;
        }
        assert(a@.take(n as int) =~= a@);
        let ghost qv = bytes_value(q@);
        assert(((dd * qv + rem) as nat) / (dd as nat) == qv) by (nonlinear_arith)
            requires rem < dd, dd > 0;
        Amount { digits: strip_from(&q, 0) }
    }
}

} // verus!
