//! Exact decimal numbers, used for JSON floats and float literals, and their
//! exact comparison.
use vstd::prelude::*;

verus! {

/// Ten to the power `n`.
pub open spec fn pow10(n: nat) -> nat
    decreases n,
{
    if n == 0 {
        1
    } else {
        10 * pow10((n - 1) as nat)
    }
}

/// The natural number that a sequence of base-ten digits spells.
pub open spec fn digits_value(s: Seq<u8>) -> nat
    decreases s.len(),
{
    if s.len() == 0 {
        0
    } else {
        (digits_value(s.drop_last()) * 10 + s.last()) as nat
    }
}

/// Every entry is a base-ten digit.
pub open spec fn all_digits(s: Seq<u8>) -> bool {
    forall|i: int| 0 <= i < s.len() ==> #[trigger] s[i] < 10
}

/// Model of a [`Decimal`]: `(-1)^negative * whole.frac`.
pub struct Dec {
    pub negative: bool,
    pub whole: Seq<u8>,
    pub frac: Seq<u8>,
}

/// Both digit sequences hold base-ten digits.
pub open spec fn dec_wf(d: Dec) -> bool {
    all_digits(d.whole) && all_digits(d.frac)
}

/// The value of `d` times `10^k`, an integer when `k` is at least the number
/// of fraction digits.
pub open spec fn dec_scaled(d: Dec, k: nat) -> int {
    let m = digits_value(d.whole + d.frac) * pow10((k - d.frac.len()) as nat);
    if d.negative {
        -m
    } else {
        m as int
    }
}

/// The number of fraction digits that both `a` and `b` can be scaled to.
pub open spec fn common_scale(a: Dec, b: Dec) -> nat {
    if a.frac.len() >= b.frac.len() {
        a.frac.len()
    } else {
        b.frac.len()
    }
}

/// The sign of `a - b`, computed exactly.
pub open spec fn dec_cmp(a: Dec, b: Dec) -> int {
    let k = common_scale(a, b);
    let x = dec_scaled(a, k);
    let y = dec_scaled(b, k);
    if x < y {
        -1
    } else if x == y {
        0
    } else {
        1
    }
}

/// The text of a decimal: an optional `-`, the whole digits, and a `.` with
/// the fraction digits when there are any.
pub open spec fn dec_text(d: Dec) -> Seq<char> {
    let sign = if d.negative { seq!['-'] } else { Seq::<char>::empty() };
    if d.frac.len() == 0 {
        sign + digit_chars(d.whole)
    } else {
        sign + digit_chars(d.whole) + seq!['.'] + digit_chars(d.frac)
    }
}

/// The characters of a sequence of digits.
pub open spec fn digit_chars(ds: Seq<u8>) -> Seq<char> {
    ds.map_values(|x: u8| digit_char(x))
}

/// The character of a base-ten digit.
pub open spec fn digit_char(x: u8) -> char {
    ((x + 48) as u8) as char
}

/// An exact decimal number: a sign, and base-ten digits before and after
/// the point.
#[derive(Debug, PartialEq)]
pub struct Decimal {
    negative: bool,
    whole: Vec<u8>,
    frac: Vec<u8>,
}

impl Decimal {
    pub closed spec fn view(&self) -> Dec {
        Dec { negative: self.negative, whole: self.whole@, frac: self.frac@ }
    }

    #[verifier::type_invariant]
    closed spec fn digits_in_range(self) -> bool {
        all_digits(self.whole@) && all_digits(self.frac@)
    }

    /// A decimal with the given sign and digits.
    pub(crate) fn new(negative: bool, whole: Vec<u8>, frac: Vec<u8>) -> (r: Decimal)
        requires
            all_digits(whole@),
            all_digits(frac@),
        ensures
            r@ == (Dec { negative, whole: whole@, frac: frac@ }),
    {
        Decimal { negative, whole, frac }
    }

    /// A copy of this decimal.
    pub fn copy(&self) -> (r: Decimal)
        ensures
            r@ == self@,
    {
        proof {
            use_type_invariant(self);
        }
        Decimal { negative: self.negative, whole: copy_digits(&self.whole), frac: copy_digits(&self.frac) }
    }
}

fn copy_digits(d: &Vec<u8>) -> (r: Vec<u8>)
    ensures
        r@ == d@,
{
    let mut out: Vec<u8> = Vec::new();
    let mut i: usize = 0;
    while i < d.len()
        invariant
            i <= d.len(),
            out@ == d@.subrange(0, i as int),
        decreases d.len() - i,
    {
        out.push(d[i]);
        i = i + 1;
    }
    assert(d@.subrange(0, d.len() as int) =~= d@);
    out
}

/// `n` zero digits.
pub open spec fn zeros(n: nat) -> Seq<u8> {
    Seq::new(n, |i: int| 0u8)
}

/// The whole digits of `d`, with zeros in front up to `n` digits.
pub open spec fn whole_padded(d: Dec, n: nat) -> Seq<u8> {
    zeros((n - d.whole.len()) as nat) + d.whole
}

/// The fraction digits of `d`, with zeros behind up to `n` digits.
pub open spec fn frac_padded(d: Dec, n: nat) -> Seq<u8> {
    d.frac + zeros((n - d.frac.len()) as nat)
}

proof fn lemma_pow10_positive(n: nat)
    ensures
        pow10(n) >= 1,
    decreases n,
{
    if n > 0 {
        lemma_pow10_positive((n - 1) as nat);
    }
}

proof fn lemma_pow10_add(a: nat, b: nat)
    ensures
        pow10(a + b) == pow10(a) * pow10(b),
    decreases a,
{
    if a > 0 {
        let a1 = (a - 1) as nat;
        lemma_pow10_add(a1, b);
        assert(pow10(a + b) == 10 * pow10(a1 + b));
        assert(pow10(a) == 10 * pow10(a1));
        let x = pow10(a1);
        let y = pow10(b);
        assert(pow10(a + b) == pow10(a) * pow10(b)) by (nonlinear_arith)
            requires
                pow10(a + b) == 10 * (x * y),
                pow10(a) == 10 * x,
                pow10(b) == y,
        ;
    } else {
        assert(pow10(a) == 1);
        assert(pow10(a) * pow10(b) == pow10(b)) by (nonlinear_arith)
            requires
                pow10(a) == 1,
        ;
    }
}

proof fn lemma_digits_concat(x: Seq<u8>, y: Seq<u8>)
    ensures
        digits_value(x + y) == digits_value(x) * pow10(y.len()) + digits_value(y),
    decreases y.len(),
{
    if y.len() == 0 {
        assert(x + y =~= x);
        assert(pow10(0) == 1);
        assert(digits_value(y) == 0);
    } else {
        let y1 = y.drop_last();
        assert((x + y).drop_last() =~= x + y1);
        assert((x + y).last() == y.last());
        lemma_digits_concat(x, y1);
        assert(digits_value(x + y) == digits_value(x + y1) * 10 + y.last());
        assert(digits_value(y) == digits_value(y1) * 10 + y.last());
        assert(pow10(y.len()) == 10 * pow10(y1.len()));
        let a = digits_value(x);
        let b = pow10(y1.len());
        let c = digits_value(y1);
        let d = y.last() as int;
        assert((a * b + c) * 10 + d == a * (10 * b) + (c * 10 + d)) by (nonlinear_arith);
    }
}

proof fn lemma_zeros_value(n: nat)
    ensures
        digits_value(zeros(n)) == 0,
    decreases n,
{
    if n > 0 {
        assert(zeros(n).drop_last() =~= zeros((n - 1) as nat));
        lemma_zeros_value((n - 1) as nat);
    }
}

proof fn lemma_digits_bound(s: Seq<u8>)
    requires
        all_digits(s),
    ensures
        digits_value(s) < pow10(s.len()),
    decreases s.len(),
{
    if s.len() > 0 {
        let s1 = s.drop_last();
        assert(all_digits(s1));
        lemma_digits_bound(s1);
        assert(s.last() < 10);
    }
}

/// Two digit sequences of one length that agree up to `i` and differ there
/// are ordered as their digits at `i` are.
proof fn lemma_digits_lex(x: Seq<u8>, y: Seq<u8>, i: int)
    requires
        x.len() == y.len(),
        all_digits(x),
        all_digits(y),
        0 <= i < x.len(),
        x.subrange(0, i) == y.subrange(0, i),
        x[i] < y[i],
    ensures
        digits_value(x) < digits_value(y),
{
    let n = x.len() as int;
    let p = x.subrange(0, i);
    let rx = x.subrange(i + 1, n);
    let ry = y.subrange(i + 1, n);
    assert(x =~= p.push(x[i]) + rx);
    assert(y =~= p.push(y[i]) + ry);
    lemma_digits_concat(p.push(x[i]), rx);
    lemma_digits_concat(p.push(y[i]), ry);
    assert(p.push(x[i]).drop_last() =~= p);
    assert(p.push(y[i]).drop_last() =~= p);
    assert(all_digits(rx));
    lemma_digits_bound(rx);
    let big_p = pow10(rx.len());
    let v = digits_value(p);
    let xi = x[i] as int;
    let yi = y[i] as int;
    let rxv = digits_value(rx);
    let ryv = digits_value(ry);
    assert((v * 10 + xi) * big_p + rxv < (v * 10 + yi) * big_p + ryv) by (nonlinear_arith)
        requires
            rxv < big_p,
            ryv >= 0,
            xi + 1 <= yi,
            v >= 0,
            xi >= 0,
    {
        assert((v * 10 + xi + 1) * big_p <= (v * 10 + yi) * big_p);
    }
}

/// Padding leaves the value of a decimal, scaled to `f` fraction digits.
proof fn lemma_padded_value(d: Dec, w: nat, f: nat)
    requires
        w >= d.whole.len(),
        f >= d.frac.len(),
    ensures
        digits_value(whole_padded(d, w) + frac_padded(d, f)) == digits_value(d.whole + d.frac)
            * pow10((f - d.frac.len()) as nat),
{
    let zw = zeros((w - d.whole.len()) as nat);
    let zf = zeros((f - d.frac.len()) as nat);
    lemma_digits_concat(whole_padded(d, w), frac_padded(d, f));
    lemma_digits_concat(zw, d.whole);
    lemma_zeros_value((w - d.whole.len()) as nat);
    lemma_digits_concat(d.frac, zf);
    lemma_zeros_value((f - d.frac.len()) as nat);
    lemma_digits_concat(d.whole, d.frac);
    lemma_pow10_add(d.frac.len(), (f - d.frac.len()) as nat);
    let a = digits_value(d.whole);
    let b = digits_value(d.frac);
    let scale_frac = pow10(d.frac.len());
    let scale_pad = pow10((f - d.frac.len()) as nat);
    assert((a * scale_frac + b) * scale_pad == a * (scale_frac * scale_pad) + b * scale_pad) by (nonlinear_arith);
}

/// The magnitude of `d` scaled to `k` fraction digits.
pub open spec fn magnitude(d: Dec, k: nat) -> nat {
    digits_value(d.whole + d.frac) * pow10((k - d.frac.len()) as nat)
}

impl Decimal {
    fn whole_digit(&self, n: usize, i: usize) -> (r: u8)
        requires
            self@.whole.len() <= n,
            i < n,
        ensures
            r == whole_padded(self@, n as nat)[i as int],
    {
        let lead = n - self.whole.len();
        if i < lead {
            0
        } else {
            self.whole[i - lead]
        }
    }

    fn frac_digit(&self, i: usize) -> (r: u8)
        ensures
            self@.frac.len() <= i ==> r == 0,
            i < self@.frac.len() ==> r == self@.frac[i as int],
    {
        if i < self.frac.len() {
            self.frac[i]
        } else {
            0
        }
    }

    #[verifier::rlimit(40)]
    /// The sign of the difference of the magnitudes of `self` and `other`,
    /// both scaled to the larger number of fraction digits.
    fn magnitude_cmp(&self, other: &Decimal) -> (r: i8)
        ensures
            ({
                let k = common_scale(self@, other@);
                let x = magnitude(self@, k);
                let y = magnitude(other@, k);
                &&& x < y ==> r == -1
                &&& x == y ==> r == 0
                &&& x > y ==> r == 1
            }),
    {
        proof {
            use_type_invariant(self);
            use_type_invariant(other);
        }
        let w: usize = if self.whole.len() >= other.whole.len() {
            self.whole.len()
        } else {
            other.whole.len()
        };
        let f: usize = if self.frac.len() >= other.frac.len() {
            self.frac.len()
        } else {
            other.frac.len()
        };
        let ghost k = common_scale(self@, other@);
        let ghost xs = whole_padded(self@, w as nat) + frac_padded(self@, f as nat);
        let ghost ys = whole_padded(other@, w as nat) + frac_padded(other@, f as nat);
        proof {
            assert(f as nat == k);
            lemma_padded_value(self@, w as nat, f as nat);
            lemma_padded_value(other@, w as nat, f as nat);
            assert(all_digits(xs));
            assert(all_digits(ys));
            assert(digits_value(xs) == magnitude(self@, k));
            assert(digits_value(ys) == magnitude(other@, k));
        }
        let mut i: usize = 0;
        while i < w
            invariant
                i <= w,
                w >= self@.whole.len(),
                w >= other@.whole.len(),
                f >= self@.frac.len(),
                f >= other@.frac.len(),
                xs == whole_padded(self@, w as nat) + frac_padded(self@, f as nat),
                ys == whole_padded(other@, w as nat) + frac_padded(other@, f as nat),
                xs.len() == ys.len(),
                all_digits(xs),
                all_digits(ys),
                digits_value(xs) == magnitude(self@, common_scale(self@, other@)),
                digits_value(ys) == magnitude(other@, common_scale(self@, other@)),
                xs.subrange(0, i as int) == ys.subrange(0, i as int),
            decreases w - i,
        {
            let a = self.whole_digit(w, i);
            let b = other.whole_digit(w, i);
            if a < b {
                proof {
                    lemma_digits_lex(xs, ys, i as int);
                }
                return -1;
            }
            if a > b {
                proof {
                    lemma_digits_lex(ys, xs, i as int);
                }
                return 1;
            }
            proof {
                assert(xs.subrange(0, i + 1) =~= xs.subrange(0, i as int).push(xs[i as int]));
                assert(ys.subrange(0, i + 1) =~= ys.subrange(0, i as int).push(ys[i as int]));
            }
            i = i + 1;
        }
        let mut j: usize = 0;
        while j < f
            invariant
                j <= f,
                w >= self@.whole.len(),
                w >= other@.whole.len(),
                f >= self@.frac.len(),
                f >= other@.frac.len(),
                xs == whole_padded(self@, w as nat) + frac_padded(self@, f as nat),
                ys == whole_padded(other@, w as nat) + frac_padded(other@, f as nat),
                xs.len() == ys.len(),
                all_digits(xs),
                all_digits(ys),
                digits_value(xs) == magnitude(self@, common_scale(self@, other@)),
                digits_value(ys) == magnitude(other@, common_scale(self@, other@)),
                xs.subrange(0, w + j) == ys.subrange(0, w + j),
            decreases f - j,
        {
            let a = self.frac_digit(j);
            let b = other.frac_digit(j);
            proof {
                assert(xs[w + j] == a);
                assert(ys[w + j] == b);
            }
            if a < b {
                proof {
                    lemma_digits_lex(xs, ys, w + j);
                }
                return -1;
            }
            if a > b {
                proof {
                    lemma_digits_lex(ys, xs, w + j);
                }
                return 1;
            }
            proof {
                assert(xs.subrange(0, w + j + 1) =~= xs.subrange(0, w + j).push(xs[w + j]));
                assert(ys.subrange(0, w + j + 1) =~= ys.subrange(0, w + j).push(ys[w + j]));
            }
            j = j + 1;
        }
        proof {
            assert(xs =~= xs.subrange(0, w + f));
            assert(ys =~= ys.subrange(0, w + f));
        }
        0
    }

    /// Compares two decimals by their exact values: -1, 0 or 1 as `self`
    /// is below, equal to or above `other`.  Zero equals minus zero.
    pub fn compare(&self, other: &Decimal) -> (r: i8)
        ensures
            r as int == dec_cmp(self@, other@),
    {
        let zero = Decimal { negative: false, whole: Vec::new(), frac: Vec::new() };
        let m = self.magnitude_cmp(other);
        let self_zero = self.magnitude_cmp(&zero) == 0;
        let other_zero = other.magnitude_cmp(&zero) == 0;
        proof {
            let k = common_scale(self@, other@);
            lemma_pow10_positive((k - self@.frac.len()) as nat);
            lemma_pow10_positive((k - other@.frac.len()) as nat);
            lemma_pow10_positive((self@.frac.len() - self@.frac.len()) as nat);
            lemma_pow10_positive((other@.frac.len() - other@.frac.len()) as nat);
            assert(zero@.whole + zero@.frac =~= Seq::<u8>::empty());
            assert(digits_value(Seq::<u8>::empty()) == 0);
            let a = digits_value(self@.whole + self@.frac);
            let b = digits_value(other@.whole + other@.frac);
            let pa = pow10((k - self@.frac.len()) as nat);
            let pb = pow10((k - other@.frac.len()) as nat);
            assert(common_scale(self@, zero@) == self@.frac.len());
            assert(common_scale(other@, zero@) == other@.frac.len());
            assert(pow10(0) == 1);
            assert(magnitude(zero@, self@.frac.len()) == 0);
            assert(magnitude(zero@, other@.frac.len()) == 0);
            assert(((self@.frac.len() - self@.frac.len()) as nat) == 0);
            assert(((other@.frac.len() - other@.frac.len()) as nat) == 0);
            assert(pow10((self@.frac.len() - self@.frac.len()) as nat) == 1);
            assert(magnitude(self@, self@.frac.len()) == a * 1);
            assert(magnitude(self@, self@.frac.len()) == a);
            assert(pow10((other@.frac.len() - other@.frac.len()) as nat) == 1);
            assert(magnitude(other@, other@.frac.len()) == b * 1);
            assert(magnitude(other@, other@.frac.len()) == b);
            assert(a * pa == 0 <==> a == 0) by (nonlinear_arith)
                requires
                    pa >= 1,
                    a >= 0,
            ;
            assert(b * pb == 0 <==> b == 0) by (nonlinear_arith)
                requires
                    pb >= 1,
                    b >= 0,
            ;
        }
        if !self.negative && !other.negative {
            m
        } else if self.negative && other.negative {
            -m
        } else if self_zero && other_zero {
            0
        } else if self.negative {
            -1
        } else {
            1
        }
    }
}

/// The text of one digit.
pub(crate) fn digit_text(d: u8) -> (r: &'static str)
    requires
        d < 10,
    ensures
        r@ == seq![digit_char(d)],
{
    proof {
        reveal_strlit("0");
        reveal_strlit("1");
        reveal_strlit("2");
        reveal_strlit("3");
        reveal_strlit("4");
        reveal_strlit("5");
        reveal_strlit("6");
        reveal_strlit("7");
        reveal_strlit("8");
        reveal_strlit("9");
    }
    let r = match d {
        0 => "0",
        1 => "1",
        2 => "2",
        3 => "3",
        4 => "4",
        5 => "5",
        6 => "6",
        7 => "7",
        8 => "8",
        _ => "9",
    };
    proof {
        assert(r@ =~= seq![digit_char(d)]);
    }
    r
}

/// Appends the digits `ds` to `out`.
fn append_digits(out: &mut String, ds: &Vec<u8>)
    requires
        all_digits(ds@),
    ensures
        final(out)@ == old(out)@ + digit_chars(ds@),
{
    let ghost start = out@;
    let mut i: usize = 0;
    while i < ds.len()
        invariant
            i <= ds.len(),
            all_digits(ds@),
            out@ == start + ds@.take(i as int).map_values(|x: u8| digit_char(x)),
        decreases ds.len() - i,
    {
        assert(ds@[i as int] < 10);
        out.append(digit_text(ds[i]));
        proof {
            assert(ds@.take(i + 1).map_values(|x: u8| digit_char(x)) =~= ds@.take(i as int).map_values(
                |x: u8| digit_char(x),
            ).push(digit_char(ds@[i as int])));
        }
        i = i + 1;
    }
    proof {
        assert(ds@.take(ds.len() as int) =~= ds@);
    }
    assert(out@ == start + digit_chars(ds@));
}

impl Decimal {
    /// The text of this decimal, such as `-12.50` or `3`.
    pub fn to_text(&self) -> (r: String)
        ensures
            r@ == dec_text(self@),
    {
        proof {
            use_type_invariant(self);
            reveal_strlit("-");
            reveal_strlit(".");
        }
        let mut out = String::new();
        if self.negative {
            out.append("-");
        }
        append_digits(&mut out, &self.whole);
        if self.frac.len() > 0 {
            out.append(".");
            append_digits(&mut out, &self.frac);
        }
        proof {
            let sign = if self.negative { seq!['-'] } else { Seq::<char>::empty() };
            assert(Seq::<char>::empty() + sign =~= sign);
        }
        out
    }
}

} // verus!
