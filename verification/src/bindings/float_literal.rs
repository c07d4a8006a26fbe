//! Decimal number literals as `str::parse::<f64>` reads them, and when the value it
//! gives is infinite: the value reaches `2^1024 - 2^970`, halfway between the largest
//! finite `f64` and `2^1024`, from where rounding to nearest (ties to even) gives
//! infinity.
use vstd::prelude::*;
use crate::text::{chars_of, first_match};

verus! {

/// A decimal digit.
pub open spec fn is_digit(c: char) -> bool {
    '0' <= c && c <= '9'
}

/// Every character of `s` is a decimal digit.
pub open spec fn all_digits(s: Seq<char>) -> bool {
    forall|i: int| 0 <= i < s.len() ==> is_digit(#[trigger] s[i])
}

/// The value of a decimal digit.
pub open spec fn digit_value(c: char) -> nat {
    (c as int - 48) as nat
}

/// The value of a string of decimal digits.
pub open spec fn digits_value(s: Seq<char>) -> nat
    decreases s.len(),
{
    if s.len() == 0 {
        0
    } else {
        digits_value(s.drop_last()) * 10 + digit_value(s.last())
    }
}

/// Ten to the power `k`.
pub open spec fn pow10(k: nat) -> nat
    decreases k,
{
    if k == 0 {
        1
    } else {
        10 * pow10((k - 1) as nat)
    }
}

/// `n * 10^k >= t`, for a power of ten that may be negative.
pub open spec fn scaled_at_least(n: nat, k: int, t: nat) -> bool {
    if k >= 0 {
        n * pow10(k as nat) >= t
    } else {
        n >= t * pow10((-k) as nat)
    }
}

/// The digits of `2^1024 - 2^970`.
pub open spec fn infinity_limit_digits() -> Seq<char> {
    "179769313486231580793728971405303415079934132710037826936173778980444968292764750946649017977587207096330286416692887910946555547851940402630657488671505820681908902000708383676273854845817711531764475730270069855571366959622842914819860834936475292719074168444365510704342711559699508093042880177904174497792"@
}

/// `2^1024 - 2^970`: a decimal value at least this large reads as an infinite `f64`,
/// one below it as a finite one.
pub open spec fn infinity_limit() -> nat {
    digits_value(infinity_limit_digits())
}

/// The exponent digits as the `f64` reading takes them, after `acc`: digit by digit,
/// leaving the value as it is once it has reached 65536.
pub open spec fn exponent_digits_value(s: Seq<char>, acc: nat) -> nat
    decreases s.len(),
{
    if s.len() == 0 {
        acc
    } else {
        exponent_digits_value(
            s.drop_first(),
            if acc < 65536 {
                acc * 10 + digit_value(s[0])
            } else {
                acc
            },
        )
    }
}

/// Where the exponent of a literal begins: its first `e` or `E`.
pub open spec fn exponent_mark(u: Seq<char>) -> Option<int> {
    first_match(0, u.len() as int, |i: int| u[i] == 'e' || u[i] == 'E')
}

/// The literal up to its exponent.
pub open spec fn mantissa_part(u: Seq<char>) -> Seq<char> {
    match exponent_mark(u) {
        Some(p) => u.take(p),
        None => u,
    }
}

/// The first `.` of a mantissa.
pub open spec fn point_at(m: Seq<char>) -> Option<int> {
    first_match(0, m.len() as int, |i: int| m[i] == '.')
}

/// The digits of a mantissa before its point.
pub open spec fn integer_digits(m: Seq<char>) -> Seq<char> {
    match point_at(m) {
        Some(p) => m.take(p),
        None => m,
    }
}

/// The digits of a mantissa after its point.
pub open spec fn fraction_digits(m: Seq<char>) -> Seq<char> {
    match point_at(m) {
        Some(p) => m.skip(p + 1),
        None => seq![],
    }
}

/// The exponent written after the `e`: an optional sign and at least one digit.
pub open spec fn exponent_read(x: Seq<char>) -> Option<int> {
    let signed = x.len() > 0 && (x[0] == '-' || x[0] == '+');
    let ds = if signed {
        x.drop_first()
    } else {
        x
    };
    if ds.len() > 0 && all_digits(ds) {
        let e = exponent_digits_value(ds, 0);
        Some(
            if signed && x[0] == '-' {
                -e
            } else {
                e as int
            },
        )
    } else {
        None
    }
}

/// An unsigned decimal literal as the `f64` reading takes it (digits, an optional `.`
/// and digits, at least one digit in all, then an optional exponent): the integer its
/// digits make and the power of ten it is scaled by. `None` for other text.
pub open spec fn decimal_scaled(u: Seq<char>) -> Option<(nat, int)> {
    let m = mantissa_part(u);
    let d1 = integer_digits(m);
    let d2 = fraction_digits(m);
    let e = match exponent_mark(u) {
        Some(p) => exponent_read(u.skip(p + 1)),
        None => Some(0int),
    };
    if all_digits(d1) && all_digits(d2) && d1.len() + d2.len() > 0 && e is Some {
        Some((digits_value(d1 + d2), e->0 - d2.len()))
    } else {
        None
    }
}

/// An unsigned decimal literal that reads as an infinite `f64`.
pub open spec fn reads_as_infinity(u: Seq<char>) -> bool {
    match decimal_scaled(u) {
        Some((n, k)) => scaled_at_least(n, k, infinity_limit()),
        None => false,
    }
}

/// Lexicographic order of digit strings of one length.
pub open spec fn lex_ge(a: Seq<char>, b: Seq<char>) -> bool
    decreases a.len(),
{
    if a.len() == 0 || b.len() == 0 {
        true
    } else if a[0] != b[0] {
        a[0] > b[0]
    } else {
        lex_ge(a.drop_first(), b.drop_first())
    }
}

/// The first `n` digits of `s`, filled up with zeros.
pub open spec fn padded(s: Seq<char>, n: nat) -> Seq<char> {
    Seq::new(n, |i: int| if i < s.len() { s[i] } else { '0' })
}

proof fn lemma_pow10_adds(a: nat, b: nat)
    ensures
        pow10(a + b) == pow10(a) * pow10(b),
    decreases a,
{
    if a > 0 {
        lemma_pow10_adds((a - 1) as nat, b);
        assert(pow10(a + b) == 10 * pow10((a - 1 + b) as nat));
        let x = pow10((a - 1) as nat);
        let y = pow10(b);
        assert(pow10(a) == 10 * x);
        assert(pow10(((a - 1) as nat + b) as nat) == x * y);
        assert(10 * (x * y) == (10 * x) * y) by (nonlinear_arith);
    } else {
        let y = pow10(b);
        assert(a + b == b);
        assert(1 * y == y);
    }
}

proof fn lemma_pow10_positive(a: nat)
    ensures
        pow10(a) >= 1,
    decreases a,
{
    if a > 0 {
        lemma_pow10_positive((a - 1) as nat);
    }
}

proof fn lemma_pow10_increases(a: nat, b: nat)
    requires
        a <= b,
    ensures
        pow10(a) <= pow10(b),
    decreases b - a,
{
    if a < b {
        lemma_pow10_increases(a, (b - 1) as nat);
        lemma_pow10_positive((b - 1) as nat);
    }
}

/// A string of `n` digits has a value below `10^n`.
proof fn lemma_digits_below(s: Seq<char>)
    requires
        all_digits(s),
    ensures
        digits_value(s) < pow10(s.len()),
    decreases s.len(),
{
    if s.len() > 0 {
        let t = s.drop_last();
        assert(all_digits(t)) by {
            assert forall|i: int| 0 <= i < t.len() implies is_digit(#[trigger] t[i]) by {
                assert(t[i] == s[i]);
            }
        }
        lemma_digits_below(t);
        assert(is_digit(s[s.len() - 1]));
        let v = digits_value(t);
        let p = pow10(t.len());
        assert(v * 10 + 9 < 10 * p) by (nonlinear_arith)
            requires
                v < p,
        ;
    }
}

/// The value of a digit string is its first digit times a power of ten plus the value
/// of the rest.
proof fn lemma_digits_front(s: Seq<char>)
    requires
        s.len() >= 1,
    ensures
        digits_value(s) == digit_value(s[0]) * pow10((s.len() - 1) as nat) + digits_value(
            s.drop_first(),
        ),
    decreases s.len(),
{
    let d0 = digit_value(s[0]);
    if s.len() == 1 {
        assert(s.drop_last().len() == 0);
        assert(s.drop_first().len() == 0);
        assert(pow10(0) == 1);
        assert(d0 * 1 == d0) by (nonlinear_arith);
        assert(digits_value(s) == digits_value(s.drop_last()) * 10 + digit_value(s.last()));
        assert(digits_value(s.drop_last()) == 0);
        assert(digits_value(s.drop_first()) == 0);
    } else {
        let t = s.drop_last();
        lemma_digits_front(t);
        assert(t[0] == s[0]);
        assert(s.drop_first().drop_last() =~= t.drop_first());
        assert(s.drop_first().last() == s.last());
        let p = pow10((t.len() - 1) as nat);
        let r = digits_value(t.drop_first());
        let dl = digit_value(s.last());
        assert(digits_value(t) == d0 * p + r);
        assert(digits_value(s) == digits_value(t) * 10 + dl);
        assert(digits_value(s.drop_first()) == r * 10 + dl);
        assert(pow10((s.len() - 1) as nat) == 10 * p);
        assert((d0 * p + r) * 10 == d0 * (10 * p) + r * 10) by (nonlinear_arith);
    }
}

/// A digit string that does not begin with `0` has a value of at least `10^(n-1)`.
proof fn lemma_digits_above(s: Seq<char>)
    requires
        s.len() >= 1,
        is_digit(s[0]),
        s[0] != '0',
    ensures
        digits_value(s) >= pow10((s.len() - 1) as nat),
{
    lemma_digits_front(s);
    let p = pow10((s.len() - 1) as nat);
    let d = digit_value(s[0]);
    assert(d * p >= p) by (nonlinear_arith)
        requires
            d >= 1,
    ;
}

/// Zeros in front of a digit string leave its value as it is.
proof fn lemma_leading_zeros(s: Seq<char>, z: int)
    requires
        0 <= z <= s.len(),
        forall|i: int| 0 <= i < z ==> #[trigger] s[i] == '0',
    ensures
        digits_value(s) == digits_value(s.skip(z)),
    decreases s.len(),
{
    if s.len() > z {
        let t = s.drop_last();
        lemma_leading_zeros(t, z);
        assert(s.skip(z).drop_last() =~= t.skip(z));
        assert(s.skip(z).last() == s.last());
    } else {
        assert(s.skip(z).len() == 0);
        lemma_all_zeros(s);
    }
}

proof fn lemma_all_zeros(s: Seq<char>)
    requires
        forall|i: int| 0 <= i < s.len() ==> #[trigger] s[i] == '0',
    ensures
        digits_value(s) == 0,
    decreases s.len(),
{
    if s.len() > 0 {
        lemma_all_zeros(s.drop_last());
    }
}

/// Zeros after a digit string multiply its value by a power of ten.
proof fn lemma_trailing_zeros(s: Seq<char>, m: nat)
    ensures
        digits_value(s + Seq::new(m, |i: int| '0')) == digits_value(s) * pow10(m),
    decreases m,
{
    let w = s + Seq::new(m, |i: int| '0');
    if m == 0 {
        assert(w =~= s);
        let v = digits_value(s);
        assert(v * 1 == v);
    } else {
        let m1 = (m - 1) as nat;
        lemma_trailing_zeros(s, m1);
        assert(w.drop_last() =~= s + Seq::new(m1, |i: int| '0'));
        assert(w.last() == '0');
        let v = digits_value(s);
        let p = pow10(m1);
        assert(digit_value('0') == 0);
        assert(digits_value(w) == digits_value(w.drop_last()) * 10 + digit_value(w.last()));
        assert(digits_value(w) == (v * p) * 10);
        assert(pow10(m) == 10 * p);
        assert((v * p) * 10 == v * (10 * p)) by (nonlinear_arith);
    }
}

/// For digit strings of one length, the lexicographic order is the order of values.
proof fn lemma_lex_is_value_order(a: Seq<char>, b: Seq<char>)
    requires
        a.len() == b.len(),
        all_digits(a),
        all_digits(b),
    ensures
        lex_ge(a, b) == (digits_value(a) >= digits_value(b)),
    decreases a.len(),
{
    if a.len() > 0 {
        let a1 = a.drop_first();
        let b1 = b.drop_first();
        assert(all_digits(a1)) by {
            assert forall|i: int| 0 <= i < a1.len() implies is_digit(#[trigger] a1[i]) by {
                assert(a1[i] == a[i + 1]);
            }
        }
        assert(all_digits(b1)) by {
            assert forall|i: int| 0 <= i < b1.len() implies is_digit(#[trigger] b1[i]) by {
                assert(b1[i] == b[i + 1]);
            }
        }
        lemma_lex_is_value_order(a1, b1);
        lemma_digits_front(a);
        lemma_digits_front(b);
        lemma_digits_below(a1);
        lemma_digits_below(b1);
        assert(is_digit(a[0]) && is_digit(b[0]));
        let p = pow10((a.len() - 1) as nat);
        let da = digit_value(a[0]);
        let db = digit_value(b[0]);
        let ra = digits_value(a1);
        let rb = digits_value(b1);
        if da > db {
            assert(da * p + ra > db * p + rb) by (nonlinear_arith)
                requires
                    da >= db + 1,
                    rb < p,
            ;
        } else if da < db {
            assert(da * p + ra < db * p + rb) by (nonlinear_arith)
                requires
                    db >= da + 1,
                    ra < p,
            ;
        }
    }
}

proof fn lemma_lex_concat(a1: Seq<char>, a2: Seq<char>, b1: Seq<char>, b2: Seq<char>)
    requires
        a1.len() == b1.len(),
        a2.len() == b2.len(),
    ensures
        lex_ge(a1 + a2, b1 + b2) == if a1 == b1 {
            lex_ge(a2, b2)
        } else {
            lex_ge(a1, b1)
        },
    decreases a1.len(),
{
    if a1.len() == 0 {
        assert(a1 + a2 =~= a2);
        assert(b1 + b2 =~= b2);
        assert(a1 =~= b1);
    } else {
        assert((a1 + a2).drop_first() =~= a1.drop_first() + a2);
        assert((b1 + b2).drop_first() =~= b1.drop_first() + b2);
        lemma_lex_concat(a1.drop_first(), a2, b1.drop_first(), b2);
        assert((a1 + a2)[0] == a1[0]);
        assert((b1 + b2)[0] == b1[0]);
        if a1 == b1 {
            assert(a1.drop_first() == b1.drop_first());
        } else if a1[0] == b1[0] {
            if a1.drop_first() == b1.drop_first() {
                assert forall|i: int| 0 <= i < a1.len() implies a1[i] == b1[i] by {
                    if i > 0 {
                        assert(a1[i] == a1.drop_first()[i - 1]);
                        assert(b1[i] == b1.drop_first()[i - 1]);
                    }
                }
                assert(a1 =~= b1);
            }
        }
    }
}

proof fn lemma_lex_over_zeros(a: Seq<char>, n: nat)
    requires
        all_digits(a),
        a.len() == n,
    ensures
        lex_ge(a, Seq::new(n, |i: int| '0')),
    decreases n,
{
    if n > 0 {
        let z = Seq::new(n, |i: int| '0');
        assert(z.drop_first() =~= Seq::new((n - 1) as nat, |i: int| '0'));
        assert(is_digit(a[0]));
        let a1 = a.drop_first();
        assert(all_digits(a1)) by {
            assert forall|i: int| 0 <= i < a1.len() implies is_digit(#[trigger] a1[i]) by {
                assert(a1[i] == a[i + 1]);
            }
        }
        lemma_lex_over_zeros(a1, (n - 1) as nat);
    }
}

proof fn lemma_lex_reflexive(a: Seq<char>)
    ensures
        lex_ge(a, a),
    decreases a.len(),
{
    if a.len() > 0 {
        lemma_lex_reflexive(a.drop_first());
    }
}

/// Whether `n * 10^k` reaches `t` is settled by the number of integer digits of
/// `n * 10^k` against those of `t`, and when they are as many, by comparing the
/// leading digits of `n` with those of `t`.
pub proof fn lemma_scaled_by_digits(s: Seq<char>, k: int, t: Seq<char>)
    requires
        s.len() >= 1,
        all_digits(s),
        s[0] != '0',
        t.len() >= 1,
        all_digits(t),
        t[0] != '0',
    ensures
        scaled_at_least(digits_value(s), k, digits_value(t)) == (s.len() + k > t.len() || (
        s.len() + k == t.len() && lex_ge(padded(s, t.len()), t))),
{
    let l = s.len();
    let n = t.len();
    let v = digits_value(s);
    let tv = digits_value(t);
    lemma_digits_below(s);
    lemma_digits_above(s);
    lemma_digits_below(t);
    lemma_digits_above(t);
    if k >= 0 {
        let kk = k as nat;
        let pk = pow10(kk);
        lemma_pow10_positive(kk);
        if l + k > n {
            lemma_pow10_adds((l - 1) as nat, kk);
            lemma_pow10_increases(n, (l - 1 + kk) as nat);
            let a = pow10((l - 1) as nat);
            assert(v * pk >= a * pk) by (nonlinear_arith)
                requires
                    v >= a,
            ;
        } else if l + k < n {
            lemma_pow10_adds(l, kk);
            lemma_pow10_increases(l + kk, (n - 1) as nat);
            let a = pow10(l);
            assert(v * pk < a * pk) by (nonlinear_arith)
                requires
                    v < a,
                    pk >= 1,
            ;
        } else {
            let w = s + Seq::new(kk, |i: int| '0');
            assert(w =~= padded(s, n));
            lemma_trailing_zeros(s, kk);
            assert(all_digits(w)) by {
                assert forall|i: int| 0 <= i < w.len() implies is_digit(#[trigger] w[i]) by {
                    if i < l {
                        assert(w[i] == s[i]);
                    }
                }
            }
            lemma_lex_is_value_order(w, t);
        }
    } else {
        let m = (-k) as nat;
        let pm = pow10(m);
        lemma_pow10_positive(m);
        if l + k > n {
            lemma_pow10_adds(n, m);
            lemma_pow10_increases(n + m, (l - 1) as nat);
            assert(tv * pm < pow10(n) * pm) by (nonlinear_arith)
                requires
                    tv < pow10(n),
                    pm >= 1,
            ;
        } else if l + k < n {
            lemma_pow10_adds((n - 1) as nat, m);
            lemma_pow10_increases(l, (n - 1 + m) as nat);
            assert(tv * pm >= pow10((n - 1) as nat) * pm) by (nonlinear_arith)
                requires
                    tv >= pow10((n - 1) as nat),
            ;
        } else {
            let zs = Seq::new(m, |i: int| '0');
            let w = t + zs;
            lemma_trailing_zeros(t, m);
            assert(all_digits(w)) by {
                assert forall|i: int| 0 <= i < w.len() implies is_digit(#[trigger] w[i]) by {
                    if i < n {
                        assert(w[i] == t[i]);
                    }
                }
            }
            lemma_lex_is_value_order(s, w);
            assert(s =~= s.take(n as int) + s.skip(n as int));
            lemma_lex_concat(s.take(n as int), s.skip(n as int), t, zs);
            assert(padded(s, n) =~= s.take(n as int));
            if s.take(n as int) == t {
                let rest = s.skip(n as int);
                assert(all_digits(rest)) by {
                    assert forall|i: int| 0 <= i < rest.len() implies is_digit(#[trigger] rest[i]) by {
                        assert(rest[i] == s[i + n]);
                    }
                }
                lemma_lex_over_zeros(rest, m);
                lemma_lex_reflexive(t);
            }
        }
    }
}

proof fn lemma_limit_digits()
    ensures
        infinity_limit_digits().len() == 309,
        all_digits(infinity_limit_digits()),
        infinity_limit_digits()[0] == '1',
        infinity_limit() >= 1,
{
    reveal_strlit("179769313486231580793728971405303415079934132710037826936173778980444968292764750946649017977587207096330286416692887910946555547851940402630657488671505820681908902000708383676273854845817711531764475730270069855571366959622842914819860834936475292719074168444365510704342711559699508093042880177904174497792");
    lemma_digits_above(infinity_limit_digits());
    lemma_pow10_positive(308);
}

/// The digits of `2^1024 - 2^970`.
fn infinity_limit_chars() -> (r: Vec<char>)
    ensures
        r@ == infinity_limit_digits(),
{
    chars_of("179769313486231580793728971405303415079934132710037826936173778980444968292764750946649017977587207096330286416692887910946555547851940402630657488671505820681908902000708383676273854845817711531764475730270069855571366959622842914819860834936475292719074168444365510704342711559699508093042880177904174497792")
}

/// Whether `cs[a..b]` holds decimal digits only.
fn digits_only(cs: &Vec<char>, a: usize, b: usize) -> (r: bool)
    requires
        a <= b <= cs@.len(),
    ensures
        r == all_digits(cs@.subrange(a as int, b as int)),
{
    let ghost w = cs@.subrange(a as int, b as int);
    let mut i = a;
    while i < b
        invariant
            a <= i <= b <= cs@.len(),
            w == cs@.subrange(a as int, b as int),
            forall|j: int| 0 <= j < i - a ==> is_digit(#[trigger] w[j]),
        decreases b - i,
    {
        if !('0' <= cs[i] && cs[i] <= '9') {
            assert(!is_digit(w[i - a]));
            return false;
        }
        i = i + 1;
    }
    true
}

/// The first position in `a..b` holding `c` or `d`, else `b`.
fn find_either(cs: &Vec<char>, a: usize, b: usize, c: char, d: char) -> (r: usize)
    requires
        a <= b <= cs@.len(),
    ensures
        a <= r <= b,
        ({
            let w = cs@.subrange(a as int, b as int);
            first_match(0, w.len() as int, |i: int| w[i] == c || w[i] == d) == if r < b {
                Some((r - a) as int)
            } else {
                None::<int>
            }
        }),
{
    let ghost w = cs@.subrange(a as int, b as int);
    let ghost p = |i: int| w[i] == c || w[i] == d;
    let mut i = a;
    while i < b && cs[i] != c && cs[i] != d
        invariant
            a <= i <= b <= cs@.len(),
            w == cs@.subrange(a as int, b as int),
            p == (|i: int| w[i] == c || w[i] == d),
            first_match(0, w.len() as int, p) == first_match(i - a, w.len() as int, p),
        decreases b - i,
    {
        i = i + 1;
    }
    i
}

/// Digit `j` of the digits `cs[lo..lo + len1]` followed by `cs[fs..fe]`.
fn mantissa_char(cs: &Vec<char>, lo: usize, len1: usize, fs: usize, fe: usize, j: usize) -> (c: char)
    requires
        lo + len1 <= fs <= fe <= cs@.len(),
        j < len1 + (fe - fs),
    ensures
        c == (cs@.subrange(lo as int, lo + len1) + cs@.subrange(fs as int, fe as int))[j as int],
{
    if j < len1 {
        cs[lo + j]
    } else {
        cs[fs + (j - len1)]
    }
}

/// The exponent written in `cs[a..hi]` (the text after the `e`), as the `f64`
/// reading takes it.
fn exponent_at(cs: &Vec<char>, a: usize, hi: usize) -> (r: Option<i64>)
    requires
        a <= hi <= cs@.len(),
    ensures
        match r {
            Some(v) => exponent_read(cs@.subrange(a as int, hi as int)) == Some(v as int),
            None => exponent_read(cs@.subrange(a as int, hi as int)) is None,
        },
{
    let ghost x = cs@.subrange(a as int, hi as int);
    let mut p = a;
    let mut neg = false;
    if p < hi && (cs[p] == '-' || cs[p] == '+') {
        neg = cs[p] == '-';
        p = p + 1;
    }
    let ghost ds = cs@.subrange(p as int, hi as int);
    proof {
        if a < hi && (x[0] == '-' || x[0] == '+') {
            assert(x.drop_first() =~= ds);
        } else {
            assert(x =~= ds);
        }
    }
    if p == hi || !digits_only(cs, p, hi) {
        return None;
    }
    let mut exp: u64 = 0;
    let mut q = p;
    while q < hi
        invariant
            p <= q <= hi <= cs@.len(),
            ds == cs@.subrange(p as int, hi as int),
            all_digits(ds),
            exp <= 655359,
            exponent_digits_value(ds, 0) == exponent_digits_value(
                cs@.subrange(q as int, hi as int),
                exp as nat,
            ),
        decreases hi - q,
    {
        let ghost rest = cs@.subrange(q as int, hi as int);
        assert(rest.drop_first() =~= cs@.subrange(q + 1, hi as int));
        assert(rest[0] == cs@[q as int]);
        assert(ds[q - p] == cs@[q as int]);
        let d = ((cs[q] as u32) - ('0' as u32)) as u64;
        assert(d == digit_value(cs@[q as int]));
        if exp < 65536 {
            exp = exp * 10 + d;
        }
        q = q + 1;
    }
    let v = exp as i64;
    if neg {
        Some(-v)
    } else {
        Some(v)
    }
}

/// Whether the digits from position `z` on of the mantissa `cs[lo..lo + len1]`
/// followed by `cs[fs..fe]`, filled up with zeros to 309 digits, come at or after the
/// digits of `2^1024 - 2^970`.
fn at_least_limit(cs: &Vec<char>, lo: usize, len1: usize, fs: usize, fe: usize, z: usize) -> (r: bool)
    requires
        lo + len1 <= fs <= fe <= cs@.len(),
        z <= len1 + (fe - fs),
    ensures
        r == lex_ge(
            padded(
                (cs@.subrange(lo as int, lo + len1) + cs@.subrange(fs as int, fe as int)).skip(
                    z as int,
                ),
                309,
            ),
            infinity_limit_digits(),
        ),
{
    let ghost md = cs@.subrange(lo as int, lo + len1) + cs@.subrange(fs as int, fe as int);
    let ghost sg = md.skip(z as int);
    let ghost pd = padded(sg, 309);
    let t = infinity_limit_chars();
    proof {
        lemma_limit_digits();
    }
    let l = len1 + (fe - fs) - z;
    assert(pd.skip(0) =~= pd);
    assert(t@.skip(0) =~= t@);
    let mut i: usize = 0;
    while i < 309
        invariant
            i <= 309,
            t@ == infinity_limit_digits(),
            t@.len() == 309,
            pd == padded(sg, 309),
            sg == md.skip(z as int),
            md == cs@.subrange(lo as int, lo + len1) + cs@.subrange(fs as int, fe as int),
            l == sg.len(),
            z + l == md.len(),
            lo + len1 <= fs <= fe <= cs@.len(),
            lex_ge(pd, t@) == lex_ge(pd.skip(i as int), t@.skip(i as int)),
        decreases 309 - i,
    {
        let a = if i < l {
            mantissa_char(cs, lo, len1, fs, fe, z + i)
        } else {
            '0'
        };
        assert(a == pd[i as int]);
        assert(pd.skip(i as int)[0] == pd[i as int]);
        assert(t@.skip(i as int)[0] == t@[i as int]);
        assert(pd.skip(i as int).drop_first() =~= pd.skip(i + 1));
        assert(t@.skip(i as int).drop_first() =~= t@.skip(i + 1));
        if a != t[i] {
            return a > t[i];
        }
        i = i + 1;
    }
    assert(pd.skip(309).len() == 0);
    true
}

/// Whether the unsigned literal `cs[lo..hi]` reads as an infinite `f64`.
#[verifier::rlimit(80)]
pub(crate) fn reads_as_infinity_at(cs: &Vec<char>, lo: usize, hi: usize) -> (r: bool)
    requires
        lo <= hi <= cs@.len(),
    ensures
        r == reads_as_infinity(cs@.subrange(lo as int, hi as int)),
{
    let ghost u = cs@.subrange(lo as int, hi as int);
    let ep = find_either(cs, lo, hi, 'e', 'E');
    assert(exponent_mark(u) == if ep < hi {
        Some((ep - lo) as int)
    } else {
        None::<int>
    });
    let ghost m = mantissa_part(u);
    assert(m =~= cs@.subrange(lo as int, ep as int));
    let dp = find_either(cs, lo, ep, '.', '.');
    assert((|i: int| m[i] == '.') =~= (|i: int| m[i] == '.' || m[i] == '.'));
    assert(point_at(m) == if dp < ep {
        Some((dp - lo) as int)
    } else {
        None::<int>
    });
    let fs = if dp < ep {
        dp + 1
    } else {
        ep
    };
    let ghost d1 = cs@.subrange(lo as int, dp as int);
    let ghost d2 = cs@.subrange(fs as int, ep as int);
    assert(integer_digits(m) =~= d1);
    assert(fraction_digits(m) =~= d2);
    if !digits_only(cs, lo, dp) || !digits_only(cs, fs, ep) {
        return false;
    }
    let len1 = dp - lo;
    let len2 = ep - fs;
    if len1 == 0 && len2 == 0 {
        return false;
    }
    let e: i64 = if ep < hi {
        assert(u.skip(ep - lo + 1) =~= cs@.subrange(ep + 1, hi as int));
        match exponent_at(cs, ep + 1, hi) {
            Some(v) => v,
            None => {
                return false;
            },
        }
    } else {
        0
    };
    let ghost md = d1 + d2;
    assert(decimal_scaled(u) == Some((digits_value(md), e - len2)));
    let total = len1 + len2;
    let mut z: usize = 0;
    while z < total && mantissa_char(cs, lo, len1, fs, ep, z) == '0'
        invariant
            z <= total == md.len(),
            lo + len1 == dp <= fs <= ep <= cs@.len(),
            md == cs@.subrange(lo as int, lo + len1) + cs@.subrange(fs as int, ep as int),
            forall|j: int| 0 <= j < z ==> #[trigger] md[j] == '0',
        decreases total - z,
    {
        z = z + 1;
    }
    proof {
        lemma_limit_digits();
    }
    if z == total {
        proof {
            lemma_all_zeros(md);
            lemma_pow10_positive((len2 - e) as nat);
            let tv = infinity_limit();
            let pk = pow10((len2 - e) as nat);
            assert(0 < tv * pk) by (nonlinear_arith)
                requires
                    tv >= 1,
                    pk >= 1,
            ;
            assert(0 * pow10((e - len2) as nat) == 0);
        }
        return false;
    }
    let ghost sg = md.skip(z as int);
    proof {
        lemma_leading_zeros(md, z as int);
        assert(all_digits(md)) by {
            assert forall|j: int| 0 <= j < md.len() implies is_digit(#[trigger] md[j]) by {
                if j < len1 {
                    assert(md[j] == d1[j]);
                } else {
                    assert(md[j] == d2[j - len1]);
                }
            }
        }
        assert(all_digits(sg)) by {
            assert forall|j: int| 0 <= j < sg.len() implies is_digit(#[trigger] sg[j]) by {
                assert(sg[j] == md[j + z]);
            }
        }
        lemma_scaled_by_digits(sg, e - len2, infinity_limit_digits());
    }
    let l = total - z;
    let c: i128 = l as i128 + e as i128 - len2 as i128;
    if c > 309 {
        return true;
    }
    if c < 309 {
        return false;
    }
    at_least_limit(cs, lo, len1, fs, ep, z)
}

proof fn lemma_first_match_none(lo: int, hi: int, p: spec_fn(int) -> bool)
    requires
        forall|i: int| lo <= i < hi ==> !#[trigger] p(i),
    ensures
        first_match(lo, hi, p) is None,
    decreases hi - lo,
{
    if lo < hi {
        lemma_first_match_none(lo + 1, hi, p);
    }
}

/// A literal of zeros reads as the finite value zero.
pub(crate) proof fn lemma_zeros_read_finite(n: nat)
    requires
        n >= 1,
    ensures
        !reads_as_infinity(Seq::new(n, |i: int| '0')),
{
    let z = Seq::new(n, |i: int| '0');
    lemma_first_match_none(0, n as int, |i: int| z[i] == 'e' || z[i] == 'E');
    lemma_first_match_none(0, n as int, |i: int| z[i] == '.');
    assert(mantissa_part(z) == z);
    assert(integer_digits(z) == z);
    assert(fraction_digits(z) =~= Seq::<char>::empty());
    assert(z + Seq::<char>::empty() =~= z);
    lemma_all_zeros(z);
    lemma_limit_digits();
    assert(all_digits(z));
    assert(decimal_scaled(z) == Some((0nat, 0int)));
    assert(0 * pow10(0) == 0);
}

} // verus!
