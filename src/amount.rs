use vstd::prelude::*;
use vstd::arithmetic::div_mod::{lemma_fundamental_div_mod, lemma_mod_breakdown, lemma_small_mod};

verus! {

/// Number of amount units in one whole unit of a currency: amounts carry
/// eight decimal places.
pub const SCALE: i64 = 100_000_000;

/// Number of decimal places of an amount.
pub const PLACES: usize = 8;

pub open spec fn is_digit(c: char) -> bool {
    '0' <= c && c <= '9'
}

pub open spec fn digit_value(c: char) -> int {
    c as int - '0' as int
}

pub open spec fn all_digits(s: Seq<char>) -> bool {
    forall|i: int| 0 <= i < s.len() ==> is_digit(#[trigger] s[i])
}

/// The number that the decimal digits `s` stand for (0 when `s` is empty).
pub open spec fn digits_value(s: Seq<char>) -> int
    decreases s.len(),
{
    if s.len() == 0 {
        0
    } else {
        digits_value(s.drop_last()) * 10 + digit_value(s.last())
    }
}

/// `n` zeros.
pub open spec fn zeros(n: nat) -> Seq<char> {
    Seq::new(n, |i: int| '0')
}

/// The decimal digit for `d`, for `0 <= d < 10`.
pub open spec fn digit_char(d: int) -> char {
    if d == 0 {
        '0'
    } else if d == 1 {
        '1'
    } else if d == 2 {
        '2'
    } else if d == 3 {
        '3'
    } else if d == 4 {
        '4'
    } else if d == 5 {
        '5'
    } else if d == 6 {
        '6'
    } else if d == 7 {
        '7'
    } else if d == 8 {
        '8'
    } else {
        '9'
    }
}

/// `n` in decimal, without leading zeros.
pub open spec fn nat_text(n: nat) -> Seq<char>
    decreases n,
{
    if n < 10 {
        seq![digit_char(n as int)]
    } else {
        nat_text(n / 10).push(digit_char((n % 10) as int))
    }
}

/// The last `k` decimal digits of `n`, padded with leading zeros.
pub open spec fn fixed_text(n: nat, k: nat) -> Seq<char>
    decreases k,
{
    if k == 0 {
        Seq::empty()
    } else {
        fixed_text(n / 10, (k - 1) as nat).push(digit_char((n % 10) as int))
    }
}

/// The decimal places `n` of `k` places, without their trailing zeros
/// (at least one place stays).
pub open spec fn fraction_text(n: nat, k: nat) -> Seq<char>
    decreases k,
{
    if k > 1 && n % 10 == 0 {
        fraction_text(n / 10, (k - 1) as nat)
    } else {
        fixed_text(n, k)
    }
}

/// The text of a non-negative amount: the whole units, then, unless the
/// amount is whole, a point and the decimal places up to the last one that
/// is not zero.
pub open spec fn unsigned_text(m: nat) -> Seq<char> {
    let w = m / (SCALE as nat);
    let f = m % (SCALE as nat);
    if f == 0 {
        nat_text(w)
    } else {
        nat_text(w) + seq!['.'] + fraction_text(f, PLACES as nat)
    }
}

/// The text of an amount, as it is written to storage.
pub open spec fn amount_text(a: int) -> Seq<char> {
    if a < 0 {
        seq!['-'] + unsigned_text((-a) as nat)
    } else {
        unsigned_text(a as nat)
    }
}

/// Index of the first `'.'` in `s`, or `s.len()` if there is none.
pub open spec fn dot_index(s: Seq<char>) -> int
    decreases s.len(),
{
    if s.len() == 0 {
        0
    } else if s[0] == '.' {
        0
    } else {
        1 + dot_index(s.drop_first())
    }
}

/// The amount that unsigned decimal text `b` stands for: one or more digits,
/// optionally followed by a point and one to eight digits.
pub open spec fn unsigned_value(b: Seq<char>) -> Option<int> {
    let d = dot_index(b);
    let w = b.take(d);
    if w.len() == 0 || !all_digits(w) {
        None
    } else if d == b.len() {
        Some(digits_value(w) * SCALE)
    } else {
        let f = b.skip(d + 1);
        if 1 <= f.len() <= PLACES && all_digits(f) {
            Some(digits_value(w) * SCALE + digits_value(f + zeros((PLACES - f.len()) as nat)))
        } else {
            None
        }
    }
}

/// The amount that `s` stands for: unsigned decimal text, optionally after
/// a `'-'`, whose value fits in an `i64`.
pub open spec fn amount_value(s: Seq<char>) -> Option<i64> {
    let neg = s.len() > 0 && s[0] == '-';
    let b = if neg {
        s.drop_first()
    } else {
        s
    };
    match unsigned_value(b) {
        Some(m) => {
            let v = if neg {
                -m
            } else {
                m
            };
            if i64::MIN <= v <= i64::MAX {
                Some(v as i64)
            } else {
                None
            }
        },
        None => None,
    }
}

/// Whole units above this bound are out of range whatever the sign.
const WHOLE_CAP: u64 = 1_000_000_000_000;

proof fn lemma_digit_char(d: int)
    requires
        0 <= d < 10,
    ensures
        is_digit(digit_char(d)),
        digit_value(digit_char(d)) == d,
{
}

proof fn lemma_dot_index(b: Seq<char>, i: int)
    requires
        0 <= i <= b.len(),
        forall|j: int| 0 <= j < i ==> b[j] != '.',
        i == b.len() || b[i] == '.',
    ensures
        dot_index(b) == i,
    decreases i,
{
    if i > 0 {
        lemma_dot_index(b.drop_first(), i - 1);
    }
}

spec fn ten_pow(n: nat) -> int
    decreases n,
{
    if n == 0 {
        1
    } else {
        10 * ten_pow((n - 1) as nat)
    }
}

proof fn lemma_ten_pow_bound(j: nat)
    requires
        j <= PLACES,
    ensures
        1 <= ten_pow(j) <= 100_000_000,
    decreases PLACES - j,
{
    reveal_with_fuel(ten_pow, 9);
    if j < PLACES {
        lemma_ten_pow_bound(j + 1);
    }
}

proof fn lemma_ten_pow_pos(k: nat)
    ensures
        ten_pow(k) >= 1,
    decreases k,
{
    if k > 0 {
        lemma_ten_pow_pos((k - 1) as nat);
    }
}

proof fn lemma_nat_text(n: nat)
    ensures
        nat_text(n).len() >= 1,
        all_digits(nat_text(n)),
        digits_value(nat_text(n)) == n,
    decreases n,
{
    let t = nat_text(n);
    if n < 10 {
        lemma_digit_char(n as int);
        assert(t.drop_last() =~= Seq::<char>::empty());
        assert(digits_value(Seq::<char>::empty()) == 0);
        assert(digits_value(t) == digits_value(t.drop_last()) * 10 + digit_value(t.last()));
    } else {
        lemma_nat_text(n / 10);
        lemma_digit_char((n % 10) as int);
        assert(t.drop_last() =~= nat_text(n / 10));
        lemma_fundamental_div_mod(n as int, 10);
        assert forall|i: int| 0 <= i < t.len() implies is_digit(#[trigger] t[i]) by {
            if i < t.len() - 1 {
                assert(t[i] == nat_text(n / 10)[i]);
            }
        }
    }
}

proof fn lemma_fixed_text(n: nat, k: nat)
    ensures
        fixed_text(n, k).len() == k,
        all_digits(fixed_text(n, k)),
        digits_value(fixed_text(n, k)) == (n as int) % ten_pow(k),
    decreases k,
{
    let t = fixed_text(n, k);
    if k == 0 {
        assert(t.len() == 0);
    } else {
        let k1 = (k - 1) as nat;
        lemma_fixed_text(n / 10, k1);
        lemma_digit_char((n % 10) as int);
        lemma_ten_pow_pos(k1);
        assert(t.drop_last() =~= fixed_text(n / 10, k1));
        assert forall|i: int| 0 <= i < t.len() implies is_digit(#[trigger] t[i]) by {
            if i < t.len() - 1 {
                assert(t[i] == fixed_text(n / 10, k1)[i]);
            }
        }
        lemma_mod_breakdown(n as int, 10, ten_pow(k1));
    }
}

proof fn lemma_fraction_text(n: nat, k: nat)
    requires
        k >= 1,
        n < ten_pow(k),
    ensures
        1 <= fraction_text(n, k).len() <= k,
        all_digits(fraction_text(n, k)),
        digits_value(fraction_text(n, k) + zeros((k - fraction_text(n, k).len()) as nat)) == n,
    decreases k,
{
    let t = fraction_text(n, k);
    if k > 1 && n % 10 == 0 {
        let k1 = (k - 1) as nat;
        lemma_ten_pow_pos(k1);
        assert(n / 10 < ten_pow(k1)) by (nonlinear_arith)
            requires
                n < 10 * ten_pow(k1),
                n >= 0,
        ;
        lemma_fraction_text(n / 10, k1);
        let a = (k1 - t.len()) as nat;
        let p = t + zeros(a);
        let q = t + zeros((k - t.len()) as nat);
        assert(q.drop_last() =~= p);
        assert(q.last() == '0');
        lemma_fundamental_div_mod(n as int, 10);
    } else {
        lemma_fixed_text(n, k);
        lemma_small_mod(n, ten_pow(k) as nat);
        assert(t + zeros(0) =~= t);
    }
}

proof fn lemma_no_dot(t: Seq<char>)
    requires
        all_digits(t),
    ensures
        dot_index(t) == t.len(),
{
    assert forall|j: int| 0 <= j < t.len() implies t[j] != '.' by {
        assert(is_digit(t[j]));
    }
    lemma_dot_index(t, t.len() as int);
}

proof fn lemma_unsigned_round_trip(m: nat)
    requires
        m <= i64::MAX + 1,
    ensures
        unsigned_value(unsigned_text(m)) == Some(m as int),
        unsigned_text(m).len() >= 1,
        is_digit(unsigned_text(m)[0]),
{
    let w = m / (SCALE as nat);
    let f = m % (SCALE as nat);
    let t = unsigned_text(m);
    lemma_nat_text(w);
    lemma_fundamental_div_mod(m as int, SCALE as int);
    assert(m == w * SCALE + f);
    assert(t[0] == nat_text(w)[0]);
    if f == 0 {
        lemma_no_dot(t);
        assert(t.take(t.len() as int) =~= t);
    } else {
        let nt = nat_text(w);
        let ft = fraction_text(f, PLACES as nat);
        reveal_with_fuel(ten_pow, 9);
        lemma_fraction_text(f, PLACES as nat);
        assert forall|j: int| 0 <= j < nt.len() implies t[j] != '.' by {
            assert(t[j] == nt[j]);
            assert(is_digit(nt[j]));
        }
        lemma_dot_index(t, nt.len() as int);
        assert(t.take(nt.len() as int) =~= nt);
        assert(t.skip(nt.len() as int + 1) =~= ft);
    }
}

/// Every character of an amount's text is a digit, a `'-'` or a `'.'`.
pub proof fn lemma_amount_text_digits(a: i64)
    ensures
        forall|i: int|
            0 <= i < amount_text(a as int).len() ==> is_digit(#[trigger] amount_text(a as int)[i])
                || amount_text(a as int)[i] == '-' || amount_text(a as int)[i] == '.',
{
    let m: nat = if a < 0 {
        (-a) as nat
    } else {
        a as nat
    };
    let w = m / (SCALE as nat);
    let f = m % (SCALE as nat);
    lemma_nat_text(w);
    let nt = nat_text(w);
    let ft = fraction_text(f, PLACES as nat);
    if f != 0 {
        reveal_with_fuel(ten_pow, 9);
        lemma_fraction_text(f, PLACES as nat);
    }
    let u = unsigned_text(m);
    assert forall|i: int| 0 <= i < u.len() implies is_digit(#[trigger] u[i]) || u[i] == '.' by {
        if i < nt.len() {
            assert(u[i] == nt[i]);
        } else if i > nt.len() && f != 0 {
            assert(u[i] == ft[i - nt.len() - 1]);
        }
    }
    let t = amount_text(a as int);
    assert forall|i: int| 0 <= i < t.len() implies is_digit(#[trigger] t[i]) || t[i] == '-' || t[i]
        == '.' by {
        if a < 0 && i > 0 {
            assert(t[i] == u[i - 1]);
        } else if a >= 0 {
            assert(t[i] == u[i]);
        }
    }
}

/// Reading back the text of an amount gives the amount.
pub proof fn lemma_amount_round_trip(a: i64)
    ensures
        amount_value(amount_text(a as int)) == Some(a),
{
    let s = amount_text(a as int);
    if a < 0 {
        let u = unsigned_text((-a) as nat);
        lemma_unsigned_round_trip((-a) as nat);
        assert(s.drop_first() =~= u);
    } else {
        lemma_unsigned_round_trip(a as nat);
    }
}

fn digit_to_char(d: u64) -> (c: char)
    requires
        d < 10,
    ensures
        c == digit_char(d as int),
{
    if d == 0 {
        '0'
    } else if d == 1 {
        '1'
    } else if d == 2 {
        '2'
    } else if d == 3 {
        '3'
    } else if d == 4 {
        '4'
    } else if d == 5 {
        '5'
    } else if d == 6 {
        '6'
    } else if d == 7 {
        '7'
    } else if d == 8 {
        '8'
    } else {
        '9'
    }
}

fn push_nat_text(n: u64, out: &mut Vec<char>)
    ensures
        final(out)@ == old(out)@ + nat_text(n as nat),
    decreases n,
{
    if n >= 10 {
        push_nat_text(n / 10, out);
    }
    out.push(digit_to_char(n % 10));
    proof {
        if n >= 10 {
            assert(final(out)@ =~= old(out)@ + nat_text(n as nat));
        } else {
            assert(final(out)@ =~= old(out)@ + nat_text(n as nat));
        }
    }
}

fn push_fixed_text(n: u64, k: usize, out: &mut Vec<char>)
    ensures
        final(out)@ == old(out)@ + fixed_text(n as nat, k as nat),
    decreases k,
{
    if k > 0 {
        push_fixed_text(n / 10, k - 1, out);
        out.push(digit_to_char(n % 10));
    }
    assert(final(out)@ =~= old(out)@ + fixed_text(n as nat, k as nat));
}

fn push_fraction_text(n: u64, k: usize, out: &mut Vec<char>)
    ensures
        final(out)@ == old(out)@ + fraction_text(n as nat, k as nat),
    decreases k,
{
    if k > 1 && n % 10 == 0 {
        push_fraction_text(n / 10, k - 1, out);
    } else {
        push_fixed_text(n, k, out);
    }
}

/// Appends the text of `a` to `out`.
pub fn push_amount_text(a: i64, out: &mut Vec<char>)
    ensures
        final(out)@ == old(out)@ + amount_text(a as int),
{
    let m: u64 = if a < 0 {
        out.push('-');
        (-(a as i128)) as u64
    } else {
        a as u64
    };
    let ghost mid = out@;
    let w = m / (SCALE as u64);
    let f = m % (SCALE as u64);
    push_nat_text(w, out);
    if f != 0 {
        out.push('.');
        push_fraction_text(f, PLACES, out);
    }
    proof {
        assert(out@ =~= mid + unsigned_text(m as nat));
        assert(final(out)@ =~= old(out)@ + amount_text(a as int));
    }
}

/// Checks that `s[lo..hi]` holds only digits and returns their value, or
/// `WHOLE_CAP` if the value is larger.
fn digits_capped(s: &[char], lo: usize, hi: usize) -> (r: Option<u64>)
    requires
        lo <= hi <= s@.len(),
    ensures
        r is Some <==> all_digits(s@.subrange(lo as int, hi as int)),
        r is Some ==> digits_value(s@.subrange(lo as int, hi as int)) >= 0,
        r matches Some(v) ==> v == (if digits_value(s@.subrange(lo as int, hi as int))
            < WHOLE_CAP {
            digits_value(s@.subrange(lo as int, hi as int))
        } else {
            WHOLE_CAP as int
        }),
{
    let mut acc: u64 = 0;
    let mut i: usize = lo;
    while i < hi
        invariant
            lo <= i <= hi <= s@.len(),
            all_digits(s@.subrange(lo as int, i as int)),
            digits_value(s@.subrange(lo as int, i as int)) >= 0,
            acc == (if digits_value(s@.subrange(lo as int, i as int)) < WHOLE_CAP {
                digits_value(s@.subrange(lo as int, i as int))
            } else {
                WHOLE_CAP as int
            }),
        decreases hi - i,
    {
        let c = s[i];
        let ghost prev = s@.subrange(lo as int, i as int);
        let ghost next = s@.subrange(lo as int, i + 1);
        assert(next.drop_last() =~= prev);
        if !('0' <= c && c <= '9') {
            assert(!is_digit(s@.subrange(lo as int, hi as int)[i - lo]));
            return None;
        }
        let d = (c as u32 - '0' as u32) as u64;
        let ghost v = digits_value(prev);
        assert(digits_value(next) == v * 10 + d);
        if acc >= WHOLE_CAP {
            assert(v * 10 + d >= WHOLE_CAP) by (nonlinear_arith)
                requires
                    v >= WHOLE_CAP,
                    d >= 0,
            ;
        } else {
            acc = acc * 10 + d;
            if acc >= WHOLE_CAP {
                acc = WHOLE_CAP;
            }
        }
        i = i + 1;
        assert(all_digits(s@.subrange(lo as int, i as int))) by {
            assert forall|j: int| 0 <= j < next.len() implies is_digit(#[trigger] next[j]) by {
                if j < prev.len() {
                    assert(next[j] == prev[j]);
                }
            }
        }
    }
    Some(acc)
}

/// The amount that `s` stands for, if it is an amount's text (see
/// [`amount_value`]).
pub fn parse_amount(s: &[char]) -> (r: Option<i64>)
    ensures
        r == amount_value(s@),
{
    let n = s.len();
    let neg = n > 0 && s[0] == '-';
    let lo: usize = if neg {
        1
    } else {
        0
    };
    let ghost b = if neg {
        s@.drop_first()
    } else {
        s@
    };
    assert(b =~= s@.skip(lo as int));
    let mut d: usize = lo;
    while d < n && s[d] != '.'
        invariant
            lo <= d <= n,
            n == s@.len(),
            forall|j: int| lo <= j < d ==> s@[j] != '.',
        decreases n - d,
    {
        d = d + 1;
    }
    proof {
        lemma_dot_index(b, d - lo);
    }
    assert(b.take(d - lo) =~= s@.subrange(lo as int, d as int));
    if d == lo {
        return None;
    }
    let whole = match digits_capped(s, lo, d) {
        Some(w) => w,
        None => return None,
    };
    let mut frac: u64 = 0;
    if d < n {
        let flen = n - d - 1;
        if flen < 1 || flen > PLACES {
            return None;
        }
        let ghost f = b.skip(d - lo + 1);
        assert(f =~= s@.subrange(d + 1, n as int));
        let ghost padded = f + zeros((PLACES - f.len()) as nat);
        let mut j: usize = 0;
        proof {
            lemma_ten_pow_bound(0);
        }
        while j < PLACES
            invariant
                flen == f.len(),
                lo <= d < n,
                b == (if s@.len() > 0 && s@[0] == '-' {
                    s@.drop_first()
                } else {
                    s@
                }),
                b.len() == n - lo,
                dot_index(b) == d - lo,
                f == b.skip(d - lo + 1),
                all_digits(b.take(d - lo)),
                b.take(d - lo) == s@.subrange(lo as int, d as int),
                1 <= flen <= PLACES,
                d + 1 + flen == n,
                n == s@.len(),
                f == s@.subrange(d + 1, n as int),
                padded == f + zeros((PLACES - f.len()) as nat),
                j <= PLACES,
                all_digits(padded.take(j as int)),
                frac == digits_value(padded.take(j as int)),
                frac < ten_pow(j as nat),
                ten_pow(j as nat) <= 100_000_000,
            decreases PLACES - j,
        {
            let c = if j < flen {
                s[d + 1 + j]
            } else {
                '0'
            };
            assert(c == padded[j as int]);
            if !('0' <= c && c <= '9') {
                assert(j < flen);
                assert(f[j as int] == c);
                assert(!all_digits(f));
                return None;
            }
            let ghost prev = padded.take(j as int);
            assert(padded.take(j + 1).drop_last() =~= prev);
            proof {
                lemma_ten_pow_bound(j as nat + 1);
            }
            frac = frac * 10 + (c as u32 - '0' as u32) as u64;
            j = j + 1;
            assert(all_digits(padded.take(j as int))) by {
                let next = padded.take(j as int);
                assert(next[j - 1] == c);
                assert forall|k: int| 0 <= k < next.len() implies is_digit(#[trigger] next[k]) by {
                    if k < prev.len() {
                        assert(next[k] == prev[k]);
                    }
                }
            }
        }
        assert(padded.take(PLACES as int) =~= padded);
        assert(all_digits(f)) by {
            assert forall|k: int| 0 <= k < f.len() implies is_digit(#[trigger] f[k]) by {
                assert(f[k] == padded[k]);
            }
        }
        assert(unsigned_value(b) == Some(
            digits_value(s@.subrange(lo as int, d as int)) * SCALE + frac as int,
        ));
    } else {
        assert(unsigned_value(b) == Some(
            digits_value(s@.subrange(lo as int, d as int)) * SCALE + frac as int,
        ));
    }
    proof {
        let v = digits_value(s@.subrange(lo as int, d as int));
        if whole == WHOLE_CAP {
            assert(v * SCALE + frac >= WHOLE_CAP * SCALE) by (nonlinear_arith)
                requires
                    v >= WHOLE_CAP,
                    frac >= 0,
            ;
        }
    }
    let total: u128 = whole as u128 * (SCALE as u128) + frac as u128;
    let value: i128 = if neg {
        -(total as i128)
    } else {
        total as i128
    };
    if value < i64::MIN as i128 || value > i64::MAX as i128 {
        return None;
    }
    Some(value as i64)
}

} // verus!
