use vstd::prelude::*;

verus! {

/// The largest number of fractional digits a `Volume` carries.
pub const MAX_SCALE: u32 = 340;

/// The largest power of ten a `Volume` multiplies its units by.
pub const MAX_SHIFT: u32 = 308;

/// A `Volume` holds fewer than `10^UNIT_DIGITS` units, either side of zero.
pub const UNIT_DIGITS: u32 = 30;

/// A decimal quantity, `units * 10^shift / 10^scale`, as written in the
/// data file. Only one of `scale` and `shift` is ever above zero.
#[derive(Clone, Copy, Debug, PartialEq, Eq, Structural)]
pub struct Volume {
    pub units: i128,
    pub scale: u32,
    pub shift: u32,
}

/// `10^k`.
pub open spec fn pow10(k: nat) -> nat
    decreases k,
{
    if k == 0 {
        1
    } else {
        10 * pow10((k - 1) as nat)
    }
}

/// `n / d` rounded to the nearest integer, halves away from zero.
pub open spec fn round_div(n: int, d: int) -> int
    recommends
        d > 0,
{
    if n >= 0 {
        (2 * n + d) / (2 * d)
    } else {
        -((-2 * n + d) / (2 * d))
    }
}

pub proof fn lemma_pow10_monotone(j: nat, k: nat)
    requires
        j <= k,
    ensures
        1 <= pow10(j) <= pow10(k),
    decreases k,
{
    if k > j {
        lemma_pow10_monotone(j, (k - 1) as nat);
    } else if k > 0 {
        lemma_pow10_monotone((j - 1) as nat, (k - 1) as nat);
    }
}

pub proof fn lemma_pow10_bound(k: nat)
    requires
        k <= 30,
    ensures
        1 <= pow10(k) <= 1_000_000_000_000_000_000_000_000_000_000,
{
    lemma_pow10_monotone(k, 30);
    reveal_with_fuel(pow10, 31);
    assert(pow10(30) == 1_000_000_000_000_000_000_000_000_000_000);
}

/// A quantity of `units / 10^scale` that a `Volume` can hold.
pub open spec fn fits(units: int, scale: nat) -> bool {
    scale <= MAX_SCALE && magnitude(units) < pow10(UNIT_DIGITS as nat)
}

/// A quantity of `units * 10^shift / 10^scale` that a `Volume` can hold.
pub open spec fn holds(units: int, scale: nat, shift: nat) -> bool {
    fits(units, scale) && shift <= MAX_SHIFT && (shift > 0 ==> scale == 0)
}

pub proof fn lemma_pow10_38(k: nat)
    requires
        k <= 38,
    ensures
        1 <= pow10(k) <= 100_000_000_000_000_000_000_000_000_000_000_000_000,
{
    lemma_pow10_monotone(k, 38);
    reveal_with_fuel(pow10, 39);
    assert(pow10(38) == 100_000_000_000_000_000_000_000_000_000_000_000_000);
}


pub open spec fn is_digit(c: char) -> bool {
    '0' <= c && c <= '9'
}

pub open spec fn all_digits(s: Seq<char>) -> bool {
    forall|i: int| 0 <= i < s.len() ==> #[trigger] is_digit(s[i])
}

pub open spec fn digit_value(c: char) -> nat {
    (c as u32 - '0' as u32) as nat
}

/// The number that a run of decimal digits writes.
pub open spec fn digits_value(s: Seq<char>) -> nat
    decreases s.len(),
{
    if s.len() == 0 {
        0
    } else {
        10 * digits_value(s.drop_last()) + digit_value(s.last())
    }
}

pub open spec fn is_negative(s: Seq<char>) -> bool {
    s.len() > 0 && s[0] == '-'
}

/// What follows the sign.
pub open spec fn body_of(s: Seq<char>) -> Seq<char> {
    if is_negative(s) {
        s.skip(1)
    } else {
        s
    }
}

pub open spec fn signed(negative: bool, m: nat) -> int {
    if negative {
        -(m as int)
    } else {
        m as int
    }
}

/// `b` holds a point at `j`, with digits, and at least one, on each side.
pub open spec fn point_at(b: Seq<char>, j: int) -> bool {
    &&& 0 < j < b.len() - 1
    &&& b[j] == '.'
    &&& all_digits(b.take(j))
    &&& all_digits(b.skip(j + 1))
}

/// `s` is an optional minus sign, then digits, then optionally a point and
/// more digits.
pub open spec fn is_decimal(s: Seq<char>) -> bool {
    let b = body_of(s);
    (b.len() > 0 && all_digits(b)) || exists|j: int| point_at(b, j)
}

/// `s` writes the quantity `units / 10^scale`, with `scale` digits after its
/// point.
pub open spec fn denotes(s: Seq<char>, units: int, scale: nat) -> bool {
    let b = body_of(s);
    ||| b.len() > 0 && all_digits(b) && scale == 0 && units == signed(
        is_negative(s),
        digits_value(b),
    )
    ||| exists|j: int|
        #![trigger point_at(b, j)]
        point_at(b, j) && scale == b.len() - 1 - j && units == signed(
            is_negative(s),
            digits_value(b.take(j) + b.skip(j + 1)),
        )
}

pub proof fn lemma_pow10_add(a: nat, b: nat)
    ensures
        pow10(a) * pow10(b) == pow10(a + b),
    decreases b,
{
    if b > 0 {
        lemma_pow10_add(a, (b - 1) as nat);
        assert(pow10(a + b) == 10 * pow10((a + b - 1) as nat));
        assert((a + b - 1) as nat == a + (b - 1) as nat);
        assert(pow10(a) * pow10(b) == 10 * (pow10(a) * pow10((b - 1) as nat))) by (nonlinear_arith)
            requires
                pow10(b) == 10 * pow10((b - 1) as nat),
        ;
    } else {
        assert(pow10(b) == 1);
        assert(a + b == a);
        assert(pow10(a) * 1 == pow10(a));
    }
}

/// Digits written one after the other: the first run shifts by the second's
/// length.
pub proof fn lemma_digits_concat(a: Seq<char>, b: Seq<char>)
    ensures
        digits_value(a + b) == digits_value(a) * pow10(b.len()) + digits_value(b),
    decreases b.len(),
{
    if b.len() == 0 {
        assert(a + b =~= a);
        assert(pow10(0) == 1);
        assert(digits_value(a) * 1 == digits_value(a));
    } else {
        let c = b.drop_last();
        lemma_digits_concat(a, c);
        assert((a + b).drop_last() =~= a + c);
        assert((a + b).last() == b.last());
        let da = digits_value(a);
        let dc = digits_value(c);
        let p = pow10(c.len());
        assert(pow10(b.len()) == 10 * p);
        assert(digits_value(a + b) == 10 * digits_value(a + c) + digit_value(b.last()));
        assert(digits_value(b) == 10 * dc + digit_value(b.last()));
        assert(10 * (da * p + dc) == da * (10 * p) + 10 * dc) by (nonlinear_arith);
    }
}

/// A run of `k` digits stays below `10^k`.
pub proof fn lemma_digits_bound(s: Seq<char>)
    requires
        all_digits(s),
    ensures
        digits_value(s) < pow10(s.len()),
    decreases s.len(),
{
    if s.len() > 0 {
        let c = s.drop_last();
        assert(all_digits(c)) by {
            assert forall|i: int| 0 <= i < c.len() implies #[trigger] is_digit(c[i]) by {
                assert(is_digit(s[i]));
            }
        }
        lemma_digits_bound(c);
        assert(is_digit(s[s.len() - 1]));
    }
}

/// `10^k`, computed.
pub(crate) fn pow10_exec(k: u32) -> (r: u128)
    requires
        k <= 38,
    ensures
        r as nat == pow10(k as nat),
{
    let mut p: u128 = 1;
    let mut i: u32 = 0;
    while i < k
        invariant
            i <= k <= 38,
            p as nat == pow10(i as nat),
        decreases k - i,
    {
        proof {
            lemma_pow10_38((i + 1) as nat);
        }
        p = p * 10;
        i = i + 1;
    }
    p
}

/// The number written by the characters of `text` from `from` to `to`, if
/// they are all digits and it is below `10^UNIT_DIGITS`.
pub(crate) fn digits_in(text: &str, from: usize, to: usize) -> (r: Option<u128>)
    requires
        from <= to <= text@.len(),
    ensures
        r.is_some() <==> all_digits(text@.subrange(from as int, to as int)) && digits_value(
            text@.subrange(from as int, to as int),
        ) < pow10(UNIT_DIGITS as nat),
        r matches Some(v) ==> v as nat == digits_value(text@.subrange(from as int, to as int)),
{
    let limit = pow10_exec(UNIT_DIGITS);
    proof {
        lemma_pow10_bound(UNIT_DIGITS as nat);
    }
    let mut acc: u128 = 0;
    let mut i: usize = from;
    while i < to
        invariant
            from <= i <= to <= text@.len(),
            limit as nat == pow10(UNIT_DIGITS as nat) <= 1_000_000_000_000_000_000_000_000_000_000,
            all_digits(text@.subrange(from as int, i as int)),
            acc as nat == digits_value(text@.subrange(from as int, i as int)),
            acc < limit,
        decreases to - i,
    {
        let c = text.get_char(i);
        if c < '0' || c > '9' {
            proof {
                let whole = text@.subrange(from as int, to as int);
                assert(whole[i - from] == c);
                assert(!is_digit(whole[i - from]));
            }
            return None;
        }
        let ghost s0 = text@.subrange(from as int, i as int);
        let ghost s1 = text@.subrange(from as int, i + 1);
        proof {
            assert(s1.drop_last() =~= s0);
            assert(s1.last() == c);
            assert(all_digits(s1)) by {
                assert forall|k: int| 0 <= k < s1.len() implies #[trigger] is_digit(s1[k]) by {
                    if k < s0.len() {
                        assert(s1[k] == s0[k]);
                    }
                }
            }
        }
        let next = acc * 10 + ((c as u32 - '0' as u32) as u128);
        if next >= limit {
            proof {
                let whole = text@.subrange(from as int, to as int);
                let rest = text@.subrange(i + 1, to as int);
                assert(whole =~= s1 + rest);
                lemma_digits_concat(s1, rest);
                lemma_pow10_monotone(0, rest.len());
                let d1 = digits_value(s1);
                let pr = pow10(rest.len());
                assert(d1 * pr >= d1) by (nonlinear_arith)
                    requires
                        pr >= 1,
                ;
            }
            return None;
        }
        acc = next;
        i = i + 1;
    }
    Some(acc)
}

/// The position of the first point in `text` at or after `from`, or the
/// text's length where there is none.
fn find_point(text: &str, from: usize) -> (r: usize)
    requires
        from <= text@.len(),
    ensures
        from <= r <= text@.len(),
        forall|i: int| from <= i < r ==> text@[i] != '.',
        r < text@.len() ==> text@[r as int] == '.',
{
    let n = text.unicode_len();
    let mut j: usize = from;
    while j < n
        invariant
            from <= j <= n,
            n == text@.len(),
            forall|i: int| from <= i < j ==> text@[i] != '.',
        decreases n - j,
    {
        if text.get_char(j) == '.' {
            return j;
        }
        j = j + 1;
    }
    j
}

/// The character of a decimal digit.
pub open spec fn digit_char(d: nat) -> char {
    if d == 0 {
        '0'
    } else if d == 1 {
        '1'
    } else if d == 2 {
        '2'
    } else if d == 3 {
        '3'
    } else if d == 4 {
        '4'
    } else if d == 5 {
        '5'
    } else if d == 6 {
        '6'
    } else if d == 7 {
        '7'
    } else if d == 8 {
        '8'
    } else {
        '9'
    }
}

/// `n` in decimal, without leading zeros.
pub open spec fn nat_text(n: nat) -> Seq<char>
    decreases n,
{
    if n < 10 {
        seq![digit_char(n)]
    } else {
        nat_text(n / 10).push(digit_char(n % 10))
    }
}

/// The last `k` decimal digits of `n`, with leading zeros.
pub open spec fn padded_text(n: nat, k: nat) -> Seq<char>
    decreases k,
{
    if k == 0 {
        Seq::empty()
    } else {
        padded_text(n / 10, (k - 1) as nat).push(digit_char(n % 10))
    }
}

pub open spec fn magnitude(units: int) -> nat {
    if units < 0 {
        (-units) as nat
    } else {
        units as nat
    }
}

/// A quantity in decimal: a minus sign where it is negative, the whole part,
/// and where the scale is not zero, a point and exactly `scale` digits.
pub open spec fn text_of(v: Volume) -> Seq<char> {
    let m = magnitude(v.units as int);
    let d = pow10(v.scale as nat);
    let sign = if v.units < 0 {
        seq!['-']
    } else {
        Seq::empty()
    };
    let fraction = if v.scale == 0 {
        Seq::empty()
    } else {
        seq!['.'] + padded_text(m % d, v.scale as nat)
    };
    sign + nat_text(m / d) + fraction
}

/// The one-character text of a decimal digit.
fn digit_str(d: u128) -> (r: &'static str)
    requires
        d < 10,
    ensures
        r@ == seq![digit_char(d as nat)],
{
    proof {
        reveal_strlit("0");
        reveal_strlit("1");
        reveal_strlit("2");
        reveal_strlit("3");
        reveal_strlit("4");
        reveal_strlit("5");
        reveal_strlit("6");
        reveal_strlit("7");
        reveal_strlit("8");
        reveal_strlit("9");
    }
    let r = if d == 0 {
        "0"
    } else if d == 1 {
        "1"
    } else if d == 2 {
        "2"
    } else if d == 3 {
        "3"
    } else if d == 4 {
        "4"
    } else if d == 5 {
        "5"
    } else if d == 6 {
        "6"
    } else if d == 7 {
        "7"
    } else if d == 8 {
        "8"
    } else {
        "9"
    };
    assert(r@ =~= seq![digit_char(d as nat)]);
    r
}

/// Appends `n` in decimal.
pub(crate) fn push_nat_text(out: &mut String, n: u128)
    ensures
        final(out)@ == old(out)@ + nat_text(n as nat),
    decreases n,
{
    if n >= 10 {
        push_nat_text(out, n / 10);
    }
    out.append(digit_str(n % 10));
    proof {
        if n >= 10 {
            assert(nat_text(n as nat) == nat_text((n / 10) as nat).push(digit_char((n % 10) as nat)));
        } else {
            assert(nat_text(n as nat) == seq![digit_char(n as nat)]);
        }
    }
    assert(final(out)@ =~= old(out)@ + nat_text(n as nat));
}

fn push_padded_text(out: &mut String, n: u128, k: u32)
    ensures
        final(out)@ == old(out)@ + padded_text(n as nat, k as nat),
    decreases k,
{
    if k > 0 {
        push_padded_text(out, n / 10, k - 1);
        out.append(digit_str(n % 10));
        assert(final(out)@ =~= old(out)@ + padded_text(n as nat, k as nat));
    } else {
        assert(final(out)@ =~= old(out)@ + padded_text(n as nat, k as nat));
    }
}

proof fn lemma_digit_char(d: nat)
    requires
        d < 10,
    ensures
        is_digit(digit_char(d)),
        digit_value(digit_char(d)) == d,
        digit_char(d) != '-',
        digit_char(d) != '.',
{
}

pub(crate) proof fn lemma_nat_text(n: nat)
    ensures
        nat_text(n).len() >= 1,
        all_digits(nat_text(n)),
        digits_value(nat_text(n)) == n,
    decreases n,
{
    let t = nat_text(n);
    if n < 10 {
        lemma_digit_char(n);
        assert(t.drop_last() =~= Seq::<char>::empty());
        assert(is_digit(t[0]));
        assert(digits_value(t) == 10 * digits_value(t.drop_last()) + digit_value(t.last()));
    } else {
        lemma_nat_text(n / 10);
        lemma_digit_char(n % 10);
        let p = nat_text(n / 10);
        assert(t.drop_last() =~= p);
        assert(digits_value(t) == 10 * digits_value(p) + digit_value(t.last()));
        assert forall|i: int| 0 <= i < t.len() implies #[trigger] is_digit(t[i]) by {
            if i < p.len() {
                assert(t[i] == p[i]);
                assert(is_digit(p[i]));
            }
        }
    }
}

proof fn lemma_padded_text(n: nat, k: nat)
    ensures
        padded_text(n, k).len() == k,
        all_digits(padded_text(n, k)),
        digits_value(padded_text(n, k)) == n % pow10(k),
    decreases k,
{
    let t = padded_text(n, k);
    if k == 0 {
        assert(n % 1 == 0);
    } else {
        let km = (k - 1) as nat;
        lemma_padded_text(n / 10, km);
        lemma_digit_char(n % 10);
        let p = padded_text(n / 10, km);
        assert(t.drop_last() =~= p);
        assert forall|i: int| 0 <= i < t.len() implies #[trigger] is_digit(t[i]) by {
            if i < p.len() {
                assert(t[i] == p[i]);
                assert(is_digit(p[i]));
            }
        }
        lemma_pow10_monotone(0, km);
        let q = pow10(km);
        assert(pow10(k) == 10 * q);
        assert(10 * ((n / 10) % q) + n % 10 == n % (10 * q)) by (nonlinear_arith)
            requires
                q >= 1,
        {
            let a = n / 10;
            assert(n == 10 * a + n % 10);
            assert(a == q * (a / q) + a % q);
            assert(n == (10 * q) * (a / q) + (10 * (a % q) + n % 10));
            assert(0 <= 10 * (a % q) + n % 10 < 10 * q);
            vstd::arithmetic::div_mod::lemma_fundamental_div_mod_converse(
                n as int,
                (10 * q) as int,
                (a / q) as int,
                (10 * (a % q) + n % 10) as int,
            );
        }
    }
}

/// A text writes at most one quantity.
pub proof fn lemma_denotes_unique(s: Seq<char>, u1: int, k1: nat, u2: int, k2: nat)
    requires
        denotes(s, u1, k1),
        denotes(s, u2, k2),
    ensures
        u1 == u2,
        k1 == k2,
{
    let b = body_of(s);
    if exists|j: int| point_at(b, j) {
        let j = choose|j: int| point_at(b, j);
        assert(!is_digit(b[j]));
        assert forall|i: int| #[trigger] point_at(b, i) implies i == j by {
            if i < j {
                assert(b.skip(i + 1)[j - i - 1] == b[j]);
                assert(!is_digit(b.skip(i + 1)[j - i - 1]));
            } else if i > j {
                assert(b.take(i)[j] == b[j]);
                assert(!is_digit(b.take(i)[j]));
            }
        }
    }
}

proof fn lemma_text_denotes(v: Volume)
    requires
        fits(v.units as int, v.scale as nat),
    ensures
        is_decimal(text_of(v)),
        denotes(text_of(v), v.units as int, v.scale as nat),
{
    let s = text_of(v);
    let m = magnitude(v.units as int);
    let d = pow10(v.scale as nat);
    lemma_pow10_monotone(0, v.scale as nat);
    let q = m / d;
    let r = m % d;
    let whole = nat_text(q);
    lemma_nat_text(q);
    let sign = if v.units < 0 {
        seq!['-']
    } else {
        Seq::<char>::empty()
    };
    let fraction = if v.scale == 0 {
        Seq::<char>::empty()
    } else {
        seq!['.'] + padded_text(r, v.scale as nat)
    };
    assert(s == sign + whole + fraction);
    let b = whole + fraction;
    assert(is_digit(whole[0]));
    assert(is_negative(s) == (v.units < 0)) by {
        if v.units >= 0 {
            assert(s[0] == whole[0]);
        }
    }
    assert(body_of(s) =~= b);
    assert(v.units as int == signed(is_negative(s), m));
    if v.scale == 0 {
        assert(d == 1);
        assert(q == m) by {
            vstd::arithmetic::div_mod::lemma_div_basics(m as int);
        }
        assert(b =~= whole);
        assert(body_of(s).len() > 0 && all_digits(body_of(s)));
        assert(digits_value(body_of(s)) == m);
        assert(denotes(s, v.units as int, v.scale as nat));
    } else {
        let frac = padded_text(r, v.scale as nat);
        lemma_padded_text(r, v.scale as nat);
        let j = whole.len() as int;
        assert(b.take(j) =~= whole);
        assert(b.skip(j + 1) =~= frac);
        assert(b[j] == '.');
        assert(point_at(b, j));
        lemma_digits_concat(whole, frac);
        assert(r % d == r) by {
            vstd::arithmetic::div_mod::lemma_small_mod(r, d);
        }
        assert(m == q * d + r) by {
            vstd::arithmetic::div_mod::lemma_fundamental_div_mod(m as int, d as int);
        }
        assert(digits_value(b.take(j) + b.skip(j + 1)) == m);
        assert(point_at(body_of(s), j) && v.scale == body_of(s).len() - 1 - j);
        assert(v.units == signed(
            is_negative(s),
            digits_value(body_of(s).take(j) + body_of(s).skip(j + 1)),
        ));
        assert(denotes(s, v.units as int, v.scale as nat));
    }
}

/// Writing a well-formed quantity out with `text_of` and reading the text
/// back gives the same quantity, and no other; so the reader never refuses
/// a text that `text_of` wrote.
pub proof fn lemma_text_round_trip(v: Volume)
    requires
        fits(v.units as int, v.scale as nat),
    ensures
        is_decimal(text_of(v)),
        denotes(text_of(v), v.units as int, v.scale as nat),
        fits(v.units as int, v.scale as nat),
        forall|u: int, k: nat| denotes(text_of(v), u, k) <==> u == v.units && k == v.scale,
{
    lemma_text_denotes(v);
    assert forall|u: int, k: nat| denotes(text_of(v), u, k) <==> u == v.units && k == v.scale by {
        if denotes(text_of(v), u, k) {
            lemma_denotes_unique(text_of(v), u, k, v.units as int, v.scale as nat);
        }
    }
}

/// A volume from empty up to a full keg (19) shows from 0 up to 100 percent.
pub proof fn lemma_percent_within_keg(v: Volume)
    requires
        v.wf(),
        0 <= v.units,
        v.units * pow10(v.shift as nat) <= 19 * v.denominator(),
    ensures
        0 <= v.percent_spec() <= 100,
{
    lemma_pow10_monotone(0, v.scale as nat);
    lemma_pow10_monotone(0, v.shift as nat);
    let d = 19 * (v.denominator() as int);
    let n = v.units * 100 * pow10(v.shift as nat);
    assert(0 <= n <= 100 * d) by (nonlinear_arith)
        requires
            n == v.units * 100 * pow10(v.shift as nat),
            0 <= v.units,
            v.units * pow10(v.shift as nat) <= 19 * v.denominator(),
            d == 19 * (v.denominator() as int),
            pow10(v.shift as nat) >= 1,
    ;
    assert(0 <= (2 * n + d) / (2 * d) <= 100) by (nonlinear_arith)
        requires
            d >= 19,
            0 <= n <= 100 * d,
    {
        vstd::arithmetic::div_mod::lemma_div_is_ordered(2 * n + d, 201 * d, 2 * d);
        vstd::arithmetic::div_mod::lemma_div_is_ordered(0, 2 * n + d, 2 * d);
        assert(201 * d == 100 * (2 * d) + d);
        vstd::arithmetic::div_mod::lemma_fundamental_div_mod_converse(201 * d, 2 * d, 100, d);
        assert(0int / (2 * d) == 0);
    }
}

impl Volume {
    /// The scale stays within what the arithmetic below is sized for.
    pub open spec fn wf(self) -> bool {
        holds(self.units as int, self.scale as nat, self.shift as nat)
    }

    /// Whether the quantity is within what a `Volume` is sized for.
    pub fn is_wf(&self) -> (r: bool)
        ensures
            r == self.wf(),
    {
        let limit = pow10_exec(UNIT_DIGITS);
        proof {
            lemma_pow10_bound(UNIT_DIGITS as nat);
        }
        let m: u128 = if self.units < 0 {
            if self.units < -(limit as i128) {
                return false;
            }
            (-self.units) as u128
        } else {
            self.units as u128
        };
        self.scale <= MAX_SCALE && m < limit && self.shift <= MAX_SHIFT && (self.shift == 0
            || self.scale == 0)
    }

    pub open spec fn denominator(self) -> nat {
        pow10(self.scale as nat)
    }

    /// `round(value / 19 * 100)`: the share of a full keg, in percent.
    pub open spec fn percent_spec(self) -> int {
        round_div(self.units * 100 * pow10(self.shift as nat), 19 * (self.denominator() as int))
    }


    /// Reads a quantity written as an optional minus sign, then digits, then
    /// optionally a point and more digits (`19`, `9.5`, `-0.25`). The text
    /// is refused when it writes no quantity, or one that a `Volume` cannot
    /// hold.
    #[verifier::rlimit(60)]
    #[verifier::spinoff_prover]
    pub fn parse(text: &str) -> (r: Option<Volume>)
        ensures
            r.is_none() <==> forall|u: int, k: nat| #[trigger]
                denotes(text@, u, k) ==> !fits(u, k),
            r matches Some(v) ==> v.wf() && v.shift == 0 && denotes(
                text@,
                v.units as int,
                v.scale as nat,
            ),
    {
        let ghost s = text@;
        proof {
            lemma_pow10_bound(UNIT_DIGITS as nat);
        }
        let n = text.unicode_len();
        let negative = n > 0 && text.get_char(0) == '-';
        let start: usize = if negative {
            1
        } else {
            0
        };
        let ghost b = body_of(s);
        assert(negative == is_negative(s));
        assert(b =~= s.subrange(start as int, n as int));
        let j = find_point(text, start);
        if j == n {
            proof {
                assert forall|k: int| !point_at(b, k) by {
                    if 0 <= k < b.len() {
                        assert(b[k] == s[start + k]);
                    }
                }
                assert forall|u: int, k: nat| #[trigger] denotes(s, u, k) implies k == 0 && u
                    == signed(negative, digits_value(b)) && all_digits(b) && b.len() > 0 by {}
            }
            if n == start {
                return None;
            }
            match digits_in(text, start, n) {
                None => None,
                Some(m) => {
                    let units: i128 = if negative {
                        -(m as i128)
                    } else {
                        m as i128
                    };
                    assert(denotes(s, units as int, 0));
                    Some(Volume { units, scale: 0, shift: 0 })
                },
            }
        } else {
            let ghost jb = j - start;
            proof {
                assert(b[jb] == '.');
                assert(!is_digit(b[jb]));
                assert forall|k: int| #[trigger] point_at(b, k) implies k == jb by {
                    if k < jb {
                        assert(b[k] == s[start + k]);
                    } else if k > jb {
                        assert(b.take(k)[jb] == b[jb]);
                    }
                }
            }
            if j == start || j + 1 == n {
                return None;
            }
            let ghost lo = b.take(jb);
            let ghost hi = b.skip(jb + 1);
            assert(lo =~= s.subrange(start as int, j as int));
            assert(hi =~= s.subrange(j + 1, n as int));
            let ghost total = digits_value(lo + hi);
            proof {
                assert forall|u: int, k: nat| #[trigger] denotes(s, u, k) implies k == hi.len() && u
                    == signed(negative, total) && all_digits(lo) && all_digits(hi) by {
                    assert(point_at(b, jb));
                }
                lemma_digits_concat(lo, hi);
                lemma_pow10_monotone(0, hi.len());
                assert(digits_value(lo) * pow10(hi.len()) >= digits_value(lo)) by (nonlinear_arith)
                    requires
                        pow10(hi.len()) >= 1,
                ;
            }
            let scale_len: usize = n - j - 1;
            if scale_len > MAX_SCALE as usize {
                return None;
            }
            let scale: u32 = scale_len as u32;
            let whole = digits_in(text, start, j);
            let frac = digits_in(text, j + 1, n);
            match (whole, frac) {
                (Some(w), Some(f)) => {
                    if w == 0 {
                        let units: i128 = if negative {
                            -(f as i128)
                        } else {
                            f as i128
                        };
                        proof {
                            assert(digits_value(lo) == 0);
                            assert(0 * pow10(hi.len()) == 0);
                            assert(total == f);
                            assert(point_at(b, jb));
                            assert(denotes(s, units as int, scale as nat));
                        }
                        return Some(Volume { units, scale, shift: 0 });
                    }
                    if scale > UNIT_DIGITS {
                        proof {
                            lemma_pow10_monotone(UNIT_DIGITS as nat, hi.len());
                            assert(w * pow10(hi.len()) >= pow10(hi.len())) by (nonlinear_arith)
                                requires
                                    w >= 1,
                            ;
                        }
                        return None;
                    }
                    let p = pow10_exec(scale);
                    let room = pow10_exec(UNIT_DIGITS - scale);
                    let ghost pw = pow10(hi.len());
                    let ghost pr = pow10((UNIT_DIGITS - scale) as nat);
                    proof {
                        lemma_pow10_add((UNIT_DIGITS - scale) as nat, hi.len());
                        assert((UNIT_DIGITS - scale) as nat + hi.len() == UNIT_DIGITS as nat);
                        lemma_digits_bound(hi);
                        lemma_pow10_bound(UNIT_DIGITS as nat);
                    }
                    if w >= room {
                        proof {
                            assert(w * pw >= pr * pw) by (nonlinear_arith)
                                requires
                                    w >= pr,
                                    pw >= 1,
                            ;
                        }
                        return None;
                    }
                    proof {
                        assert(w * pw + f < pr * pw) by (nonlinear_arith)
                            requires
                                w + 1 <= pr,
                                f < pw,
                                pw >= 1,
                        ;
                    }
                    let m: u128 = w * p + f;
                    let units: i128 = if negative {
                        -(m as i128)
                    } else {
                        m as i128
                    };
                    proof {
                        assert(point_at(b, jb));
                        assert(denotes(s, units as int, scale as nat));
                    }
                    Some(Volume { units, scale, shift: 0 })
                },
                _ => None,
            }
        }
    }

    /// The quantity as `written` spells it (`9.5`, `19`, `-0.25`, `17e292`).
    pub fn to_text(&self) -> (r: String)
        requires
            self.wf(),
        ensures
            r@ == written(*self),
    {
        proof {
            lemma_pow10_bound(UNIT_DIGITS as nat);
            reveal_strlit("-");
            reveal_strlit(".");
            reveal_strlit("e");
        }
        let mut out = String::new();
        if self.units < 0 {
            out.append("-");
        }
        let m: u128 = if self.units < 0 {
            (-(self.units as i128)) as u128
        } else {
            self.units as u128
        };
        assert(m as nat == magnitude(self.units as int));
        let ghost d = pow10(self.scale as nat);
        if self.scale <= UNIT_DIGITS {
            let dx = pow10_exec(self.scale);
            proof {
                lemma_pow10_bound(self.scale as nat);
            }
            push_nat_text(&mut out, m / dx);
            if self.scale > 0 {
                out.append(".");
                push_padded_text(&mut out, m % dx, self.scale);
            }
        } else {
            proof {
                lemma_pow10_monotone(UNIT_DIGITS as nat, self.scale as nat);
                assert(m as nat / d == 0) by {
                    vstd::arithmetic::div_mod::lemma_basic_div(m as int, d as int);
                }
                assert(m as nat % d == m) by {
                    vstd::arithmetic::div_mod::lemma_small_mod(m as nat, d);
                }
            }
            push_nat_text(&mut out, 0);
            out.append(".");
            push_padded_text(&mut out, m, self.scale);
        }
        assert(out@ =~= text_of(*self));
        if self.shift > 0 {
            out.append("e");
            push_nat_text(&mut out, self.shift as u128);
        }
        assert(out@ =~= written(*self));
        out
    }

    /// The share of a full keg in percent for a quantity without shift and
    /// with at most 32 fractional digits.
    fn small_percent(&self) -> (r: i128)
        requires
            self.wf(),
            self.shift == 0,
            self.scale <= 32,
        ensures
            r as int == self.percent_spec(),
    {
        let den = pow10_exec(self.scale);
        proof {
            lemma_pow10_monotone(self.scale as nat, 32);
            reveal_with_fuel(pow10, 33);
            assert(pow10(32) == 100_000_000_000_000_000_000_000_000_000_000);
            lemma_pow10_bound(UNIT_DIGITS as nat);
            assert(pow10(0) == 1);
            assert(self.units * 100 * 1 == self.units * 100);
        }
        let d: u128 = 19 * (den as u128);
        let mag: u128 = if self.units < 0 {
            (-(self.units as i128)) as u128
        } else {
            self.units as u128
        };
        let n: u128 = mag * 100;
        let q: u128 = (2 * n + d) / (2 * d);
        proof {
            assert(q <= 2 * n + d) by (nonlinear_arith)
                requires
                    d >= 1,
                    q == (2 * n + d) / (2 * d),
            ;
        }
        if self.units < 0 {
            -(q as i128)
        } else {
            q as i128
        }
    }

    /// The share of a full keg (19 units) in percent, rounded half away from
    /// zero, in decimal. Quantities above 19 or below 0 are not clamped.
    pub fn percent(&self) -> (r: String)
        requires
            self.wf(),
        ensures
            r@ == int_text(self.percent_spec()),
    {
        let mut out = String::new();
        if self.shift == 0 && self.scale <= 32 {
            push_int_text(&mut out, self.small_percent());
            assert(out@ =~= int_text(self.percent_spec()));
            return out;
        }
        proof {
            lemma_pow10_bound(UNIT_DIGITS as nat);
        }
        let mag: u128 = if self.units < 0 {
            (-(self.units as i128)) as u128
        } else {
            self.units as u128
        };
        let m: u128 = mag * 100;
        if self.shift == 0 {
            proof {
                lemma_pow10_monotone(33, self.scale as nat);
                reveal_with_fuel(pow10, 34);
                lemma_zero_percent(self.units * 100, 19 * (pow10(self.scale as nat) as int));
                assert(self.units * 100 * 1 == self.units * 100);
            }
            push_nat_text(&mut out, 0);
            assert(out@ =~= int_text(self.percent_spec()));
            return out;
        }
        let mut digits = String::new();
        let q = push_rounded_quotient(&mut digits, m, self.shift);
        proof {
            let p = pow10(self.shift as nat);
            lemma_pow10_monotone(0, self.shift as nat);
            assert(self.denominator() == 1);
            lemma_round_19((m as nat * p) as int);
            if self.units < 0 {
                assert(self.units * 100 * p == -(m as nat * p)) by (nonlinear_arith)
                    requires
                        m == -self.units * 100,
                ;
            } else {
                assert(self.units * 100 * p == m as nat * p) by (nonlinear_arith)
                    requires
                        m == self.units * 100,
                ;
            }
        }
        if self.units < 0 && q {
            out.append("-");
        }
        out.append(digits.as_str());
        proof {
            reveal_strlit("-");
        }
        assert(out@ =~= int_text(self.percent_spec()));
        out
    }
}

/// What `to_text` writes: the decimal, then where there is a shift, `e` and
/// the shift.
pub open spec fn written(v: Volume) -> Seq<char> {
    text_of(v) + if v.shift > 0 {
        seq!['e'] + nat_text(v.shift as nat)
    } else {
        Seq::empty()
    }
}

/// An integer in decimal, with a minus sign where it is negative.
pub open spec fn int_text(i: int) -> Seq<char> {
    let sign = if i < 0 {
        seq!['-']
    } else {
        Seq::empty()
    };
    sign + nat_text(magnitude(i))
}

fn push_int_text(out: &mut String, i: i128)
    ensures
        final(out)@ == old(out)@ + int_text(i as int),
{
    let m: u128 = if i < 0 {
        proof {
            reveal_strlit("-");
        }
        out.append("-");
        ((-(i + 1)) as u128) + 1
    } else {
        i as u128
    };
    push_nat_text(out, m);
    assert(final(out)@ =~= old(out)@ + int_text(i as int));
}

proof fn lemma_zero_percent(n: int, d: int)
    requires
        d >= 19 * 1_000_000_000_000_000_000_000_000_000_000_000,
        -100_000_000_000_000_000_000_000_000_000_000 < n < 100_000_000_000_000_000_000_000_000_000_000,
    ensures
        round_div(n, d) == 0,
{
    if n >= 0 {
        vstd::arithmetic::div_mod::lemma_basic_div(2 * n + d, 2 * d);
    } else {
        vstd::arithmetic::div_mod::lemma_basic_div(-2 * n + d, 2 * d);
    }
}

/// For a non-negative `n`, rounding `n / 19` half away from zero is
/// `(n + 9) / 19`.
proof fn lemma_round_19(n: int)
    requires
        n >= 0,
    ensures
        round_div(n, 19) == (n + 9) / 19,
{
    let q = (n + 9) / 19;
    let r = (n + 9) % 19;
    vstd::arithmetic::div_mod::lemma_fundamental_div_mod(n + 9, 19);
    vstd::arithmetic::div_mod::lemma_fundamental_div_mod_converse(2 * n + 19, 38, q, 2 * r + 1);
}

/// Appends `(m * 10^shift + 9) / 19` in decimal, by long division, and says
/// whether that quotient is above zero.
fn push_rounded_quotient(out: &mut String, m: u128, shift: u32) -> (nonzero: bool)
    requires
        shift >= 1,
        m < 1_000_000_000_000_000_000_000_000_000_000_000,
    ensures
        final(out)@ == old(out)@ + nat_text(((m * pow10(shift as nat) + 9) / 19) as nat),
        nonzero == ((m * pow10(shift as nat) + 9) / 19 > 0),
{
    let ghost start = out@;
    let mut r: u128 = m % 19;
    let mut started: bool = m / 19 > 0;
    let ghost q: int = (m / 19) as int;
    proof {
        assert(pow10(0) == 1);
        assert(m * pow10(0) == m);
        vstd::arithmetic::div_mod::lemma_fundamental_div_mod(m as int, 19);
    }
    if started {
        push_nat_text(out, m / 19);
    }
    let mut i: u32 = 0;
    while i < shift
        invariant
            i <= shift,
            shift >= 1,
            r < 19,
            q >= 0,
            started == (q > 0),
            m * pow10(i as nat) + (if i == shift { 9int } else { 0int }) == 19 * q + r,
            out@ == start + (if q > 0 { nat_text(q as nat) } else { Seq::empty() }),
        decreases shift - i,
    {
        let add: u128 = if i + 1 == shift {
            9
        } else {
            0
        };
        let t: u128 = 10 * r + add;
        let d: u128 = t / 19;
        let ghost q2: int = 10 * q + d;
        proof {
            vstd::arithmetic::div_mod::lemma_fundamental_div_mod(t as int, 19);
            assert(pow10((i + 1) as nat) == 10 * pow10(i as nat));
            assert(m * pow10((i + 1) as nat) == 10 * (m * pow10(i as nat))) by (nonlinear_arith)
                requires
                    pow10((i + 1) as nat) == 10 * pow10(i as nat),
            ;
            assert(d < 10);
            if q2 >= 10 {
                vstd::arithmetic::div_mod::lemma_fundamental_div_mod_converse(q2, 10, q, d as int);
                assert(nat_text(q2 as nat) == nat_text(q as nat).push(digit_char(d as nat)));
            }
        }
        r = t % 19;
        if started || d > 0 {
            out.append(digit_str(d));
            started = true;
        }
        proof {
            q = q2;
        }
        assert(out@ =~= start + (if q > 0 { nat_text(q as nat) } else { Seq::empty() }));
        i = i + 1;
    }
    proof {
        vstd::arithmetic::div_mod::lemma_fundamental_div_mod_converse(
            m * pow10(shift as nat) + 9,
            19,
            q,
            r as int,
        );
    }
    if !started {
        push_nat_text(out, 0);
    }
    assert(final(out)@ =~= start + nat_text(((m * pow10(shift as nat) + 9) / 19) as nat));
    started
}

} // verus!
