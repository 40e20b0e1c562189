use crate::volume::{
    all_digits, body_of, denotes, digits_in, digits_value, fits, holds, is_digit, is_negative,
    lemma_denotes_unique, lemma_nat_text, lemma_pow10_bound, lemma_pow10_monotone,
    lemma_text_round_trip, nat_text, point_at, pow10, signed, text_of, written, Volume, MAX_SCALE,
    MAX_SHIFT, UNIT_DIGITS,
};
use vstd::prelude::*;

verus! {

pub open spec fn is_marker(c: char) -> bool {
    c == 'e' || c == 'E'
}

/// The first exponent marker of `s` stands at `e`.
pub open spec fn marker_at(s: Seq<char>, e: int) -> bool {
    &&& 0 <= e < s.len()
    &&& is_marker(s[e])
    &&& forall|i: int| 0 <= i < e ==> !is_marker(#[trigger] s[i])
}

pub open spec fn has_marker(s: Seq<char>) -> bool {
    exists|i: int| 0 <= i < s.len() && is_marker(#[trigger] s[i])
}

pub open spec fn exponent_negative(t: Seq<char>) -> bool {
    t.len() > 0 && t[0] == '-'
}

/// The digits of an exponent, after its sign.
pub open spec fn exponent_digits(t: Seq<char>) -> Seq<char> {
    if t.len() > 0 && (t[0] == '+' || t[0] == '-') {
        t.skip(1)
    } else {
        t
    }
}

/// `t` is an exponent: an optional sign, then digits.
pub open spec fn is_exponent(t: Seq<char>) -> bool {
    exponent_digits(t).len() > 0 && all_digits(exponent_digits(t))
}

pub open spec fn exponent_value(t: Seq<char>) -> int {
    signed(exponent_negative(t), digits_value(exponent_digits(t)))
}

/// The scale of `u / 10^k` times `10^x`, written with a shift.
pub open spec fn scaled_scale(k: nat, x: int) -> int {
    if x <= k {
        k - x
    } else {
        0
    }
}

/// The shift of `u / 10^k` times `10^x`.
pub open spec fn scaled_shift(k: nat, x: int) -> int {
    if x <= k {
        0
    } else {
        x - k
    }
}

/// `s` writes `units * 10^shift / 10^scale`: either as a decimal, or as a
/// decimal that a `Volume` can hold followed by `e` or `E` and an exponent
/// (`1e-18`, `2.5E+3`).
pub open spec fn writes(s: Seq<char>, units: int, scale: nat, shift: nat) -> bool {
    ||| !has_marker(s) && denotes(s, units, scale) && shift == 0
    ||| exists|e: int, u0: int, k0: nat|
        #![trigger marker_at(s, e), denotes(s.take(e), u0, k0)]
        marker_at(s, e) && is_exponent(s.skip(e + 1)) && denotes(s.take(e), u0, k0) && fits(u0, k0)
            && units == u0 && scale == scaled_scale(k0, exponent_value(s.skip(e + 1))) && shift
            == scaled_shift(k0, exponent_value(s.skip(e + 1)))
}

fn find_marker(text: &str) -> (r: usize)
    ensures
        r <= text@.len(),
        forall|i: int| 0 <= i < r ==> !is_marker(#[trigger] text@[i]),
        r < text@.len() ==> is_marker(text@[r as int]),
{
    let n = text.unicode_len();
    let mut j: usize = 0;
    while j < n
        invariant
            j <= n,
            n == text@.len(),
            forall|i: int| 0 <= i < j ==> !is_marker(#[trigger] text@[i]),
        decreases n - j,
    {
        let c = text.get_char(j);
        if c == 'e' || c == 'E' {
            return j;
        }
        j = j + 1;
    }
    j
}

fn all_digits_in(text: &str, from: usize, to: usize) -> (r: bool)
    requires
        from <= to <= text@.len(),
    ensures
        r == all_digits(text@.subrange(from as int, to as int)),
{
    let mut i: usize = from;
    while i < to
        invariant
            from <= i <= to <= text@.len(),
            forall|k: int| from <= k < i ==> is_digit(#[trigger] text@[k]),
        decreases to - i,
    {
        let c = text.get_char(i);
        if c < '0' || c > '9' {
            assert(text@.subrange(from as int, to as int)[i - from] == c);
            assert(!is_digit(text@.subrange(from as int, to as int)[i - from]));
            return false;
        }
        i = i + 1;
    }
    assert forall|k: int| 0 <= k < to - from implies #[trigger] is_digit(
        text@.subrange(from as int, to as int)[k],
    ) by {
        assert(text@.subrange(from as int, to as int)[k] == text@[from + k]);
    }
    true
}

proof fn lemma_writes_via(s: Seq<char>, e: int, u0: int, k0: nat, k: nat, sh: nat)
    requires
        marker_at(s, e),
        is_exponent(s.skip(e + 1)),
        denotes(s.take(e), u0, k0),
        fits(u0, k0),
        k == scaled_scale(k0, exponent_value(s.skip(e + 1))),
        sh == scaled_shift(k0, exponent_value(s.skip(e + 1))),
    ensures
        writes(s, u0, k, sh),
{
}

/// A text writes at most one quantity.
pub proof fn lemma_writes_unique(s: Seq<char>, u1: int, k1: nat, h1: nat, u2: int, k2: nat, h2: nat)
    requires
        writes(s, u1, k1, h1),
        writes(s, u2, k2, h2),
    ensures
        u1 == u2 && k1 == k2 && h1 == h2,
{
    if has_marker(s) {
        let (e1, a1, b1) = choose|e: int, u0: int, k0: nat|
            marker_at(s, e) && is_exponent(s.skip(e + 1)) && denotes(s.take(e), u0, k0) && fits(
                u0,
                k0,
            ) && u1 == u0 && k1 == scaled_scale(k0, exponent_value(s.skip(e + 1))) && h1
                == scaled_shift(k0, exponent_value(s.skip(e + 1)));
        let (e2, a2, b2) = choose|e: int, u0: int, k0: nat|
            marker_at(s, e) && is_exponent(s.skip(e + 1)) && denotes(s.take(e), u0, k0) && fits(
                u0,
                k0,
            ) && u2 == u0 && k2 == scaled_scale(k0, exponent_value(s.skip(e + 1))) && h2
                == scaled_shift(k0, exponent_value(s.skip(e + 1)));
        if e1 < e2 {
            assert(!is_marker(s[e1]));
        } else if e2 < e1 {
            assert(!is_marker(s[e2]));
        }
        lemma_denotes_unique(s.take(e1), a1, b1, a2, b2);
    } else {
        lemma_denotes_unique(s, u1, k1, u2, k2);
    }
}

/// A decimal has no exponent marker: only a sign, digits and a point.
proof fn lemma_decimal_has_no_marker(s: Seq<char>, u: int, k: nat)
    requires
        denotes(s, u, k),
    ensures
        !has_marker(s),
{
    let b = body_of(s);
    let off: int = if is_negative(s) {
        1
    } else {
        0
    };
    assert forall|i: int| 0 <= i < s.len() implies !is_marker(#[trigger] s[i]) by {
        if i >= off {
            let i2 = i - off;
            assert(b[i2] == s[i]);
            if all_digits(b) && b.len() > 0 {
                assert(is_digit(b[i2]));
            } else {
                let j = choose|j: int| point_at(b, j);
                if i2 < j {
                    assert(b.take(j)[i2] == b[i2]);
                    assert(is_digit(b.take(j)[i2]));
                } else if i2 > j {
                    assert(b.skip(j + 1)[i2 - j - 1] == b[i2]);
                    assert(is_digit(b.skip(j + 1)[i2 - j - 1]));
                }
            }
        }
    }
}

/// Every well-formed quantity, written out as `to_text` writes it, is read
/// back as itself: the text writes that quantity and no other.
pub proof fn lemma_reads_back(v: Volume)
    requires
        v.wf(),
    ensures
        writes(written(v), v.units as int, v.scale as nat, v.shift as nat),
        forall|u: int, k: nat, h: nat|
            writes(written(v), u, k, h) <==> u == v.units && k == v.scale && h == v.shift,
{
    lemma_text_round_trip(v);
    lemma_decimal_has_no_marker(text_of(v), v.units as int, v.scale as nat);
    let s = written(v);
    if v.shift == 0 {
        assert(s =~= text_of(v));
        assert(writes(s, v.units as int, v.scale as nat, 0));
    } else {
        let e = text_of(v).len() as int;
        let t = nat_text(v.shift as nat);
        lemma_nat_text(v.shift as nat);
        assert(s.take(e) =~= text_of(v));
        assert(s.skip(e + 1) =~= t);
        assert(is_digit(t[0]));
        assert(exponent_digits(t) =~= t);
        assert forall|i: int| 0 <= i < e implies !is_marker(#[trigger] s[i]) by {
            assert(s[i] == text_of(v)[i]);
            if is_marker(text_of(v)[i]) {
                assert(has_marker(text_of(v)));
            }
        }
        assert(marker_at(s, e));
        lemma_writes_via(s, e, v.units as int, 0, 0, v.shift as nat);
    }
    assert forall|u: int, k: nat, h: nat|
        writes(s, u, k, h) <==> u == v.units && k == v.scale && h == v.shift by {
        if writes(s, u, k, h) {
            lemma_writes_unique(s, u, k, h, v.units as int, v.scale as nat, v.shift as nat);
        }
    }
}

impl Volume {
    /// Reads a quantity written as a decimal (`9.5`), or in exponent
    /// notation (`1e-18`, `2.5E+3`) where the part before the exponent is a
    /// decimal that a `Volume` holds. The text is refused when it writes no
    /// quantity, or one that a `Volume` cannot hold.
    #[verifier::rlimit(80)]
    #[verifier::spinoff_prover]
    pub fn read(text: &str) -> (r: Option<Volume>)
        ensures
            r.is_none() <==> forall|u: int, k: nat, h: nat| #[trigger]
                writes(text@, u, k, h) ==> !holds(u, k, h),
            r matches Some(v) ==> v.wf() && writes(
                text@,
                v.units as int,
                v.scale as nat,
                v.shift as nat,
            ),
    {
        let ghost s = text@;
        let n = text.unicode_len();
        let e = find_marker(text);
        if e == n {
            assert(!has_marker(s));
            let r = Volume::parse(text);
            proof {
                if let Some(v) = r {
                    assert(writes(s, v.units as int, v.scale as nat, 0));
                } else {
                    assert forall|u: int, k: nat, h: nat| #[trigger]
                        writes(s, u, k, h) implies !holds(u, k, h) by {
                        if writes(s, u, k, h) && !denotes(s, u, k) {
                            let (e2, u2, k2) = choose|e2: int, u2: int, k2: nat|
                                marker_at(s, e2) && denotes(s.take(e2), u2, k2);
                            assert(is_marker(s[e2]));
                        }
                    }
                }
            }
            return r;
        }
        assert(marker_at(s, e as int));
        assert(has_marker(s));
        let head = text.substring_char(0, e);
        let tail = text.substring_char(e + 1, n);
        assert(head@ =~= s.take(e as int));
        assert(tail@ =~= s.skip(e + 1));
        let ghost t = tail@;
        proof {
            lemma_pow10_bound(UNIT_DIGITS as nat);
        }
        let m = match Volume::parse(head) {
            None => {
                proof {
                    assert forall|u: int, k: nat, h: nat| #[trigger]
                        writes(s, u, k, h) implies !holds(u, k, h) by {
                        if writes(s, u, k, h) {
                            let (e2, u0, k0) = choose|e2: int, u0: int, k0: nat|
                                marker_at(s, e2) && denotes(s.take(e2), u0, k0) && fits(u0, k0);
                            if e2 < e {
                                assert(!is_marker(s[e2]));
                            } else if e2 > e {
                                assert(!is_marker(s[e as int]));
                            }
                        }
                    }
                }
                return None;
            },
            Some(m) => m,
        };
        let ghost u0 = m.units as int;
        let ghost k0 = m.scale as nat;
        proof {
            assert forall|u: int, k: nat, h: nat| #[trigger] writes(s, u, k, h) implies is_exponent(
                t,
            ) && u == u0 && k == scaled_scale(k0, exponent_value(t)) && h == scaled_shift(
                k0,
                exponent_value(t),
            ) by {
                let (e2, u1, k1) = choose|e2: int, u1: int, k1: nat|
                    marker_at(s, e2) && is_exponent(s.skip(e2 + 1)) && denotes(s.take(e2), u1, k1)
                        && fits(u1, k1) && u == u1 && k == scaled_scale(
                        k1,
                        exponent_value(s.skip(e2 + 1)),
                    ) && h == scaled_shift(k1, exponent_value(s.skip(e2 + 1)));
                if e2 < e {
                    assert(!is_marker(s[e2]));
                } else if e2 > e {
                    assert(!is_marker(s[e as int]));
                }
                lemma_denotes_unique(s.take(e as int), u1, k1, u0, k0);
            }
        }
        let tn = tail.unicode_len();
        let first: char = if tn > 0 {
            tail.get_char(0)
        } else {
            ' '
        };
        let negative = first == '-';
        let xs: usize = if first == '-' || first == '+' {
            1
        } else {
            0
        };
        assert(exponent_digits(t) =~= t.subrange(xs as int, tn as int));
        assert(negative == exponent_negative(t));
        if xs == tn || !all_digits_in(tail, xs, tn) {
            return None;
        }
        let ghost x = exponent_value(t);
        match digits_in(tail, xs, tn) {
            None => {
                proof {
                    lemma_pow10_monotone(3, 30);
                    reveal_with_fuel(pow10, 4);
                    assert(digits_value(exponent_digits(t)) >= pow10(UNIT_DIGITS as nat));
                    assert(pow10(UNIT_DIGITS as nat) >= 1000);
                }
                None
            },
            Some(xv) => {
                if negative {
                    if (m.scale as u128) + xv > MAX_SCALE as u128 {
                        return None;
                    }
                    let v = Volume { units: m.units, scale: m.scale + (xv as u32), shift: 0 };
                    proof {
                        lemma_writes_via(s, e as int, u0, k0, v.scale as nat, 0);
                    }
                    Some(v)
                } else if xv <= m.scale as u128 {
                    let v = Volume { units: m.units, scale: m.scale - (xv as u32), shift: 0 };
                    proof {
                        lemma_writes_via(s, e as int, u0, k0, v.scale as nat, 0);
                    }
                    Some(v)
                } else {
                    let shift = xv - m.scale as u128;
                    if shift > MAX_SHIFT as u128 {
                        return None;
                    }
                    let v = Volume { units: m.units, scale: 0, shift: shift as u32 };
                    proof {
                        lemma_writes_via(s, e as int, u0, k0, 0, v.shift as nat);
                    }
                    Some(v)
                }
            },
        }
    }
}

} // verus!
