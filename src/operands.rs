//! The operands of a number, as the rule language defines them.
use vstd::prelude::*;

verus! {

/// The operand values of a number `n = i + f / 10^v` written with `v` fraction digits.
#[derive(Debug, Clone, Copy, PartialEq, Eq, Structural)]
pub struct PluralOperands {
    /// Integer part
    pub i: u64,
    /// Number of fraction digits, trailing zeros included
    pub v: u64,
    /// Number of fraction digits, trailing zeros excluded
    pub w: u64,
    /// Fraction digits as an integer, trailing zeros included
    pub f: u64,
    /// Fraction digits as an integer, trailing zeros excluded
    pub t: u64,
    /// Compact decimal exponent (also the value of `e`)
    pub c: u64,
}

/// Removes trailing zeros from `v` fraction digits whose value is `f`:
/// the value and count of the digits that remain.
pub open spec fn strip_zeros(f: nat, v: nat) -> (nat, nat)
    decreases v,
{
    if v > 0 && f % 10 == 0 {
        strip_zeros(f / 10, (v - 1) as nat)
    } else {
        (f, v)
    }
}

/// The operands of `i` followed by `v` fraction digits of value `f`.
pub open spec fn operands_of(i: nat, f: nat, v: nat) -> PluralOperands
    recommends
        i <= u64::MAX,
        f <= u64::MAX,
        v <= u64::MAX,
{
    PluralOperands {
        i: i as u64,
        v: v as u64,
        w: strip_zeros(f, v).1 as u64,
        f: f as u64,
        t: strip_zeros(f, v).0 as u64,
        c: 0,
    }
}

proof fn lemma_strip_bounded(f: nat, v: nat)
    ensures
        strip_zeros(f, v).0 <= f,
        strip_zeros(f, v).1 <= v,
    decreases v,
{
    if v > 0 && f % 10 == 0 {
        lemma_strip_bounded(f / 10, (v - 1) as nat);
    }
}

pub open spec fn is_digit_char(c: char) -> bool {
    '0' <= c && c <= '9'
}

pub open spec fn all_digit_chars(s: Seq<char>) -> bool {
    forall|k: int| 0 <= k < s.len() ==> is_digit_char(#[trigger] s[k])
}

/// The value of a string of decimal digits.
pub open spec fn chars_value(s: Seq<char>) -> nat
    decreases s.len(),
{
    if s.len() == 0 {
        0
    } else {
        chars_value(s.drop_last()) * 10 + (s.last() as u32 - '0' as u32) as nat
    }
}

/// The value of `s` when it is a non-empty string of digits whose value fits in a `u64`.
pub open spec fn digits_u64(s: Seq<char>) -> Option<u64> {
    if s.len() > 0 && all_digit_chars(s) && chars_value(s) <= u64::MAX {
        Some(chars_value(s) as u64)
    } else {
        None
    }
}

/// Position of the first `.` in `s`, or its length when there is none.
pub open spec fn dot_pos(s: Seq<char>) -> nat
    decreases s.len(),
{
    if s.len() == 0 || s[0] == '.' {
        0
    } else {
        1 + dot_pos(s.drop_first())
    }
}

/// `s` is a decimal numeral: `digits ( "." digits )?`.
pub open spec fn numeral_wf(s: Seq<char>) -> bool {
    let p = dot_pos(s) as int;
    0 < p && all_digit_chars(s.subrange(0, p)) && (p == s.len() || (p + 1 < s.len()
        && all_digit_chars(s.subrange(p + 1, s.len() as int))))
}

/// The operands of a decimal numeral `digits ( "." digits )?`, when its integer
/// part and the value of its fraction digits fit in a `u64`.
pub open spec fn literal_operands(s: Seq<char>) -> Option<PluralOperands> {
    let p = dot_pos(s) as int;
    let int_part = s.subrange(0, p);
    if p == s.len() {
        match digits_u64(s) {
            Some(i) => Some(operands_of(i as nat, 0, 0)),
            None => None,
        }
    } else {
        let frac = s.subrange(p + 1, s.len() as int);
        match (digits_u64(int_part), digits_u64(frac)) {
            (Some(i), Some(f)) => Some(operands_of(i as nat, f as nat, frac.len())),
            _ => None,
        }
    }
}

pub(crate) proof fn lemma_dot_pos(s: Seq<char>, k: int)
    requires
        0 <= k <= s.len(),
        forall|q: int| 0 <= q < k ==> s[q] != '.',
    ensures
        dot_pos(s) >= k,
        k < s.len() && s[k] == '.' ==> dot_pos(s) == k,
        k == s.len() ==> dot_pos(s) == k,
    decreases k,
{
    if k > 0 {
        lemma_dot_pos(s.drop_first(), k - 1);
    }
}

pub(crate) proof fn lemma_prefix_value(s: Seq<char>, k: int)
    requires
        0 <= k <= s.len(),
        all_digit_chars(s),
    ensures
        chars_value(s.subrange(0, k)) <= chars_value(s),
    decreases s.len(),
{
    if k < s.len() {
        assert(all_digit_chars(s.drop_last())) by {
            assert forall|q: int| 0 <= q < s.drop_last().len() implies is_digit_char(
                #[trigger] s.drop_last()[q],
            ) by {
                assert(s.drop_last()[q] == s[q]);
            }
        }
        lemma_prefix_value(s.drop_last(), k);
        assert(s.drop_last().subrange(0, k) =~= s.subrange(0, k));
    } else {
        assert(s.subrange(0, k) =~= s);
    }
}

/// The value of the digits `s[from..to]`, when they are all digits, at least one,
/// and their value fits in a `u64`.
fn digits_in(s: &str, from: usize, to: usize) -> (r: Option<u64>)
    requires
        from <= to <= s@.len(),
    ensures
        r == digits_u64(s@.subrange(from as int, to as int)),
{
    let ghost d = s@.subrange(from as int, to as int);
    if from == to {
        return None;
    }
    let mut acc: u64 = 0;
    let mut k: usize = from;
    while k < to
        invariant
            from <= k <= to <= s@.len(),
            d == s@.subrange(from as int, to as int),
            all_digit_chars(d.subrange(0, k - from)),
            acc as nat == chars_value(d.subrange(0, k - from)),
        decreases to - k,
    {
        let c = s.get_char(k);
        if !('0' <= c && c <= '9') {
            assert(d[k - from] == c);
            return None;
        }
        let dv: u64 = (c as u32 - '0' as u32) as u64;
        let ghost pre = d.subrange(0, k - from);
        let ghost next = d.subrange(0, k + 1 - from);
        assert(next.drop_last() =~= pre);
        assert(next.last() == c);
        if acc > (u64::MAX - dv) / 10 {
            proof {
                assert(chars_value(next) > u64::MAX) by (nonlinear_arith)
                    requires
                        chars_value(next) == acc * 10 + dv,
                        acc > (u64::MAX - dv) / 10,
                        dv <= 9,
                ;
                if all_digit_chars(d) {
                    lemma_prefix_value(d, k + 1 - from);
                }
            }
            return None;
        }
        assert(acc * 10 + dv <= u64::MAX) by (nonlinear_arith)
            requires
                acc <= (u64::MAX - dv) / 10,
                dv <= 9,
        ;
        acc = acc * 10 + dv;
        k = k + 1;
        assert(all_digit_chars(next)) by {
            assert forall|q: int| 0 <= q < next.len() implies is_digit_char(#[trigger] next[q]) by {
                if q < next.len() - 1 {
                    assert(next[q] == pre[q]);
                }
            }
        }
    }
    assert(d.subrange(0, to - from) =~= d);
    Some(acc)
}

impl PluralOperands {
    /// The operands of a number given as its integer part `i`, the value `f`
    /// of its fraction digits as written, and the count `v` of those digits.
    pub fn from_parts(i: u64, f: u64, v: u64) -> (r: PluralOperands)
        ensures
            r == operands_of(i as nat, f as nat, v as nat),
    {
        let mut t: u64 = f;
        let mut w: u64 = v;
        while w > 0 && t % 10 == 0
            invariant
                strip_zeros(t as nat, w as nat) == strip_zeros(f as nat, v as nat),
            decreases w,
        {
            t = t / 10;
            w = w - 1;
        }
        proof {
            lemma_strip_bounded(f as nat, v as nat);
        }
        PluralOperands { i, v, w, f, t, c: 0 }
    }

    /// `s` is a decimal numeral: `digits ( "." digits )?`.
pub open spec fn numeral_wf(s: Seq<char>) -> bool {
    let p = dot_pos(s) as int;
    0 < p && all_digit_chars(s.subrange(0, p)) && (p == s.len() || (p + 1 < s.len()
        && all_digit_chars(s.subrange(p + 1, s.len() as int))))
}

/// The operands of a decimal numeral as written, such as `"1.50"`: `None` when the
    /// text is not `digits ( "." digits )?` or a part is too large for a `u64`.
    pub fn from_decimal_text(s: &str) -> (r: Option<PluralOperands>)
        ensures
            r == literal_operands(s@),
    {
        let n = s.unicode_len();
        let mut p: usize = 0;
        while p < n && s.get_char(p) != '.'
            invariant
                p <= n,
                n == s@.len(),
                forall|q: int| 0 <= q < p ==> s@[q] != '.',
            decreases n - p,
        {
            p = p + 1;
        }
        proof {
            lemma_dot_pos(s@, p as int);
        }
        if p == n {
            assert(s@.subrange(0, n as int) =~= s@);
            match digits_in(s, 0, n) {
                Some(i) => Some(PluralOperands::from_integer(i)),
                None => None,
            }
        } else {
            let ip = digits_in(s, 0, p);
            let fp = digits_in(s, p + 1, n);
            match (ip, fp) {
                (Some(i), Some(f)) => Some(PluralOperands::from_parts(i, f, (n - p - 1) as u64)),
                _ => None,
            }
        }
    }

    /// The operands of a whole number.
    pub fn from_integer(n: u64) -> (r: PluralOperands)
        ensures
            r == operands_of(n as nat, 0, 0),
    {
        PluralOperands { i: n, v: 0, w: 0, f: 0, t: 0, c: 0 }
    }
}

} // verus!
