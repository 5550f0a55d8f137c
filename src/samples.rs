//! Checking that the samples bundled with a rule satisfy its condition.
use vstd::prelude::*;
use crate::ast::{Condition, RelationV, Rule, RuleV, SampleList, SampleListV, SampleRange, SampleRangeV};
use crate::eval::{condition_holds, test_condition};
use crate::operands::{literal_operands, operands_of, PluralOperands};

verus! {

/// A sample range with at most this many numbers is checked number by number;
/// a larger one only at its two ends.
pub const ENUMERATION_LIMIT: u64 = 1000;

pub open spec fn pow10(v: nat) -> nat
    decreases v,
{
    if v == 0 {
        1
    } else {
        10 * pow10((v - 1) as nat)
    }
}

/// The number as a whole multiple of its last written digit: `1.50` is `150`.
pub open spec fn scaled(o: PluralOperands) -> nat {
    o.i as nat * pow10(o.v as nat) + o.f as nat
}

/// The number `nn / 10^v` written with `v` fraction digits.
pub open spec fn point(nn: nat, v: nat) -> PluralOperands {
    operands_of(nn / pow10(v), nn % pow10(v), v)
}

/// The numbers from `lo` to `hi` are checked one by one: both are written with
/// the same number of fraction digits and there are few enough of them.
pub open spec fn enumerable(lo: PluralOperands, hi: PluralOperands) -> bool {
    &&& lo.v == hi.v
    &&& pow10(lo.v as nat) <= u64::MAX
    &&& scaled(lo) <= scaled(hi) <= u64::MAX
    &&& scaled(hi) - scaled(lo) < ENUMERATION_LIMIT
}

/// Every number that the sample range stands for satisfies the condition `c`,
/// and its numerals are readable.
pub open spec fn range_ok(c: Seq<Seq<RelationV>>, r: SampleRangeV) -> bool {
    match literal_operands(r.lower) {
        None => false,
        Some(lo) => condition_holds(c, lo) && match r.upper {
            None => true,
            Some(u) => match literal_operands(u) {
                None => false,
                Some(hi) => condition_holds(c, hi) && (enumerable(lo, hi) ==> forall|nn: nat|
                    scaled(lo) <= nn <= scaled(hi) ==> #[trigger] condition_holds(c, point(nn, lo.v as nat))),
            },
        },
    }
}

pub open spec fn list_ok(c: Seq<Seq<RelationV>>, l: Option<SampleListV>) -> bool {
    match l {
        None => true,
        Some(l) => forall|k: int| 0 <= k < l.ranges.len() ==> range_ok(c, #[trigger] l.ranges[k]),
    }
}

/// Every sample of the rule satisfies its condition.
pub open spec fn samples_ok(r: RuleV) -> bool {
    match r.samples {
        None => true,
        Some(s) => list_ok(r.condition, s.integer) && list_ok(r.condition, s.decimal),
    }
}

/// A sample that does not satisfy the rule: the list (`integer` or decimal) and
/// position of its sample range, and its operands, or `None` when a numeral of
/// the range could not be read.
#[derive(Debug, Clone, Copy, PartialEq, Eq, Structural)]
pub struct SampleFailure {
    pub integer: bool,
    pub range_index: usize,
    pub operands: Option<PluralOperands>,
}

/// Each reported failure is a number that fails the condition `c`.
pub open spec fn failures_valid(fs: Seq<SampleFailure>, c: Seq<Seq<RelationV>>) -> bool {
    forall|k: int| 0 <= k < fs.len() && (#[trigger] fs[k]).operands is Some ==> !condition_holds(c, fs[k].operands->0)
}

proof fn lemma_pow10_mono(a: nat, b: nat)
    requires
        a <= b,
    ensures
        1 <= pow10(a) <= pow10(b),
    decreases b,
{
    if b > 0 {
        lemma_pow10_mono(if a < b { a } else { (b - 1) as nat }, (b - 1) as nat);
    }
}

fn pow10_u64(v: u64) -> (r: Option<u64>)
    ensures
        match r {
            Some(p) => p == pow10(v as nat),
            None => pow10(v as nat) > u64::MAX,
        },
{
    let mut acc: u64 = 1;
    let mut k: u64 = 0;
    while k < v
        invariant
            k <= v,
            acc == pow10(k as nat),
        decreases v - k,
    {
        if acc > u64::MAX / 10 {
            proof {
                lemma_pow10_mono((k + 1) as nat, v as nat);
            }
            return None;
        }
        acc = acc * 10;
        k = k + 1;
    }
    Some(acc)
}

fn scaled_of(o: &PluralOperands, p: u64) -> (r: Option<u64>)
    requires
        p == pow10(o.v as nat),
    ensures
        match r {
            Some(x) => x == scaled(*o),
            None => scaled(*o) > u64::MAX,
        },
{
    match o.i.checked_mul(p) {
        None => {
            assert(o.f as nat >= 0);
            None
        },
        Some(ip) => ip.checked_add(o.f),
    }
}

fn record(failures: &mut Vec<SampleFailure>, integer: bool, index: usize, o: Option<PluralOperands>)
    ensures
        final(failures)@ == old(failures)@.push(SampleFailure { integer, range_index: index, operands: o }),
{
    failures.push(SampleFailure { integer, range_index: index, operands: o });
}

/// Checks one sample range, recording each number that fails.
fn check_range(
    c: &Condition,
    r: &SampleRange,
    integer: bool,
    index: usize,
    failures: &mut Vec<SampleFailure>,
) -> (ok: bool)
    requires
        failures_valid(old(failures)@, c@),
    ensures
        ok == range_ok(c@, r@),
        failures_valid(final(failures)@, c@),
        ok ==> final(failures)@ == old(failures)@,
        !ok ==> final(failures)@.len() > old(failures)@.len(),
{
    let lo = match PluralOperands::from_decimal_text(r.lower_val.0.as_str()) {
        Some(o) => o,
        None => {
            record(failures, integer, index, None);
            return false;
        },
    };
    let lo_ok = test_condition(c, &lo);
    let hi = match &r.upper_val {
        None => {
            if !lo_ok {
                record(failures, integer, index, Some(lo));
            }
            return lo_ok;
        },
        Some(u) => match PluralOperands::from_decimal_text(u.0.as_str()) {
            Some(o) => o,
            None => {
                record(failures, integer, index, None);
                return false;
            },
        },
    };
    let mut ok = lo_ok;
    if !lo_ok {
        record(failures, integer, index, Some(lo));
    }
    if !test_condition(c, &hi) {
        record(failures, integer, index, Some(hi));
        ok = false;
    }
    if lo.v != hi.v {
        return ok;
    }
    let p = match pow10_u64(lo.v) {
        Some(p) => p,
        None => {
            return ok;
        },
    };
    let (slo, shi) = match (scaled_of(&lo, p), scaled_of(&hi, p)) {
        (Some(a), Some(b)) => (a, b),
        _ => {
            return ok;
        },
    };
    if slo > shi || shi - slo >= ENUMERATION_LIMIT {
        return ok;
    }
    assert(enumerable(lo, hi));
    proof {
        lemma_pow10_mono(0, lo.v as nat);
    }
    let ghost before = failures@;
    let ghost ok0 = ok;
    let mut all = true;
    let mut k: u64 = 0;
    while k <= shi - slo
        invariant
            slo == scaled(lo),
            shi == scaled(hi),
            slo <= shi,
            shi - slo < ENUMERATION_LIMIT,
            p == pow10(lo.v as nat),
            p >= 1,
            k <= shi - slo + 1,
            failures_valid(failures@, c@),
            all ==> failures@ == before,
            !all ==> failures@.len() > before.len(),
            failures@.len() >= before.len(),
            all == forall|nn: nat| slo <= nn < slo + k ==> #[trigger] condition_holds(c@, point(nn, lo.v as nat)),
        decreases shi - slo + 1 - k,
    {
        let nn = slo + k;
        let o = PluralOperands::from_parts(nn / p, nn % p, lo.v);
        assert(o == point(nn as nat, lo.v as nat));
        if !test_condition(c, &o) {
            record(failures, integer, index, Some(o));
            all = false;
        }
        k = k + 1;
    }
    ok && all
}

fn check_list(
    c: &Condition,
    l: &Option<SampleList>,
    integer: bool,
    failures: &mut Vec<SampleFailure>,
) -> (ok: bool)
    requires
        failures_valid(old(failures)@, c@),
    ensures
        ok == list_ok(c@, crate::ast::opt_list_view(*l)),
        failures_valid(final(failures)@, c@),
        ok ==> final(failures)@ == old(failures)@,
        !ok ==> final(failures)@.len() > old(failures)@.len(),
{
    match l {
        None => {
            true
        },
        Some(l) => {
            let ghost lv = l@;
            let mut ok = true;
            let mut k: usize = 0;
            let ghost start = failures@;
            while k < l.sample_ranges.len()
                invariant
                    k <= l.sample_ranges@.len(),
                    lv == l@,
                    failures_valid(failures@, c@),
                    ok ==> failures@ == start,
                    !ok ==> failures@.len() > start.len(),
                    ok == forall|q: int| 0 <= q < k ==> range_ok(c@, #[trigger] lv.ranges[q]),
                decreases l.sample_ranges@.len() - k,
            {
                let r_ok = check_range(c, &l.sample_ranges[k], integer, k, failures);
                assert(lv.ranges[k as int] == l.sample_ranges@[k as int]@);
                ok = ok && r_ok;
                k = k + 1;
            }
            assert(list_ok(c@, Some(lv)) == forall|q: int| 0 <= q < lv.ranges.len() ==> range_ok(c@, #[trigger] lv.ranges[q]));
            ok
        },
    }
}

/// Checks every sample of the rule against its condition: `Ok` exactly when
/// all of them satisfy it; otherwise the failures, each a number that fails
/// the condition or a numeral that could not be read.
pub fn validate(rule: &Rule) -> (r: Result<(), Vec<SampleFailure>>)
    ensures
        r is Ok <==> samples_ok(rule@),
        r is Err ==> r->Err_0@.len() > 0 && failures_valid(r->Err_0@, rule@.condition),
{
    let mut failures: Vec<SampleFailure> = Vec::new();
    match &rule.samples {
        None => Ok(()),
        Some(s) => {
            let a = check_list(&rule.condition, &s.integer, true, &mut failures);
            let b = check_list(&rule.condition, &s.decimal, false, &mut failures);
            if a && b {
                Ok(())
            } else {
                Err(failures)
            }
        },
    }
}

} // verus!
