use vstd::prelude::*;
use vstd::string::StringSliceAdditionalSpecFns;
use vstd::utf8::encode_utf8;
use crate::entropy::VitalFile;
use crate::error::EntropyError;

verus! {

/// An ASCII decimal digit.
pub open spec fn is_digit(c: u8) -> bool {
    48 <= c <= 57
}

/// Every byte is a decimal digit.
pub open spec fn all_digits(s: Seq<u8>) -> bool {
    forall|i: int| 0 <= i < s.len() ==> is_digit(#[trigger] s[i])
}

/// The number a run of decimal digits spells.
pub open spec fn digits_value(s: Seq<u8>) -> int
    decreases s.len(),
{
    if s.len() == 0 {
        0
    } else {
        10 * digits_value(s.drop_last()) + (s.last() - 48)
    }
}

/// Offset of the first `.` in `b`, or its length if there is none.
pub open spec fn dot_pos(b: Seq<u8>) -> int
    decreases b.len(),
{
    if b.len() == 0 {
        0
    } else if b[0] == 46 {
        0
    } else {
        1 + dot_pos(b.drop_first())
    }
}

/// The digits before the point.
pub open spec fn int_part(b: Seq<u8>) -> Seq<u8> {
    b.subrange(0, dot_pos(b))
}

/// The digits after the point (empty if there is no point).
pub open spec fn frac_part(b: Seq<u8>) -> Seq<u8> {
    if dot_pos(b) < b.len() {
        b.subrange(dot_pos(b) + 1, b.len() as int)
    } else {
        Seq::empty()
    }
}


/// Whether the text starts with a sign.
pub open spec fn has_sign(b: Seq<u8>) -> bool {
    b.len() > 0 && (b[0] == 45 || b[0] == 43)
}

/// The text after an optional sign.
pub open spec fn unsigned_body(b: Seq<u8>) -> Seq<u8> {
    if has_sign(b) {
        b.drop_first()
    } else {
        b
    }
}


proof fn lemma_digits_value_push(s: Seq<u8>, c: u8)
    ensures
        digits_value(s.push(c)) == 10 * digits_value(s) + (c - 48),
{
    assert(s.push(c).drop_last() =~= s);
}

proof fn lemma_digits_value_nonneg(s: Seq<u8>)
    requires
        all_digits(s),
    ensures
        digits_value(s) >= 0,
    decreases s.len(),
{
    if s.len() > 0 {
        assert(all_digits(s.drop_last())) by {
            assert forall|i: int| 0 <= i < s.len() - 1 implies is_digit(#[trigger] s.drop_last()[i]) by {
                assert(s.drop_last()[i] == s[i]);
            }
        }
        lemma_digits_value_nonneg(s.drop_last());
        assert(is_digit(s[s.len() - 1]));
    }
}

proof fn lemma_dot_pos(b: Seq<u8>, k: int)
    requires
        0 <= k <= b.len(),
        forall|j: int| 0 <= j < k ==> #[trigger] b[j] != 46,
    ensures
        dot_pos(b) >= k,
        k < b.len() && b[k] == 46 ==> dot_pos(b) == k,
        k == b.len() ==> dot_pos(b) == k,
        0 <= dot_pos(b) <= b.len(),
    decreases k,
{
    if k > 0 {
        let t = b.drop_first();
        assert forall|j: int| 0 <= j < k - 1 implies #[trigger] t[j] != 46 by {
            assert(t[j] == b[j + 1]);
        }
        lemma_dot_pos(t, k - 1);
        assert(b[0] != 46);
    } else {
        lemma_dot_pos_range(b);
    }
}

proof fn lemma_dot_pos_range(b: Seq<u8>)
    ensures
        0 <= dot_pos(b) <= b.len(),
        dot_pos(b) < b.len() ==> b[dot_pos(b)] == 46,
    decreases b.len(),
{
    if b.len() > 0 && b[0] != 46 {
        lemma_dot_pos_range(b.drop_first());
    }
}


/// Largest value of a run of digits that `read_digits` tracks exactly.
pub const DIGITS_LIMIT: i64 = 10_000_000_000;

/// Reads a run of digits of `b` from `start` up to `end`, capped so that it
/// cannot overflow: returns `None` when a byte is not a digit, else the value,
/// or `DIGITS_LIMIT + 1` for any value above `DIGITS_LIMIT`.
fn read_digits(b: &[u8], start: usize, end: usize) -> (r: Option<i64>)
    requires
        start <= end <= b@.len(),
    ensures
        r is Some <==> all_digits(b@.subrange(start as int, end as int)),
        r is Some ==> (if digits_value(b@.subrange(start as int, end as int)) <= DIGITS_LIMIT {
            r->Some_0 == digits_value(b@.subrange(start as int, end as int))
        } else {
            r->Some_0 == DIGITS_LIMIT + 1
        }),
{
    let mut acc: i64 = 0;
    let mut i: usize = start;
    while i < end
        invariant
            start <= i <= end <= b@.len(),
            all_digits(b@.subrange(start as int, i as int)),
            digits_value(b@.subrange(start as int, i as int)) >= 0,
            if digits_value(b@.subrange(start as int, i as int)) <= DIGITS_LIMIT {
                acc == digits_value(b@.subrange(start as int, i as int))
            } else {
                acc == DIGITS_LIMIT + 1
            },
        decreases end - i,
    {
        let c: u8 = b[i];
        let ghost prev = b@.subrange(start as int, i as int);
        if c < 48 || c > 57 {
            assert(b@.subrange(start as int, end as int)[i - start] == c);
            return None;
        }
        proof {
            assert(b@.subrange(start as int, i + 1) =~= prev.push(c));
            lemma_digits_value_push(prev, c);
            assert(all_digits(prev.push(c))) by {
                assert forall|j: int| 0 <= j < prev.len() + 1 implies is_digit(#[trigger] prev.push(c)[j]) by {
                    if j < prev.len() {
                        assert(prev.push(c)[j] == prev[j]);
                    }
                }
            }
        }
        if acc <= DIGITS_LIMIT {
            acc = acc * 10 + (c - 48) as i64;
            if acc > DIGITS_LIMIT {
                acc = DIGITS_LIMIT + 1;
            }
        }
        i = i + 1;
    }
    assert(b@.subrange(start as int, i as int) =~= b@.subrange(start as int, end as int));
    Some(acc)
}


/// An exponent marker, `e` or `E`.
pub open spec fn is_exp_marker(c: u8) -> bool {
    c == 101 || c == 69
}

/// Offset of the first exponent marker in `b`, or its length if there is none.
pub open spec fn exp_pos(b: Seq<u8>) -> int
    decreases b.len(),
{
    if b.len() == 0 {
        0
    } else if is_exp_marker(b[0]) {
        0
    } else {
        1 + exp_pos(b.drop_first())
    }
}

/// The text before the exponent marker.
pub open spec fn mantissa_text(b: Seq<u8>) -> Seq<u8> {
    b.subrange(0, exp_pos(b))
}

/// The text after the exponent marker (empty if there is none).
pub open spec fn exponent_text(b: Seq<u8>) -> Seq<u8> {
    if exp_pos(b) < b.len() {
        b.subrange(exp_pos(b) + 1, b.len() as int)
    } else {
        Seq::empty()
    }
}

/// `10^k`.
pub open spec fn pow10(k: nat) -> int
    decreases k,
{
    if k == 0 {
        1
    } else {
        10 * pow10((k - 1) as nat)
    }
}

/// Whether `b` (without sign) is a finite decimal: `digits`, `digits.`,
/// `.digits` or `digits.digits`, optionally followed by `e` or `E`, an
/// optional sign and digits.
pub open spec fn is_decimal_body(b: Seq<u8>) -> bool {
    let m = mantissa_text(b);
    &&& all_digits(int_part(m))
    &&& all_digits(frac_part(m))
    &&& int_part(m).len() + frac_part(m).len() >= 1
    &&& (exp_pos(b) < b.len() ==> unsigned_body(exponent_text(b)).len() >= 1 && all_digits(
        unsigned_body(exponent_text(b)),
    ))
}

/// Whether the text is an optionally signed finite decimal.
pub open spec fn is_decimal(t: Seq<u8>) -> bool {
    is_decimal_body(unsigned_body(t))
}

/// Whether the text starts with a minus sign.
pub open spec fn is_negative(t: Seq<u8>) -> bool {
    t.len() > 0 && t[0] == 45
}

/// All the digits of the mantissa, point removed, as a number.
pub open spec fn mantissa_value(b: Seq<u8>) -> int {
    let m = mantissa_text(b);
    digits_value(int_part(m)) * pow10(frac_part(m).len()) + digits_value(frac_part(m))
}

/// The written exponent, with its sign (0 if there is none).
pub open spec fn exponent_value(b: Seq<u8>) -> int {
    let e = exponent_text(b);
    if e.len() > 0 && e[0] == 45 {
        -digits_value(unsigned_body(e))
    } else {
        digits_value(unsigned_body(e))
    }
}

/// The decimal `b` is `mantissa_value(b) * 10^decimal_exponent(b)`.
pub open spec fn decimal_exponent(b: Seq<u8>) -> int {
    exponent_value(b) - frac_part(mantissa_text(b)).len()
}

/// The mantissa and the written exponent are within what is tracked exactly.
pub open spec fn within_limits(b: Seq<u8>) -> bool {
    &&& mantissa_value(b) <= DIGITS_LIMIT
    &&& -DIGITS_LIMIT <= exponent_value(b) <= DIGITS_LIMIT
}

proof fn lemma_exp_pos(b: Seq<u8>, k: int)
    requires
        0 <= k <= b.len(),
        forall|j: int| 0 <= j < k ==> !is_exp_marker(#[trigger] b[j]),
        k == b.len() || is_exp_marker(b[k]),
    ensures
        exp_pos(b) == k,
    decreases k,
{
    if k > 0 {
        let t = b.drop_first();
        assert forall|j: int| 0 <= j < k - 1 implies !is_exp_marker(#[trigger] t[j]) by {
            assert(t[j] == b[j + 1]);
        }
        if k < b.len() {
            assert(t[k - 1] == b[k]);
        }
        lemma_exp_pos(t, k - 1);
        assert(!is_exp_marker(b[0]));
    }
}

proof fn lemma_pow10_positive(k: nat)
    ensures
        pow10(k) >= 1,
    decreases k,
{
    if k > 0 {
        lemma_pow10_positive((k - 1) as nat);
    }
}

proof fn lemma_pow10_grows(a: nat, b: nat)
    requires
        a <= b,
    ensures
        1 <= pow10(a) <= pow10(b),
    decreases b,
{
    lemma_pow10_positive(a);
    if b > a {
        lemma_pow10_grows(a, (b - 1) as nat);
    }
}

/// `10^k` for small `k`.
fn pow10_exec(k: u32) -> (p: u64)
    requires
        k <= 10,
    ensures
        p == pow10(k as nat),
        p <= 10_000_000_000,
{
    let mut p: u64 = 1;
    let mut i: u32 = 0;
    proof {
        reveal_with_fuel(pow10, 11);
    }
    while i < k
        invariant
            i <= k <= 10,
            p == pow10(i as nat),
            p <= 10_000_000_000,
        decreases k - i,
    {
        proof {
            lemma_pow10_grows(i as nat, 9);
            reveal_with_fuel(pow10, 10);
            assert(pow10(9) == 1_000_000_000);
        }
        p = p * 10;
        i = i + 1;
    }
    p
}

/// `v`, or `DIGITS_LIMIT + 1` for any `v` above `DIGITS_LIMIT`.
pub open spec fn capped(v: int) -> int {
    if v <= DIGITS_LIMIT {
        v
    } else {
        DIGITS_LIMIT + 1
    }
}

/// The mantissa `i * 10^f + g` from the capped digit runs `i` and `g`, and
/// whether it is within `DIGITS_LIMIT`.
fn compose_mantissa(iv: i64, fv: i64, fl: usize) -> (r: (u64, bool))
    requires
        0 <= iv <= DIGITS_LIMIT + 1,
        0 <= fv <= DIGITS_LIMIT + 1,
    ensures
        forall|i: int, g: int|
            #![trigger capped(i), capped(g)]
            i >= 0 && g >= 0 && capped(i) == iv && capped(g) == fv ==> {
                &&& r.1 == (i * pow10(fl as nat) + g <= DIGITS_LIMIT)
                &&& r.1 ==> r.0 == i * pow10(fl as nat) + g
            },
{
    proof {
        lemma_pow10_positive(fl as nat);
    }
    let ghost p_s = pow10(fl as nat);
    if iv > DIGITS_LIMIT || fv > DIGITS_LIMIT {
        assert forall|i: int, g: int|
            #![trigger capped(i), capped(g)]
            i >= 0 && g >= 0 && capped(i) == iv && capped(g) == fv implies i * p_s + g
            > DIGITS_LIMIT by {
            assert(i * p_s + g > DIGITS_LIMIT) by (nonlinear_arith)
                requires
                    i > DIGITS_LIMIT || g > DIGITS_LIMIT,
                    i >= 0,
                    g >= 0,
                    p_s >= 1,
            ;
        }
        return (0, false);
    }
    if iv == 0 {
        assert forall|i: int, g: int|
            #![trigger capped(i), capped(g)]
            i >= 0 && g >= 0 && capped(i) == iv && capped(g) == fv implies i * p_s + g
            == fv by {
            assert(i * p_s == 0) by (nonlinear_arith)
                requires
                    i == 0,
            ;
        }
        return (fv as u64, true);
    }
    if fl > 10 {
        proof {
            lemma_pow10_grows(11, fl as nat);
            reveal_with_fuel(pow10, 12);
            assert(pow10(11) == 100_000_000_000);
        }
        assert forall|i: int, g: int|
            #![trigger capped(i), capped(g)]
            i >= 0 && g >= 0 && capped(i) == iv && capped(g) == fv implies i * p_s + g
            > DIGITS_LIMIT by {
            assert(i * p_s + g > DIGITS_LIMIT) by (nonlinear_arith)
                requires
                    i >= 1,
                    g >= 0,
                    p_s >= 100_000_000_000,
            ;
        }
        return (0, false);
    }
    let p: u64 = pow10_exec(fl as u32);
    assert(iv * p <= 10_000_000_000 * 10_000_000_000) by (nonlinear_arith)
        requires
            0 <= iv <= 10_000_000_000,
            0 <= p <= 10_000_000_000,
    ;
    let v: u128 = iv as u128 * p as u128 + fv as u128;
    if v > DIGITS_LIMIT as u128 {
        (0, false)
    } else {
        (v as u64, true)
    }
}

/// A field read as a decimal: `(-1)^negative * mantissa * 10^exponent`,
/// tracked exactly when `exact`.
#[derive(Debug, Clone, Copy, PartialEq, Eq, Structural)]
pub struct Decimal {
    pub negative: bool,
    pub mantissa: u64,
    pub exponent: i128,
    pub exact: bool,
}

/// `d` is the reading of the decimal text `t`.
pub open spec fn reads(d: Decimal, t: Seq<u8>) -> bool {
    let b = unsigned_body(t);
    &&& d.negative == is_negative(t)
    &&& -0x4_0000_0000_0000_0000 <= d.exponent <= 0x4_0000_0000_0000_0000
    &&& d.exact == within_limits(b)
    &&& d.exact ==> d.mantissa == mantissa_value(b) && d.exponent == decimal_exponent(b)
}

/// Reads an optionally signed finite decimal such as `-120.567` or `1.2e2`,
/// exactly, as digits and a power of ten. Any other text is refused.
#[verifier::rlimit(100)]
pub fn parse_decimal(s: &str) -> (r: Option<Decimal>)
    ensures
        r is Some <==> is_decimal(s.spec_bytes()),
        r is Some ==> reads(r->Some_0, s.spec_bytes()),
{
    let b: &[u8] = s.as_bytes();
    let ghost bb = b@;
    let n: usize = b.len();
    let negative: bool = n > 0 && b[0] == 45;
    let start: usize = if n > 0 && (b[0] == 45 || b[0] == 43) {
        1
    } else {
        0
    };
    let ghost body = unsigned_body(bb);
    assert(body =~= bb.subrange(start as int, n as int));
    let mut ep: usize = start;
    while ep < n && b[ep] != 101 && b[ep] != 69
        invariant
            start <= ep <= n == bb.len(),
            bb == b@,
            forall|j: int| start <= j < ep ==> !is_exp_marker(#[trigger] bb[j]),
        decreases n - ep,
    {
        ep = ep + 1;
    }
    proof {
        assert forall|j: int| 0 <= j < ep - start implies !is_exp_marker(#[trigger] body[j]) by {
            assert(body[j] == bb[j + start]);
        }
        if ep < n {
            assert(body[ep - start] == bb[ep as int]);
        }
        lemma_exp_pos(body, ep - start);
    }
    let ghost m = mantissa_text(body);
    assert(m =~= bb.subrange(start as int, ep as int));
    let mut dot: usize = start;
    while dot < ep && b[dot] != 46
        invariant
            start <= dot <= ep <= n == bb.len(),
            bb == b@,
            forall|j: int| start <= j < dot ==> #[trigger] bb[j] != 46,
        decreases ep - dot,
    {
        dot = dot + 1;
    }
    proof {
        assert forall|j: int| 0 <= j < dot - start implies #[trigger] m[j] != 46 by {
            assert(m[j] == bb[j + start]);
        }
        if dot < ep {
            assert(m[dot - start] == 46);
        }
        lemma_dot_pos(m, dot - start);
        assert(int_part(m) =~= bb.subrange(start as int, dot as int));
    }
    let frac_start: usize = if dot < ep {
        dot + 1
    } else {
        ep
    };
    assert(frac_part(m) =~= bb.subrange(frac_start as int, ep as int));
    let int_digits = read_digits(b, start, dot);
    let frac_digits = read_digits(b, frac_start, ep);
    let (iv, fv) = match (int_digits, frac_digits) {
        (Some(iv), Some(fv)) => (iv, fv),
        _ => {
            return None;
        },
    };
    if dot - start + (ep - frac_start) == 0 {
        return None;
    }
    let ghost et = exponent_text(body);
    let mut ev: i64 = 0;
    let mut eneg: bool = false;
    if ep < n {
        let es: usize = ep + 1;
        assert(et =~= bb.subrange(es as int, n as int));
        eneg = es < n && b[es] == 45;
        let ds: usize = if es < n && (b[es] == 45 || b[es] == 43) {
            es + 1
        } else {
            es
        };
        assert(unsigned_body(et) =~= bb.subrange(ds as int, n as int));
        if ds == n {
            return None;
        }
        match read_digits(b, ds, n) {
            Some(v) => {
                ev = v;
            },
            None => {
                return None;
            },
        }
    } else {
        assert(et =~= Seq::<u8>::empty());
        assert(unsigned_body(et) =~= Seq::<u8>::empty());
    }
    let ghost ed = unsigned_body(et);
    proof {
        lemma_digits_value_nonneg(int_part(m));
        lemma_digits_value_nonneg(frac_part(m));
        lemma_digits_value_nonneg(ed);
        lemma_pow10_grows(0, frac_part(m).len());
    }
    let fl: usize = ep - frac_start;
    let (mant, mant_exact) = compose_mantissa(iv, fv, fl);
    proof {
        assert(capped(digits_value(int_part(m))) == iv);
        assert(capped(digits_value(frac_part(m))) == fv);
        assert(frac_part(m).len() == fl);
    }
    let exact: bool = mant_exact && ev <= DIGITS_LIMIT;
    let written: i128 = if eneg {
        -(ev as i128)
    } else {
        ev as i128
    };
    let exponent: i128 = written - fl as i128;
    Some(Decimal { negative, mantissa: mant, exponent, exact })
}

/// The text of each field of each record.
pub open spec fn record_fields(records: Seq<Vec<String>>) -> Seq<Seq<Seq<char>>> {
    records.map_values(|record: Vec<String>| record@.map_values(|field: String| field@))
}

/// A field's text, without its sign.
pub open spec fn field_body(f: Seq<char>) -> Seq<u8> {
    unsigned_body(encode_utf8(f))
}

/// The signed mantissa of a decimal field.
pub open spec fn field_mantissa(f: Seq<char>) -> int {
    if is_negative(encode_utf8(f)) {
        -mantissa_value(field_body(f))
    } else {
        mantissa_value(field_body(f))
    }
}

/// The power of ten of a decimal field.
pub open spec fn field_exponent(f: Seq<char>) -> int {
    decimal_exponent(field_body(f))
}

/// A record with the columns name, mbp, sbp, dbp, each number a finite decimal.
pub open spec fn record_decimal(record: Seq<Seq<char>>) -> bool {
    &&& record.len() >= 4
    &&& is_decimal(encode_utf8(record[1]))
    &&& is_decimal(encode_utf8(record[2]))
    &&& is_decimal(encode_utf8(record[3]))
}

/// At least one record, and every record holds finite decimals.
pub open spec fn records_decimal(records: Seq<Seq<Seq<char>>>) -> bool {
    &&& records.len() >= 1
    &&& forall|i: int| 0 <= i < records.len() ==> record_decimal(#[trigger] records[i])
}

/// The least power of ten among a record's three numbers.
pub open spec fn record_min_exponent(record: Seq<Seq<char>>) -> int {
    let a = field_exponent(record[1]);
    let b = field_exponent(record[2]);
    let c = field_exponent(record[3]);
    let ab = if a <= b {
        a
    } else {
        b
    };
    if ab <= c {
        ab
    } else {
        c
    }
}

/// The least power of ten among the numbers of the first `k` records.
pub open spec fn min_exponent(records: Seq<Seq<Seq<char>>>, k: int) -> int
    decreases k,
{
    if k <= 1 {
        record_min_exponent(records[0])
    } else {
        let rest = min_exponent(records, k - 1);
        let last = record_min_exponent(records[k - 1]);
        if rest <= last {
            rest
        } else {
            last
        }
    }
}

/// The common scale of a subject: every sample is an integer multiple of `10^scale`.
pub open spec fn common_exponent(records: Seq<Seq<Seq<char>>>) -> int {
    min_exponent(records, records.len() as int)
}

/// A field's value in units of `10^s`.
pub open spec fn scaled(f: Seq<char>, s: int) -> int {
    field_mantissa(f) * pow10((field_exponent(f) - s) as nat)
}

/// A field is held exactly, and its value in units of `10^s` fits in 32 bits.
pub open spec fn field_fits(f: Seq<char>, s: int) -> bool {
    &&& within_limits(field_body(f))
    &&& -i32::MAX <= scaled(f, s) <= i32::MAX
}

/// Every number of the subject fits at its common scale.
pub open spec fn records_fit(records: Seq<Seq<Seq<char>>>) -> bool {
    forall|i: int, c: int|
        0 <= i < records.len() && 1 <= c <= 3 ==> field_fits(
            #[trigger] records[i][c],
            common_exponent(records),
        )
}

/// `vf` is the subject the records describe: the name on the first record,
/// the common scale, and each number in units of that scale.
pub open spec fn holds_records(vf: VitalFile, records: Seq<Seq<Seq<char>>>) -> bool {
    &&& vf.name@ == records[0][0]
    &&& vf.scale == common_exponent(records)
    &&& vf.mbp@.len() == records.len()
    &&& vf.sbp@.len() == records.len()
    &&& vf.dbp@.len() == records.len()
    &&& forall|i: int|
        0 <= i < records.len() ==> {
            &&& #[trigger] vf.mbp@[i] == scaled(records[i][1], vf.scale as int)
            &&& vf.sbp@[i] == scaled(records[i][2], vf.scale as int)
            &&& vf.dbp@[i] == scaled(records[i][3], vf.scale as int)
        }
}

proof fn lemma_min_exponent(records: Seq<Seq<Seq<char>>>, k: int)
    requires
        1 <= k <= records.len(),
    ensures
        forall|i: int, c: int|
            0 <= i < k && 1 <= c <= 3 ==> min_exponent(records, k) <= field_exponent(
                #[trigger] records[i][c],
            ),
    decreases k,
{
    if k > 1 {
        lemma_min_exponent(records, k - 1);
    }
}

/// The value of decimal `d` in units of `10^s`, if it fits in 32 bits.
fn scale_decimal(d: Decimal, s: i128) -> (r: Option<i32>)
    requires
        d.exact,
        d.mantissa <= DIGITS_LIMIT,
        -0x4_0000_0000_0000_0000 <= s <= d.exponent <= 0x4_0000_0000_0000_0000,
    ensures
        ({
            let v = (if d.negative {
                -(d.mantissa as int)
            } else {
                d.mantissa as int
            }) * pow10((d.exponent - s) as nat);
            &&& r is Some <==> -i32::MAX <= v <= i32::MAX
            &&& r is Some ==> r->Some_0 == v
        }),
{
    let ghost k = (d.exponent - s) as nat;
    let ghost sm: int = if d.negative {
        -(d.mantissa as int)
    } else {
        d.mantissa as int
    };
    proof {
        lemma_pow10_grows(0, k);
    }
    if d.mantissa == 0 {
        assert(sm * pow10(k) == 0) by (nonlinear_arith)
            requires
                sm == 0,
        ;
        return Some(0);
    }
    if d.exponent - s > 9 {
        proof {
            lemma_pow10_grows(10, k);
            reveal_with_fuel(pow10, 11);
            assert(pow10(10) == 10_000_000_000);
        }
        assert(sm * pow10(k) > i32::MAX || sm * pow10(k) < -i32::MAX) by (nonlinear_arith)
            requires
                sm >= 1 || sm <= -1,
                pow10(k) >= 10_000_000_000,
        ;
        return None;
    }
    let p: u64 = pow10_exec((d.exponent - s) as u32);
    assert(d.mantissa * p <= 10_000_000_000 * 10_000_000_000) by (nonlinear_arith)
        requires
            d.mantissa <= 10_000_000_000,
            p <= 10_000_000_000,
    ;
    let v: u128 = d.mantissa as u128 * p as u128;
    if v > i32::MAX as u128 {
        assert(sm * pow10(k) > i32::MAX || sm * pow10(k) < -i32::MAX) by (nonlinear_arith)
            requires
                sm == d.mantissa || sm == -(d.mantissa as int),
                v == d.mantissa * pow10(k),
                v > i32::MAX,
        ;
        return None;
    }
    if d.negative {
        assert(sm * pow10(k) == -v) by (nonlinear_arith)
            requires
                sm == -(d.mantissa as int),
                v == d.mantissa * pow10(k),
        ;
        Some(-(v as i32))
    } else {
        assert(sm * pow10(k) == v) by (nonlinear_arith)
            requires
                sm == d.mantissa as int,
                v == d.mantissa * pow10(k),
        ;
        Some(v as i32)
    }
}

/// Reads the three numbers of a record, if it has them and they are decimals.
fn record_decimals(record: &Vec<String>) -> (r: Option<(Decimal, Decimal, Decimal)>)
    ensures
        r is Some <==> record_decimal(record@.map_values(|field: String| field@)),
        r is Some ==> {
            let (a, b, c) = r->Some_0;
            &&& reads(a, encode_utf8(record@[1]@))
            &&& reads(b, encode_utf8(record@[2]@))
            &&& reads(c, encode_utf8(record@[3]@))
        },
{
    let ghost fs = record@.map_values(|field: String| field@);
    if record.len() < 4 {
        return None;
    }
    assert(fs[1] == record@[1]@ && fs[2] == record@[2]@ && fs[3] == record@[3]@);
    let a = parse_decimal(record[1].as_str());
    let b = parse_decimal(record[2].as_str());
    let c = parse_decimal(record[3].as_str());
    match (a, b, c) {
        (Some(a), Some(b), Some(c)) => Some((a, b, c)),
        _ => None,
    }
}

/// Assembles one subject's channels from its records (columns name, mbp,
/// sbp, dbp); the subject takes the name on its first record. Every number is
/// read exactly and expressed in units of the least power of ten among them.
pub fn vital_file_from_records(records: &Vec<Vec<String>>) -> (r: Result<VitalFile, EntropyError>)
    ensures
        !records_decimal(record_fields(records@)) <==> r == Err::<VitalFile, EntropyError>(
            EntropyError::MalformedInput,
        ),
        records_decimal(record_fields(records@)) && !records_fit(record_fields(records@)) <==> r
            == Err::<VitalFile, EntropyError>(EntropyError::TooLarge),
        r is Ok ==> holds_records(r->Ok_0, record_fields(records@)),
{
    let ghost rows = record_fields(records@);
    let n: usize = records.len();
    if n == 0 {
        return Err(EntropyError::MalformedInput);
    }
    let mut decimals: Vec<(Decimal, Decimal, Decimal)> = Vec::new();
    let mut all_exact: bool = true;
    let mut least: i128 = 0;
    let mut i: usize = 0;
    while i < n
        invariant
            rows == record_fields(records@),
            n == records@.len() == rows.len(),
            i <= n,
            decimals@.len() == i,
            forall|j: int| 0 <= j < i ==> record_decimal(#[trigger] rows[j]),
            forall|j: int|
                0 <= j < i ==> {
                    &&& reads((#[trigger] decimals@[j]).0, encode_utf8(rows[j][1]))
                    &&& reads(decimals@[j].1, encode_utf8(rows[j][2]))
                    &&& reads(decimals@[j].2, encode_utf8(rows[j][3]))
                },
            all_exact == forall|j: int, c: int|
                0 <= j < i && 1 <= c <= 3 ==> within_limits(field_body(#[trigger] rows[j][c])),
            all_exact && i >= 1 ==> least == min_exponent(rows, i as int),
            i >= 1 ==> -0x4_0000_0000_0000_0000 <= least <= 0x4_0000_0000_0000_0000,
        decreases n - i,
    {
        let record: &Vec<String> = &records[i];
        assert(rows[i as int] == record@.map_values(|field: String| field@));
        let (a, b, c) = match record_decimals(record) {
            Some(t) => t,
            None => {
                return Err(EntropyError::MalformedInput);
            },
        };
        assert(rows[i as int][1] == record@[1]@ && rows[i as int][2] == record@[2]@ && rows[i as int][3]
            == record@[3]@);
        let ghost before = all_exact;
        let lo1: i128 = if a.exponent <= b.exponent {
            a.exponent
        } else {
            b.exponent
        };
        let lo: i128 = if lo1 <= c.exponent {
            lo1
        } else {
            c.exponent
        };
        if i == 0 || lo < least {
            least = lo;
        }
        all_exact = all_exact && a.exact && b.exact && c.exact;
        proof {
            if !all_exact {
                if !before {
                    let (j, cc) = choose|j: int, cc: int|
                        0 <= j < i && 1 <= cc <= 3 && !within_limits(field_body(#[trigger] rows[j][cc]));
                    assert(!within_limits(field_body(rows[j][cc])));
                } else if !a.exact {
                    assert(!within_limits(field_body(rows[i as int][1])));
                } else if !b.exact {
                    assert(!within_limits(field_body(rows[i as int][2])));
                } else {
                    assert(!within_limits(field_body(rows[i as int][3])));
                }
            } else {
                assert forall|j: int, cc: int| 0 <= j < i + 1 && 1 <= cc <= 3 implies within_limits(
                    field_body(#[trigger] rows[j][cc]),
                ) by {
                    if j == i {
                        assert(cc == 1 || cc == 2 || cc == 3);
                    }
                }
            }
        }
        decimals.push((a, b, c));
        i = i + 1;
    }
    assert(records_decimal(rows));
    if !all_exact {
        let ghost (j, cc) = choose|j: int, cc: int|
            0 <= j < n && 1 <= cc <= 3 && !within_limits(field_body(#[trigger] rows[j][cc]));
        assert(!field_fits(rows[j][cc], common_exponent(rows)));
        return Err(EntropyError::TooLarge);
    }
    assert(least == common_exponent(rows));
    proof {
        lemma_min_exponent(rows, n as int);
    }
    let mut mbp: Vec<i32> = Vec::new();
    let mut sbp: Vec<i32> = Vec::new();
    let mut dbp: Vec<i32> = Vec::new();
    let mut k: usize = 0;
    while k < n
        invariant
            rows == record_fields(records@),
            n == records@.len() == rows.len(),
            records_decimal(rows),
            decimals@.len() == n,
            k <= n,
            least == common_exponent(rows),
            -0x4_0000_0000_0000_0000 <= least <= 0x4_0000_0000_0000_0000,
            forall|j: int|
                0 <= j < n ==> {
                    &&& reads((#[trigger] decimals@[j]).0, encode_utf8(rows[j][1]))
                    &&& reads(decimals@[j].1, encode_utf8(rows[j][2]))
                    &&& reads(decimals@[j].2, encode_utf8(rows[j][3]))
                },
            forall|j: int, c: int|
                0 <= j < n && 1 <= c <= 3 ==> within_limits(field_body(#[trigger] rows[j][c])),
            forall|j: int, c: int|
                0 <= j < n && 1 <= c <= 3 ==> least <= field_exponent(#[trigger] rows[j][c]),
            mbp@.len() == k,
            sbp@.len() == k,
            dbp@.len() == k,
            forall|j: int, c: int| 0 <= j < k && 1 <= c <= 3 ==> field_fits(#[trigger] rows[j][c], least as int),
            forall|j: int|
                0 <= j < k ==> {
                    &&& #[trigger] mbp@[j] == scaled(rows[j][1], least as int)
                    &&& sbp@[j] == scaled(rows[j][2], least as int)
                    &&& dbp@[j] == scaled(rows[j][3], least as int)
                },
        decreases n - k,
    {
        let (a, b, c) = decimals[k];
        let ghost r1 = rows[k as int][1];
        let ghost r2 = rows[k as int][2];
        let ghost r3 = rows[k as int][3];
        assert(within_limits(field_body(r1)) && within_limits(field_body(r2)) && within_limits(
            field_body(r3),
        ));
        assert(least <= field_exponent(r1) && least <= field_exponent(r2) && least <= field_exponent(r3));
        let va = scale_decimal(a, least);
        let vb = scale_decimal(b, least);
        let vc = scale_decimal(c, least);
        match (va, vb, vc) {
            (Some(x), Some(y), Some(z)) => {
                mbp.push(x);
                sbp.push(y);
                dbp.push(z);
            },
            _ => {
                proof {
                    if va is None {
                        assert(!field_fits(r1, common_exponent(rows)));
                    } else if vb is None {
                        assert(!field_fits(r2, common_exponent(rows)));
                    } else {
                        assert(!field_fits(r3, common_exponent(rows)));
                    }
                }
                return Err(EntropyError::TooLarge);
            },
        }
        proof {
            assert forall|j: int, cc: int| 0 <= j < k + 1 && 1 <= cc <= 3 implies field_fits(
                #[trigger] rows[j][cc],
                least as int,
            ) by {
                if j == k {
                    assert(cc == 1 || cc == 2 || cc == 3);
                }
            }
        }
        k = k + 1;
    }
    assert(record_decimal(rows[0]));
    assert(rows[0] == records@[0]@.map_values(|field: String| field@));
    let name: String = records[0][0].clone();
    assert(rows[0][0] == records@[0]@[0]@);
    Ok(VitalFile { name, scale: least, sbp, mbp, dbp })
}

/// The records that csv reads from `bytes` with its default settings (a
/// header line, which is skipped; commas; double quotes; every record as
/// long as the header), or `None` where csv reports an error.
pub uninterp spec fn csv_records(bytes: Seq<u8>) -> Option<Seq<Seq<Seq<char>>>>;

/// Relies on `csv::Reader::from_reader` and `Reader::records`: with the
/// default settings the records read from a byte slice depend on its bytes
/// alone; reading stops at the first error.
#[verifier::external_body]
fn read_csv_records(bytes: &[u8]) -> (r: Option<Vec<Vec<String>>>)
    ensures
        r is Some <==> csv_records(bytes@) is Some,
        r is Some ==> record_fields(r->Some_0@) == csv_records(bytes@)->Some_0,
{
    let mut reader = csv::Reader::from_reader(bytes);
    let mut records: Vec<Vec<String>> = Vec::new();
    for result in reader.records() {
        let record = result.ok()?;
        records.push(record.iter().map(|field| field.to_string()).collect());
    }
    Some(records)
}

/// Reads one subject from the contents of its CSV file (header line, then
/// records with the columns name, mbp, sbp, dbp).
pub fn vital_file_from_csv(bytes: &[u8]) -> (r: Result<VitalFile, EntropyError>)
    ensures
        csv_records(bytes@) is None ==> r == Err::<VitalFile, EntropyError>(EntropyError::MalformedInput),
        csv_records(bytes@) is Some ==> (!records_decimal(csv_records(bytes@)->Some_0) <==> r == Err::<
            VitalFile,
            EntropyError,
        >(EntropyError::MalformedInput)),
        csv_records(bytes@) is Some ==> (records_decimal(csv_records(bytes@)->Some_0) && !records_fit(
            csv_records(bytes@)->Some_0,
        ) <==> r == Err::<VitalFile, EntropyError>(EntropyError::TooLarge)),
        r is Ok ==> holds_records(r->Ok_0, csv_records(bytes@)->Some_0),
{
    match read_csv_records(bytes) {
        Some(records) => vital_file_from_records(&records),
        None => Err(EntropyError::MalformedInput),
    }
}

} // verus!
