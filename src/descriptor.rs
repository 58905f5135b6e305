//! The textual type grammar and its resolution against elaborated types.
//!
//! Tried in order: `i<N>` / `u<N>` (1 <= N <= 64), `d<N><min..max>`,
//! `<elem>[<len>]`, and finally the exact name of an elaborated type.
use vstd::prelude::*;

use crate::error::ConfigError;
use crate::text::{
    same_chars, digit_val,
    all_alnum, all_alnum_exec, all_digits, all_digits_exec, chars_of, digits_value, find_char,
    find_dots, find_from, find_two_dots, is_alpha, lemma_find_from_bounds,
    lemma_find_two_dots_bounds, parse_digits, slice_of,
};
use crate::types::{
    lemma_pow10_add, lemma_pow10_mono, lemma_pow2_64, lemma_pow2_mono, max_raw, pow10, pow10_exec,
    pow2, Elem, Primitive, Ratio, TypeRef,
};

verus! {

/// The largest magnitude a decimal literal may spell, ignoring its dot.
pub const LITERAL_MAX: u64 = 1_000_000_000_000_000_000;

/// The most digits a decimal literal may have after its dot.
pub const LITERAL_MAX_FRACTION: u32 = 18;

/// The unsigned part of a literal `([0-9]*[.])?[0-9]+`, as (digits without the dot,
/// number of digits after the dot).
pub open spec fn literal_body(b: Seq<char>) -> Option<(nat, nat)> {
    let p = find_from(b, '.', 0);
    if p == -1 {
        if b.len() > 0 && all_digits(b) {
            Some((digits_value(b), 0nat))
        } else {
            None
        }
    } else {
        let ip = b.subrange(0, p);
        let fp = b.subrange(p + 1, b.len() as int);
        if fp.len() > 0 && all_digits(ip) && all_digits(fp) {
            Some((digits_value(ip + fp), fp.len()))
        } else {
            None
        }
    }
}

pub open spec fn has_sign(s: Seq<char>) -> bool {
    s.len() > 0 && (s[0] == '-' || s[0] == '+')
}

pub open spec fn unsigned_part(s: Seq<char>) -> Seq<char> {
    if has_sign(s) {
        s.subrange(1, s.len() as int)
    } else {
        s
    }
}

/// A literal `[+-]?([0-9]*[.])?[0-9]+` as (mantissa, digits after the dot), so
/// that its value is `mantissa / 10^digits`; `None` where it is malformed or
/// too long to hold exactly.
pub open spec fn spec_literal(s: Seq<char>) -> Option<(int, nat)> {
    match literal_body(unsigned_part(s)) {
        Some((m, f)) => if m <= LITERAL_MAX && f <= LITERAL_MAX_FRACTION {
            Some((if s.len() > 0 && s[0] == '-' { -m } else { m as int }, f))
        } else {
            None
        },
        None => None,
    }
}

/// A literal `[+-]?([0-9]*[.])?[0-9]+` as (mantissa, digits after the dot),
/// whatever its length.
pub open spec fn spec_literal_exact(s: Seq<char>) -> Option<(int, nat)> {
    match literal_body(unsigned_part(s)) {
        Some((m, f)) => Some((if s.len() > 0 && s[0] == '-' { -m } else { m as int }, f)),
        None => None,
    }
}

/// `i<N>` or `u<N>` with one or two digits and `1 <= N <= 64`.
pub open spec fn spec_int(s: Seq<char>) -> Option<Primitive> {
    if 2 <= s.len() <= 3 && (s[0] == 'i' || s[0] == 'u') && all_digits(
        s.subrange(1, s.len() as int),
    ) {
        let n = digits_value(s.subrange(1, s.len() as int));
        if 1 <= n <= 64 {
            if s[0] == 'i' {
                Some(Primitive::SignedInt { bits: n as u8 })
            } else {
                Some(Primitive::UnsignedInt { bits: n as u8 })
            }
        } else {
            None
        }
    } else {
        None
    }
}

/// The literals `(a, f)` and `(b, g)` brought to the common exponent `max(f, g)`.
pub open spec fn common_exponent(f: nat, g: nat) -> nat {
    if f >= g {
        f
    } else {
        g
    }
}

pub open spec fn scaled(lit: (int, nat), k: nat) -> int {
    lit.0 * pow10((k - lit.1) as nat)
}

/// The decimal encoding of `bits` bits spanning `min..max`:
/// `offset = min`, `scale = (max - min) / (2^bits - 1)`.
pub open spec fn decimal_of(bits: nat, min: (int, nat), max: (int, nat)) -> Primitive {
    let k = common_exponent(min.1, max.1);
    let a = scaled(min, k);
    let b = scaled(max, k);
    Primitive::Decimal {
        bits: bits as u8,
        offset: Ratio { num: a as i128, den: pow10(k) as u128 },
        scale: Ratio { num: (b - a) as i128, den: (pow10(k) * (pow2(bits) - 1)) as u128 },
    }
}

pub open spec fn literal_less(min: (int, nat), max: (int, nat)) -> bool {
    let k = common_exponent(min.1, max.1);
    scaled(min, k) < scaled(max, k)
}

/// `d<N><min..max>`: `None` where the text is no decimal descriptor.
pub open spec fn spec_decimal(s: Seq<char>) -> Option<Result<Primitive, ConfigError>> {
    let lt = find_from(s, '<', 0);
    if s.len() >= 4 && s[0] == 'd' && 2 <= lt <= 3 && s.last() == '>' && all_digits(
        s.subrange(1, lt),
    ) {
        let inner = s.subrange(lt + 1, s.len() - 1);
        let dd = find_two_dots(inner, 0);
        let bits = digits_value(s.subrange(1, lt));
        if dd == -1 {
            None
        } else {
            let lo_text = inner.subrange(0, dd);
            let hi_text = inner.subrange(dd + 2, inner.len() as int);
            match (spec_literal_exact(lo_text), spec_literal_exact(hi_text)) {
                (Some(lo), Some(hi)) => if !literal_less(lo, hi) {
                    Some(Err(ConfigError::InvalidRange))
                } else if 1 <= bits <= 64 && spec_literal(lo_text) is Some && spec_literal(
                    hi_text,
                ) is Some {
                    Some(Ok(decimal_of(bits, lo, hi)))
                } else {
                    None
                },
                _ => None,
            }
        }
    } else {
        None
    }
}

pub open spec fn spec_primitive(s: Seq<char>) -> Option<Result<Primitive, ConfigError>> {
    match spec_int(s) {
        Some(p) => Some(Ok(p)),
        None => spec_decimal(s),
    }
}

/// The index of the first elaborated type named `s`, or -1.
pub open spec fn name_index(names: Seq<String>, s: Seq<char>, i: int) -> int
    decreases names.len() - i,
{
    if i < 0 || i >= names.len() {
        -1
    } else if names[i]@ == s {
        i
    } else {
        name_index(names, s, i + 1)
    }
}

pub open spec fn spec_lookup(s: Seq<char>, names: Seq<String>) -> Result<Elem, ConfigError> {
    let i = name_index(names, s, 0);
    if i == -1 {
        Err(ConfigError::InvalidType)
    } else {
        Ok(Elem::Named(i as usize))
    }
}

/// A descriptor with no array suffix.
pub open spec fn spec_scalar(s: Seq<char>, names: Seq<String>) -> Result<Elem, ConfigError> {
    match spec_primitive(s) {
        Some(Ok(p)) => Ok(Elem::Primitive(p)),
        Some(Err(e)) => Err(e),
        None => spec_lookup(s, names),
    }
}

/// `<lit>..<lit>` in the shape of the grammar, whatever the literals' size.
pub open spec fn range_shape(r: Seq<char>) -> bool {
    let dd = find_two_dots(r, 0);
    dd != -1 && literal_body(unsigned_part(r.subrange(0, dd))) is Some && literal_body(
        unsigned_part(r.subrange(dd + 2, r.len() as int)),
    ) is Some
}

/// `[a-zA-Z][a-zA-Z0-9]*(<lit..lit>)?`: what may stand before an array suffix.
pub open spec fn elem_shape(t: Seq<char>) -> bool {
    let lt = find_from(t, '<', 0);
    t.len() > 0 && is_alpha(t[0]) && if lt == -1 {
        all_alnum(t.subrange(1, t.len() as int))
    } else {
        lt < t.len() - 1 && t.last() == '>' && all_alnum(t.subrange(1, lt)) && range_shape(
            t.subrange(lt + 1, t.len() - 1),
        )
    }
}

/// `<elem>[<len>]`.
pub open spec fn array_shape(s: Seq<char>) -> bool {
    let lb = find_from(s, '[', 0);
    1 <= lb < s.len() - 2 && s.last() == ']' && all_digits(s.subrange(lb + 1, s.len() - 1))
        && elem_shape(s.subrange(0, lb))
}

/// What a type descriptor denotes, given the names of the types elaborated so far.
pub open spec fn spec_resolve(s: Seq<char>, names: Seq<String>) -> Result<TypeRef, ConfigError> {
    match spec_primitive(s) {
        Some(Ok(p)) => Ok(TypeRef::Single(Elem::Primitive(p))),
        Some(Err(e)) => Err(e),
        None => if array_shape(s) {
            let lb = find_from(s, '[', 0);
            let len = digits_value(s.subrange(lb + 1, s.len() - 1));
            if len > u64::MAX {
                Err(ConfigError::InvalidType)
            } else {
                match spec_scalar(s.subrange(0, lb), names) {
                    Ok(e) => Ok(TypeRef::Array { len: len as u64, elem: e }),
                    Err(e) => Err(e),
                }
            }
        } else {
            match spec_lookup(s, names) {
                Ok(e) => Ok(TypeRef::Single(e)),
                Err(e) => Err(e),
            }
        },
    }
}

/// The rational value `raw * scale + offset` of a decimal encoding, as (numerator,
/// denominator).
pub open spec fn decode(offset: Ratio, scale: Ratio, raw: int) -> (int, int) {
    (
        raw * scale.num * offset.den + offset.num * scale.den,
        scale.den * offset.den,
    )
}

pub open spec fn same_value(x: (int, int), y: (int, int)) -> bool {
    x.0 * y.1 == y.0 * x.1
}

pub open spec fn literal_ratio(lit: (int, nat)) -> (int, int) {
    (lit.0, pow10(lit.1) as int)
}

/// A decimal descriptor decodes raw zero to its minimum and the largest raw value
/// of its width to its maximum, exactly.
pub proof fn lemma_decimal_round_trip(bits: nat, min: (int, nat), max: (int, nat))
    requires
        1 <= bits <= 64,
        spec_literal_range(min),
        spec_literal_range(max),
        literal_less(min, max),
    ensures
        ({
            let d = decimal_of(bits, min, max);
            let (offset, scale) = (d->offset, d->scale);
            &&& same_value(decode(offset, scale, 0), literal_ratio(min))
            &&& same_value(decode(offset, scale, pow2(bits) - 1), literal_ratio(max))
        }),
{
    let k = common_exponent(min.1, max.1);
    let a = scaled(min, k);
    let b = scaled(max, k);
    lemma_decimal_fits(bits, min, max);
    let pk = pow10(k) as int;
    let m = pow2(bits) - 1;
    lemma_pow10_add(min.1, (k - min.1) as nat);
    lemma_pow10_add(max.1, (k - max.1) as nat);
    let pa = pow10((k - min.1) as nat) as int;
    let pb = pow10((k - max.1) as nat) as int;
    let fa = pow10(min.1) as int;
    let fb = pow10(max.1) as int;
    assert(pk == fa * pa);
    assert(pk == fb * pb);
    let d = decimal_of(bits, min, max);
    assert(d->offset.num as int == a);
    assert(d->offset.den as int == pk);
    assert(d->scale.num as int == b - a);
    assert(1 <= pk * m <= 1_000_000_000_000_000_000 * 0xffff_ffff_ffff_ffff) by (nonlinear_arith)
        requires
            1 <= pk <= 1_000_000_000_000_000_000,
            1 <= m <= 0xffff_ffff_ffff_ffff,
    ;
    assert(d->scale.den as int == pk * m);
    // raw zero decodes to min
    assert(a * fa == min.0 * pk) by (nonlinear_arith)
        requires
            a == min.0 * pa,
            pk == fa * pa,
    ;
    assert((0 * (b - a) * pk + a * (pk * m)) * fa == min.0 * ((pk * m) * pk)) by (nonlinear_arith)
        requires
            a * fa == min.0 * pk,
    ;
    // the largest raw value decodes to max
    assert(b * fb == max.0 * pk) by (nonlinear_arith)
        requires
            b == max.0 * pb,
            pk == fb * pb,
    ;
    assert(m * (b - a) * pk + a * (pk * m) == b * (pk * m)) by (nonlinear_arith);
    assert((b * (pk * m)) * fb == max.0 * ((pk * m) * pk)) by (nonlinear_arith)
        requires
            b * fb == max.0 * pk,
    ;
}

/// The literal bounds that the grammar admits.
pub open spec fn spec_literal_range(lit: (int, nat)) -> bool {
    -(LITERAL_MAX as int) <= lit.0 <= LITERAL_MAX && lit.1 <= LITERAL_MAX_FRACTION
}

pub proof fn lemma_decimal_fits(bits: nat, min: (int, nat), max: (int, nat))
    requires
        1 <= bits <= 64,
        spec_literal_range(min),
        spec_literal_range(max),
    ensures
        ({
            let k = common_exponent(min.1, max.1);
            let a = scaled(min, k);
            let b = scaled(max, k);
            &&& k <= 18
            &&& 1 <= pow10(k) <= 1_000_000_000_000_000_000
            &&& -1_000_000_000_000_000_000_000_000_000_000_000_000 <= a
                <= 1_000_000_000_000_000_000_000_000_000_000_000_000
            &&& -1_000_000_000_000_000_000_000_000_000_000_000_000 <= b
                <= 1_000_000_000_000_000_000_000_000_000_000_000_000
            &&& 1 <= pow2(bits) - 1 <= 0xffff_ffff_ffff_ffff
        }),
{
    let k = common_exponent(min.1, max.1);
    lemma_pow10_mono(k, 18);
    lemma_pow10_mono((k - min.1) as nat, 18);
    lemma_pow10_mono((k - max.1) as nat, 18);
    reveal_with_fuel(pow10, 19);
    assert(pow10(18) == 1_000_000_000_000_000_000);
    lemma_pow2_mono(1, bits);
    lemma_pow2_mono(bits, 64);
    lemma_pow2_64();
    let pa = pow10((k - min.1) as nat) as int;
    let pb = pow10((k - max.1) as nat) as int;
    assert(-1_000_000_000_000_000_000_000_000_000_000_000_000 <= min.0 * pa
        <= 1_000_000_000_000_000_000_000_000_000_000_000_000) by (nonlinear_arith)
        requires
            -1_000_000_000_000_000_000 <= min.0 <= 1_000_000_000_000_000_000,
            1 <= pa <= 1_000_000_000_000_000_000,
    ;
    assert(-1_000_000_000_000_000_000_000_000_000_000_000_000 <= max.0 * pb
        <= 1_000_000_000_000_000_000_000_000_000_000_000_000) by (nonlinear_arith)
        requires
            -1_000_000_000_000_000_000 <= max.0 <= 1_000_000_000_000_000_000,
            1 <= pb <= 1_000_000_000_000_000_000,
    ;
}

/// The digits of a literal body with its dot taken out, and how many stood
/// after the dot.
fn literal_parts(b: &Vec<char>) -> (r: Option<(Vec<char>, usize)>)
    ensures
        r is Some <==> literal_body(b@) is Some,
        r matches Some((d, f)) ==> all_digits(d@) && literal_body(b@) == Some(
            (digits_value(d@), f as nat),
        ) && d@.len() <= b@.len() && f <= b@.len(),
{
    proof {
        lemma_find_from_bounds(b@, '.', 0);
    }
    match find_char(b, '.') {
        None => {
            if b.len() > 0 && all_digits_exec(b) {
                let d = slice_of(b, 0, b.len());
                assert(d@ =~= b@);
                Some((d, 0))
            } else {
                None
            }
        },
        Some(p) => {
            assert(p < b.len());
            let ip = slice_of(b, 0, p);
            let fp = slice_of(b, p + 1, b.len());
            if fp.len() > 0 && all_digits_exec(&ip) && all_digits_exec(&fp) {
                let mut d = ip;
                let f = fp.len();
                let mut rest = fp;
                let ghost ipv = d@;
                let ghost fpv = rest@;
                d.append(&mut rest);
                assert(d@ =~= ipv + fpv);
                assert(all_digits(d@));
                Some((d, f))
            } else {
                None
            }
        },
    }
}

fn unsigned_part_exec(s: &Vec<char>) -> (r: Vec<char>)
    ensures
        r@ == unsigned_part(s@),
{
    if s.len() > 0 && (s[0] == '-' || s[0] == '+') {
        slice_of(s, 1, s.len())
    } else {
        let r = slice_of(s, 0, s.len());
        assert(r@ =~= s@);
        r
    }
}

/// The value of digits followed by more digits.
pub proof fn lemma_digits_concat(a: Seq<char>, b: Seq<char>)
    ensures
        digits_value(a + b) == digits_value(a) * pow10(b.len()) + digits_value(b),
    decreases b.len(),
{
    if b.len() == 0 {
        assert(a + b =~= a);
        assert(pow10(0) == 1);
        assert(digits_value(b) == 0);
        assert(digits_value(a) * 1 == digits_value(a));
    } else {
        assert((a + b).drop_last() =~= a + b.drop_last());
        assert((a + b).last() == b.last());
        lemma_digits_concat(a, b.drop_last());
        assert(digits_value(a + b) == digits_value(a + b.drop_last()) * 10 + digit_val(b.last()));
        assert(digits_value(b) == digits_value(b.drop_last()) * 10 + digit_val(b.last()));
        let va = digits_value(a);
        let p = pow10(b.drop_last().len());
        assert(pow10(b.len()) == 10 * p);
        assert((va * p + digits_value(b.drop_last())) * 10 + digit_val(b.last()) == va * (10 * p) + (
        digits_value(b.drop_last()) * 10 + digit_val(b.last()))) by (nonlinear_arith);
    }
}

/// Digits spell less than `10^len`.
pub proof fn lemma_digits_bound(a: Seq<char>)
    requires
        all_digits(a),
    ensures
        digits_value(a) < pow10(a.len()),
    decreases a.len(),
{
    if a.len() > 0 {
        assert(all_digits(a.drop_last()));
        lemma_digits_bound(a.drop_last());
        assert(crate::text::is_digit(a[a.len() - 1]));
        let v = digits_value(a.drop_last());
        let p = pow10(a.drop_last().len());
        assert(v * 10 + digit_val(a.last()) < 10 * p) by (nonlinear_arith)
            requires
                v < p,
                digit_val(a.last()) < 10,
        ;
    }
}

/// Zeros spell zero.
pub proof fn lemma_zeros_value(z: Seq<char>)
    requires
        forall|i: int| 0 <= i < z.len() ==> z[i] == '0',
    ensures
        digits_value(z) == 0,
    decreases z.len(),
{
    if z.len() > 0 {
        lemma_zeros_value(z.drop_last());
    }
}

/// Of two digit strings of one length that agree before `i`, the one with the
/// smaller digit at `i` spells the smaller number.
pub proof fn lemma_digits_lex(a: Seq<char>, b: Seq<char>, i: int)
    requires
        all_digits(a),
        all_digits(b),
        a.len() == b.len(),
        0 <= i < a.len(),
        a.subrange(0, i) == b.subrange(0, i),
        a[i] < b[i],
    ensures
        digits_value(a) < digits_value(b),
{
    let n = a.len() as int;
    let ra = a.subrange(i + 1, n);
    let rb = b.subrange(i + 1, n);
    assert(a =~= a.subrange(0, i + 1) + ra);
    assert(b =~= b.subrange(0, i + 1) + rb);
    lemma_digits_concat(a.subrange(0, i + 1), ra);
    lemma_digits_concat(b.subrange(0, i + 1), rb);
    assert(a.subrange(0, i + 1).drop_last() =~= a.subrange(0, i));
    assert(b.subrange(0, i + 1).drop_last() =~= b.subrange(0, i));
    assert(all_digits(ra));
    lemma_digits_bound(ra);
    assert(crate::text::is_digit(a[i]) && crate::text::is_digit(b[i]));
    let p = pow10(ra.len());
    let h = digits_value(a.subrange(0, i));
    let ca = digit_val(a[i]);
    let cb = digit_val(b[i]);
    assert(ca < cb);
    assert((h * 10 + ca) * p + digits_value(ra) < (h * 10 + cb) * p + digits_value(rb)) by (nonlinear_arith)
        requires
            ca < cb,
            digits_value(ra) < p,
            p >= 1,
    ;
}

/// Compares the numbers that two digit strings of one length spell.
fn compare_digits(a: &Vec<char>, b: &Vec<char>) -> (r: i8)
    requires
        all_digits(a@),
        all_digits(b@),
        a@.len() == b@.len(),
    ensures
        (r == 0) == (digits_value(a@) == digits_value(b@)),
        (r < 0) == (digits_value(a@) < digits_value(b@)),
{
    let mut i: usize = 0;
    while i < a.len()
        invariant
            i <= a@.len() == b@.len(),
            all_digits(a@),
            all_digits(b@),
            a@.subrange(0, i as int) == b@.subrange(0, i as int),
        decreases a@.len() - i,
    {
        if a[i] != b[i] {
            if a[i] < b[i] {
                proof {
                    lemma_digits_lex(a@, b@, i as int);
                }
                return -1;
            } else {
                proof {
                    lemma_digits_lex(b@, a@, i as int);
                }
                return 1;
            }
        }
        i += 1;
        assert(a@.subrange(0, i as int) =~= b@.subrange(0, i as int));
    }
    assert(a@.subrange(0, i as int) =~= a@);
    assert(b@.subrange(0, i as int) =~= b@);
    0
}

/// `n` zeros.
fn zeros(n: usize) -> (r: Vec<char>)
    ensures
        r@.len() == n,
        all_digits(r@),
        digits_value(r@) == 0,
        forall|i: int| 0 <= i < n ==> r@[i] == '0',
{
    let mut r: Vec<char> = Vec::new();
    let mut i: usize = 0;
    while i < n
        invariant
            i <= n,
            r@.len() == i,
            forall|j: int| 0 <= j < i ==> r@[j] == '0',
        decreases n - i,
    {
        r.push('0');
        i += 1;
    }
    proof {
        lemma_zeros_value(r@);
    }
    r
}

/// `a` followed by `b`.
fn concat_chars(a: &Vec<char>, b: &Vec<char>) -> (r: Vec<char>)
    ensures
        r@ == a@ + b@,
{
    let mut r: Vec<char> = Vec::new();
    let mut i: usize = 0;
    while i < a.len()
        invariant
            i <= a@.len(),
            r@ == a@.subrange(0, i as int),
        decreases a@.len() - i,
    {
        r.push(a[i]);
        i += 1;
        assert(r@ =~= a@.subrange(0, i as int));
    }
    let mut j: usize = 0;
    while j < b.len()
        invariant
            j <= b@.len(),
            r@ == a@ + b@.subrange(0, j as int),
        decreases b@.len() - j,
    {
        r.push(b[j]);
        j += 1;
        assert(r@ =~= a@ + b@.subrange(0, j as int));
    }
    assert(b@.subrange(0, j as int) =~= b@);
    r
}

/// The digits and sign of a literal of any length.
fn exact_literal(s: &Vec<char>) -> (r: Option<(bool, Vec<char>, usize)>)
    ensures
        r is Some <==> spec_literal_exact(s@) is Some,
        r matches Some((neg, d, f)) ==> all_digits(d@) && spec_literal_exact(s@) == Some(
            (if neg { -digits_value(d@) } else { digits_value(d@) as int }, f as nat),
        ) && d@.len() <= s@.len() && f <= s@.len(),
{
    let u = unsigned_part_exec(s);
    match literal_parts(&u) {
        None => None,
        Some((d, f)) => Some((s.len() > 0 && s[0] == '-', d, f)),
    }
}

pub proof fn lemma_all_digits_concat(a: Seq<char>, b: Seq<char>)
    requires
        all_digits(a),
        all_digits(b),
    ensures
        all_digits(a + b),
{
    assert forall|i: int| 0 <= i < (a + b).len() implies crate::text::is_digit(#[trigger] (a + b)[i]) by {
        if i >= a.len() {
            assert((a + b)[i] == b[i - a.len()]);
        }
    }
}

/// `d` followed by `extra` zeros, with zeros in front up to `len` digits.
fn scaled_digits(d: &Vec<char>, extra: usize, len: usize) -> (r: Vec<char>)
    requires
        all_digits(d@),
        d@.len() + extra <= len,
    ensures
        r@.len() == len,
        all_digits(r@),
        digits_value(r@) == digits_value(d@) * pow10(extra as nat),
{
    let z = zeros(extra);
    let e = concat_chars(d, &z);
    let front = zeros(len - e.len());
    let r = concat_chars(&front, &e);
    proof {
        lemma_digits_concat(d@, z@);
        lemma_all_digits_concat(d@, z@);
        lemma_digits_concat(front@, e@);
        lemma_all_digits_concat(front@, e@);
        assert(digits_value(front@) == 0);
        assert(0 * pow10(e@.len()) == 0);
        assert(digits_value(r@) == digits_value(e@));
        assert(digits_value(e@) == digits_value(d@) * pow10(extra as nat) + 0);
    }
    r
}

/// Whether literal `lo` is below literal `hi`, exactly, whatever their length.
fn literal_below(lo: &Vec<char>, hi: &Vec<char>) -> (r: Option<bool>)
    requires
        lo@.len() + hi@.len() <= usize::MAX,
    ensures
        r is Some <==> (spec_literal_exact(lo@) is Some && spec_literal_exact(hi@) is Some),
        r matches Some(b) ==> b == literal_less(spec_literal_exact(lo@)->0, spec_literal_exact(hi@)->0),
{
    let (n1, d1, f1) = match exact_literal(lo) {
        Some(x) => x,
        None => return None,
    };
    let (n2, d2, f2) = match exact_literal(hi) {
        Some(x) => x,
        None => return None,
    };
    let k = if f1 >= f2 {
        f1
    } else {
        f2
    };
    let l1 = d1.len() + (k - f1);
    let l2 = d2.len() + (k - f2);
    let len = if l1 >= l2 {
        l1
    } else {
        l2
    };
    let p1 = scaled_digits(&d1, k - f1, len);
    let p2 = scaled_digits(&d2, k - f2, len);
    let z = zeros(len);
    let c = compare_digits(&p1, &p2);
    let zero1 = compare_digits(&p1, &z) == 0;
    let zero2 = compare_digits(&p2, &z) == 0;
    let below = if !n1 && !n2 {
        c < 0
    } else if n1 && n2 {
        c > 0
    } else if n1 {
        !(zero1 && zero2)
    } else {
        false
    };
    proof {
        lemma_pow10_mono(0, (k - f1) as nat);
        lemma_pow10_mono(0, (k - f2) as nat);
        lemma_literal_below(
            n1,
            n2,
            digits_value(d1@) as int,
            digits_value(d2@) as int,
            pow10((k - f1) as nat) as int,
            pow10((k - f2) as nat) as int,
        );
    }
    Some(below)
}

proof fn lemma_literal_below(n1: bool, n2: bool, v1: int, v2: int, q1: int, q2: int)
    requires
        v1 >= 0,
        v2 >= 0,
        q1 >= 1,
        q2 >= 1,
    ensures
        ((if n1 { -v1 } else { v1 }) * q1 < (if n2 { -v2 } else { v2 }) * q2) == (if !n1 && !n2 {
            v1 * q1 < v2 * q2
        } else if n1 && n2 {
            v1 * q1 > v2 * q2
        } else if n1 {
            !(v1 * q1 == 0 && v2 * q2 == 0)
        } else {
            false
        }),
{
    assert((-v1) * q1 == -(v1 * q1)) by (nonlinear_arith);
    assert((-v2) * q2 == -(v2 * q2)) by (nonlinear_arith);
    assert(v1 * q1 >= 0 && v2 * q2 >= 0) by (nonlinear_arith)
        requires
            v1 >= 0,
            v2 >= 0,
            q1 >= 1,
            q2 >= 1,
    ;
}

/// Parses a decimal literal into (mantissa, digits after the dot).
pub fn parse_literal(s: &Vec<char>) -> (r: Option<(i64, u32)>)
    ensures
        match r {
            Some((m, f)) => spec_literal(s@) == Some((m as int, f as nat)),
            None => spec_literal(s@) is None,
        },
{
    let u = unsigned_part_exec(s);
    match literal_parts(&u) {
        None => None,
        Some((d, f)) => match parse_digits(&d) {
            None => None,
            Some(v) => {
                if v <= LITERAL_MAX && f <= LITERAL_MAX_FRACTION as usize {
                    let m: i64 = if s.len() > 0 && s[0] == '-' {
                        -(v as i64)
                    } else {
                        v as i64
                    };
                    Some((m, f as u32))
                } else {
                    None
                }
            },
        },
    }
}

fn literal_shape(s: &Vec<char>) -> (r: bool)
    ensures
        r == (literal_body(unsigned_part(s@)) is Some),
{
    let u = unsigned_part_exec(s);
    literal_parts(&u).is_some()
}

/// Recognises `i<N>` and `u<N>`.
fn resolve_int(s: &Vec<char>) -> (r: Option<Primitive>)
    ensures
        r == spec_int(s@),
{
    if 2 <= s.len() && s.len() <= 3 && (s[0] == 'i' || s[0] == 'u') {
        let digits = slice_of(s, 1, s.len());
        if all_digits_exec(&digits) {
            match parse_digits(&digits) {
                Some(n) => {
                    if 1 <= n && n <= 64 {
                        if s[0] == 'i' {
                            return Some(Primitive::SignedInt { bits: n as u8 });
                        } else {
                            return Some(Primitive::UnsignedInt { bits: n as u8 });
                        }
                    }
                },
                None => {},
            }
        }
    }
    None
}

/// The decimal encoding of `bits` bits spanning the literals `lo..hi`.
fn make_decimal(bits: u8, lo: (i64, u32), hi: (i64, u32)) -> (r: Result<Primitive, ConfigError>)
    requires
        spec_literal_range((lo.0 as int, lo.1 as nat)),
        spec_literal_range((hi.0 as int, hi.1 as nat)),
        1 <= bits <= 64,
    ensures
        r == if literal_less((lo.0 as int, lo.1 as nat), (hi.0 as int, hi.1 as nat)) {
            Ok::<Primitive, ConfigError>(
                decimal_of(bits as nat, (lo.0 as int, lo.1 as nat), (hi.0 as int, hi.1 as nat)),
            )
        } else {
            Err(ConfigError::InvalidRange)
        },
{
    let ghost min = (lo.0 as int, lo.1 as nat);
    let ghost max = (hi.0 as int, hi.1 as nat);
    proof {
        lemma_decimal_fits(bits as nat, min, max);
    }
    let k: u32 = if lo.1 >= hi.1 {
        lo.1
    } else {
        hi.1
    };
    let pk = pow10_exec(k);
    let pa = pow10_exec(k - lo.1);
    let pb = pow10_exec(k - hi.1);
    let a: i128 = (lo.0 as i128) * (pa as i128);
    let b: i128 = (hi.0 as i128) * (pb as i128);
    if a >= b {
        return Err(ConfigError::InvalidRange);
    }
    let m = max_raw(bits);
    proof {
        assert(1 <= (pk as int) * (m as int) <= 1_000_000_000_000_000_000 * 0xffff_ffff_ffff_ffff)
            by (nonlinear_arith)
            requires
                1 <= pk <= 1_000_000_000_000_000_000,
                1 <= m <= 0xffff_ffff_ffff_ffff,
        ;
    }
    let den: u128 = (pk as u128) * (m as u128);
    Ok(
        Primitive::Decimal {
            bits,
            offset: Ratio { num: a, den: pk as u128 },
            scale: Ratio { num: b - a, den },
        },
    )
}

proof fn lemma_short_digits(s: Seq<char>)
    requires
        all_digits(s),
        s.len() <= 2,
    ensures
        digits_value(s) < 100,
{
    reveal_with_fuel(digits_value, 3);
    if s.len() == 2 {
        assert(s.drop_last().drop_last().len() == 0);
        assert(crate::text::is_digit(s[0]) && crate::text::is_digit(s[1]));
    } else if s.len() == 1 {
        assert(crate::text::is_digit(s[0]));
    }
}

/// Recognises `d<N><min..max>`.
fn resolve_decimal(s: &Vec<char>) -> (r: Option<Result<Primitive, ConfigError>>)
    ensures
        r == spec_decimal(s@),
{
    if s.len() < 4 || s[0] != 'd' || s[s.len() - 1] != '>' {
        return None;
    }
    proof {
        lemma_find_from_bounds(s@, '<', 0);
    }
    let lt = match find_char(s, '<') {
        Some(lt) => lt,
        None => return None,
    };
    if lt < 2 || lt > 3 {
        return None;
    }
    let bit_digits = slice_of(s, 1, lt);
    if !all_digits_exec(&bit_digits) {
        return None;
    }
    let inner = slice_of(s, lt + 1, s.len() - 1);
    proof {
        lemma_find_two_dots_bounds(inner@, 0);
    }
    let dd = match find_dots(&inner) {
        Some(dd) => dd,
        None => return None,
    };
    let lo_text = slice_of(&inner, 0, dd);
    let hi_text = slice_of(&inner, dd + 2, inner.len());
    match literal_below(&lo_text, &hi_text) {
        None => return None,
        Some(false) => return Some(Err(ConfigError::InvalidRange)),
        Some(true) => {},
    }
    let lo = match parse_literal(&lo_text) {
        Some(lo) => lo,
        None => return None,
    };
    let hi = match parse_literal(&hi_text) {
        Some(hi) => hi,
        None => return None,
    };
    proof {
        lemma_short_digits(bit_digits@);
    }
    let bits = match parse_digits(&bit_digits) {
        Some(bits) => bits,
        None => return None,
    };
    let ghost min = (lo.0 as int, lo.1 as nat);
    let ghost max = (hi.0 as int, hi.1 as nat);
    proof {
        lemma_decimal_fits(1, min, max);
    }
    if !(bits >= 1 && bits <= 64) {
        return None;
    }
    Some(make_decimal(bits as u8, lo, hi))
}

fn resolve_primitive(s: &Vec<char>) -> (r: Option<Result<Primitive, ConfigError>>)
    ensures
        r == spec_primitive(s@),
{
    match resolve_int(s) {
        Some(p) => Some(Ok(p)),
        None => resolve_decimal(s),
    }
}

fn lookup(s: &Vec<char>, names: &Vec<String>) -> (r: Result<Elem, ConfigError>)
    ensures
        r == spec_lookup(s@, names@),
{
    let mut j: usize = 0;
    while j < names.len()
        invariant
            j <= names@.len(),
            name_index(names@, s@, 0) == name_index(names@, s@, j as int),
        decreases names@.len() - j,
    {
        let name = chars_of(names[j].as_str());
        if same_chars(&name, s) {
            return Ok(Elem::Named(j));
        }
        j += 1;
    }
    Err(ConfigError::InvalidType)
}

fn resolve_scalar(s: &Vec<char>, names: &Vec<String>) -> (r: Result<Elem, ConfigError>)
    ensures
        r == spec_scalar(s@, names@),
{
    match resolve_primitive(s) {
        Some(Ok(p)) => Ok(Elem::Primitive(p)),
        Some(Err(e)) => Err(e),
        None => lookup(s, names),
    }
}

fn range_shape_exec(r: &Vec<char>) -> (b: bool)
    ensures
        b == range_shape(r@),
{
    proof {
        lemma_find_two_dots_bounds(r@, 0);
    }
    match find_dots(r) {
        None => false,
        Some(dd) => {
            assert(dd + 1 < r.len());
            let lo = slice_of(r, 0, dd);
            let hi = slice_of(r, dd + 2, r.len());
            literal_shape(&lo) && literal_shape(&hi)
        },
    }
}

fn elem_shape_exec(t: &Vec<char>) -> (b: bool)
    ensures
        b == elem_shape(t@),
{
    if t.len() == 0 {
        return false;
    }
    let c = t[0];
    if !(('a' <= c && c <= 'z') || ('A' <= c && c <= 'Z')) {
        return false;
    }
    proof {
        lemma_find_from_bounds(t@, '<', 0);
    }
    match find_char(t, '<') {
        None => {
            let rest = slice_of(t, 1, t.len());
            all_alnum_exec(&rest)
        },
        Some(lt) => {
            if lt >= t.len() - 1 || t[t.len() - 1] != '>' {
                return false;
            }
            let head = slice_of(t, 1, lt);
            let range = slice_of(t, lt + 1, t.len() - 1);
            all_alnum_exec(&head) && range_shape_exec(&range)
        },
    }
}

/// Splits `<elem>[<len>]` into the digits of its length and its element.
pub fn array_parts(s: &Vec<char>) -> (r: Option<(Vec<char>, Vec<char>)>)
    ensures
        r is Some <==> array_shape(s@),
        r matches Some((len_digits, elem)) ==> len_digits@ == s@.subrange(
            find_from(s@, '[', 0) + 1,
            s@.len() - 1,
        ) && elem@ == s@.subrange(0, find_from(s@, '[', 0)),
{
    proof {
        lemma_find_from_bounds(s@, '[', 0);
    }
    match find_char(s, '[') {
        Some(lb) => {
            if 1 <= lb && s.len() >= 2 && lb < s.len() - 2 && s[s.len() - 1] == ']' {
                let len_digits = slice_of(s, lb + 1, s.len() - 1);
                let elem = slice_of(s, 0, lb);
                if all_digits_exec(&len_digits) && elem_shape_exec(&elem) {
                    Some((len_digits, elem))
                } else {
                    None
                }
            } else {
                None
            }
        },
        None => None,
    }
}

/// Resolves a type descriptor against the names of the types elaborated so far
/// (index `i` of `names` is the type `Elem::Named(i)`).
pub fn resolve_type(names: &Vec<String>, descriptor: &str) -> (r: Result<TypeRef, ConfigError>)
    ensures
        r == spec_resolve(descriptor@, names@),
{
    let s = chars_of(descriptor);
    match resolve_primitive(&s) {
        Some(Ok(p)) => return Ok(TypeRef::Single(Elem::Primitive(p))),
        Some(Err(e)) => return Err(e),
        None => {},
    }
    let is_array = array_parts(&s);
    match is_array {
        Some((len_digits, elem)) => {
            match parse_digits(&len_digits) {
                None => Err(ConfigError::InvalidType),
                Some(len) => match resolve_scalar(&elem, names) {
                    Ok(e) => Ok(TypeRef::Array { len, elem: e }),
                    Err(e) => Err(e),
                },
            }
        },
        None => match lookup(&s, names) {
            Ok(e) => Ok(TypeRef::Single(e)),
            Err(e) => Err(e),
        },
    }
}

/// Resolution fails only with `InvalidType` or `InvalidRange`.
pub proof fn lemma_resolve_errors(s: Seq<char>, names: Seq<String>)
    ensures
        spec_resolve(s, names) matches Err(e) ==> e == ConfigError::InvalidType || e
            == ConfigError::InvalidRange,
{
}

} // verus!
