//! Flattening typed values into contiguous, offset-assigned signals.
use vstd::prelude::*;
use vstd::string::*;

use crate::error::ConfigError;
use crate::types::{Elem, NamedType, Primitive, TypeRef};

verus! {

/// The numeric encoding of one signal, with the enum it stands for, if any.
#[derive(Debug, Clone, Copy, PartialEq, Eq, Structural)]
pub struct SignalFormat {
    pub primitive: Primitive,
    /// The index of the enum type whose entries name the signal's values.
    pub value_table: Option<usize>,
}

/// A fixed-offset, fixed-width bit-field of a message payload.
#[derive(Debug, Clone)]
pub struct Signal {
    pub name: String,
    /// Offset of the first bit within the payload.
    pub offset: u64,
    pub format: SignalFormat,
}

impl Signal {
    pub open spec fn spec_width(&self) -> nat {
        self.format.primitive.spec_bits()
    }
}

/// A reference to a named type that is elaborated before position `bound`.
pub open spec fn elem_below(e: Elem, bound: int) -> bool {
    match e {
        Elem::Primitive(_) => true,
        Elem::Named(j) => j < bound,
    }
}

pub open spec fn ref_below(t: TypeRef, bound: int) -> bool {
    match t {
        TypeRef::Single(e) => elem_below(e, bound),
        TypeRef::Array { elem, .. } => elem_below(elem, bound),
    }
}

/// Each struct refers only to types elaborated before it.
pub open spec fn types_wf(types: Seq<NamedType>) -> bool {
    forall|i: int, k: int|
        0 <= i < types.len() && (types[i] matches NamedType::Struct { attributes, .. }) && 0 <= k
            < types[i]->attributes@.len() ==> ref_below(
            #[trigger] types[i]->attributes@[k].ty,
            i,
        )
}

pub open spec fn repeat(s: Seq<SignalFormat>, n: nat) -> Seq<SignalFormat>
    decreases n,
{
    if n == 0 {
        Seq::empty()
    } else {
        repeat(s, (n - 1) as nat) + s
    }
}

/// The signals a reference to a named type flattens to.
pub open spec fn named_flat(types: Seq<NamedType>, j: int) -> Seq<SignalFormat>
    decreases j, 3nat, 0nat,
{
    if 0 <= j < types.len() {
        match types[j] {
            NamedType::Enum { bits, .. } => seq![
                SignalFormat {
                    primitive: Primitive::UnsignedInt { bits },
                    value_table: Some(j as usize),
                },
            ],
            NamedType::Struct { attributes, .. } => attrs_flat(types, j, attributes@.len() as int),
        }
    } else {
        Seq::empty()
    }
}

/// The signals of the first `n` attributes of struct `j`, in order.
pub open spec fn attrs_flat(types: Seq<NamedType>, j: int, n: int) -> Seq<SignalFormat>
    decreases j, 2nat, n,
{
    if n <= 0 || !(0 <= j < types.len()) {
        Seq::empty()
    } else {
        match types[j] {
            NamedType::Struct { attributes, .. } => if n <= attributes@.len() {
                attrs_flat(types, j, n - 1) + ref_flat(types, attributes@[n - 1].ty, j)
            } else {
                Seq::empty()
            },
            _ => Seq::empty(),
        }
    }
}

pub open spec fn ref_flat(types: Seq<NamedType>, t: TypeRef, bound: int) -> Seq<SignalFormat>
    decreases bound, 1nat, 0nat,
{
    match t {
        TypeRef::Single(e) => elem_flat(types, e, bound),
        TypeRef::Array { len, elem } => repeat(elem_flat(types, elem, bound), len as nat),
    }
}

pub open spec fn elem_flat(types: Seq<NamedType>, e: Elem, bound: int) -> Seq<SignalFormat>
    decreases bound, 0nat, 0nat,
{
    match e {
        Elem::Primitive(p) => seq![SignalFormat { primitive: p, value_table: None }],
        Elem::Named(j) => if 0 <= j < bound {
            named_flat(types, j as int)
        } else {
            Seq::empty()
        },
    }
}

pub open spec fn formats(s: Seq<Signal>) -> Seq<SignalFormat> {
    s.map_values(|x: Signal| x.format)
}

pub open spec fn total_bits(s: Seq<SignalFormat>) -> nat
    decreases s.len(),
{
    if s.len() == 0 {
        0
    } else {
        total_bits(s.drop_last()) + s.last().primitive.spec_bits()
    }
}

/// The signals start at bit 0 and each begins where the previous one ends.
pub open spec fn contiguous(s: Seq<Signal>) -> bool {
    &&& s.len() > 0 ==> s[0].offset == 0
    &&& forall|k: int| 0 < k < s.len() ==> #[trigger] s[k].offset == s[k - 1].offset + s[k - 1].spec_width()
}

/// The first bit after the last signal.
pub open spec fn end_offset(s: Seq<Signal>) -> nat {
    if s.len() == 0 {
        0
    } else {
        (s.last().offset + s.last().spec_width()) as nat
    }
}

pub proof fn lemma_total_concat(a: Seq<SignalFormat>, b: Seq<SignalFormat>)
    ensures
        total_bits(a + b) == total_bits(a) + total_bits(b),
    decreases b.len(),
{
    if b.len() == 0 {
        assert(a + b =~= a);
    } else {
        assert((a + b).drop_last() =~= a + b.drop_last());
        lemma_total_concat(a, b.drop_last());
    }
}

/// In a contiguous run of signals, the end is the sum of the widths.
pub proof fn lemma_end_is_total(s: Seq<Signal>)
    requires
        contiguous(s),
    ensures
        end_offset(s) == total_bits(formats(s)),
    decreases s.len(),
{
    if s.len() > 0 {
        let t = s.drop_last();
        assert(formats(s).drop_last() =~= formats(t));
        assert(contiguous(t)) by {
            assert forall|k: int| 0 < k < t.len() implies #[trigger] t[k].offset == t[k - 1].offset
                + t[k - 1].spec_width() by {
                assert(t[k] == s[k] && t[k - 1] == s[k - 1]);
            }
        }
        lemma_end_is_total(t);
        if t.len() > 0 {
            assert(s[s.len() - 1].offset == t.last().offset + t.last().spec_width());
        }
    }
}

/// The ASCII text of a digit.
fn digit_text(d: u64) -> (r: &'static str)
    requires
        d < 10,
    ensures
        r@ == seq![(d + 48) as char],
{
    proof {
        reveal_strlit("0");
        reveal_strlit("1");
        reveal_strlit("2");
        reveal_strlit("3");
        reveal_strlit("4");
        reveal_strlit("5");
        reveal_strlit("6");
        reveal_strlit("7");
        reveal_strlit("8");
        reveal_strlit("9");
    }
    match d {
        0 => "0",
        1 => "1",
        2 => "2",
        3 => "3",
        4 => "4",
        5 => "5",
        6 => "6",
        7 => "7",
        8 => "8",
        _ => "9",
    }
}

pub open spec fn decimal_text(n: nat) -> Seq<char>
    decreases n,
{
    if n < 10 {
        seq![(n + 48) as char]
    } else {
        decimal_text(n / 10) + seq![((n % 10) + 48) as char]
    }
}

/// Appends the decimal digits of `n`.
fn push_decimal(s: &mut String, n: u64)
    ensures
        final(s)@ == old(s)@ + decimal_text(n as nat),
    decreases n,
{
    if n >= 10 {
        push_decimal(s, n / 10);
    }
    s.append(digit_text(n % 10));
    proof {
        if n < 10 {
            assert(n % 10 == n);
        }
    }
}

/// `path` followed by `_` and `part`.
pub fn join(path: &String, part: &str) -> (r: String)
    ensures
        r@ == path@ + seq!['_'] + part@,
{
    let mut r = path.clone();
    proof {
        reveal_strlit("_");
    }
    r.append("_");
    r.append(part);
    r
}

fn join_index(path: &String, i: u64) -> (r: String)
    ensures
        r@ == path@ + seq!['_'] + decimal_text(i as nat),
{
    let mut r = path.clone();
    proof {
        reveal_strlit("_");
    }
    r.append("_");
    push_decimal(&mut r, i);
    r
}

/// Appends one signal at `offset`, the end of the signals so far.
fn push_signal(
    signals: &mut Vec<Signal>,
    name: String,
    offset: u64,
    format: SignalFormat,
) -> (r: Result<u64, ConfigError>)
    requires
        contiguous(old(signals)@),
        offset == end_offset(old(signals)@),
    ensures
        contiguous(final(signals)@),
        r matches Ok(end) ==> end == end_offset(final(signals)@) && formats(final(signals)@)
            == formats(old(signals)@).push(format),
        r is Ok ==> final(signals)@ == old(signals)@.push(Signal { name, offset, format }),
        r matches Err(e) ==> e == ConfigError::PayloadTooLarge && offset
            + format.primitive.spec_bits() > u64::MAX && final(signals)@ == old(signals)@,
{
    let bits = format.primitive.bits() as u64;
    if offset > u64::MAX - bits {
        return Err(ConfigError::PayloadTooLarge);
    }
    let ghost before = signals@;
    signals.push(Signal { name, offset, format });
    proof {
        assert(formats(signals@) =~= formats(before).push(format));
        assert forall|k: int| 0 < k < signals@.len() implies #[trigger] signals@[k].offset
            == signals@[k - 1].offset + signals@[k - 1].spec_width() by {
            if k < before.len() {
                assert(signals@[k] == before[k] && signals@[k - 1] == before[k - 1]);
            } else {
                assert(signals@[k - 1] == before.last());
            }
        }
    }
    Ok(offset + bits)
}

/// `p` is a prefix of `s`.
pub open spec fn has_prefix(s: Seq<char>, p: Seq<char>) -> bool {
    p.len() <= s.len() && s.subrange(0, p.len() as int) == p
}

/// The signals before stay, and every appended signal's name starts with `path`.
pub open spec fn named_under(old_signals: Seq<Signal>, new_signals: Seq<Signal>, path: Seq<char>) -> bool {
    &&& old_signals.len() <= new_signals.len()
    &&& forall|k: int| 0 <= k < old_signals.len() ==> #[trigger] new_signals[k] == old_signals[k]
    &&& forall|k: int|
        old_signals.len() <= k < new_signals.len() ==> has_prefix(#[trigger] new_signals[k].name@, path)
}

pub proof fn lemma_prefix_trans(s: Seq<char>, q: Seq<char>, p: Seq<char>)
    requires
        has_prefix(s, q),
        has_prefix(q, p),
    ensures
        has_prefix(s, p),
{
    assert(s.subrange(0, p.len() as int) =~= q.subrange(0, p.len() as int));
}

pub proof fn lemma_named_compose(a: Seq<Signal>, b: Seq<Signal>, c: Seq<Signal>, p: Seq<char>, q: Seq<char>)
    requires
        named_under(a, b, p),
        named_under(b, c, q),
        has_prefix(q, p),
    ensures
        named_under(a, c, p),
{
    assert forall|k: int| a.len() <= k < c.len() implies has_prefix(#[trigger] c[k].name@, p) by {
        if k < b.len() {
            assert(c[k] == b[k]);
        } else {
            lemma_prefix_trans(c[k].name@, q, p);
        }
    }
}

/// The common contract of the flattening functions: on success the signals of
/// `flat` are appended, contiguously; on failure the payload would pass the
/// largest offset.
pub open spec fn appended(
    old_signals: Seq<Signal>,
    new_signals: Seq<Signal>,
    flat: Seq<SignalFormat>,
    r: Result<u64, ConfigError>,
) -> bool {
    &&& contiguous(new_signals)
    &&& r matches Ok(end) ==> end == end_offset(new_signals) && formats(new_signals)
        == formats(old_signals) + flat
    &&& r matches Err(e) ==> e == ConfigError::PayloadTooLarge && total_bits(formats(old_signals))
        + total_bits(flat) > u64::MAX
}

/// Flattens the named type `j` into signals named after `path`.
fn flatten_named(
    types: &Vec<NamedType>,
    j: usize,
    path: &String,
    offset: u64,
    signals: &mut Vec<Signal>,
) -> (r: Result<u64, ConfigError>)
    requires
        types_wf(types@),
        j < types@.len(),
        contiguous(old(signals)@),
        offset == end_offset(old(signals)@),
    ensures
        appended(old(signals)@, final(signals)@, named_flat(types@, j as int), r),
        r is Ok ==> named_under(old(signals)@, final(signals)@, path@),
    decreases j, 3nat, 0nat,
{
    proof {
        lemma_end_is_total(old(signals)@);
    }
    match &types[j] {
        NamedType::Enum { bits, .. } => {
            let format = SignalFormat {
                primitive: Primitive::UnsignedInt { bits: *bits },
                value_table: Some(j),
            };
            let name = path.clone();
            let r = push_signal(signals, name, offset, format);
            proof {
                assert(path@.subrange(0, path@.len() as int) =~= path@);
                assert(named_flat(types@, j as int) =~= seq![format]);
                assert(formats(old(signals)@).push(format) =~= formats(old(signals)@) + seq![
                    format,
                ]);
                lemma_total_concat(formats(old(signals)@), seq![format]);
                reveal_with_fuel(total_bits, 2);
            }
            r
        },
        NamedType::Struct { attributes, .. } => {
            let ghost base = formats(old(signals)@);
            let mut end = offset;
            let mut k: usize = 0;
            assert(attrs_flat(types@, j as int, 0) =~= Seq::<SignalFormat>::empty());
            assert(base + Seq::<SignalFormat>::empty() =~= base);
            while k < attributes.len()
                invariant
                    types_wf(types@),
                    j < types@.len(),
                    types@[j as int] matches NamedType::Struct { attributes: a, .. } && a
                        == attributes,
                    k <= attributes@.len(),
                    contiguous(signals@),
                    end == end_offset(signals@),
                    formats(signals@) == base + attrs_flat(types@, j as int, k as int),
                    base == formats(old(signals)@),
                    named_under(old(signals)@, signals@, path@),
                decreases attributes@.len() - k,
            {
                let attribute = &attributes[k];
                let name = join(path, attribute.name.as_str());
                proof {
                    assert(ref_below(types@[j as int]->attributes@[k as int].ty, j as int));
                }
                let ghost mid = formats(signals@);
                let ghost part = ref_flat(types@, attribute.ty, j as int);
                let ghost sig0 = signals@;
                let r = flatten_ref(types, attribute.ty, j, &name, end, signals);
                proof {
                    if r is Ok {
                        assert(name@.subrange(0, path@.len() as int) =~= path@);
                        lemma_named_compose(old(signals)@, sig0, signals@, path@, name@);
                    }
                }
                proof {
                    assert(attrs_flat(types@, j as int, k + 1) == attrs_flat(types@, j as int, k as int)
                        + part);
                    assert(base + (attrs_flat(types@, j as int, k as int) + part) =~= mid + part);
                }
                match r {
                    Ok(e) => {
                        end = e;
                    },
                    Err(e) => {
                        proof {
                            lemma_total_concat(base, attrs_flat(types@, j as int, k as int));
                            lemma_total_concat(attrs_flat(types@, j as int, k as int), part);
                            lemma_attrs_total_grows(types@, j as int, k + 1, attributes@.len() as int);
                        }
                        return Err(e);
                    },
                }
                k += 1;
            }
            proof {
                lemma_end_is_total(signals@);
            }
            Ok(end)
        },
    }
}

proof fn lemma_attrs_total_grows(types: Seq<NamedType>, j: int, m: int, n: int)
    requires
        0 <= m <= n,
        0 <= j < types.len(),
        types[j] matches NamedType::Struct { attributes, .. } && n <= attributes@.len(),
    ensures
        total_bits(attrs_flat(types, j, m)) <= total_bits(attrs_flat(types, j, n)),
    decreases n - m,
{
    if m < n {
        lemma_attrs_total_grows(types, j, m, n - 1);
        lemma_total_concat(
            attrs_flat(types, j, n - 1),
            ref_flat(types, types[j]->attributes@[n - 1].ty, j),
        );
    }
}

proof fn lemma_repeat_total_grows(s: Seq<SignalFormat>, m: nat, n: nat)
    requires
        m <= n,
    ensures
        total_bits(repeat(s, m)) <= total_bits(repeat(s, n)),
    decreases n - m,
{
    if m < n {
        lemma_repeat_total_grows(s, m, (n - 1) as nat);
        lemma_total_concat(repeat(s, (n - 1) as nat), s);
    }
}

/// Flattens a value of type `t` into signals named after `path`.
#[verifier::rlimit(40)]
pub fn flatten_ref(
    types: &Vec<NamedType>,
    t: TypeRef,
    bound: usize,
    path: &String,
    offset: u64,
    signals: &mut Vec<Signal>,
) -> (r: Result<u64, ConfigError>)
    requires
        types_wf(types@),
        bound <= types@.len(),
        ref_below(t, bound as int),
        contiguous(old(signals)@),
        offset == end_offset(old(signals)@),
    ensures
        appended(old(signals)@, final(signals)@, ref_flat(types@, t, bound as int), r),
        r is Ok ==> named_under(old(signals)@, final(signals)@, path@),
    decreases bound, 1nat, 0nat,
{
    match t {
        TypeRef::Single(e) => flatten_elem(types, e, bound, path, offset, signals),
        TypeRef::Array { len, elem } => {
            let ghost base = formats(old(signals)@);
            let ghost one = elem_flat(types@, elem, bound as int);
            let mut end = offset;
            let mut i: u64 = 0;
            assert(base + repeat(one, 0) =~= base);
            while i < len
                invariant
                    types_wf(types@),
                    bound <= types@.len(),
                    elem_below(elem, bound as int),
                    t == (TypeRef::Array { len, elem }),
                    i <= len,
                    contiguous(signals@),
                    end == end_offset(signals@),
                    formats(signals@) == base + repeat(one, i as nat),
                    base == formats(old(signals)@),
                    one == elem_flat(types@, elem, bound as int),
                    named_under(old(signals)@, signals@, path@),
                decreases len - i,
            {
                let name = join_index(path, i);
                let ghost mid = formats(signals@);
                let ghost sig0 = signals@;
                let r = flatten_elem(types, elem, bound, &name, end, signals);
                proof {
                    if r is Ok {
                        assert(name@.subrange(0, path@.len() as int) =~= path@);
                        lemma_named_compose(old(signals)@, sig0, signals@, path@, name@);
                    }
                }
                proof {
                    assert(repeat(one, (i + 1) as nat) == repeat(one, i as nat) + one);
                    assert(base + (repeat(one, i as nat) + one) =~= mid + one);
                }
                match r {
                    Ok(e) => {
                        end = e;
                    },
                    Err(e) => {
                        proof {
                            lemma_total_concat(base, repeat(one, i as nat));
                            lemma_total_concat(repeat(one, i as nat), one);
                            lemma_repeat_total_grows(one, (i + 1) as nat, len as nat);
                            assert(mid == base + repeat(one, i as nat));
                            assert(total_bits(mid) + total_bits(one) > u64::MAX);
                            assert(total_bits(repeat(one, (i + 1) as nat)) == total_bits(
                                repeat(one, i as nat),
                            ) + total_bits(one));
                            assert(ref_flat(types@, t, bound as int) == repeat(one, len as nat));
                        }
                        return Err(e);
                    },
                }
                i += 1;
            }
            proof {
                lemma_end_is_total(signals@);
            }
            Ok(end)
        },
    }
}

fn flatten_elem(
    types: &Vec<NamedType>,
    e: Elem,
    bound: usize,
    path: &String,
    offset: u64,
    signals: &mut Vec<Signal>,
) -> (r: Result<u64, ConfigError>)
    requires
        types_wf(types@),
        bound <= types@.len(),
        elem_below(e, bound as int),
        contiguous(old(signals)@),
        offset == end_offset(old(signals)@),
    ensures
        appended(old(signals)@, final(signals)@, elem_flat(types@, e, bound as int), r),
        r is Ok ==> named_under(old(signals)@, final(signals)@, path@),
    decreases bound, 0nat, 0nat,
{
    match e {
        Elem::Primitive(p) => {
            let format = SignalFormat { primitive: p, value_table: None };
            let name = path.clone();
            proof {
                lemma_end_is_total(old(signals)@);
                assert(formats(old(signals)@).push(format) =~= formats(old(signals)@) + seq![
                    format,
                ]);
                reveal_with_fuel(total_bits, 2);
            }
            let r = push_signal(signals, name, offset, format);
            proof {
                assert(path@.subrange(0, path@.len() as int) =~= path@);
            }
            r
        },
        Elem::Named(j) => flatten_named(types, j, path, offset, signals),
    }
}

} // verus!
