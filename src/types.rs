//! The type model: primitives, elaborated named types and references to them.
use vstd::prelude::*;

verus! {

/// An exact fraction `num / den`, with `den > 0`.
#[derive(Debug, Clone, Copy, PartialEq, Eq, Structural)]
pub struct Ratio {
    pub num: i128,
    pub den: u128,
}

/// A fixed-width numeric wire encoding.
#[derive(Debug, Clone, Copy, PartialEq, Eq, Structural)]
pub enum Primitive {
    SignedInt { bits: u8 },
    UnsignedInt { bits: u8 },
    /// An affine-scaled value: `value = raw * scale + offset`.
    Decimal { bits: u8, offset: Ratio, scale: Ratio },
}

/// What an array element or a plain attribute refers to.
#[derive(Debug, Clone, Copy, PartialEq, Eq, Structural)]
pub enum Elem {
    Primitive(Primitive),
    /// The index of an elaborated struct or enum in the network's type list.
    Named(usize),
}

/// A resolved type descriptor.
#[derive(Debug, Clone, Copy, PartialEq, Eq, Structural)]
pub enum TypeRef {
    Single(Elem),
    Array { len: u64, elem: Elem },
}

/// One attribute of an elaborated struct.
#[derive(Debug, Clone)]
pub struct Attribute {
    pub name: String,
    pub ty: TypeRef,
}

/// One entry of an elaborated enum.
#[derive(Debug, Clone)]
pub struct EnumEntry {
    pub name: String,
    pub value: u64,
}

/// An elaborated struct or enum.
#[derive(Debug, Clone)]
pub enum NamedType {
    Struct { name: String, attributes: Vec<Attribute> },
    Enum { name: String, bits: u8, entries: Vec<EnumEntry> },
}

impl Primitive {
    pub open spec fn spec_bits(self) -> nat {
        match self {
            Primitive::SignedInt { bits } => bits as nat,
            Primitive::UnsignedInt { bits } => bits as nat,
            Primitive::Decimal { bits, .. } => bits as nat,
        }
    }

    /// The number of bits the encoding takes.
    pub fn bits(&self) -> (r: u8)
        ensures
            r as nat == self.spec_bits(),
    {
        match self {
            Primitive::SignedInt { bits } => *bits,
            Primitive::UnsignedInt { bits } => *bits,
            Primitive::Decimal { bits, .. } => *bits,
        }
    }
}

impl NamedType {
    pub open spec fn spec_name(&self) -> Seq<char> {
        match self {
            NamedType::Struct { name, .. } => name@,
            NamedType::Enum { name, .. } => name@,
        }
    }

    pub open spec fn spec_name_string(&self) -> String {
        match self {
            NamedType::Struct { name, .. } => *name,
            NamedType::Enum { name, .. } => *name,
        }
    }

    pub fn name(&self) -> (r: &String)
        ensures
            r@ == self.spec_name(),
            *r == self.spec_name_string(),
    {
        match self {
            NamedType::Struct { name, .. } => name,
            NamedType::Enum { name, .. } => name,
        }
    }
}

pub open spec fn pow10(e: nat) -> nat
    decreases e,
{
    if e == 0 {
        1
    } else {
        10 * pow10((e - 1) as nat)
    }
}

pub open spec fn pow2(e: nat) -> nat
    decreases e,
{
    if e == 0 {
        1
    } else {
        2 * pow2((e - 1) as nat)
    }
}

pub proof fn lemma_pow10_mono(a: nat, b: nat)
    requires
        a <= b,
    ensures
        1 <= pow10(a) <= pow10(b),
    decreases b,
{
    if b > 0 {
        if a < b {
            lemma_pow10_mono(a, (b - 1) as nat);
        } else {
            lemma_pow10_mono((a - 1) as nat, (b - 1) as nat);
        }
    }
}

pub proof fn lemma_pow10_add(a: nat, b: nat)
    ensures
        pow10(a + b) == pow10(a) * pow10(b),
    decreases b,
{
    if b > 0 {
        let b1 = (b - 1) as nat;
        lemma_pow10_add(a, b1);
        let x = pow10(a);
        let y = pow10(b1);
        assert(pow10(a + b) == 10 * pow10(a + b1));
        assert(pow10(b) == 10 * y);
        assert(pow10(a + b1) == x * y);
        assert(x * (10 * y) == 10 * (x * y)) by (nonlinear_arith);
        assert(pow10(a + b) == x * pow10(b));
    } else {
        assert(pow10(b) == 1);
        assert(a + b == a);
        assert(pow10(a) * 1 == pow10(a));
    }
}

pub proof fn lemma_pow2_add(a: nat, b: nat)
    ensures
        pow2(a + b) == pow2(a) * pow2(b),
    decreases b,
{
    if b > 0 {
        let b1 = (b - 1) as nat;
        lemma_pow2_add(a, b1);
        let x = pow2(a);
        let y = pow2(b1);
        assert(pow2(a + b) == 2 * pow2(a + b1));
        assert(pow2(b) == 2 * y);
        assert(pow2(a + b1) == x * y);
        assert(x * (2 * y) == 2 * (x * y)) by (nonlinear_arith);
        assert(pow2(a + b) == x * pow2(b));
    } else {
        assert(pow2(b) == 1);
        assert(a + b == a);
        assert(pow2(a) * 1 == pow2(a));
    }
}

pub proof fn lemma_pow2_64()
    ensures
        pow2(64) == 0x1_0000_0000_0000_0000nat,
{
    reveal_with_fuel(pow2, 9);
    assert(pow2(8) == 256);
    assert(pow2(16) == 65536) by {
        lemma_pow2_add(8, 8);
    }
    assert(pow2(32) == 0x1_0000_0000nat) by {
        lemma_pow2_add(16, 16);
    }
    lemma_pow2_add(32, 32);
}

pub proof fn lemma_pow2_mono(a: nat, b: nat)
    requires
        a <= b,
    ensures
        1 <= pow2(a) <= pow2(b),
    decreases b,
{
    if b > 0 {
        if a < b {
            lemma_pow2_mono(a, (b - 1) as nat);
        } else {
            lemma_pow2_mono((a - 1) as nat, (b - 1) as nat);
        }
    }
}

/// `10^e` for a small `e`.
pub fn pow10_exec(e: u32) -> (r: u64)
    requires
        e <= 18,
    ensures
        r as nat == pow10(e as nat),
{
    let mut r: u64 = 1;
    let mut i: u32 = 0;
    while i < e
        invariant
            i <= e <= 18,
            r as nat == pow10(i as nat),
        decreases e - i,
    {
        proof {
            lemma_pow10_mono((i + 1) as nat, 18);
            reveal_with_fuel(pow10, 19);
            assert(pow10(18) == 1000000000000000000nat);
        }
        r = r * 10;
        i += 1;
    }
    r
}

/// `2^e - 1`, the largest raw value of `e` bits.
pub fn max_raw(e: u8) -> (r: u64)
    requires
        e <= 64,
    ensures
        r as nat == pow2(e as nat) - 1,
{
    let mut r: u64 = 0;
    let mut i: u8 = 0;
    while i < e
        invariant
            i <= e <= 64,
            r as nat == pow2(i as nat) - 1,
        decreases e - i,
    {
        proof {
            lemma_pow2_mono((i + 1) as nat, 64);
            lemma_pow2_64();
        }
        r = r * 2 + 1;
        i += 1;
    }
    r
}

} // verus!
