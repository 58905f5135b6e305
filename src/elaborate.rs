//! Turning ordered declarations into elaborated types.
use vstd::prelude::*;

use crate::decl::{EnumDecl, EnumEntryDecl, StructDecl};
use crate::descriptor::{resolve_type, spec_resolve};
use crate::error::ConfigError;
use crate::types::{lemma_pow2_64, lemma_pow2_mono, pow2, Attribute, EnumEntry, NamedType, TypeRef};

verus! {

/// The value of entry `i`: its explicit value, or the previous entry's value plus
/// one (zero for the first entry).
pub open spec fn entry_value(entries: Seq<EnumEntryDecl>, i: int) -> int
    decreases i,
{
    if i < 0 || i >= entries.len() {
        0
    } else {
        match entries[i].value {
            Some(v) => v as int,
            None => if i == 0 {
                0
            } else {
                entry_value(entries, i - 1) + 1
            },
        }
    }
}

/// The largest value among the first `n` entries (zero for none).
pub open spec fn max_value(entries: Seq<EnumEntryDecl>, n: int) -> int
    decreases n,
{
    if n <= 0 {
        0
    } else {
        let m = max_value(entries, n - 1);
        let v = entry_value(entries, n - 1);
        if v > m {
            v
        } else {
            m
        }
    }
}

/// `w` is `ceil(log2(max + 1))`: the fewest bits that hold every value up to `max`.
pub open spec fn is_width(w: nat, max: nat) -> bool {
    max < pow2(w) && (w == 0 || pow2((w - 1) as nat) <= max)
}

pub open spec fn values_fit(entries: Seq<EnumEntryDecl>) -> bool {
    forall|i: int| 0 <= i < entries.len() ==> entry_value(entries, i) <= u64::MAX
}

/// The number of bits an enum whose largest value is `max` is encoded in.
pub fn enum_width(max: u64) -> (w: u8)
    ensures
        w <= 64,
        is_width(w as nat, max as nat),
{
    let mut w: u8 = 0;
    let mut p: u128 = 1;
    proof {
        lemma_pow2_64();
    }
    while (max as u128) >= p
        invariant
            w <= 64,
            p as nat == pow2(w as nat),
            w == 0 || pow2((w - 1) as nat) <= max,
            pow2(64) == 0x1_0000_0000_0000_0000nat,
        decreases 64 - w,
    {
        proof {
            if w >= 64 {
                lemma_pow2_mono(64, w as nat);
            }
        }
        p = p * 2;
        w = w + 1;
    }
    w
}

/// Elaborates an enum: entry values in declaration order and the bit width of the
/// largest one. Fails where an implicit value would pass `u64::MAX`.
pub fn elaborate_enum(decl: &EnumDecl) -> (r: Result<NamedType, ConfigError>)
    ensures
        r is Ok <==> values_fit(decl.entries@),
        r matches Ok(t) ==> (t matches NamedType::Enum { name, bits, entries } && name@
            == decl.name@ && entries@.len() == decl.entries@.len() && (forall|i: int|
            0 <= i < entries@.len() ==> (#[trigger] entries@[i]).name@ == decl.entries@[i].name@
                && entries@[i].value as int == entry_value(decl.entries@, i)) && is_width(
            bits as nat,
            max_value(decl.entries@, decl.entries@.len() as int) as nat,
        )),
        r matches Err(e) ==> e == ConfigError::EnumValueOverflow,
{
    let ghost ds = decl.entries@;
    let mut entries: Vec<EnumEntry> = Vec::new();
    let mut max: u64 = 0;
    let mut prev: u64 = 0;
    let mut i: usize = 0;
    while i < decl.entries.len()
        invariant
            ds == decl.entries@,
            i <= ds.len(),
            entries@.len() == i,
            forall|k: int|
                0 <= k < i ==> (#[trigger] entries@[k]).name@ == ds[k].name@ && entries@[k].value as int
                    == entry_value(ds, k),
            forall|k: int| 0 <= k < i ==> entry_value(ds, k) <= u64::MAX,
            i > 0 ==> prev as int == entry_value(ds, i - 1),
            max as int == max_value(ds, i as int),
            0 <= max_value(ds, i as int),
        decreases ds.len() - i,
    {
        let e = &decl.entries[i];
        let v: u64 = match e.value {
            Some(v) => v,
            None => {
                if i == 0 {
                    0
                } else if prev == u64::MAX {
                    proof {
                        assert(entry_value(ds, i as int) > u64::MAX);
                    }
                    return Err(ConfigError::EnumValueOverflow);
                } else {
                    prev + 1
                }
            },
        };
        assert(entry_value(ds, i as int) == v as int);
        let name = e.name.clone();
        let ghost before = entries@;
        entries.push(EnumEntry { name, value: v });
        assert forall|k: int| 0 <= k < i + 1 implies entries@[k].name@ == ds[k].name@
            && entries@[k].value as int == entry_value(ds, k) by {
            if k < i {
                assert(entries@[k] == before[k]);
                assert(before[k].name@ == ds[k].name@);
            } else {
                assert(entries@[k].name == ds[k].name);
            }
        }
        if v > max {
            max = v;
        }
        prev = v;
        i += 1;
    }
    let bits = enum_width(max);
    let name = decl.name.clone();
    Ok(NamedType::Enum { name, bits, entries })
}

/// Elaborates a struct: each attribute's descriptor resolved against the names of
/// the types elaborated before it, in declaration order.
pub fn elaborate_struct(decl: &StructDecl, names: &Vec<String>) -> (r: Result<
    NamedType,
    ConfigError,
>)
    ensures
        r is Ok <==> forall|i: int|
            0 <= i < decl.attributes@.len() ==> spec_resolve(decl.attributes@[i].ty@, names@) is Ok,
        r matches Ok(t) ==> (t matches NamedType::Struct { name, attributes } && name@
            == decl.name@ && attributes@.len() == decl.attributes@.len() && forall|i: int|
            0 <= i < attributes@.len() ==> attributes@[i].name@ == decl.attributes@[i].name@ && Ok::<
                TypeRef,
                ConfigError,
            >(attributes@[i].ty) == spec_resolve(decl.attributes@[i].ty@, names@)),
        r matches Err(e) ==> exists|i: int|
            0 <= i < decl.attributes@.len() && spec_resolve(decl.attributes@[i].ty@, names@) == Err::<
                TypeRef,
                ConfigError,
            >(e),
{
    let ghost ds = decl.attributes@;
    let mut attributes: Vec<Attribute> = Vec::new();
    let mut i: usize = 0;
    while i < decl.attributes.len()
        invariant
            ds == decl.attributes@,
            i <= ds.len(),
            attributes@.len() == i,
            forall|k: int|
                0 <= k < i ==> attributes@[k].name@ == ds[k].name@ && Ok::<TypeRef, ConfigError>(
                    attributes@[k].ty,
                ) == spec_resolve(ds[k].ty@, names@),
        decreases ds.len() - i,
    {
        let a = &decl.attributes[i];
        let ty = match resolve_type(names, a.ty.as_str()) {
            Ok(t) => t,
            Err(e) => return Err(e),
        };
        let name = a.name.clone();
        attributes.push(Attribute { name, ty });
        i += 1;
    }
    let name = decl.name.clone();
    Ok(NamedType::Struct { name, attributes })
}

} // verus!
