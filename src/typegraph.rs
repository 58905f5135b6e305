//! The dependency graph of declared types, and their elaboration in dependency order.
use vstd::prelude::*;

use crate::decl::{AttributeDecl, TypeDecl};
use crate::descriptor::{
    array_shape, lemma_resolve_errors, name_index, resolve_type, spec_resolve,
};
use crate::elaborate::{
    elaborate_enum, elaborate_struct, entry_value, is_width, max_value, values_fit,
};
use crate::error::ConfigError;
use crate::flatten::{ref_below, types_wf};
use crate::order::deps_wf;
use crate::text::{chars_of, find_from, same_chars};
use crate::types::{NamedType, TypeRef};

verus! {

/// The first declaration named `n` at or after `i`, or -1.
pub open spec fn decl_index(decls: Seq<TypeDecl>, n: Seq<char>, i: int) -> int
    decreases decls.len() - i,
{
    if i < 0 || i >= decls.len() {
        -1
    } else if decls[i].spec_name() == n {
        i
    } else {
        decl_index(decls, n, i + 1)
    }
}

/// -2 for a descriptor that the grammar resolves in place, else the declaration
/// it depends on (-1 where none is named so).
pub open spec fn attr_dep(decls: Seq<TypeDecl>, t: Seq<char>) -> int {
    if spec_resolve(t, Seq::empty()) is Ok {
        -2
    } else {
        decl_index(decls, t, 0)
    }
}

/// The dependencies of the first `n` attributes, in order.
pub open spec fn struct_deps(decls: Seq<TypeDecl>, attrs: Seq<AttributeDecl>, n: int) -> Seq<usize>
    decreases n,
{
    if n <= 0 || n > attrs.len() {
        Seq::empty()
    } else {
        let d = attr_dep(decls, attrs[n - 1].ty@);
        if d >= 0 {
            struct_deps(decls, attrs, n - 1).push(d as usize)
        } else {
            struct_deps(decls, attrs, n - 1)
        }
    }
}

pub open spec fn decl_deps(decls: Seq<TypeDecl>, i: int) -> Seq<usize> {
    match decls[i] {
        TypeDecl::Enum(_) => Seq::empty(),
        TypeDecl::Struct(s) => struct_deps(decls, s.attributes@, s.attributes@.len() as int),
    }
}

/// The declarations `ord[0..ts.len()]` are elaborated as `ts`, each against the
/// names elaborated before it.
pub open spec fn elaborated_prefix(decls: Seq<TypeDecl>, ord: Seq<usize>, ts: Seq<NamedType>) -> bool {
    &&& ts.len() <= ord.len()
    &&& forall|q: int| 0 <= q < ord.len() ==> #[trigger] ord[q] < decls.len()
    &&& forall|q: int|
        0 <= q < ts.len() ==> elaborated_from(
            decls[ord[q] as int],
            #[trigger] ts[q],
            type_names(ts.subrange(0, q)),
        )
}

/// Every type that declaration `d` depends on stands in `ord` before `p`.
pub open spec fn deps_before(decls: Seq<TypeDecl>, ord: Seq<usize>, d: int, p: int) -> bool {
    forall|x: usize| #[trigger] decl_deps(decls, d).contains(x) ==> exists|q: int| 0 <= q < p && ord[q] == x
}

/// Some attribute of struct declaration `d` fails with `e` against `names`.
pub open spec fn struct_attr_fails(d: TypeDecl, names: Seq<String>, e: ConfigError) -> bool {
    &&& d is Struct
    &&& exists|k: int|
        0 <= k < d->Struct_0.attributes@.len() && #[trigger] spec_resolve(d->Struct_0.attributes@[k].ty@, names)
            == Err::<TypeRef, ConfigError>(e)
}

/// Elaborating in a dependency-first order, a struct whose dependencies are all
/// elaborated has an attribute that fails with `e` against the names elaborated
/// before it.
pub open spec fn attribute_fails(decls: Seq<TypeDecl>, e: ConfigError) -> bool {
    exists|ord: Seq<usize>, ts: Seq<NamedType>|
        #[trigger] elaborated_prefix(decls, ord, ts) && ord.len() == ts.len() + 1 && deps_before(
            decls,
            ord,
            ord.last() as int,
            ts.len() as int,
        ) && struct_attr_fails(decls[ord.last() as int], type_names(ts), e)
}

/// Some declared enum has an implicit value past `u64::MAX`.
pub open spec fn enum_overflows(decls: Seq<TypeDecl>) -> bool {
    exists|i: int| 0 <= i < decls.len() && (#[trigger] decls[i]) is Enum && !values_fit(decls[i]->Enum_0.entries@)
}

/// The declared types depend on one another in a cycle: each type of `w`
/// refers by name to the next, and the last to the first.
pub open spec fn decl_cycle(decls: Seq<TypeDecl>, w: Seq<usize>) -> bool {
    &&& w.len() > 0
    &&& forall|i: int| 0 <= i < w.len() ==> w[i] < decls.len()
    &&& forall|i: int| 0 <= i < w.len() - 1 ==> decl_deps(decls, w[i] as int).contains(#[trigger] w[i + 1])
    &&& decl_deps(decls, w.last() as int).contains(w[0])
}

/// Some attribute of some struct names a type that is declared nowhere.
pub open spec fn has_undefined(decls: Seq<TypeDecl>) -> bool {
    exists|i: int, k: int|
        0 <= i < decls.len() && (decls[i] matches TypeDecl::Struct(s)) && 0 <= k
            < decls[i]->Struct_0.attributes@.len() && attr_dep(
            decls,
            #[trigger] decls[i]->Struct_0.attributes@[k].ty@,
        ) == -1
}

proof fn lemma_decl_index_bounds(decls: Seq<TypeDecl>, n: Seq<char>, i: int)
    requires
        0 <= i,
    ensures
        decl_index(decls, n, i) == -1 || i <= decl_index(decls, n, i) < decls.len(),
    decreases decls.len() - i,
{
    if i < decls.len() && decls[i].spec_name() != n {
        lemma_decl_index_bounds(decls, n, i + 1);
    }
}

fn find_decl(decls: &Vec<TypeDecl>, n: &Vec<char>) -> (r: Option<usize>)
    ensures
        match r {
            Some(i) => decl_index(decls@, n@, 0) == i && i < decls@.len(),
            None => decl_index(decls@, n@, 0) == -1,
        },
{
    proof {
        lemma_decl_index_bounds(decls@, n@, 0);
    }
    let mut i: usize = 0;
    while i < decls.len()
        invariant
            i <= decls@.len(),
            decl_index(decls@, n@, 0) == decl_index(decls@, n@, i as int),
            decl_index(decls@, n@, 0) == -1 || decl_index(decls@, n@, 0) < decls@.len(),
        decreases decls@.len() - i,
    {
        let name = chars_of(decls[i].name().as_str());
        if same_chars(&name, n) {
            return Some(i);
        }
        i += 1;
    }
    None
}

/// The declaration an attribute descriptor depends on (`Some(None)` for one the
/// grammar resolves in place, `None` for one that names no declared type).
fn attribute_dependency(decls: &Vec<TypeDecl>, t: &String) -> (r: Option<Option<usize>>)
    ensures
        match r {
            Some(None) => attr_dep(decls@, t@) == -2,
            Some(Some(j)) => attr_dep(decls@, t@) == j as int && j < decls@.len(),
            None => attr_dep(decls@, t@) == -1,
        },
{
    let empty: Vec<String> = Vec::new();
    assert(empty@ =~= Seq::<String>::empty());
    if resolve_type(&empty, t.as_str()).is_ok() {
        return Some(None);
    }
    let s = chars_of(t.as_str());
    match find_decl(decls, &s) {
        Some(j) => Some(Some(j)),
        None => None,
    }
}

/// Attribute `k` of declaration `i` names no declared type.
pub open spec fn undefined_at(decls: Seq<TypeDecl>, i: int, k: int) -> bool {
    &&& 0 <= i < decls.len()
    &&& decls[i] is Struct
    &&& 0 <= k < decls[i]->Struct_0.attributes@.len()
    &&& attr_dep(decls, decls[i]->Struct_0.attributes@[k].ty@) == -1
}

/// The dependency graph of the declared types: entry `i` lists, in attribute
/// order, the declarations that struct `i` refers to by name.
pub fn type_dependencies(decls: &Vec<TypeDecl>) -> (r: Result<Vec<Vec<usize>>, ConfigError>)
    ensures
        r is Ok <==> !has_undefined(decls@),
        r matches Ok(deps) ==> deps@.len() == decls@.len() && deps_wf(deps@) && forall|i: int|
            0 <= i < decls@.len() ==> #[trigger] deps@[i]@ == decl_deps(decls@, i),
        r matches Err(e) ==> e matches ConfigError::UndefinedType { decl, attribute } && undefined_at(
            decls@,
            decl as int,
            attribute as int,
        ) && forall|i: int, k: int|
            (i < decl || (i == decl && k < attribute)) ==> !#[trigger] undefined_at(decls@, i, k),
{
    let mut deps: Vec<Vec<usize>> = Vec::new();
    let mut i: usize = 0;
    while i < decls.len()
        invariant
            i <= decls@.len(),
            deps@.len() == i,
            forall|m: int, k: int|
                0 <= m < i && 0 <= k < deps@[m]@.len() ==> #[trigger] deps@[m]@[k] < decls@.len(),
            forall|m: int| 0 <= m < i ==> #[trigger] deps@[m]@ == decl_deps(decls@, m),
            forall|m: int, k: int|
                0 <= m < i && (decls@[m] matches TypeDecl::Struct(s)) && 0 <= k
                    < decls@[m]->Struct_0.attributes@.len() ==> attr_dep(
                    decls@,
                    #[trigger] decls@[m]->Struct_0.attributes@[k].ty@,
                ) != -1,
        decreases decls@.len() - i,
    {
        let mut list: Vec<usize> = Vec::new();
        match &decls[i] {
            TypeDecl::Enum(_) => {},
            TypeDecl::Struct(s) => {
                let mut k: usize = 0;
                while k < s.attributes.len()
                    invariant
                        i < decls@.len(),
                        decls@[i as int] == TypeDecl::Struct(*s),
                        forall|m: int, k2: int|
                            0 <= m < i && (decls@[m] matches TypeDecl::Struct(s2)) && 0 <= k2
                                < decls@[m]->Struct_0.attributes@.len() ==> attr_dep(
                                decls@,
                                #[trigger] decls@[m]->Struct_0.attributes@[k2].ty@,
                            ) != -1,
                        k <= s.attributes@.len(),
                        list@ == struct_deps(decls@, s.attributes@, k as int),
                        forall|x: int| 0 <= x < list@.len() ==> list@[x] < decls@.len(),
                        forall|x: int|
                            0 <= x < k ==> attr_dep(decls@, #[trigger] s.attributes@[x].ty@) != -1,
                    decreases s.attributes@.len() - k,
                {
                    match attribute_dependency(decls, &s.attributes[k].ty) {
                        Some(None) => {},
                        Some(Some(j)) => {
                            list.push(j);
                        },
                        None => {
                            proof {
                                assert(decls@[i as int]->Struct_0.attributes@[k as int] == s.attributes@[k as int]);
                                let t = decls@[i as int]->Struct_0.attributes@[k as int].ty@;
                                assert(attr_dep(decls@, t) == -1);
                                assert(has_undefined(decls@));
                                assert(undefined_at(decls@, i as int, k as int));
                                assert forall|i2: int, k2: int|
                                    (i2 < i || (i2 == i && k2 < k)) implies !#[trigger] undefined_at(decls@, i2, k2) by {
                                    if undefined_at(decls@, i2, k2) {
                                        if i2 < i {
                                            assert(attr_dep(decls@, decls@[i2]->Struct_0.attributes@[k2].ty@) != -1);
                                        } else {
                                            assert(decls@[i2]->Struct_0.attributes@[k2] == s.attributes@[k2]);
                                        }
                                    }
                                }
                            }
                            return Err(ConfigError::UndefinedType { decl: i, attribute: k });
                        },
                    }
                    k += 1;
                }
            },
        }
        deps.push(list);
        i += 1;
    }
    proof {
        assert(!has_undefined(decls@)) by {
            if has_undefined(decls@) {
                let (m, k) = choose|m: int, k: int|
                    0 <= m < decls@.len() && (decls@[m] matches TypeDecl::Struct(s)) && 0 <= k
                        < decls@[m]->Struct_0.attributes@.len() && attr_dep(
                        decls@,
                        #[trigger] decls@[m]->Struct_0.attributes@[k].ty@,
                    ) == -1;
                assert(attr_dep(decls@, decls@[m]->Struct_0.attributes@[k].ty@) != -1);
            }
        }
    }
    Ok(deps)
}

pub open spec fn type_name_of(t: NamedType) -> String {
    t.spec_name_string()
}

/// The names of elaborated types, in order.
pub open spec fn type_names(types: Seq<NamedType>) -> Seq<String> {
    types.map_values(|t: NamedType| type_name_of(t))
}

proof fn lemma_name_index_bounds(names: Seq<String>, s: Seq<char>, i: int)
    requires
        0 <= i,
    ensures
        name_index(names, s, i) == -1 || i <= name_index(names, s, i) < names.len(),
    decreases names.len() - i,
{
    if i < names.len() && names[i]@ != s {
        lemma_name_index_bounds(names, s, i + 1);
    }
}

/// A resolved descriptor refers only to types elaborated so far.
pub proof fn lemma_resolve_below(s: Seq<char>, names: Seq<String>)
    ensures
        spec_resolve(s, names) matches Ok(t) ==> ref_below(t, names.len() as int),
{
    lemma_name_index_bounds(names, s, 0);
    if array_shape(s) {
        let lb = find_from(s, '[', 0);
        lemma_name_index_bounds(names, s.subrange(0, lb), 0);
    }
}

/// `t` is the elaboration of `d` against the names elaborated before it: same
/// name; an enum keeps its entries with their values and the width of the
/// largest; a struct's attributes are resolved in order.
#[verifier::opaque]
pub open spec fn elaborated_from(d: TypeDecl, t: NamedType, names: Seq<String>) -> bool {
    &&& t.spec_name() == d.spec_name()
    &&& match (t, d) {
        (NamedType::Struct { attributes, .. }, TypeDecl::Struct(s)) => attributes@.len()
            == s.attributes@.len() && forall|k: int|
            0 <= k < attributes@.len() ==> (#[trigger] attributes@[k]).name@ == s.attributes@[k].name@
                && Ok::<TypeRef, ConfigError>(attributes@[k].ty) == spec_resolve(
                s.attributes@[k].ty@,
                names,
            ),
        (NamedType::Enum { bits, entries, .. }, TypeDecl::Enum(e)) => entries@.len()
            == e.entries@.len() && (forall|i: int|
            0 <= i < entries@.len() ==> (#[trigger] entries@[i]).name@ == e.entries@[i].name@
                && entries@[i].value as int == entry_value(e.entries@, i)) && is_width(
            bits as nat,
            max_value(e.entries@, e.entries@.len() as int) as nat,
        ),
        _ => false,
    }
}

/// Every elaborated type comes from a declaration, and every declaration is
/// elaborated, each against the types elaborated before it.
pub open spec fn elaborates(decls: Seq<TypeDecl>, types: Seq<NamedType>) -> bool {
    &&& forall|p: int| 0 <= p < types.len() ==> #[trigger] from_some_decl(decls, types, p)
    &&& forall|d: int| 0 <= d < decls.len() ==> #[trigger] elaborated_somewhere(decls, types, d)
}

/// Type `p` is the elaboration of some declaration.
pub open spec fn from_some_decl(decls: Seq<TypeDecl>, types: Seq<NamedType>, p: int) -> bool {
    exists|d: int|
        0 <= d < decls.len() && elaborated_from(
            #[trigger] decls[d],
            types[p],
            type_names(types.subrange(0, p)),
        )
}

/// Declaration `d` is elaborated at some position.
pub open spec fn elaborated_somewhere(decls: Seq<TypeDecl>, types: Seq<NamedType>, d: int) -> bool {
    exists|p: int|
        0 <= p < types.len() && elaborated_from(
            decls[d],
            #[trigger] types[p],
            type_names(types.subrange(0, p)),
        )
}

/// Elaborating along an order that covers every declaration elaborates them all.
pub proof fn lemma_elaborates(decls: Seq<TypeDecl>, types: Seq<NamedType>, order: Seq<usize>)
    requires
        types.len() == order.len(),
        decls.len() <= usize::MAX,
        forall|p: int| 0 <= p < order.len() ==> order[p] < decls.len(),
        forall|d: int| 0 <= d < decls.len() ==> order.contains(#[trigger] (d as usize)),
        forall|p: int|
            0 <= p < types.len() ==> elaborated_from(
                decls[order[p] as int],
                #[trigger] types[p],
                type_names(types.subrange(0, p)),
            ),
    ensures
        elaborates(decls, types),
{
    assert forall|p: int| 0 <= p < types.len() implies #[trigger] from_some_decl(decls, types, p) by {
        assert(elaborated_from(decls[order[p] as int], types[p], type_names(types.subrange(0, p))));
    }
    assert forall|d: int| 0 <= d < decls.len() implies #[trigger] elaborated_somewhere(decls, types, d) by {
        assert(order.contains(d as usize));
        let p = choose|p: int| 0 <= p < order.len() && order[p] == d as usize;
        assert(order[p] as int == d);
        assert(elaborated_from(decls[order[p] as int], types[p], type_names(types.subrange(0, p))));
    }
}

/// Elaborates the declarations in the given order (`order[p]` is the declaration
/// elaborated at position `p`); each struct attribute is resolved against the
/// types elaborated before it.
pub fn elaborate_types(decls: &Vec<TypeDecl>, order: &Vec<usize>) -> (r: Result<
    Vec<NamedType>,
    ConfigError,
>)
    requires
        forall|p: int| 0 <= p < order@.len() ==> order@[p] < decls@.len(),
        forall|p: int| 0 <= p < order@.len() ==> #[trigger] deps_before(decls@, order@, order@[p] as int, p),
    ensures
        r matches Ok(types) ==> types@.len() == order@.len() && types_wf(types@) && forall|p: int|
            0 <= p < types@.len() ==> elaborated_from(decls@[order@[p] as int], #[trigger] types@[p], type_names(types@.subrange(0, p))),
        r matches Err(e) ==> (e == ConfigError::EnumValueOverflow && enum_overflows(decls@)) || ((e
            == ConfigError::InvalidType || e == ConfigError::InvalidRange) && attribute_fails(decls@, e)),
{
    let mut types: Vec<NamedType> = Vec::new();
    let mut names: Vec<String> = Vec::new();
    let mut p: usize = 0;
    while p < order.len()
        invariant
            forall|q: int| 0 <= q < order@.len() ==> order@[q] < decls@.len(),
            forall|q: int| 0 <= q < order@.len() ==> #[trigger] deps_before(decls@, order@, order@[q] as int, q),
            p <= order@.len(),
            types@.len() == p,
            names@ == type_names(types@),
            types_wf(types@),
            forall|q: int|
                0 <= q < p ==> elaborated_from(decls@[order@[q] as int], #[trigger] types@[q], type_names(types@.subrange(0, q))),
        decreases order@.len() - p,
    {
        let t = match &decls[order[p]] {
            TypeDecl::Enum(e) => elaborate_enum(e),
            TypeDecl::Struct(st) => elaborate_struct(st, &names),
        };
        let t = match t {
            Ok(t) => t,
            Err(e) => {
                proof {
                    let di = order@[p as int] as int;
                    if decls@[di] is Struct {
                        let d = decls@[di]->Struct_0;
                        let k = choose|k: int|
                            0 <= k < d.attributes@.len() && spec_resolve(d.attributes@[k].ty@, names@)
                                == Err::<TypeRef, ConfigError>(e);
                        lemma_resolve_errors(d.attributes@[k].ty@, names@);
                        let ord = order@.subrange(0, p as int + 1);
                        let ts = types@;
                        assert(ord.last() == order@[p as int]);
                        assert(deps_before(decls@, order@, order@[p as int] as int, p as int));
                        assert forall|x: usize| #[trigger] decl_deps(decls@, ord.last() as int).contains(x) implies exists|q: int|
                            0 <= q < ts.len() && ord[q] == x by {
                            let q = choose|q: int| 0 <= q < p && order@[q] == x;
                            assert(ord[q] == x);
                        }
                        assert forall|q: int| 0 <= q < ts.len() implies elaborated_from(
                            decls@[ord[q] as int],
                            #[trigger] ts[q],
                            type_names(ts.subrange(0, q)),
                        ) by {
                            assert(ord[q] == order@[q]);
                        }
                        assert(elaborated_prefix(decls@, ord, ts));
                        assert(struct_attr_fails(decls@[ord.last() as int], type_names(ts), e));
                        assert(attribute_fails(decls@, e));
                    } else {
                        assert(!values_fit(decls@[di]->Enum_0.entries@));
                        assert(enum_overflows(decls@));
                    }
                }
                return Err(e);
            },
        };
        proof {
            reveal(elaborated_from);
            let d = decls@[order@[p as int] as int];
            if d is Enum {
                assert(t is Enum);
                let ed = d->Enum_0;
                let te = t->Enum_entries;
                assert forall|i: int| 0 <= i < te@.len() implies (#[trigger] te@[i]).name@ == ed.entries@[i].name@
                    && te@[i].value as int == entry_value(ed.entries@, i) by {}
                assert(elaborated_from(d, t, names@));
            } else {
                assert(t is Struct);
                let sd = d->Struct_0;
                let ta = t->Struct_attributes;
                assert(ta@.len() == sd.attributes@.len());
                assert forall|k: int| 0 <= k < ta@.len() implies (#[trigger] ta@[k]).name@ == sd.attributes@[k].name@
                    && Ok::<TypeRef, ConfigError>(ta@[k].ty) == spec_resolve(sd.attributes@[k].ty@, names@) by {}
                assert(elaborated_from(d, t, names@));
            }
        }
        let ghost before = types@;
        let ghost t_new = t;
        let name = t.name().clone();
        proof {
            if t is Struct {
                assert forall|k: int| 0 <= k < t->attributes@.len() implies ref_below(
                    t->attributes@[k].ty,
                    p as int,
                ) by {
                    if let TypeDecl::Struct(d) = decls@[order@[p as int] as int] {
                        lemma_resolve_below(d.attributes@[k].ty@, names@);
                    }
                }
            }
        }
        types.push(t);
        names.push(name);
        proof {
            assert(names@ =~= type_names(types@));
            assert(types@.subrange(0, p as int) =~= before);
            assert forall|q: int| 0 <= q < p implies types@.subrange(0, q) =~= before.subrange(0, q) by {}
            assert forall|i: int, k: int|
                0 <= i < types@.len() && (types@[i] matches NamedType::Struct { attributes, .. }) && 0 <= k
                    < types@[i]->attributes@.len() implies ref_below(
                #[trigger] types@[i]->attributes@[k].ty,
                i,
            ) by {
                if i < p {
                    assert(types@[i] == before[i]);
                }
            }
            assert forall|q: int|
                0 <= q < p + 1 implies elaborated_from(decls@[order@[q] as int], #[trigger] types@[q], type_names(types@.subrange(0, q))) by {
                if q < p {
                    assert(types@[q] == before[q]);
                    assert(types@.subrange(0, q) =~= before.subrange(0, q));
                } else {
                    assert(types@.subrange(0, q) =~= before);
                    assert(types@[q] == t_new);
                }
            }
        }
        p += 1;
    }
    Ok(types)
}

} // verus!
