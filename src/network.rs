//! The compiled network model and its assembly from the builder's declarations.
use vstd::prelude::*;

use crate::builder::{NetworkBuilder, NetworkData};
use crate::decl::{Access, BusDecl, MessageDecl, MessageIdTemplate, NodeDecl, TypeDecl};
use crate::descriptor::{lemma_resolve_errors, resolve_type, spec_resolve};
use crate::error::ConfigError;
use crate::flatten::{contiguous, end_offset, formats, types_wf, Signal};
use crate::link::{explicit_clash, space_full, explicit_id, mapped_at, resolve_buses, resolve_ids, rx_mapping, spec_bus};
use crate::message::{names_prefixed, byte_len, compile_signals, dlc_of, format_flat, FieldEncoding, MessageId};
use crate::order::topo_order;
use crate::typegraph::{
    attribute_fails,
    deps_before,
    decl_cycle,
    decl_deps,
    elaborate_types,
    elaborates,
    enum_overflows,
    has_undefined,
    lemma_resolve_below,
    type_dependencies,
    type_names,
    undefined_at,
};
use crate::types::{Elem, NamedType, TypeRef};

verus! {

/// The network baud rate when none is declared.
pub const DEFAULT_BAUDRATE: u32 = 1_000_000;

/// The interval of a free-running message that declares none, in milliseconds.
pub const DEFAULT_INTERVAL_MS: u64 = 60_000;

#[derive(Debug, Clone)]
pub struct Bus {
    pub id: usize,
    pub name: String,
    pub baudrate: u32,
}

/// The one role a compiled message plays.
#[derive(Debug, Clone, Copy, PartialEq, Eq, Structural)]
pub enum MessageUsage {
    GetReq,
    GetResp,
    SetReq,
    SetResp,
    CommandRequest { node: usize, command: usize },
    CommandResponse { node: usize, command: usize },
    Stream { node: usize, stream: usize },
    External { interval_ms: u64 },
}

#[derive(Debug)]
pub struct Message {
    pub name: String,
    pub description: Option<String>,
    pub id: MessageId,
    /// Payload length in bytes.
    pub dlc: u64,
    /// The field encodings of a typed message format (empty otherwise).
    pub fields: Vec<FieldEncoding>,
    pub signals: Vec<Signal>,
    /// Index of the bus in the network's buses.
    pub bus: usize,
    pub usage: MessageUsage,
}

#[derive(Debug)]
pub struct ObjectEntry {
    pub name: String,
    pub description: Option<String>,
    pub unit: Option<String>,
    /// Sequential id within the owning node.
    pub id: usize,
    pub ty: TypeRef,
    pub access: Access,
    /// Index of the owning node.
    pub node: usize,
}

#[derive(Debug)]
pub struct Command {
    pub name: String,
    pub description: Option<String>,
    pub request: usize,
    pub response: usize,
}

/// A positional mapping of object entries (of the owning node) onto a message.
#[derive(Debug)]
pub struct Stream {
    pub name: String,
    pub description: Option<String>,
    pub mapping: Vec<Option<usize>>,
    pub message: usize,
}

#[derive(Debug)]
pub struct Node {
    pub name: String,
    pub description: Option<String>,
    pub id: usize,
    /// The types the node refers to, dependencies first.
    pub types: Vec<usize>,
    pub commands: Vec<Command>,
    /// Commands of other nodes this node calls: (owning node, command index).
    pub extern_commands: Vec<(usize, usize)>,
    pub tx_streams: Vec<Stream>,
    pub rx_streams: Vec<Stream>,
    pub rx_messages: Vec<usize>,
    pub tx_messages: Vec<usize>,
    pub object_entries: Vec<ObjectEntry>,
    pub buses: Vec<usize>,
}

#[derive(Debug)]
pub struct Network {
    pub baudrate: u32,
    /// When the network was compiled, in milliseconds since the Unix epoch.
    pub timestamp_ms: i64,
    pub nodes: Vec<Node>,
    pub messages: Vec<Message>,
    pub types: Vec<NamedType>,
    pub get_req_message: usize,
    pub get_resp_message: usize,
    pub set_req_message: usize,
    pub set_resp_message: usize,
    pub buses: Vec<Bus>,
}

/// Message `m` is given a role by the protocol, a command or a tx stream.
pub open spec fn claimed(data: NetworkData, m: int) -> bool {
    ||| m == data.get_req_message
    ||| m == data.get_resp_message
    ||| m == data.set_req_message
    ||| m == data.set_resp_message
    ||| exists|i: int, c: int|
        0 <= i < data.nodes@.len() && 0 <= c < data.nodes@[i].commands@.len() && (
        #[trigger] data.nodes@[i].commands@[c].request == m || data.nodes@[i].commands@[c].response
            == m)
    ||| exists|i: int, s: int|
        0 <= i < data.nodes@.len() && 0 <= s < data.nodes@[i].tx_streams@.len()
            && #[trigger] data.nodes@[i].tx_streams@[s].message == m
}

/// The role of a message that nothing else claims.
pub open spec fn external_usage(decl: MessageDecl) -> MessageUsage {
    MessageUsage::External {
        interval_ms: match decl.expected_interval_ms {
            Some(i) => i,
            None => DEFAULT_INTERVAL_MS,
        },
    }
}

/// The declared buses, each with its own baud rate or the network's; or a single
/// bus `can0` where none is declared.
pub open spec fn buses_from(decls: Seq<BusDecl>, baudrate: u32, r: Seq<Bus>) -> bool {
    &&& decls.len() == 0 ==> r.len() == 1 && r[0].id == 0 && r[0].name@ == "can0"@ && r[0].baudrate
        == baudrate
    &&& decls.len() > 0 ==> r.len() == decls.len() && forall|b: int|
        0 <= b < r.len() ==> (#[trigger] r[b]).id == b && r[b].name == decls[b].name && r[b].baudrate
            == match decls[b].baudrate {
            Some(rate) => rate,
            None => baudrate,
        }
}

/// The compiled buses: the declared ones, or a single default bus where none is.
fn compile_buses(decls: &Vec<BusDecl>, baudrate: u32) -> (r: Vec<Bus>)
    ensures
        buses_from(decls@, baudrate, r@),
{
    let mut r: Vec<Bus> = Vec::new();
    if decls.len() == 0 {
        r.push(Bus { id: 0, name: String::from_str("can0"), baudrate });
        proof {
            reveal_strlit("can0");
        }
        return r;
    }
    let mut b: usize = 0;
    while b < decls.len()
        invariant
            b <= decls@.len(),
            r@.len() == b,
            decls@.len() > 0,
            forall|x: int|
                0 <= x < b ==> (#[trigger] r@[x]).id == x && r@[x].name == decls@[x].name
                    && r@[x].baudrate == match decls@[x].baudrate {
                    Some(rate) => rate,
                    None => baudrate,
                },
        decreases decls@.len() - b,
    {
        let rate = match decls[b].baudrate {
            Some(rate) => rate,
            None => baudrate,
        };
        let name = decls[b].name.clone();
        r.push(Bus { id: b, name, baudrate: rate });
        b += 1;
    }
    r
}

/// The elaborated types, dependencies first, and their names.
fn compile_types(data: &NetworkData) -> (r: Result<(Vec<NamedType>, Vec<String>), ConfigError>)
    ensures
        r matches Ok((types, names)) ==> types_wf(types@) && names@ == type_names(types@)
            && elaborates(data.types@, types@),
        r matches Err(e) ==> types_failure(data.types@, e),
{
    let deps = match type_dependencies(&data.types) {
        Ok(d) => d,
        Err(e) => return Err(e),
    };
    let order = match topo_order(&deps) {
        Ok(o) => o,
        Err(e) => {
            proof {
                let w = choose|w: Seq<usize>| crate::order::is_cycle(deps@, w);
                assert forall|i: int| 0 <= i < w.len() - 1 implies decl_deps(data.types@, w[i] as int).contains(
                    #[trigger] w[i + 1],
                ) by {
                    assert(deps@[w[i] as int]@ == decl_deps(data.types@, w[i] as int));
                }
                assert(deps@[w.last() as int]@ == decl_deps(data.types@, w.last() as int));
                assert(decl_cycle(data.types@, w));
            }
            return Err(e);
        },
    };
    proof {
        assert forall|p: int| 0 <= p < order@.len() implies #[trigger] deps_before(
            data.types@,
            order@,
            order@[p] as int,
            p,
        ) by {
            assert forall|x: usize| #[trigger] decl_deps(data.types@, order@[p] as int).contains(x) implies exists|q: int|
                0 <= q < p && order@[q] == x by {
                let dp = deps@[order@[p] as int]@;
                assert(dp == decl_deps(data.types@, order@[p] as int));
                let k = choose|k: int| 0 <= k < dp.len() && dp[k] == x;
                assert(crate::order::before(order@, deps@[order@[p] as int]@[k], p));
            }
        }
    }
    let types = match elaborate_types(&data.types, &order) {
        Ok(t) => t,
        Err(e) => return Err(e),
    };
    let n_decls = data.types.len();
    proof {
        assert forall|d: int| 0 <= d < data.types@.len() implies order@.contains(#[trigger] (d as usize)) by {}
        crate::typegraph::lemma_elaborates(data.types@, types@, order@);
    }
    let mut names: Vec<String> = Vec::new();
    let mut p: usize = 0;
    while p < types.len()
        invariant
            p <= types@.len(),
            names@ == type_names(types@.subrange(0, p as int)),
        decreases types@.len() - p,
    {
        let name = types[p].name().clone();
        names.push(name);
        p += 1;
        assert(names@ =~= type_names(types@.subrange(0, p as int)));
    }
    assert(types@.subrange(0, p as int) =~= types@);
    Ok((types, names))
}

/// Some typed field's descriptor fails to resolve with `e` against `names`.
pub open spec fn bad_field(format: crate::decl::MessageFormat, names: Seq<String>, e: ConfigError) -> bool {
    &&& format is Types
    &&& exists|k: int|
        0 <= k < format->Types_0@.len() && #[trigger] spec_resolve(format->Types_0@[k].ty@, names)
            == Err::<TypeRef, ConfigError>(e)
}

/// Some object entry's descriptor fails to resolve with `e` against `names`.
pub open spec fn bad_entry(nd: NodeDecl, names: Seq<String>, e: ConfigError) -> bool {
    exists|k: int|
        0 <= k < nd.object_entries@.len() && #[trigger] spec_resolve(nd.object_entries@[k].ty@, names)
            == Err::<TypeRef, ConfigError>(e)
}

/// With the declared types elaborated as `ts`, some typed field or object entry
/// fails to resolve with `e` against their names.
pub open spec fn use_fails(data: NetworkData, ts: Seq<NamedType>, e: ConfigError) -> bool {
    ||| exists|m: int|
        0 <= m < data.messages@.len() && bad_field((#[trigger] data.messages@[m]).format, type_names(ts), e)
    ||| exists|i: int| 0 <= i < data.nodes@.len() && bad_entry(#[trigger] data.nodes@[i], type_names(ts), e)
}

/// With the declared types elaborated as `ts`, some message's format lays out
/// more bits than the largest offset.
pub open spec fn payload_overflows(data: NetworkData, ts: Seq<NamedType>) -> bool {
    exists|m: int|
        0 <= m < data.messages@.len() && crate::flatten::total_bits(
            format_flat(ts, (#[trigger] data.messages@[m]).format),
        ) > u64::MAX
}

/// The declared identifiers of the messages.
pub open spec fn templates_of(data: NetworkData) -> Seq<MessageIdTemplate> {
    data.messages@.map_values(|d: MessageDecl| d.id)
}

/// `b` is the bus each message is sent on.
pub open spec fn placed(data: NetworkData, b: Seq<usize>) -> bool {
    let nb: nat = if data.buses@.len() == 0 {
        1
    } else {
        data.buses@.len()
    };
    &&& b.len() == data.messages@.len()
    &&& forall|q: int| 0 <= q < b.len() ==> Some(#[trigger] b[q]) == spec_bus(data.messages@[q].bus, nb)
}

/// Why elaborating the declared types may fail.
pub open spec fn types_failure(decls: Seq<TypeDecl>, e: ConfigError) -> bool {
    ||| e matches ConfigError::UndefinedType { decl, attribute } && undefined_at(
        decls,
        decl as int,
        attribute as int,
    )
    ||| e == ConfigError::CyclicType && exists|w: Seq<usize>| decl_cycle(decls, w)
    ||| e == ConfigError::EnumValueOverflow && enum_overflows(decls)
    ||| (e == ConfigError::InvalidType || e == ConfigError::InvalidRange) && attribute_fails(decls, e)
}

/// Gives message `m` its role; a second role is refused.
fn claim(usages: &mut Vec<Option<MessageUsage>>, m: usize, u: MessageUsage) -> (r: Result<
    (),
    ConfigError,
>)
    requires
        m < old(usages)@.len(),
    ensures
        final(usages)@.len() == old(usages)@.len(),
        r is Ok <==> old(usages)@[m as int] is None,
        r is Ok ==> final(usages)@ == old(usages)@.update(m as int, Some(u)),
        r matches Err(e) ==> e == ConfigError::UsageConflict && final(usages)@ == old(usages)@,
{
    if usages[m].is_some() {
        return Err(ConfigError::UsageConflict);
    }
    usages.set(m, Some(u));
    Ok(())
}

/// The named type an element refers to, if any.
fn named_of(t: TypeRef) -> (r: Option<usize>)
    ensures
        r == match t {
            TypeRef::Single(Elem::Named(j)) => Some(j),
            TypeRef::Array { elem: Elem::Named(j), .. } => Some(j),
            _ => None::<usize>,
        },
{
    match t {
        TypeRef::Single(Elem::Named(j)) => Some(j),
        TypeRef::Array { elem: Elem::Named(j), .. } => Some(j),
        _ => None,
    }
}

pub open spec fn spec_named_of(t: TypeRef) -> Option<usize> {
    match t {
        TypeRef::Single(Elem::Named(j)) => Some(j),
        TypeRef::Array { elem: Elem::Named(j), .. } => Some(j),
        _ => None,
    }
}

/// Every type that a listed struct's attributes refer to is listed.
pub open spec fn closed(types: Seq<NamedType>, r: Seq<usize>) -> bool {
    forall|a: int, k: int|
        0 <= a < r.len() && (types[r[a] as int] matches NamedType::Struct { attributes, .. }) && 0 <= k
            < types[r[a] as int]->attributes@.len() && (#[trigger] spec_named_of(
            types[r[a] as int]->attributes@[k].ty,
        )) is Some ==> r.contains(spec_named_of(types[r[a] as int]->attributes@[k].ty)->0)
}

/// Marked structs have their attributes' types marked, from index `from` on.
pub open spec fn marks_closed(types: Seq<NamedType>, marks: Seq<bool>, from: int) -> bool {
    forall|j: int, k: int|
        from <= j < types.len() && marks[j] && (types[j] matches NamedType::Struct { attributes, .. })
            && 0 <= k < types[j]->attributes@.len() && (#[trigger] spec_named_of(
            types[j]->attributes@[k].ty,
        )) is Some ==> marks[spec_named_of(types[j]->attributes@[k].ty)->0 as int]
}

/// Type `t` is marked for a reason: it is a root, or a marked struct after it
/// has an attribute of that type.
pub open spec fn justified(types: Seq<NamedType>, roots: Seq<usize>, marks: Seq<bool>, t: int) -> bool {
    ||| roots.contains(t as usize)
    ||| exists|j: int, k: int|
        t < j < types.len() && marks[j] && types[j] is Struct && 0 <= k < types[j]->Struct_attributes@.len()
            && #[trigger] spec_named_of(types[j]->Struct_attributes@[k].ty) == Some(t as usize)
}

pub open spec fn all_justified(types: Seq<NamedType>, roots: Seq<usize>, marks: Seq<bool>) -> bool {
    forall|t: int| 0 <= t < marks.len() && marks[t] ==> #[trigger] justified(types, roots, marks, t)
}

/// Marking more keeps every mark justified that was.
proof fn lemma_justified_grow(types: Seq<NamedType>, roots: Seq<usize>, m1: Seq<bool>, m2: Seq<bool>, t: int)
    requires
        m1.len() == m2.len(),
        forall|y: int| 0 <= y < m1.len() && m1[y] ==> #[trigger] m2[y],
        m1.len() == types.len(),
        0 <= t,
        justified(types, roots, m1, t),
    ensures
        justified(types, roots, m2, t),
{
    if !roots.contains(t as usize) {
        assert(exists|j: int, k: int|
            t < j < types.len() && m2[j] && types[j] is Struct && 0 <= k < types[j]->Struct_attributes@.len()
                && #[trigger] spec_named_of(types[j]->Struct_attributes@[k].ty) == Some(t as usize));
    }
}

/// Some listed struct after `t` has an attribute of type `t`.
pub open spec fn referenced_in(types: Seq<NamedType>, r: Seq<usize>, t: usize) -> bool {
    exists|b: int, k: int|
        0 <= b < r.len() && r[b] > t && types[r[b] as int] is Struct && 0 <= k
            < types[r[b] as int]->Struct_attributes@.len() && #[trigger] spec_named_of(
            types[r[b] as int]->Struct_attributes@[k].ty,
        ) == Some(t)
}

/// The types reachable from `roots`, in ascending order, which is dependencies
/// first since every type refers only to types before it.
pub fn type_closure(types: &Vec<NamedType>, roots: &Vec<usize>) -> (r: Vec<usize>)
    requires
        types_wf(types@),
        forall|x: int| 0 <= x < roots@.len() ==> #[trigger] roots@[x] < types@.len(),
    ensures
        forall|a: int, b: int| 0 <= a < b < r@.len() ==> r@[a] < r@[b],
        forall|a: int| 0 <= a < r@.len() ==> #[trigger] r@[a] < types@.len(),
        forall|x: int| 0 <= x < roots@.len() ==> r@.contains(#[trigger] roots@[x]),
        closed(types@, r@),
        forall|a: int|
            0 <= a < r@.len() ==> roots@.contains(#[trigger] r@[a]) || referenced_in(types@, r@, r@[a]),
{
    let n = types.len();
    let mut marks: Vec<bool> = Vec::new();
    let mut i: usize = 0;
    while i < n
        invariant
            i <= n == types@.len(),
            marks@.len() == i,
            forall|t: int| 0 <= t < i ==> !#[trigger] marks@[t],
        decreases n - i,
    {
        marks.push(false);
        i += 1;
    }
    let mut x: usize = 0;
    while x < roots.len()
        invariant
            marks@.len() == n == types@.len(),
            x <= roots@.len(),
            forall|y: int| 0 <= y < roots@.len() ==> #[trigger] roots@[y] < types@.len(),
            forall|y: int| 0 <= y < x ==> marks@[#[trigger] roots@[y] as int],
            all_justified(types@, roots@, marks@),
        decreases roots@.len() - x,
    {
        let ghost m1 = marks@;
        marks.set(roots[x], true);
        proof {
            assert forall|t: int| 0 <= t < marks@.len() && marks@[t] implies #[trigger] justified(types@, roots@, marks@, t) by {
                if t == roots@[x as int] as int {
                    assert(roots@[x as int] == t as usize);
                } else {
                    assert(m1[t]);
                    assert(justified(types@, roots@, m1, t));
                    lemma_justified_grow(types@, roots@, m1, marks@, t);
                }
            }
        }
        x += 1;
    }
    let mut j: usize = n;
    while j > 0
        invariant
            marks@.len() == n == types@.len(),
            j <= n,
            types_wf(types@),
            forall|y: int| 0 <= y < roots@.len() ==> #[trigger] roots@[y] < types@.len(),
            forall|y: int| 0 <= y < roots@.len() ==> marks@[#[trigger] roots@[y] as int],
            marks_closed(types@, marks@, j as int),
            all_justified(types@, roots@, marks@),
        decreases j,
    {
        j -= 1;
        let ghost before = marks@;
        if marks[j] {
            match &types[j] {
                NamedType::Struct { attributes, .. } => {
                    let mut k: usize = 0;
                    while k < attributes.len()
                        invariant
                            marks@.len() == n == types@.len(),
                            j < n,
                            types_wf(types@),
                            types@[j as int] matches NamedType::Struct { attributes: a, .. } && a == attributes,
                            k <= attributes@.len(),
                            forall|y: int| 0 <= y < roots@.len() ==> #[trigger] roots@[y] < types@.len(),
                            forall|y: int| 0 <= y < roots@.len() ==> marks@[#[trigger] roots@[y] as int],
                            forall|y: int| 0 <= y < n && before[y] ==> #[trigger] marks@[y],
                            forall|y: int| j <= y < n ==> #[trigger] marks@[y] == before[y],
                            before.len() == n,
                            before[j as int],
                            forall|k2: int|
                                0 <= k2 < k && (#[trigger] spec_named_of(attributes@[k2].ty)) is Some ==> marks@[spec_named_of(attributes@[k2].ty)->0 as int],
                            all_justified(types@, roots@, marks@),
                        decreases attributes@.len() - k,
                    {
                        proof {
                            assert(crate::flatten::ref_below(types@[j as int]->attributes@[k as int].ty, j as int));
                        }
                        match named_of(attributes[k].ty) {
                            Some(t) => {
                                let ghost m1 = marks@;
                                marks.set(t, true);
                                proof {
                                    assert(marks@[j as int]);
                                    assert forall|u: int| 0 <= u < marks@.len() && marks@[u] implies #[trigger] justified(types@, roots@, marks@, u) by {
                                        if u == t as int {
                                            assert(spec_named_of(types@[j as int]->Struct_attributes@[k as int].ty) == Some(t));
                                        } else {
                                            assert(m1[u]);
                                            assert(justified(types@, roots@, m1, u));
                                            lemma_justified_grow(types@, roots@, m1, marks@, u);
                                        }
                                    }
                                }
                            },
                            None => {},
                        }
                        k += 1;
                    }
                },
                NamedType::Enum { .. } => {},
            }
        }
        proof {
            assert forall|j2: int, k: int|
                j <= j2 < types@.len() && marks@[j2] && (types@[j2] matches NamedType::Struct { attributes, .. })
                    && 0 <= k < types@[j2]->attributes@.len() && (#[trigger] spec_named_of(
                    types@[j2]->attributes@[k].ty,
                )) is Some implies marks@[spec_named_of(types@[j2]->attributes@[k].ty)->0 as int] by {
                if j2 > j {
                    assert(marks@[j2] == before[j2]);
                    assert(before[spec_named_of(types@[j2]->attributes@[k].ty)->0 as int]);
                }
            }
        }
    }
    let mut r: Vec<usize> = Vec::new();
    let mut i: usize = 0;
    while i < n
        invariant
            marks@.len() == n == types@.len(),
            i <= n,
            forall|a: int, b: int| 0 <= a < b < r@.len() ==> r@[a] < r@[b],
            forall|a: int| 0 <= a < r@.len() ==> #[trigger] r@[a] < i,
            forall|a: int| 0 <= a < r@.len() ==> marks@[#[trigger] r@[a] as int],
            forall|t: int| 0 <= t < i && marks@[t] ==> r@.contains(t as usize),
            marks_closed(types@, marks@, 0),
            all_justified(types@, roots@, marks@),
        decreases n - i,
    {
        if marks[i] {
            let ghost before = r@;
            r.push(i);
            proof {
                assert forall|t: int| 0 <= t < i + 1 && marks@[t] implies r@.contains(t as usize) by {
                    if t < i {
                        let q = choose|q: int| 0 <= q < before.len() && before[q] == t as usize;
                        assert(r@[q] == t as usize);
                    } else {
                        assert(r@[r@.len() - 1] == i);
                    }
                }
            }
        }
        i += 1;
    }
    proof {
        assert forall|a: int| 0 <= a < r@.len() implies roots@.contains(#[trigger] r@[a]) || referenced_in(types@, r@, r@[a]) by {
            let t = r@[a] as int;
            assert(marks@[t]);
            assert(justified(types@, roots@, marks@, t));
            if !roots@.contains(t as usize) {
                let (j, k) = choose|j: int, k: int|
                    t < j < types@.len() && marks@[j] && types@[j] is Struct && 0 <= k < types@[j]->Struct_attributes@.len()
                        && #[trigger] spec_named_of(types@[j]->Struct_attributes@[k].ty) == Some(t as usize);
                assert(r@.contains(j as usize));
                let b = choose|b: int| 0 <= b < r@.len() && r@[b] == j as usize;
                assert(spec_named_of(types@[r@[b] as int]->Struct_attributes@[k].ty) == Some(r@[a]));
            }
        }
        assert forall|x: int| 0 <= x < roots@.len() implies r@.contains(#[trigger] roots@[x]) by {
            assert(marks@[roots@[x] as int]);
        }
        assert forall|a: int, k: int|
            0 <= a < r@.len() && (types@[r@[a] as int] matches NamedType::Struct { attributes, .. }) && 0 <= k
                < types@[r@[a] as int]->attributes@.len() && (#[trigger] spec_named_of(
                types@[r@[a] as int]->attributes@[k].ty,
            )) is Some implies r@.contains(spec_named_of(types@[r@[a] as int]->attributes@[k].ty)->0) by {
            let j2 = r@[a] as int;
            assert(marks@[j2]);
            let x = spec_named_of(types@[j2]->attributes@[k].ty)->0;
            assert(marks@[x as int]);
            assert(crate::flatten::ref_below(types@[j2]->attributes@[k].ty, j2));
        }
    }
    r
}

fn copy_indices(v: &Vec<usize>) -> (r: Vec<usize>)
    ensures
        r@ == v@,
{
    let mut r: Vec<usize> = Vec::new();
    let mut i: usize = 0;
    while i < v.len()
        invariant
            i <= v@.len(),
            r@ == v@.subrange(0, i as int),
        decreases v@.len() - i,
    {
        r.push(v[i]);
        i += 1;
        assert(r@ =~= v@.subrange(0, i as int));
    }
    assert(r@ =~= v@);
    r
}

/// Every role given so far is claimed by the declarations.
pub open spec fn usages_ok(data: NetworkData, usages: Seq<Option<MessageUsage>>) -> bool {
    &&& usages.len() == data.messages@.len()
    &&& forall|m: int| 0 <= m < usages.len() && (#[trigger] usages[m]) is Some ==> claimed(data, m)
}

/// The message whose role `u` is, where `u` names a declared role.
pub open spec fn role_msg(data: NetworkData, u: MessageUsage) -> Option<int> {
    match u {
        MessageUsage::GetReq => Some(data.get_req_message as int),
        MessageUsage::GetResp => Some(data.get_resp_message as int),
        MessageUsage::SetReq => Some(data.set_req_message as int),
        MessageUsage::SetResp => Some(data.set_resp_message as int),
        MessageUsage::CommandRequest { node, command } => if node < data.nodes@.len() && command
            < data.nodes@[node as int].commands@.len() {
            Some(data.nodes@[node as int].commands@[command as int].request as int)
        } else {
            None
        },
        MessageUsage::CommandResponse { node, command } => if node < data.nodes@.len() && command
            < data.nodes@[node as int].commands@.len() {
            Some(data.nodes@[node as int].commands@[command as int].response as int)
        } else {
            None
        },
        MessageUsage::Stream { node, stream } => if node < data.nodes@.len() && stream
            < data.nodes@[node as int].tx_streams@.len() {
            Some(data.nodes@[node as int].tx_streams@[stream as int].message as int)
        } else {
            None
        },
        MessageUsage::External { .. } => None,
    }
}

/// Two different roles fall on one message.
pub open spec fn two_roles(data: NetworkData) -> bool {
    exists|u1: MessageUsage, u2: MessageUsage|
        u1 != u2 && (#[trigger] role_msg(data, u1)) is Some && role_msg(data, u1) == #[trigger] role_msg(
            data,
            u2,
        )
}

/// Every role given so far sits on its own message.
pub open spec fn consistent(data: NetworkData, usages: Seq<Option<MessageUsage>>) -> bool {
    forall|m: int|
        0 <= m < usages.len() && (#[trigger] usages[m]) is Some ==> role_msg(data, usages[m]->0)
            == Some(m)
}

/// `(a0, a1, a2, a3)` comes before `(b0, b1, b2, b3)`.
pub open spec fn lex_lt(a0: int, a1: int, a2: int, a3: int, b0: int, b1: int, b2: int, b3: int) -> bool {
    a0 < b0 || (a0 == b0 && (a1 < b1 || (a1 == b1 && (a2 < b2 || (a2 == b2 && a3 < b3)))))
}

/// Node roles are given in the order (node, commands before streams, index,
/// response before request); `u` comes before the role at `(i, p, k, s)`.
pub open spec fn before_cursor(u: MessageUsage, i: int, p: int, k: int, s: int) -> bool {
    match u {
        MessageUsage::CommandResponse { node, command } => lex_lt(node as int, 0, command as int, 0, i, p, k, s),
        MessageUsage::CommandRequest { node, command } => lex_lt(node as int, 0, command as int, 1, i, p, k, s),
        MessageUsage::Stream { node, stream } => lex_lt(node as int, 1, stream as int, 0, i, p, k, s),
        _ => true,
    }
}

/// Only roles before `(i, p, k, s)` have been given.
pub open spec fn fresh(usages: Seq<Option<MessageUsage>>, i: int, p: int, k: int, s: int) -> bool {
    forall|m: int|
        0 <= m < usages.len() && (#[trigger] usages[m]) is Some ==> before_cursor(usages[m]->0, i, p, k, s)
}

/// Giving role `u` to message `m` keeps the roles consistent and fresh.
proof fn lemma_claim_step(
    data: NetworkData,
    u0: Seq<Option<MessageUsage>>,
    u1: Seq<Option<MessageUsage>>,
    m: int,
    u: MessageUsage,
    a: (int, int, int, int),
    b: (int, int, int, int),
)
    requires
        consistent(data, u0),
        fresh(u0, a.0, a.1, a.2, a.3),
        0 <= m < u0.len(),
        u1 == u0.update(m, Some(u)),
        role_msg(data, u) == Some(m),
        before_cursor(u, b.0, b.1, b.2, b.3),
        a == b || lex_lt(a.0, a.1, a.2, a.3, b.0, b.1, b.2, b.3),
    ensures
        consistent(data, u1),
        fresh(u1, b.0, b.1, b.2, b.3),
{
    assert forall|x: int| 0 <= x < u1.len() && (#[trigger] u1[x]) is Some implies role_msg(data, u1[x]->0)
        == Some(x) by {
        if x != m {
            assert(u0[x] == u1[x]);
        }
    }
    assert forall|x: int| 0 <= x < u1.len() && (#[trigger] u1[x]) is Some implies before_cursor(
        u1[x]->0,
        b.0,
        b.1,
        b.2,
        b.3,
    ) by {
        if x != m {
            assert(u0[x] == u1[x]);
            assert(before_cursor(u0[x]->0, a.0, a.1, a.2, a.3));
        }
    }
}

/// Only roles before a cursor are also only roles before a later cursor.
proof fn lemma_fresh_mono(usages: Seq<Option<MessageUsage>>, a: (int, int, int, int), b: (int, int, int, int))
    requires
        fresh(usages, a.0, a.1, a.2, a.3),
        lex_lt(a.0, a.1, a.2, a.3, b.0, b.1, b.2, b.3),
    ensures
        fresh(usages, b.0, b.1, b.2, b.3),
{
    assert forall|x: int| 0 <= x < usages.len() && (#[trigger] usages[x]) is Some implies before_cursor(
        usages[x]->0,
        b.0,
        b.1,
        b.2,
        b.3,
    ) by {
        assert(before_cursor(usages[x]->0, a.0, a.1, a.2, a.3));
    }
}

/// A role refused because its message already has a role: two roles meet.
proof fn lemma_claim_refused(
    data: NetworkData,
    u0: Seq<Option<MessageUsage>>,
    m: int,
    u: MessageUsage,
    a: (int, int, int, int),
)
    requires
        consistent(data, u0),
        fresh(u0, a.0, a.1, a.2, a.3),
        0 <= m < u0.len(),
        u0[m] is Some,
        role_msg(data, u) == Some(m),
        !before_cursor(u, a.0, a.1, a.2, a.3),
    ensures
        two_roles(data),
{
    let w = u0[m]->0;
    assert(before_cursor(w, a.0, a.1, a.2, a.3));
    assert(w != u);
    assert(role_msg(data, w) == role_msg(data, u));
}

/// The first `n` commands keep their declared messages.
pub open spec fn commands_ok(nd: NodeDecl, cs: Seq<Command>, n: int) -> bool {
    &&& cs.len() == n
    &&& forall|q: int|
        0 <= q < n ==> (#[trigger] cs[q]).request == nd.commands@[q].request && cs[q].response
            == nd.commands@[q].response && cs[q].name == nd.commands@[q].name
}

/// The first `n` object entries of node `i`: sequential ids, resolved types.
pub open spec fn entries_ok(nd: NodeDecl, names: Seq<String>, i: int, oes: Seq<ObjectEntry>, n: int) -> bool {
    &&& oes.len() == n
    &&& forall|q: int|
        0 <= q < n ==> (#[trigger] oes[q]).id == q && oes[q].node == i && oes[q].name
            == nd.object_entries@[q].name && oes[q].access
            == nd.object_entries@[q].access && Ok::<TypeRef, ConfigError>(oes[q].ty) == spec_resolve(
            nd.object_entries@[q].ty@,
            names,
        )
}

/// The first `n` published streams bind every position to the declared entry.
pub open spec fn tx_ok(nd: NodeDecl, ts: Seq<Stream>, n: int) -> bool {
    &&& ts.len() == n
    &&& forall|q: int|
        0 <= q < n ==> (#[trigger] ts[q]).message == nd.tx_streams@[q].message && ts[q].name
            == nd.tx_streams@[q].name && ts[q].mapping@.len()
            == nd.tx_streams@[q].entries@.len() && forall|x: int|
            0 <= x < ts[q].mapping@.len() ==> #[trigger] ts[q].mapping@[x] == Some(
                nd.tx_streams@[q].entries@[x],
            )
}

/// Command `c` of node `j` (not `i`) is the first, scanning nodes and then
/// their commands in declaration order, whose request is message `request`.
pub open spec fn first_command(data: NetworkData, i: int, request: usize, j: int, c: int) -> bool {
    &&& j != i && 0 <= j < data.nodes@.len() && 0 <= c < data.nodes@[j].commands@.len()
    &&& data.nodes@[j].commands@[c].request == request
    &&& forall|j2: int, c2: int|
        0 <= j2 < data.nodes@.len() && j2 != i && 0 <= c2 < data.nodes@[j2].commands@.len() && (j2
            < j || (j2 == j && c2 < c)) ==> #[trigger] data.nodes@[j2].commands@[c2].request != request
}

/// Some node other than `i` owns a command whose request is message `request`.
pub open spec fn command_exists(data: NetworkData, i: int, request: usize) -> bool {
    exists|j: int, c: int|
        0 <= j < data.nodes@.len() && j != i && 0 <= c < data.nodes@[j].commands@.len()
            && #[trigger] data.nodes@[j].commands@[c].request == request
}

/// The first `n` extern commands of node `i`: each pair found is the first
/// owner of a declared request, and each declared request that some other node
/// owns was found.
pub open spec fn externs_ok(data: NetworkData, i: int, ext: Seq<(usize, usize)>, n: int) -> bool {
    let nd = data.nodes@[i];
    &&& forall|a: int| 0 <= a < ext.len() ==> #[trigger] found_for(data, i, n, ext[a])
    &&& forall|x: int|
        0 <= x < n && command_exists(data, i, #[trigger] nd.extern_commands@[x]) ==> pair_listed(
            data,
            i,
            ext,
            nd.extern_commands@[x],
        )
}

/// `pair` is the first owner of one of the first `n` extern requests of node `i`.
pub open spec fn found_for(data: NetworkData, i: int, n: int, pair: (usize, usize)) -> bool {
    exists|x: int|
        0 <= x < n && first_command(data, i, #[trigger] data.nodes@[i].extern_commands@[x], pair.0 as int, pair.1 as int)
}

/// `ext` lists the first owner of `request`.
pub open spec fn pair_listed(data: NetworkData, i: int, ext: Seq<(usize, usize)>, request: usize) -> bool {
    exists|a: int| 0 <= a < ext.len() && first_command(data, i, request, (#[trigger] ext[a]).0 as int, ext[a].1 as int)
}

/// Node `i` as linked from its declaration.
pub open spec fn node_linked(data: NetworkData, names: Seq<String>, i: int, node: Node) -> bool {
    let nd = data.nodes@[i];
    &&& node.id == i
    &&& node.name == nd.name
    &&& commands_ok(nd, node.commands@, nd.commands@.len() as int)
    &&& entries_ok(nd, names, i, node.object_entries@, nd.object_entries@.len() as int)
    &&& tx_ok(nd, node.tx_streams@, nd.tx_streams@.len() as int)
    &&& node.rx_messages@ == nd.rx_messages@
    &&& node.tx_messages@ == nd.tx_messages@
    &&& node.buses@ == nd.buses@
    &&& externs_ok(data, i, node.extern_commands@, nd.extern_commands@.len() as int)
}

/// Subscribed stream `k` of node `i` is aligned with the publisher's positions.
pub open spec fn rx_stream_ok(data: NetworkData, i: int, k: int, s: Stream) -> bool {
    let d = data.nodes@[i].rx_streams@[k];
    let tx = data.nodes@[d.publisher as int].tx_streams@[d.stream as int];
    &&& s.message == tx.message
    &&& s.name == tx.name
    &&& s.mapping@.len() == tx.entries@.len()
    &&& forall|p: int| 0 <= p < s.mapping@.len() ==> #[trigger] s.mapping@[p] == mapped_at(d.mapping@, p, 0)
}

/// Links node `i`: its messages, commands, object entries, streams and the
/// types it refers to. Commands and tx streams claim their messages' roles.
fn link_node(
    data: &NetworkData,
    i: usize,
    types: &Vec<NamedType>,
    names: &Vec<String>,
    messages: &Vec<Message>,
    usages: &mut Vec<Option<MessageUsage>>,
) -> (r: Result<Node, ConfigError>)
    requires
        data.wf(),
        i < data.nodes@.len(),
        types_wf(types@),
        names@ == type_names(types@),
        messages@.len() == data.messages@.len(),
        forall|m: int, f: int|
            0 <= m < messages@.len() && 0 <= f < messages@[m].fields@.len() ==> crate::flatten::ref_below(
                #[trigger] messages@[m].fields@[f].ty,
                types@.len() as int,
            ),
        usages_ok(*data, old(usages)@),
        consistent(*data, old(usages)@),
        fresh(old(usages)@, i as int, 0, 0, 0),
    ensures
        usages_ok(*data, final(usages)@),
        consistent(*data, final(usages)@),
        r is Ok ==> fresh(final(usages)@, i + 1, 0, 0, 0),
        forall|m: int|
            0 <= m < old(usages)@.len() && (#[trigger] old(usages)@[m]) is Some ==> final(usages)@[m]
                == old(usages)@[m],
        r matches Err(e) ==> (e == ConfigError::UsageConflict && two_roles(*data)) || ((e == ConfigError::InvalidType || e
            == ConfigError::InvalidRange) && bad_entry(data.nodes@[i as int], names@, e)),
        r matches Ok(node) ==> node_linked(*data, names@, i as int, node),
        r matches Ok(node) ==> node_types_ok(types@, messages@, data.nodes@[i as int], node),
        r is Ok ==> roles_ok(
            *data,
            final(usages)@,
            i as int,
            data.nodes@[i as int].commands@.len() as int,
            data.nodes@[i as int].tx_streams@.len() as int,
        ),
        r matches Ok(node) ==> node.rx_streams@.len() == data.nodes@[i as int].rx_streams@.len()
            && forall|k: int|
            0 <= k < node.rx_streams@.len() ==> rx_stream_ok(*data, i as int, k, #[trigger] node.rx_streams@[k]),
{
    let nd = &data.nodes[i];
    let ghost u_start = usages@;
    proof {
        assert(data.nodes@[i as int].wf(data.messages@.len(), data.buses@.len(), data.nodes@));
    }
    let mut roots: Vec<usize> = Vec::new();
    // the types the node's messages carry
    collect_roots(types, messages, &nd.rx_messages, &mut roots);
    let ghost r1 = roots@;
    collect_roots(types, messages, &nd.tx_messages, &mut roots);
    proof {
        assert forall|a: int| 0 <= a < roots@.len() implies msg_root(messages@, nd.rx_messages@, #[trigger] roots@[a])
            || msg_root(messages@, nd.tx_messages@, roots@[a]) by {
            if r1.contains(roots@[a]) {
                let q = choose|q: int| 0 <= q < r1.len() && r1[q] == roots@[a];
                assert(msg_root(messages@, nd.rx_messages@, r1[q]) || Seq::<usize>::empty().contains(r1[q]));
            }
        }
    }
    // commands
    let mut commands: Vec<Command> = Vec::new();
    let mut c: usize = 0;
    while c < nd.commands.len()
        invariant
            data.wf(),
            i < data.nodes@.len(),
            nd == data.nodes@[i as int],
            nd.wf(data.messages@.len(), data.buses@.len(), data.nodes@),
            usages_ok(*data, usages@),
            u_start == old(usages)@,
            u_start.len() == usages@.len(),
            forall|m: int| 0 <= m < u_start.len() && (#[trigger] u_start[m]) is Some ==> usages@[m] == u_start[m],
            c <= nd.commands@.len(),
            commands_ok(*nd, commands@, c as int),
            roles_ok(*data, usages@, i as int, c as int, 0),
            consistent(*data, usages@),
            fresh(usages@, i as int, 0, c as int, 0),
        decreases nd.commands@.len() - c,
    {
        let cd = &nd.commands[c];
        let ghost u0 = usages@;
        match claim(usages, cd.response, MessageUsage::CommandResponse { node: i, command: c }) {
            Ok(()) => {},
            Err(e) => {
                proof {
                    lemma_claim_refused(
                        *data,
                        u0,
                        cd.response as int,
                        MessageUsage::CommandResponse { node: i, command: c },
                        (i as int, 0, c as int, 0),
                    );
                }
                return Err(e);
            },
        }
        proof {
            lemma_claim_step(
                *data,
                u0,
                usages@,
                cd.response as int,
                MessageUsage::CommandResponse { node: i, command: c },
                (i as int, 0, c as int, 0),
                (i as int, 0, c as int, 1),
            );
            assert(data.nodes@[i as int].commands@[c as int].request == cd.request);
            assert(claimed(*data, cd.response as int));
            assert forall|m: int| 0 <= m < usages@.len() && (#[trigger] usages@[m]) is Some implies claimed(*data, m) by {
                if m != cd.response {
                    assert(usages@[m] == u0[m]);
                }
            }
            assert forall|m: int| 0 <= m < u_start.len() && (#[trigger] u_start[m]) is Some implies usages@[m] == u_start[m] by {
                if m != cd.response {
                    assert(usages@[m] == u0[m]);
                }
            }
        }
        let ghost u1 = usages@;
        match claim(usages, cd.request, MessageUsage::CommandRequest { node: i, command: c }) {
            Ok(()) => {},
            Err(e) => {
                proof {
                    lemma_claim_refused(
                        *data,
                        u1,
                        cd.request as int,
                        MessageUsage::CommandRequest { node: i, command: c },
                        (i as int, 0, c as int, 1),
                    );
                }
                return Err(e);
            },
        }
        proof {
            lemma_claim_step(
                *data,
                u1,
                usages@,
                cd.request as int,
                MessageUsage::CommandRequest { node: i, command: c },
                (i as int, 0, c as int, 1),
                (i as int, 0, c as int + 1, 0),
            );
            assert(data.nodes@[i as int].commands@[c as int].request == cd.request);
            assert(claimed(*data, cd.request as int));
            assert forall|m: int| 0 <= m < usages@.len() && (#[trigger] usages@[m]) is Some implies claimed(*data, m) by {
                if m != cd.request {
                    assert(usages@[m] == u1[m]);
                }
            }
            assert forall|m: int| 0 <= m < u_start.len() && (#[trigger] u_start[m]) is Some implies usages@[m] == u_start[m] by {
                if m != cd.request {
                    assert(usages@[m] == u1[m]);
                }
            }
            lemma_roles_kept(*data, u0, usages@, i as int, c as int, 0);
        }
        let name = cd.name.clone();
        let description = cd.description.clone();
        commands.push(Command { name, description, request: cd.request, response: cd.response });
        c += 1;
    }
    // object entries, with node-local sequential ids
    let mut object_entries: Vec<ObjectEntry> = Vec::new();
    let mut k: usize = 0;
    while k < nd.object_entries.len()
        invariant
            types_wf(types@),
            names@ == type_names(types@),
            usages_ok(*data, usages@),
            u_start == old(usages)@,
            u_start.len() == usages@.len(),
            forall|m: int| 0 <= m < u_start.len() && (#[trigger] u_start[m]) is Some ==> usages@[m] == u_start[m],
            forall|y: int| 0 <= y < roots@.len() ==> #[trigger] roots@[y] < types@.len(),
            forall|y: usize|
                msg_root(messages@, nd.rx_messages@, y) || msg_root(messages@, nd.tx_messages@, y)
                    ==> #[trigger] roots@.contains(y),
            forall|k2: int|
                0 <= k2 < k && (#[trigger] spec_named_of(object_entries@[k2].ty)) is Some ==> roots@.contains(
                    spec_named_of(object_entries@[k2].ty)->0,
                ),
            forall|a: int|
                0 <= a < roots@.len() ==> msg_root(messages@, nd.rx_messages@, #[trigger] roots@[a])
                    || msg_root(messages@, nd.tx_messages@, roots@[a]) || entry_root(object_entries@, roots@[a]),
            i < data.nodes@.len(),
            nd == data.nodes@[i as int],
            commands_ok(*nd, commands@, nd.commands@.len() as int),
            k <= nd.object_entries@.len(),
            entries_ok(*nd, names@, i as int, object_entries@, k as int),
            data.wf(),
            roles_ok(*data, usages@, i as int, nd.commands@.len() as int, 0),
            consistent(*data, usages@),
            fresh(usages@, i as int, 0, nd.commands@.len() as int, 0),
        decreases nd.object_entries@.len() - k,
    {
        let od = &nd.object_entries[k];
        let ty = match resolve_type(names, od.ty.as_str()) {
            Ok(t) => t,
            Err(e) => {
                proof {
                    lemma_resolve_errors(od.ty@, names@);
                    assert(spec_resolve(data.nodes@[i as int].object_entries@[k as int].ty@, names@) == Err::<TypeRef, ConfigError>(e));
                    assert(bad_entry(data.nodes@[i as int], names@, e));
                }
                return Err(e);
            },
        };
        proof {
            lemma_resolve_below(od.ty@, names@);
        }
        let ghost roots0 = roots@;
        if let Some(t) = named_of(ty) {
            roots.push(t);
            proof {
                lemma_push_contains(roots0, t);
            }
        }
        let name = od.name.clone();
        let description = od.description.clone();
        let unit = od.unit.clone();
        let ghost oes0 = object_entries@;
        object_entries.push(
            ObjectEntry { name, description, unit, id: k, ty, access: od.access, node: i },
        );
        proof {
            assert(object_entries@[k as int].ty == ty);
            assert forall|y: usize| entry_root(oes0, y) implies entry_root(object_entries@, y) by {
                let q = choose|q: int| 0 <= q < oes0.len() && #[trigger] spec_named_of(oes0[q].ty) == Some(y);
                assert(object_entries@[q] == oes0[q]);
            }
            assert forall|k2: int|
                0 <= k2 < k + 1 && (#[trigger] spec_named_of(object_entries@[k2].ty)) is Some implies roots@.contains(
                    spec_named_of(object_entries@[k2].ty)->0,
                ) by {
                if k2 < k {
                    assert(object_entries@[k2] == oes0[k2]);
                }
            }
            assert forall|a: int|
                0 <= a < roots@.len() implies msg_root(messages@, nd.rx_messages@, #[trigger] roots@[a])
                    || msg_root(messages@, nd.tx_messages@, roots@[a]) || entry_root(object_entries@, roots@[a]) by {
                if a < roots0.len() {
                    assert(roots@[a] == roots0[a]);
                    if entry_root(oes0, roots0[a]) {
                    }
                } else {
                    assert(spec_named_of(object_entries@[k as int].ty) == Some(roots@[a]));
                }
            }
        }
        k += 1;
    }
    proof {
        lemma_fresh_mono(usages@, (i as int, 0, nd.commands@.len() as int, 0), (i as int, 1, 0, 0));
    }
    // published streams: every position bound to a local object entry
    let mut tx_streams: Vec<Stream> = Vec::new();
    let mut t: usize = 0;
    while t < nd.tx_streams.len()
        invariant
            data.wf(),
            i < data.nodes@.len(),
            nd == data.nodes@[i as int],
            nd.wf(data.messages@.len(), data.buses@.len(), data.nodes@),
            usages_ok(*data, usages@),
            u_start == old(usages)@,
            u_start.len() == usages@.len(),
            forall|m: int| 0 <= m < u_start.len() && (#[trigger] u_start[m]) is Some ==> usages@[m] == u_start[m],
            commands_ok(*nd, commands@, nd.commands@.len() as int),
            entries_ok(*nd, names@, i as int, object_entries@, nd.object_entries@.len() as int),
            t <= nd.tx_streams@.len(),
            tx_ok(*nd, tx_streams@, t as int),
            roles_ok(*data, usages@, i as int, nd.commands@.len() as int, t as int),
            consistent(*data, usages@),
            fresh(usages@, i as int, 1, t as int, 0),
        decreases nd.tx_streams@.len() - t,
    {
        let sd = &nd.tx_streams[t];
        let mut mapping: Vec<Option<usize>> = Vec::new();
        let mut e: usize = 0;
        while e < sd.entries.len()
            invariant
                e <= sd.entries@.len(),
                mapping@.len() == e,
                forall|x: int| 0 <= x < e ==> #[trigger] mapping@[x] == Some(sd.entries@[x]),
            decreases sd.entries@.len() - e,
        {
            mapping.push(Some(sd.entries[e]));
            e += 1;
        }
        let ghost u0 = usages@;
        match claim(usages, sd.message, MessageUsage::Stream { node: i, stream: t }) {
            Ok(()) => {},
            Err(e) => {
                proof {
                    lemma_claim_refused(
                        *data,
                        u0,
                        sd.message as int,
                        MessageUsage::Stream { node: i, stream: t },
                        (i as int, 1, t as int, 0),
                    );
                }
                return Err(e);
            },
        }
        proof {
            lemma_claim_step(
                *data,
                u0,
                usages@,
                sd.message as int,
                MessageUsage::Stream { node: i, stream: t },
                (i as int, 1, t as int, 0),
                (i as int, 1, t as int + 1, 0),
            );
            assert(data.nodes@[i as int].tx_streams@[t as int].message == sd.message);
            assert(claimed(*data, sd.message as int));
            assert forall|m: int| 0 <= m < usages@.len() && (#[trigger] usages@[m]) is Some implies claimed(*data, m) by {
                if m != sd.message {
                    assert(usages@[m] == u0[m]);
                }
            }
            assert forall|m: int| 0 <= m < u_start.len() && (#[trigger] u_start[m]) is Some implies usages@[m] == u_start[m] by {
                if m != sd.message {
                    assert(usages@[m] == u0[m]);
                }
            }
            lemma_roles_kept(*data, u0, usages@, i as int, nd.commands@.len() as int, t as int);
        }
        let name = sd.name.clone();
        let description = sd.description.clone();
        let ghost before = tx_streams@;
        tx_streams.push(Stream { name, description, mapping, message: sd.message });
        proof {
            assert forall|q: int| 0 <= q < t + 1 implies (#[trigger] tx_streams@[q]).message
                == nd.tx_streams@[q].message && tx_streams@[q].mapping@.len()
                == nd.tx_streams@[q].entries@.len() && forall|x: int|
                0 <= x < tx_streams@[q].mapping@.len() ==> #[trigger] tx_streams@[q].mapping@[x] == Some(
                    nd.tx_streams@[q].entries@[x],
                ) by {
                if q < t {
                    assert(tx_streams@[q] == before[q]);
                }
            }
        }
        t += 1;
    }
    proof {
        lemma_fresh_mono(usages@, (i as int, 1, nd.tx_streams@.len() as int, 0), (i + 1, 0, 0, 0));
    }
    // commands of other nodes: the first whose request message matches
    let mut extern_commands: Vec<(usize, usize)> = Vec::new();
    let mut x: usize = 0;
    while x < nd.extern_commands.len()
        invariant
            i < data.nodes@.len(),
            nd == data.nodes@[i as int],
            commands_ok(*nd, commands@, nd.commands@.len() as int),
            entries_ok(*nd, names@, i as int, object_entries@, nd.object_entries@.len() as int),
            tx_ok(*nd, tx_streams@, nd.tx_streams@.len() as int),
            roles_ok(*data, usages@, i as int, nd.commands@.len() as int, nd.tx_streams@.len() as int),
            consistent(*data, usages@),
            fresh(usages@, i + 1, 0, 0, 0),
            usages_ok(*data, usages@),
            x <= nd.extern_commands@.len(),
            externs_ok(*data, i as int, extern_commands@, x as int),
        decreases nd.extern_commands@.len() - x,
    {
        let request = nd.extern_commands[x];
        let found = find_command(data, i, request);
        let ghost before = extern_commands@;
        if let Some(pair) = found {
            extern_commands.push(pair);
        }
        proof {
            let ext = extern_commands@;
            assert forall|a: int| 0 <= a < ext.len() implies #[trigger] found_for(*data, i as int, x + 1, ext[a]) by {
                if a < before.len() {
                    assert(ext[a] == before[a]);
                    assert(found_for(*data, i as int, x as int, before[a]));
                    let y = choose|y: int|
                        0 <= y < x && first_command(*data, i as int, #[trigger] data.nodes@[i as int].extern_commands@[y], before[a].0 as int, before[a].1 as int);
                } else {
                    assert(data.nodes@[i as int].extern_commands@[x as int] == request);
                    assert(ext[a] == found->0);
                }
            }
            assert forall|y: int|
                0 <= y < x + 1 && command_exists(*data, i as int, #[trigger] nd.extern_commands@[y]) implies pair_listed(
                *data,
                i as int,
                ext,
                nd.extern_commands@[y],
            ) by {
                if y < x {
                    assert(pair_listed(*data, i as int, before, nd.extern_commands@[y]));
                    let a = choose|a: int|
                        0 <= a < before.len() && first_command(*data, i as int, nd.extern_commands@[y], (#[trigger] before[a]).0 as int, before[a].1 as int);
                    assert(ext[a] == before[a]);
                } else {
                    assert(nd.extern_commands@[y] == request);
                    assert(found is Some);
                    assert(ext[ext.len() - 1] == found->0);
                }
            }
        }
        x += 1;
    }
    // subscribed streams, aligned with the publisher's positions
    let mut rx_streams: Vec<Stream> = Vec::new();
    let mut k: usize = 0;
    while k < nd.rx_streams.len()
        invariant
            data.wf(),
            i < data.nodes@.len(),
            nd == data.nodes@[i as int],
            nd.wf(data.messages@.len(), data.buses@.len(), data.nodes@),
            k <= nd.rx_streams@.len(),
            rx_streams@.len() == k,
            forall|q: int| 0 <= q < k ==> rx_stream_ok(*data, i as int, q, #[trigger] rx_streams@[q]),
            commands_ok(*nd, commands@, nd.commands@.len() as int),
            entries_ok(*nd, names@, i as int, object_entries@, nd.object_entries@.len() as int),
            tx_ok(*nd, tx_streams@, nd.tx_streams@.len() as int),
            roles_ok(*data, usages@, i as int, nd.commands@.len() as int, nd.tx_streams@.len() as int),
            consistent(*data, usages@),
            fresh(usages@, i + 1, 0, 0, 0),
        decreases nd.rx_streams@.len() - k,
    {
        let rd = &nd.rx_streams[k];
        let tx = &data.nodes[rd.publisher].tx_streams[rd.stream];
        let mapping = rx_mapping(tx.entries.len(), &rd.mapping);
        let name = tx.name.clone();
        let description = tx.description.clone();
        rx_streams.push(Stream { name, description, mapping, message: tx.message });
        k += 1;
    }
    let types_of_node = type_closure(types, &roots);
    proof {
        assert forall|t: usize| #[trigger] is_root(messages@, *nd, object_entries@, t) implies types_of_node@.contains(t) by {
            if entry_root(object_entries@, t) {
                let q = choose|q: int| 0 <= q < object_entries@.len() && #[trigger] spec_named_of(object_entries@[q].ty) == Some(t);
                assert(roots@.contains(t));
            }
            assert(roots@.contains(t));
            let x = choose|x: int| 0 <= x < roots@.len() && roots@[x] == t;
            assert(types_of_node@.contains(roots@[x]));
        }
        assert forall|a: int| 0 <= a < types_of_node@.len() implies is_root(messages@, *nd, object_entries@, #[trigger] types_of_node@[a])
            || referenced_in(types@, types_of_node@, types_of_node@[a]) by {
            if roots@.contains(types_of_node@[a]) {
                let x = choose|x: int| 0 <= x < roots@.len() && roots@[x] == types_of_node@[a];
                assert(msg_root(messages@, nd.rx_messages@, roots@[x]) || msg_root(messages@, nd.tx_messages@, roots@[x])
                    || entry_root(object_entries@, roots@[x]));
            }
        }
    }
    let name = nd.name.clone();
    let description = nd.description.clone();
    Ok(
        Node {
            name,
            description,
            id: i,
            types: types_of_node,
            commands,
            extern_commands,
            tx_streams,
            rx_streams,
            rx_messages: copy_indices(&nd.rx_messages),
            tx_messages: copy_indices(&nd.tx_messages),
            object_entries,
            buses: copy_indices(&nd.buses),
        },
    )
}

/// Some field of a listed message refers to the named type `t`.
pub open spec fn msg_root(msgs: Seq<Message>, list: Seq<usize>, t: usize) -> bool {
    exists|x: int, f: int|
        0 <= x < list.len() && 0 <= f < msgs[list[x] as int].fields@.len() && #[trigger] spec_named_of(
            msgs[list[x] as int].fields@[f].ty,
        ) == Some(t)
}

/// A type that node `nd` refers to directly: through a field of one of its
/// messages or through one of its object entries.
pub open spec fn is_root(msgs: Seq<Message>, nd: NodeDecl, oes: Seq<ObjectEntry>, t: usize) -> bool {
    msg_root(msgs, nd.rx_messages@, t) || msg_root(msgs, nd.tx_messages@, t) || entry_root(oes, t)
}

/// The node's type list: ascending (so dependencies first), closed under
/// attribute references, holding every type the node refers to directly and
/// only types reached from those.
pub open spec fn node_types_ok(types: Seq<NamedType>, msgs: Seq<Message>, nd: NodeDecl, node: Node) -> bool {
    let r = node.types@;
    &&& forall|a: int, b: int| 0 <= a < b < r.len() ==> r[a] < r[b]
    &&& forall|a: int| 0 <= a < r.len() ==> #[trigger] r[a] < types.len()
    &&& closed(types, r)
    &&& forall|t: usize| #[trigger] is_root(msgs, nd, node.object_entries@, t) ==> r.contains(t)
    &&& forall|a: int|
        0 <= a < r.len() ==> is_root(msgs, nd, node.object_entries@, #[trigger] r[a]) || referenced_in(
            types,
            r,
            r[a],
        )
}

/// Messages with the same fields have the same field roots.
proof fn lemma_same_fields(m1: Seq<Message>, m2: Seq<Message>, types: Seq<NamedType>, nd: NodeDecl, node: Node)
    requires
        m1.len() == m2.len(),
        forall|q: int| 0 <= q < m1.len() ==> (#[trigger] m1[q]).fields == m2[q].fields,
        forall|x: int| 0 <= x < nd.rx_messages@.len() ==> #[trigger] nd.rx_messages@[x] < m1.len(),
        forall|x: int| 0 <= x < nd.tx_messages@.len() ==> #[trigger] nd.tx_messages@[x] < m1.len(),
        node_types_ok(types, m1, nd, node),
    ensures
        node_types_ok(types, m2, nd, node),
{
    assert forall|l: Seq<usize>, t: usize|
        (forall|x: int| 0 <= x < l.len() ==> #[trigger] l[x] < m1.len()) implies (msg_root(m1, l, t) <==> msg_root(m2, l, t)) by {
        if msg_root(m1, l, t) {
            let (x, f) = choose|x: int, f: int|
                0 <= x < l.len() && 0 <= f < m1[l[x] as int].fields@.len() && #[trigger] spec_named_of(
                    m1[l[x] as int].fields@[f].ty,
                ) == Some(t);
            assert(m1[l[x] as int].fields == m2[l[x] as int].fields);
        }
        if msg_root(m2, l, t) {
            let (x, f) = choose|x: int, f: int|
                0 <= x < l.len() && 0 <= f < m2[l[x] as int].fields@.len() && #[trigger] spec_named_of(
                    m2[l[x] as int].fields@[f].ty,
                ) == Some(t);
            assert(m1[l[x] as int].fields == m2[l[x] as int].fields);
        }
    }
    assert forall|t: usize| is_root(m1, nd, node.object_entries@, t) == is_root(m2, nd, node.object_entries@, t) by {}
}

/// Some object entry refers to the named type `t`.
pub open spec fn entry_root(oes: Seq<ObjectEntry>, t: usize) -> bool {
    exists|k: int| 0 <= k < oes.len() && #[trigger] spec_named_of(oes[k].ty) == Some(t)
}

proof fn lemma_push_contains(s: Seq<usize>, t: usize)
    ensures
        s.push(t).contains(t),
        forall|y: usize| s.contains(y) ==> #[trigger] s.push(t).contains(y),
{
    assert(s.push(t)[s.len() as int] == t);
    assert forall|y: usize| s.contains(y) implies #[trigger] s.push(t).contains(y) by {
        let q = choose|q: int| 0 <= q < s.len() && s[q] == y;
        assert(s.push(t)[q] == y);
    }
}

/// Appends the named types that the fields of the listed messages refer to.
fn collect_roots(
    types: &Vec<NamedType>,
    messages: &Vec<Message>,
    list: &Vec<usize>,
    roots: &mut Vec<usize>,
)
    requires
        forall|x: int| 0 <= x < list@.len() ==> #[trigger] list@[x] < messages@.len(),
        forall|m: int, f: int|
            0 <= m < messages@.len() && 0 <= f < messages@[m].fields@.len() ==> crate::flatten::ref_below(
                #[trigger] messages@[m].fields@[f].ty,
                types@.len() as int,
            ),
        forall|y: int| 0 <= y < old(roots)@.len() ==> #[trigger] old(roots)@[y] < types@.len(),
    ensures
        forall|y: int| 0 <= y < final(roots)@.len() ==> #[trigger] final(roots)@[y] < types@.len(),
        forall|y: usize| old(roots)@.contains(y) ==> #[trigger] final(roots)@.contains(y),
        forall|y: usize| msg_root(messages@, list@, y) ==> #[trigger] final(roots)@.contains(y),
        forall|a: int|
            0 <= a < final(roots)@.len() ==> old(roots)@.contains(#[trigger] final(roots)@[a]) || msg_root(
                messages@,
                list@,
                final(roots)@[a],
            ),
{
    let ghost r0 = roots@;
    let mut x: usize = 0;
    while x < list.len()
        invariant
            forall|z: int| 0 <= z < list@.len() ==> #[trigger] list@[z] < messages@.len(),
            forall|m: int, f: int|
                0 <= m < messages@.len() && 0 <= f < messages@[m].fields@.len() ==> crate::flatten::ref_below(
                    #[trigger] messages@[m].fields@[f].ty,
                    types@.len() as int,
                ),
            forall|y: int| 0 <= y < roots@.len() ==> #[trigger] roots@[y] < types@.len(),
            r0 == old(roots)@,
            x <= list@.len(),
            forall|y: usize| r0.contains(y) ==> #[trigger] roots@.contains(y),
            forall|x2: int, f2: int|
                0 <= x2 < x && 0 <= f2 < messages@[list@[x2] as int].fields@.len() && (#[trigger] spec_named_of(
                    messages@[list@[x2] as int].fields@[f2].ty,
                )) is Some ==> roots@.contains(spec_named_of(messages@[list@[x2] as int].fields@[f2].ty)->0),
            forall|a: int|
                0 <= a < roots@.len() ==> r0.contains(#[trigger] roots@[a]) || msg_root(messages@, list@, roots@[a]),
        decreases list@.len() - x,
    {
        let m = list[x];
        let fields = &messages[m].fields;
        let mut f: usize = 0;
        while f < fields.len()
            invariant
                m < messages@.len(),
                x < list@.len(),
                m == list@[x as int],
                fields == messages@[m as int].fields,
                forall|mm: int, ff: int|
                    0 <= mm < messages@.len() && 0 <= ff < messages@[mm].fields@.len() ==> crate::flatten::ref_below(
                        #[trigger] messages@[mm].fields@[ff].ty,
                        types@.len() as int,
                    ),
                forall|y: int| 0 <= y < roots@.len() ==> #[trigger] roots@[y] < types@.len(),
                forall|y: usize| r0.contains(y) ==> #[trigger] roots@.contains(y),
                forall|x2: int, f2: int|
                    0 <= x2 < x && 0 <= f2 < messages@[list@[x2] as int].fields@.len() && (#[trigger] spec_named_of(
                        messages@[list@[x2] as int].fields@[f2].ty,
                    )) is Some ==> roots@.contains(spec_named_of(messages@[list@[x2] as int].fields@[f2].ty)->0),
                forall|f2: int|
                    0 <= f2 < f && (#[trigger] spec_named_of(fields@[f2].ty)) is Some ==> roots@.contains(
                        spec_named_of(fields@[f2].ty)->0,
                    ),
                forall|a: int|
                    0 <= a < roots@.len() ==> r0.contains(#[trigger] roots@[a]) || msg_root(messages@, list@, roots@[a]),
            decreases fields@.len() - f,
        {
            proof {
                assert(crate::flatten::ref_below(messages@[m as int].fields@[f as int].ty, types@.len() as int));
            }
            if let Some(t) = named_of(fields[f].ty) {
                let ghost before = roots@;
                roots.push(t);
                proof {
                    lemma_push_contains(before, t);
                    assert(spec_named_of(messages@[list@[x as int] as int].fields@[f as int].ty) == Some(t));
                    assert(msg_root(messages@, list@, t));
                    assert forall|a: int| 0 <= a < roots@.len() implies r0.contains(#[trigger] roots@[a]) || msg_root(
                        messages@,
                        list@,
                        roots@[a],
                    ) by {
                        if a < before.len() {
                            assert(roots@[a] == before[a]);
                        }
                    }
                }
            }
            f += 1;
        }
        x += 1;
    }
    proof {
        assert forall|y: usize| msg_root(messages@, list@, y) implies #[trigger] roots@.contains(y) by {
            let (x2, f2) = choose|x2: int, f2: int|
                0 <= x2 < list@.len() && 0 <= f2 < messages@[list@[x2] as int].fields@.len() && #[trigger] spec_named_of(
                    messages@[list@[x2] as int].fields@[f2].ty,
                ) == Some(y);
        }
    }
}

/// The first command of a node other than `i` whose request is message `request`,
/// scanning nodes and their commands in declaration order.
fn find_command(data: &NetworkData, i: usize, request: usize) -> (r: Option<(usize, usize)>)
    ensures
        r matches Some((j, c)) ==> first_command(*data, i as int, request, j as int, c as int),
        r is None ==> !command_exists(*data, i as int, request),
        r matches Some((j, c)) ==> j != i && j < data.nodes@.len() && c
            < data.nodes@[j as int].commands@.len() && data.nodes@[j as int].commands@[c as int].request
            == request && forall|j2: int, c2: int|
            0 <= j2 < data.nodes@.len() && j2 != i && 0 <= c2 < data.nodes@[j2].commands@.len() && (j2
                < j || (j2 == j && c2 < c)) ==> #[trigger] data.nodes@[j2].commands@[c2].request
                != request,
        r is None ==> forall|j2: int, c2: int|
            0 <= j2 < data.nodes@.len() && j2 != i && 0 <= c2 < data.nodes@[j2].commands@.len()
                ==> #[trigger] data.nodes@[j2].commands@[c2].request != request,
{
    let mut j: usize = 0;
    while j < data.nodes.len()
        invariant
            j <= data.nodes@.len(),
            forall|j2: int, c2: int|
                0 <= j2 < j && j2 != i && 0 <= c2 < data.nodes@[j2].commands@.len()
                    ==> #[trigger] data.nodes@[j2].commands@[c2].request != request,
        decreases data.nodes@.len() - j,
    {
        if j != i {
            let cs = &data.nodes[j].commands;
            let mut c: usize = 0;
            while c < cs.len()
                invariant
                    j < data.nodes@.len(),
                    j != i,
                    cs == data.nodes@[j as int].commands,
                    c <= cs@.len(),
                    forall|j2: int, c2: int|
                        0 <= j2 < data.nodes@.len() && j2 != i && 0 <= c2 < data.nodes@[j2].commands@.len()
                            && (j2 < j || (j2 == j && c2 < c)) ==> #[trigger] data.nodes@[j2].commands@[c2].request
                            != request,
                decreases cs@.len() - c,
            {
                if cs[c].request == request {
                    return Some((j, c));
                }
                c += 1;
            }
        }
        j += 1;
    }
    None
}

/// A compiled message, before its role is known.
fn compile_message(
    decl: &MessageDecl,
    types: &Vec<NamedType>,
    names: &Vec<String>,
    bus: usize,
    id: MessageId,
) -> (r: Result<Message, ConfigError>)
    requires
        types_wf(types@),
        names@ == type_names(types@),
    ensures
        r matches Ok(msg) ==> formats(msg.signals@) == format_flat(types@, decl.format) && msg.name
            == decl.name && names_prefixed(msg.signals@, decl.name@),
        r matches Ok(msg) ==> msg.bus == bus && msg.id == id && contiguous(msg.signals@) && msg.dlc
            == byte_len(end_offset(msg.signals@)) && forall|f: int|
            0 <= f < msg.fields@.len() ==> crate::flatten::ref_below(
                #[trigger] msg.fields@[f].ty,
                types@.len() as int,
            ),
        r matches Err(e) ==> (e == ConfigError::PayloadTooLarge && crate::flatten::total_bits(
            format_flat(types@, decl.format),
        ) > u64::MAX) || ((e == ConfigError::InvalidType || e == ConfigError::InvalidRange)
            && bad_field(decl.format, names@, e)),
{
    let (signals, fields) = match compile_signals(types, names, &decl.name, &decl.format) {
        Ok(parts) => parts,
        Err(e) => {
            proof {
                if e != ConfigError::PayloadTooLarge {
                    if decl.format is Types {
                        let f = decl.format->Types_0;
                        let k = choose|k: int|
                            0 <= k < f@.len() && spec_resolve(#[trigger] f@[k].ty@, names@) == Err::<
                                TypeRef,
                                ConfigError,
                            >(e);
                        lemma_resolve_errors(f@[k].ty@, names@);
                        assert(bad_field(decl.format, names@, e));
                    }
                }
            }
            return Err(e);
        },
    };
    let end: u64 = if signals.len() == 0 {
        0
    } else {
        let last = &signals[signals.len() - 1];
        last.offset + last.format.primitive.bits() as u64
    };
    let dlc = dlc_of(end);
    let name = decl.name.clone();
    let description = decl.description.clone();
    Ok(
        Message {
            name,
            description,
            id,
            dlc,
            fields,
            signals,
            bus,
            usage: MessageUsage::External { interval_ms: 0 },
        },
    )
}

/// The first `k` compiled messages, before their roles are known.
pub open spec fn messages_ok(
    msgs: Seq<Message>,
    bus_of: Seq<usize>,
    ids: Seq<MessageId>,
    k: int,
    n_types: int,
) -> bool {
    forall|q: int|
        0 <= q < k ==> (#[trigger] msgs[q]).bus == bus_of[q] && msgs[q].id == ids[q] && contiguous(
            msgs[q].signals@,
        ) && msgs[q].dlc == byte_len(end_offset(msgs[q].signals@)) && forall|f: int|
            0 <= f < msgs[q].fields@.len() ==> crate::flatten::ref_below(
                #[trigger] msgs[q].fields@[f].ty,
                n_types,
            )
}

/// The first `nc` commands and `nt` tx streams of node `i` have given their
/// messages their roles.
pub open spec fn roles_ok(data: NetworkData, usages: Seq<Option<MessageUsage>>, i: int, nc: int, nt: int) -> bool {
    &&& forall|c: int|
        0 <= c < nc ==> usages[(#[trigger] data.nodes@[i].commands@[c]).request as int] == Some(
            MessageUsage::CommandRequest { node: i as usize, command: c as usize },
        ) && usages[data.nodes@[i].commands@[c].response as int] == Some(
            MessageUsage::CommandResponse { node: i as usize, command: c as usize },
        )
    &&& forall|t: int|
        0 <= t < nt ==> usages[(#[trigger] data.nodes@[i].tx_streams@[t]).message as int] == Some(
            MessageUsage::Stream { node: i as usize, stream: t as usize },
        )
}

pub open spec fn all_roles_ok(data: NetworkData, usages: Seq<Option<MessageUsage>>, i: int) -> bool {
    roles_ok(
        data,
        usages,
        i,
        data.nodes@[i].commands@.len() as int,
        data.nodes@[i].tx_streams@.len() as int,
    )
}

/// Commands and tx streams have given their messages their roles.
pub open spec fn roles_in(data: NetworkData, msgs: Seq<Message>) -> bool {
    &&& forall|i: int, c: int|
        0 <= i < data.nodes@.len() && 0 <= c < data.nodes@[i].commands@.len() ==> msgs[(#[trigger] data.nodes@[i].commands@[c]).request as int].usage
            == MessageUsage::CommandRequest { node: i as usize, command: c as usize } && msgs[data.nodes@[i].commands@[c].response as int].usage
            == MessageUsage::CommandResponse { node: i as usize, command: c as usize }
    &&& forall|i: int, t: int|
        0 <= i < data.nodes@.len() && 0 <= t < data.nodes@[i].tx_streams@.len() ==> msgs[(#[trigger] data.nodes@[i].tx_streams@[t]).message as int].usage
            == MessageUsage::Stream { node: i as usize, stream: t as usize }
}

/// Roles already given stay as they are.
proof fn lemma_roles_kept(
    data: NetworkData,
    u1: Seq<Option<MessageUsage>>,
    u2: Seq<Option<MessageUsage>>,
    i: int,
    nc: int,
    nt: int,
)
    requires
        data.wf(),
        0 <= i < data.nodes@.len(),
        nc <= data.nodes@[i].commands@.len(),
        nt <= data.nodes@[i].tx_streams@.len(),
        u1.len() == data.messages@.len(),
        u2.len() == u1.len(),
        roles_ok(data, u1, i, nc, nt),
        forall|m: int| 0 <= m < u1.len() && (#[trigger] u1[m]) is Some ==> u2[m] == u1[m],
    ensures
        roles_ok(data, u2, i, nc, nt),
{
    let nd = data.nodes@[i];
    assert(nd.wf(data.messages@.len(), data.buses@.len(), data.nodes@));
    assert forall|c: int| 0 <= c < nc implies u2[(#[trigger] data.nodes@[i].commands@[c]).request as int] == Some(
        MessageUsage::CommandRequest { node: i as usize, command: c as usize },
    ) && u2[data.nodes@[i].commands@[c].response as int] == Some(
        MessageUsage::CommandResponse { node: i as usize, command: c as usize },
    ) by {
        assert(u1[nd.commands@[c].request as int] is Some);
        assert(u1[nd.commands@[c].response as int] is Some);
    }
    assert forall|t: int| 0 <= t < nt implies u2[(#[trigger] data.nodes@[i].tx_streams@[t]).message as int] == Some(
        MessageUsage::Stream { node: i as usize, stream: t as usize },
    ) by {
        assert(u1[nd.tx_streams@[t].message as int] is Some);
    }
}

/// The signal formats of the first `k` messages are those their formats lay out.
pub open spec fn formats_ok(msgs: Seq<Message>, types: Seq<NamedType>, decls: Seq<MessageDecl>, k: int) -> bool {
    forall|q: int|
        0 <= q < k ==> formats((#[trigger] msgs[q]).signals@) == format_flat(types, decls[q].format)
            && msgs[q].name == decls[q].name && names_prefixed(msgs[q].signals@, decls[q].name@)
}

/// The first `i` linked nodes align their subscribed streams.
pub open spec fn nodes_ok(data: NetworkData, names: Seq<String>, nodes: Seq<Node>, i: int) -> bool {
    forall|x: int|
        0 <= x < i ==> node_linked(data, names, x, #[trigger] nodes[x]) && nodes[x].rx_streams@.len() == data.nodes@[x].rx_streams@.len()
            && forall|k: int|
            0 <= k < nodes[x].rx_streams@.len() ==> rx_stream_ok(data, x, k, #[trigger] nodes[x].rx_streams@[k])
}

/// Each message's bus, and no two messages sharing an identifier on one bus.
pub open spec fn placement_ok(data: NetworkData, bus_of: Seq<usize>, ids: Seq<MessageId>, n_buses: nat) -> bool {
    &&& bus_of.len() == data.messages@.len()
    &&& ids.len() == data.messages@.len()
    &&& forall|q: int| 0 <= q < bus_of.len() ==> Some(#[trigger] bus_of[q]) == spec_bus(data.messages@[q].bus, n_buses)
    &&& forall|a: int, b: int|
        0 <= a < ids.len() && 0 <= b < ids.len() && a != b && bus_of[a] == bus_of[b] ==> #[trigger] ids[a]
            != #[trigger] ids[b]
    &&& forall|q: int|
        0 <= q < ids.len() && (#[trigger] explicit_id(data.messages@[q].id)) is Some ==> Some(ids[q])
            == explicit_id(data.messages@[q].id)
}

/// Why compiling may fail: each error kind comes only with its cause among the
/// declarations (an undefined, cyclic or overflowing type; a descriptor that does
/// not resolve; a payload past the largest offset; a message without a bus among
/// several; clashing declared identifiers or a full identifier space; two roles
/// on one message).
pub open spec fn failure_explained(data: NetworkData, e: ConfigError) -> bool {
    &&& e is UndefinedType ==> has_undefined(data.types@)
    &&& (e is UndefinedType || e == ConfigError::CyclicType || e == ConfigError::EnumValueOverflow)
        ==> types_failure(data.types@, e)
    &&& (e == ConfigError::InvalidType || e == ConfigError::InvalidRange) ==> attribute_fails(
        data.types@,
        e,
    ) || exists|ts: Seq<NamedType>| #[trigger] elaborates(data.types@, ts) && use_fails(data, ts, e)
    &&& e == ConfigError::PayloadTooLarge ==> exists|ts: Seq<NamedType>|
        #[trigger] elaborates(data.types@, ts) && types_wf(ts) && payload_overflows(data, ts)
    &&& e == ConfigError::DuplicateId ==> exists|b: Seq<usize>|
        #[trigger] placed(data, b) && explicit_clash(templates_of(data), b)
    &&& e == ConfigError::IdSpaceExhausted ==> exists|b: Seq<usize>, m: int|
        placed(data, b) && 0 <= m < b.len() && #[trigger] space_full(templates_of(data), b, m)
    &&& e == ConfigError::UsageConflict ==> two_roles(data)
    &&& e == ConfigError::AmbiguousBus ==> data.buses@.len() > 1 && exists|m: int|
        0 <= m < data.messages@.len() && (#[trigger] data.messages@[m]).bus is None
}

/// What a compiled network holds of its declarations.
pub open spec fn compiled_from(data: NetworkData, net: Network) -> bool {
    &&& net.messages@.len() == data.messages@.len()
    &&& net.nodes@.len() == data.nodes@.len()
    &&& net.baudrate == match data.baudrate {
        Some(b) => b,
        None => DEFAULT_BAUDRATE,
    }
    &&& buses_from(data.buses@, net.baudrate, net.buses@)
    &&& net.buses@.len() == if data.buses@.len() == 0 {
        1
    } else {
        data.buses@.len()
    }
    &&& forall|m: int| 0 <= m < net.messages@.len() ==> (#[trigger] net.messages@[m]).bus < net.buses@.len()
    &&& data.buses@.len() == 0 ==> forall|m: int| 0 <= m < net.messages@.len() ==> (#[trigger] net.messages@[m]).bus == 0
    &&& forall|a: int, b: int|
        0 <= a < net.messages@.len() && 0 <= b < net.messages@.len() && a != b && net.messages@[a].bus
            == net.messages@[b].bus ==> #[trigger] net.messages@[a].id != #[trigger] net.messages@[b].id
    &&& forall|m: int|
        0 <= m < net.messages@.len() && (#[trigger] explicit_id(data.messages@[m].id)) is Some ==> Some(
            net.messages@[m].id,
        ) == explicit_id(data.messages@[m].id)
    &&& forall|m: int|
        0 <= m < net.messages@.len() ==> contiguous((#[trigger] net.messages@[m]).signals@)
            && net.messages@[m].dlc == byte_len(end_offset(net.messages@[m].signals@))
    &&& forall|m: int|
        0 <= m < net.messages@.len() && !claimed(data, m) ==> (#[trigger] net.messages@[m]).usage
            == external_usage(data.messages@[m])
    &&& net.messages@[data.get_req_message as int].usage == MessageUsage::GetReq
    &&& net.messages@[data.get_resp_message as int].usage == MessageUsage::GetResp
    &&& net.messages@[data.set_req_message as int].usage == MessageUsage::SetReq
    &&& net.messages@[data.set_resp_message as int].usage == MessageUsage::SetResp
    &&& types_wf(net.types@)
    &&& forall|i: int|
        0 <= i < net.nodes@.len() ==> node_types_ok(net.types@, net.messages@, data.nodes@[i], #[trigger] net.nodes@[i])
    &&& roles_in(data, net.messages@)
    &&& formats_ok(net.messages@, net.types@, data.messages@, net.messages@.len() as int)
    &&& elaborates(data.types@, net.types@)
    &&& forall|i: int| 0 <= i < net.nodes@.len() ==> node_linked(data, type_names(net.types@), i, #[trigger] net.nodes@[i])
    &&& forall|i: int|
        0 <= i < net.nodes@.len() ==> (#[trigger] net.nodes@[i]).rx_streams@.len()
            == data.nodes@[i].rx_streams@.len() && forall|k: int|
            0 <= k < net.nodes@[i].rx_streams@.len() ==> rx_stream_ok(
                data,
                i,
                k,
                #[trigger] net.nodes@[i].rx_streams@[k],
            )
}

impl NetworkBuilder {
    /// Compiles the declarations into a network stamped with `timestamp_ms`.
    /// A network without buses gets a single default bus; every message not used
    /// by the protocol, a command or a stream becomes an external one.
    pub fn build_at(&self, timestamp_ms: i64) -> (r: Result<Network, ConfigError>)
        requires
            self.wf(),
        ensures
            r matches Ok(net) ==> compiled_from(self.0, net) && net.timestamp_ms == timestamp_ms,
            r matches Err(e) ==> failure_explained(self.0, e),
    {
        let data = &self.0;
        let baudrate = match data.baudrate {
            Some(b) => b,
            None => DEFAULT_BAUDRATE,
        };
        let buses = compile_buses(&data.buses, baudrate);
        let (types, names) = match compile_types(data) {
            Ok(t) => t,
            Err(e) => return Err(e),
        };
        let n = data.messages.len();
        let mut chosen: Vec<Option<usize>> = Vec::new();
        let mut templates: Vec<MessageIdTemplate> = Vec::new();
        let mut m: usize = 0;
        while m < n
            invariant
                n == data.messages@.len(),
                m <= n,
                chosen@.len() == m,
                templates@.len() == m,
                forall|q: int| 0 <= q < m ==> #[trigger] chosen@[q] == data.messages@[q].bus,
                forall|q: int| 0 <= q < m ==> #[trigger] templates@[q] == data.messages@[q].id,
            decreases n - m,
        {
            chosen.push(data.messages[m].bus);
            templates.push(data.messages[m].id);
            m += 1;
        }
        let bus_of = match resolve_buses(&chosen, buses.len()) {
            Ok(b) => b,
            Err(e) => {
                proof {
                    let q = choose|q: int|
                        0 <= q < chosen@.len() && #[trigger] spec_bus(chosen@[q], buses@.len() as nat)
                            is None;
                    assert(data.messages@[q].bus is None);
                }
                return Err(e);
            },
        };
        let ids = match resolve_ids(&templates, &bus_of) {
            Ok(ids) => ids,
            Err(e) => {
                proof {
                    assert(templates@ =~= templates_of(*data));
                    assert(placed(*data, bus_of@));
                    if e == ConfigError::IdSpaceExhausted {
                        let q = choose|q: int| 0 <= q < templates@.len() && #[trigger] space_full(templates@, bus_of@, q);
                        assert(space_full(templates_of(*data), bus_of@, q));
                    } else {
                        assert(explicit_clash(templates_of(*data), bus_of@));
                    }
                }
                return Err(e);
            },
        };
        let mut messages: Vec<Message> = Vec::new();
        let mut m: usize = 0;
        while m < n
            invariant
                data.wf(),
                n == data.messages@.len() == bus_of@.len() == ids@.len() == chosen@.len(),
                self.0 == *data,
                elaborates(data.types@, types@),
                types_wf(types@),
                names@ == type_names(types@),
                m <= n,
                messages@.len() == m,
                messages_ok(messages@, bus_of@, ids@, m as int, types@.len() as int),
                formats_ok(messages@, types@, data.messages@, m as int),
            decreases n - m,
        {
            let msg = match compile_message(&data.messages[m], &types, &names, bus_of[m], ids[m]) {
                Ok(msg) => msg,
                Err(e) => {
                    proof {
                        if e == ConfigError::PayloadTooLarge {
                            assert(crate::flatten::total_bits(format_flat(types@, data.messages@[m as int].format)) > u64::MAX);
                            assert(payload_overflows(*data, types@));
                            assert(elaborates(data.types@, types@));
                        } else {
                            assert(bad_field(data.messages@[m as int].format, type_names(types@), e));
                            assert(use_fails(*data, types@, e));
                            assert(elaborates(data.types@, types@));
                        }
                        assert(failure_explained(*data, e));
                    }
                    return Err(e);
                },
            };
            messages.push(msg);
            m += 1;
        }
        proof {
            assert forall|q: int| 0 <= q < n implies #[trigger] chosen@[q] == data.messages@[q].bus by {}
            assert forall|q: int| 0 <= q < n && (#[trigger] explicit_id(data.messages@[q].id)) is Some implies Some(ids@[q])
                == explicit_id(data.messages@[q].id) by {
                assert(templates@[q] == data.messages@[q].id);
                assert(explicit_id(templates@[q]) is Some);
            }
            assert(placement_ok(*data, bus_of@, ids@, buses@.len() as nat));
        }
        let mut usages: Vec<Option<MessageUsage>> = Vec::new();
        let mut m: usize = 0;
        while m < n
            invariant
                m <= n,
                usages@.len() == m,
                forall|q: int| 0 <= q < m ==> (#[trigger] usages@[q]) is None,
            decreases n - m,
        {
            usages.push(None);
            m += 1;
        }
        assert(usages_ok(*data, usages@));
        let ghost d = *data;
        let ghost u0 = usages@;
        if claim(&mut usages, data.get_req_message, MessageUsage::GetReq).is_err() {
            return Err(ConfigError::UsageConflict);
        }
        let ghost u1 = usages@;
        if claim(&mut usages, data.get_resp_message, MessageUsage::GetResp).is_err() {
            proof {
                assert(u1[d.get_resp_message as int] == Some(MessageUsage::GetReq));
                assert(role_msg(d, MessageUsage::GetReq) == role_msg(d, MessageUsage::GetResp));
            }
            return Err(ConfigError::UsageConflict);
        }
        let ghost u2 = usages@;
        if claim(&mut usages, data.set_req_message, MessageUsage::SetReq).is_err() {
            proof {
                let w = u2[d.set_req_message as int]->0;
                assert(w == MessageUsage::GetReq || w == MessageUsage::GetResp);
                assert(role_msg(d, w) == role_msg(d, MessageUsage::SetReq));
            }
            return Err(ConfigError::UsageConflict);
        }
        let ghost u3 = usages@;
        if claim(&mut usages, data.set_resp_message, MessageUsage::SetResp).is_err() {
            proof {
                let w = u3[d.set_resp_message as int]->0;
                assert(w == MessageUsage::GetReq || w == MessageUsage::GetResp || w == MessageUsage::SetReq);
                assert(role_msg(d, w) == role_msg(d, MessageUsage::SetResp));
            }
            return Err(ConfigError::UsageConflict);
        }
        proof {
            assert forall|x: int| 0 <= x < usages@.len() && (#[trigger] usages@[x]) is Some implies role_msg(d, usages@[x]->0)
                == Some(x) && before_cursor(usages@[x]->0, 0, 0, 0, 0) by {
                assert(u0[x] is None);
            }
        }
        assert(usages_ok(*data, usages@)) by {
            assert forall|q: int| 0 <= q < usages@.len() && (#[trigger] usages@[q]) is Some implies claimed(*data, q) by {}
        }
        let ghost protocol = usages@;
        let mut nodes: Vec<Node> = Vec::new();
        let mut i: usize = 0;
        while i < data.nodes.len()
            invariant
                data.wf(),
                types_wf(types@),
                names@ == type_names(types@),
                messages@.len() == data.messages@.len(),
                usages_ok(*data, usages@),
                protocol.len() == usages@.len(),
                forall|q: int| 0 <= q < protocol.len() && (#[trigger] protocol[q]) is Some ==> usages@[q] == protocol[q],
                i <= data.nodes@.len(),
                self.0 == *data,
                elaborates(data.types@, types@),
                nodes@.len() == i,
                nodes_ok(*data, names@, nodes@, i as int),
                forall|x: int| 0 <= x < i ==> node_types_ok(types@, messages@, data.nodes@[x], #[trigger] nodes@[x]),
                forall|x: int| 0 <= x < i ==> #[trigger] all_roles_ok(*data, usages@, x),
                consistent(*data, usages@),
                fresh(usages@, i as int, 0, 0, 0),
                messages_ok(messages@, bus_of@, ids@, n as int, types@.len() as int),
                formats_ok(messages@, types@, data.messages@, n as int),
                placement_ok(*data, bus_of@, ids@, buses@.len() as nat),
                n == data.messages@.len(),
            decreases data.nodes@.len() - i,
        {
            proof {
                assert forall|q: int, f: int|
                    0 <= q < messages@.len() && 0 <= f < messages@[q].fields@.len() implies crate::flatten::ref_below(
                        #[trigger] messages@[q].fields@[f].ty,
                        types@.len() as int,
                    ) by {
                    assert(messages@[q].bus == bus_of@[q]);
                }
            }
            let ghost u_before = usages@;
            assert(forall|x: int| 0 <= x < i ==> #[trigger] all_roles_ok(*data, u_before, x));
            let node = match link_node(data, i, &types, &names, &messages, &mut usages) {
                Ok(node) => node,
                Err(e) => {
                    proof {
                        if e == ConfigError::UsageConflict {
                            assert(two_roles(*data));
                        } else {
                            assert(bad_entry(data.nodes@[i as int], type_names(types@), e));
                            assert(use_fails(*data, types@, e));
                            assert(elaborates(data.types@, types@));
                        }
                        assert(failure_explained(*data, e));
                    }
                    return Err(e);
                },
            };
            proof {
                assert forall|x: int| 0 <= x < i + 1 implies #[trigger] all_roles_ok(*data, usages@, x) by {
                    if x < i {
                        assert(all_roles_ok(*data, u_before, x));
                        lemma_roles_kept(
                            *data,
                            u_before,
                            usages@,
                            x,
                            data.nodes@[x].commands@.len() as int,
                            data.nodes@[x].tx_streams@.len() as int,
                        );
                    }
                }
            }
            nodes.push(node);
            i += 1;
        }
        let ghost compiled = messages@;
        let mut out: Vec<Message> = Vec::new();
        let mut m: usize = 0;
        while m < n
            invariant
                n == data.messages@.len() == compiled.len() == usages@.len(),
                data.wf(),
                messages_ok(compiled, bus_of@, ids@, n as int, types@.len() as int),
                formats_ok(compiled, types@, data.messages@, n as int),
                placement_ok(*data, bus_of@, ids@, buses@.len() as nat),
                nodes_ok(*data, names@, nodes@, data.nodes@.len() as int),
                forall|x: int| 0 <= x < data.nodes@.len() ==> node_types_ok(types@, compiled, data.nodes@[x], #[trigger] nodes@[x]),
                forall|x: int| 0 <= x < data.nodes@.len() ==> #[trigger] all_roles_ok(*data, usages@, x),
                nodes@.len() == data.nodes@.len(),
                types_wf(types@),
                usages_ok(*data, usages@),
                protocol.len() == usages@.len(),
                forall|q: int| 0 <= q < protocol.len() && (#[trigger] protocol[q]) is Some ==> usages@[q] == protocol[q],
                m <= n,
                out@.len() == m,
                messages@ == compiled.subrange(m as int, n as int),
                forall|q: int|
                    0 <= q < m ==> (#[trigger] out@[q]).bus == compiled[q].bus && out@[q].id == compiled[q].id
                        && out@[q].signals == compiled[q].signals && out@[q].dlc == compiled[q].dlc
                        && out@[q].name == compiled[q].name && out@[q].fields == compiled[q].fields
                        && out@[q].usage == match usages@[q] {
                        Some(u) => u,
                        None => external_usage(data.messages@[q]),
                    },
            decreases n - m,
        {
            let msg = messages.remove(0);
            let usage = match usages[m] {
                Some(u) => u,
                None => MessageUsage::External {
                    interval_ms: match data.messages[m].expected_interval_ms {
                        Some(i) => i,
                        None => DEFAULT_INTERVAL_MS,
                    },
                },
            };
            let Message { name, description, id, dlc, fields, signals, bus, usage: _ } = msg;
            out.push(Message { name, description, id, dlc, fields, signals, bus, usage });
            m += 1;
            assert(messages@ =~= compiled.subrange(m as int, n as int));
        }
        let net = Network {
            baudrate,
            timestamp_ms,
            nodes,
            messages: out,
            types,
            get_req_message: data.get_req_message,
            get_resp_message: data.get_resp_message,
            set_req_message: data.set_req_message,
            set_resp_message: data.set_resp_message,
            buses,
        };
        proof {
            let d = *data;
            let ms = net.messages@;
            assert forall|q: int| 0 <= q < compiled.len() implies (#[trigger] compiled[q]).fields == ms[q].fields by {}
            assert forall|i: int| 0 <= i < net.nodes@.len() implies node_types_ok(
                net.types@,
                ms,
                d.nodes@[i],
                #[trigger] net.nodes@[i],
            ) by {
                assert(d.nodes@[i].wf(d.messages@.len(), d.buses@.len(), d.nodes@));
                assert(node_types_ok(types@, compiled, d.nodes@[i], net.nodes@[i]));
                lemma_same_fields(compiled, ms, types@, d.nodes@[i], net.nodes@[i]);
            }
            assert(ms.len() == d.messages@.len());
            assert forall|q: int| 0 <= q < ms.len() implies (#[trigger] ms[q]).bus < net.buses@.len() by {
                assert(Some(bus_of@[q]) == spec_bus(d.messages@[q].bus, buses@.len() as nat));
                assert(ms[q].bus == compiled[q].bus);
                assert(compiled[q].bus == bus_of@[q]);
                if d.messages@[q].bus is Some {
                    assert(d.messages@[q].bus->0 < d.buses@.len());
                }
            }
            assert(d.buses@.len() == 0 ==> forall|q: int| 0 <= q < ms.len() ==> (#[trigger] ms[q]).bus == 0) by {
                if d.buses@.len() == 0 {
                    assert forall|q: int| 0 <= q < ms.len() implies (#[trigger] ms[q]).bus == 0 by {
                        assert(Some(bus_of@[q]) == spec_bus(d.messages@[q].bus, buses@.len() as nat));
                        assert(ms[q].bus == compiled[q].bus);
                        if d.messages@[q].bus is Some {
                            assert(d.messages@[q].bus->0 < d.buses@.len());
                        }
                    }
                }
            }
            assert forall|a: int, b: int|
                0 <= a < ms.len() && 0 <= b < ms.len() && a != b && ms[a].bus == ms[b].bus implies #[trigger] ms[a].id
                    != #[trigger] ms[b].id by {
                assert(ms[a].bus == compiled[a].bus && ms[b].bus == compiled[b].bus);
                assert(compiled[a].bus == bus_of@[a] && compiled[b].bus == bus_of@[b]);
                assert(ids@[a] != ids@[b]);
            }
            assert forall|q: int| 0 <= q < ms.len() && (#[trigger] explicit_id(d.messages@[q].id)) is Some implies Some(
                ms[q].id,
            ) == explicit_id(d.messages@[q].id) by {
                assert(ms[q].id == compiled[q].id);
                assert(compiled[q].id == ids@[q]);
            }
            assert forall|q: int| 0 <= q < ms.len() implies formats((#[trigger] ms[q]).signals@) == format_flat(
                net.types@,
                d.messages@[q].format,
            ) by {
                assert(ms[q].signals == compiled[q].signals);
                assert(formats(compiled[q].signals@) == format_flat(types@, d.messages@[q].format));
            }
            assert forall|q: int| 0 <= q < ms.len() implies contiguous((#[trigger] ms[q]).signals@)
                && ms[q].dlc == byte_len(end_offset(ms[q].signals@)) by {
                assert(ms[q].signals == compiled[q].signals);
                assert(contiguous(compiled[q].signals@));
            }
            assert forall|q: int| 0 <= q < ms.len() && !claimed(d, q) implies (#[trigger] ms[q]).usage
                == external_usage(d.messages@[q]) by {
                assert(usages@[q] is None);
            }
            assert forall|i: int, c: int|
                0 <= i < d.nodes@.len() && 0 <= c < d.nodes@[i].commands@.len() implies ms[(#[trigger] d.nodes@[i].commands@[c]).request as int].usage
                    == MessageUsage::CommandRequest { node: i as usize, command: c as usize } && ms[d.nodes@[i].commands@[c].response as int].usage
                    == MessageUsage::CommandResponse { node: i as usize, command: c as usize } by {
                assert(all_roles_ok(d, usages@, i));
                assert(d.nodes@[i].wf(d.messages@.len(), d.buses@.len(), d.nodes@));
                assert(d.nodes@[i].commands@[c].request < ms.len());
            }
            assert forall|i: int, t: int|
                0 <= i < d.nodes@.len() && 0 <= t < d.nodes@[i].tx_streams@.len() implies ms[(#[trigger] d.nodes@[i].tx_streams@[t]).message as int].usage
                    == MessageUsage::Stream { node: i as usize, stream: t as usize } by {
                assert(all_roles_ok(d, usages@, i));
                assert(d.nodes@[i].wf(d.messages@.len(), d.buses@.len(), d.nodes@));
                assert(d.nodes@[i].tx_streams@[t].message < ms.len());
            }
            assert(protocol[d.get_req_message as int] == Some(MessageUsage::GetReq));
            assert(ms[d.get_req_message as int].usage == MessageUsage::GetReq);
            assert(protocol[d.get_resp_message as int] == Some(MessageUsage::GetResp));
            assert(ms[d.get_resp_message as int].usage == MessageUsage::GetResp);
            assert(protocol[d.set_req_message as int] == Some(MessageUsage::SetReq));
            assert(ms[d.set_req_message as int].usage == MessageUsage::SetReq);
            assert(protocol[d.set_resp_message as int] == Some(MessageUsage::SetResp));
            assert(ms[d.set_resp_message as int].usage == MessageUsage::SetResp);
        }
        Ok(net)
    }

    /// Compiles the declarations into a network stamped with the current time.
    pub fn build(self) -> (r: Result<Network, ConfigError>)
        requires
            self.wf(),
        ensures
            r matches Ok(net) ==> compiled_from(self.0, net),
            r matches Err(e) ==> failure_explained(self.0, e),
    {
        let now = now_millis();
        self.build_at(now)
    }
}

/// Relies on `std::time::SystemTime::now`, chrono's `From<SystemTime>` for
/// `DateTime<Utc>` and `DateTime::timestamp_millis`: the current time in
/// milliseconds since the Unix epoch (negative for a clock before it). No time
/// zone is consulted. Nothing is promised of the value.
#[verifier::external_body]
fn now_millis() -> (r: i64) {
    chrono::DateTime::<chrono::Utc>::from(std::time::SystemTime::now()).timestamp_millis()
}

} // verus!
