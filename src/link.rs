//! Identifier and bus resolution, and the positional mapping of subscribed streams.
use vstd::prelude::*;

use crate::decl::MessageIdTemplate;
use crate::error::ConfigError;
use crate::message::MessageId;

verus! {

/// The largest standard (11-bit) identifier.
pub const MAX_STD_ID: u32 = 0x7ff;

/// The largest extended (29-bit) identifier.
pub const MAX_EXT_ID: u32 = 0x1fff_ffff;

/// The object entry bound to `position` by the first pair that names it.
pub open spec fn mapped_at(mapping: Seq<(usize, usize)>, position: int, from: int) -> Option<usize>
    decreases mapping.len() - from,
{
    if from < 0 || from >= mapping.len() {
        None
    } else if mapping[from].0 == position {
        Some(mapping[from].1)
    } else {
        mapped_at(mapping, position, from + 1)
    }
}

fn first_mapped(mapping: &Vec<(usize, usize)>, p: usize) -> (r: Option<usize>)
    ensures
        r == mapped_at(mapping@, p as int, 0),
{
    let mut k: usize = 0;
    while k < mapping.len()
        invariant
            k <= mapping@.len(),
            mapped_at(mapping@, p as int, 0) == mapped_at(mapping@, p as int, k as int),
        decreases mapping@.len() - k,
    {
        if mapping[k].0 == p {
            return Some(mapping[k].1);
        }
        k += 1;
    }
    None
}

/// Aligns a subscriber's `(position, object entry)` pairs with a publisher's
/// `arity` positions: the entry at each requested position, `None` at every
/// other; pairs past the publisher's positions are ignored.
pub fn rx_mapping(arity: usize, mapping: &Vec<(usize, usize)>) -> (r: Vec<Option<usize>>)
    ensures
        r@.len() == arity,
        forall|p: int| 0 <= p < arity ==> #[trigger] r@[p] == mapped_at(mapping@, p, 0),
{
    let mut r: Vec<Option<usize>> = Vec::new();
    let mut p: usize = 0;
    while p < arity
        invariant
            p <= arity,
            r@.len() == p,
            forall|q: int| 0 <= q < p ==> #[trigger] r@[q] == mapped_at(mapping@, q, 0),
        decreases arity - p,
    {
        let found = first_mapped(mapping, p);
        r.push(found);
        p += 1;
    }
    r
}

/// The bus of each message: the one it names, else the only bus there is.
pub open spec fn spec_bus(chosen: Option<usize>, n_buses: nat) -> Option<usize> {
    match chosen {
        Some(b) => Some(b),
        None => if n_buses == 1 {
            Some(0usize)
        } else {
            None
        },
    }
}

/// Picks each message's bus; fails where a message names none and there is more
/// than one bus.
pub fn resolve_buses(chosen: &Vec<Option<usize>>, n_buses: usize) -> (r: Result<
    Vec<usize>,
    ConfigError,
>)
    ensures
        r matches Ok(buses) ==> buses@.len() == chosen@.len() && forall|m: int|
            0 <= m < chosen@.len() ==> Some(#[trigger] buses@[m]) == spec_bus(chosen@[m], n_buses as nat),
        r is Err <==> exists|m: int| 0 <= m < chosen@.len() && #[trigger] spec_bus(chosen@[m], n_buses as nat) is None,
        r matches Err(e) ==> e == ConfigError::AmbiguousBus,
{
    let mut buses: Vec<usize> = Vec::new();
    let mut m: usize = 0;
    while m < chosen.len()
        invariant
            m <= chosen@.len(),
            buses@.len() == m,
            forall|q: int| 0 <= q < m ==> Some(#[trigger] buses@[q]) == spec_bus(chosen@[q], n_buses as nat),
        decreases chosen@.len() - m,
    {
        let b = match chosen[m] {
            Some(b) => b,
            None => {
                if n_buses == 1 {
                    0
                } else {
                    assert(spec_bus(chosen@[m as int], n_buses as nat) is None);
                    return Err(ConfigError::AmbiguousBus);
                }
            },
        };
        buses.push(b);
        m += 1;
    }
    proof {
        assert forall|q: int| 0 <= q < chosen@.len() implies !(#[trigger] spec_bus(
            chosen@[q],
            n_buses as nat,
        ) is None) by {
            assert(Some(buses@[q]) == spec_bus(chosen@[q], n_buses as nat));
        }
    }
    Ok(buses)
}

pub open spec fn explicit_id(t: MessageIdTemplate) -> Option<MessageId> {
    match t {
        MessageIdTemplate::StdId(x) => Some(MessageId::StandardId(x)),
        MessageIdTemplate::ExtId(x) => Some(MessageId::ExtendedId(x)),
        _ => None,
    }
}

fn explicit_id_exec(t: MessageIdTemplate) -> (r: Option<MessageId>)
    ensures
        r == explicit_id(t),
{
    match t {
        MessageIdTemplate::StdId(x) => Some(MessageId::StandardId(x)),
        MessageIdTemplate::ExtId(x) => Some(MessageId::ExtendedId(x)),
        _ => None,
    }
}

/// The identifier numbered `c` in the space a placeholder asks for.
pub open spec fn in_space(t: MessageIdTemplate, c: u32) -> MessageId {
    match t {
        MessageIdTemplate::AnyExt => MessageId::ExtendedId(c),
        _ => MessageId::StandardId(c),
    }
}

pub open spec fn id_number(id: MessageId) -> u32 {
    match id {
        MessageId::StandardId(c) => c,
        MessageId::ExtendedId(c) => c,
    }
}

/// Some message other than `m`, on `m`'s bus, has identifier `id`.
pub open spec fn taken_by_other(buses: Seq<usize>, ids: Seq<Option<MessageId>>, m: int, id: MessageId) -> bool {
    exists|q: int| 0 <= q < ids.len() && q != m && buses[q] == buses[m] && #[trigger] ids[q] == Some(id)
}

/// Some message other than `m`, on `m`'s bus, has identifier `id`.
pub open spec fn used_by_other(buses: Seq<usize>, ids: Seq<MessageId>, m: int, id: MessageId) -> bool {
    exists|q: int| 0 <= q < ids.len() && q != m && buses[q] == buses[m] && #[trigger] ids[q] == id
}

/// Placeholder `m` got the smallest identifier of its space not used by another
/// message on its bus.
pub open spec fn smallest_free(t: MessageIdTemplate, buses: Seq<usize>, ids: Seq<MessageId>, m: int) -> bool {
    &&& ids[m] == in_space(t, id_number(ids[m]))
    &&& forall|c: u32| c < id_number(ids[m]) ==> #[trigger] used_by_other(buses, ids, m, in_space(t, c))
}

/// Two declared identifiers are equal on one bus.
pub open spec fn explicit_clash(templates: Seq<MessageIdTemplate>, buses: Seq<usize>) -> bool {
    exists|a: int, b: int|
        0 <= a < templates.len() && 0 <= b < templates.len() && a != b && buses[a] == buses[b]
            && explicit_id(templates[a]) is Some && #[trigger] explicit_id(templates[a])
            == #[trigger] explicit_id(templates[b])
}

/// The largest identifier of a placeholder's space.
pub open spec fn space_limit(t: MessageIdTemplate) -> u32 {
    match t {
        MessageIdTemplate::AnyExt => MAX_EXT_ID,
        _ => MAX_STD_ID,
    }
}

/// Another message on `m`'s bus declares `id`, or is a placeholder itself.
pub open spec fn held(templates: Seq<MessageIdTemplate>, buses: Seq<usize>, m: int, id: MessageId) -> bool {
    exists|q: int|
        0 <= q < templates.len() && q != m && buses[q] == buses[m] && (#[trigger] explicit_id(
            templates[q],
        ) == Some(id) || explicit_id(templates[q]) is None)
}

/// Placeholder `m` finds every identifier of its space held on its bus.
pub open spec fn space_full(templates: Seq<MessageIdTemplate>, buses: Seq<usize>, m: int) -> bool {
    &&& explicit_id(templates[m]) is None
    &&& forall|c: u32| c <= space_limit(templates[m]) ==> #[trigger] held(templates, buses, m, in_space(templates[m], c))
}

/// No two messages resolved so far share an identifier on one bus.
pub open spec fn distinct_so_far(buses: Seq<usize>, ids: Seq<Option<MessageId>>) -> bool {
    forall|a: int, b: int|
        0 <= a < ids.len() && 0 <= b < ids.len() && a != b && ids[a] is Some && ids[b] is Some
            && buses[a] == buses[b] ==> #[trigger] ids[a] != #[trigger] ids[b]
}

fn id_taken(buses: &Vec<usize>, ids: &Vec<Option<MessageId>>, bus: usize, id: MessageId) -> (r: bool)
    requires
        buses@.len() == ids@.len(),
    ensures
        r == exists|q: int| 0 <= q < ids@.len() && buses@[q] == bus && #[trigger] ids@[q] == Some(id),
{
    let mut q: usize = 0;
    while q < ids.len()
        invariant
            q <= ids@.len() == buses@.len(),
            forall|x: int| 0 <= x < q ==> !(buses@[x] == bus && #[trigger] ids@[x] == Some(id)),
        decreases ids@.len() - q,
    {
        if buses[q] == bus {
            match ids[q] {
                Some(other) => {
                    if other == id {
                        return true;
                    }
                },
                None => {},
            }
        }
        q += 1;
    }
    false
}

/// Gives every message a concrete identifier: declared ones are kept, and each
/// placeholder takes the smallest identifier of its space that is free on its bus,
/// in declaration order. Fails where two declared identifiers clash on one bus,
/// or where a space has no identifier left.
pub fn resolve_ids(templates: &Vec<MessageIdTemplate>, buses: &Vec<usize>) -> (r: Result<
    Vec<MessageId>,
    ConfigError,
>)
    requires
        templates@.len() == buses@.len(),
    ensures
        r matches Ok(ids) ==> ids@.len() == templates@.len() && (forall|m: int|
            0 <= m < ids@.len() && #[trigger] explicit_id(templates@[m]) is Some ==> Some(ids@[m])
                == explicit_id(templates@[m])) && forall|a: int, b: int|
            0 <= a < ids@.len() && 0 <= b < ids@.len() && a != b && buses@[a] == buses@[b] ==> #[trigger] ids@[a]
                != #[trigger] ids@[b],
        r matches Ok(ids) ==> forall|m: int|
            0 <= m < ids@.len() && #[trigger] explicit_id(templates@[m]) is None ==> smallest_free(
                templates@[m],
                buses@,
                ids@,
                m,
            ),
        r matches Err(e) ==> e == ConfigError::DuplicateId || e == ConfigError::IdSpaceExhausted,
        r is Err ==> (r == Err::<Vec<MessageId>, ConfigError>(ConfigError::DuplicateId) <==> explicit_clash(
            templates@,
            buses@,
        )),
        r == Err::<Vec<MessageId>, ConfigError>(ConfigError::IdSpaceExhausted) ==> exists|m: int|
            0 <= m < templates@.len() && #[trigger] space_full(templates@, buses@, m),
        r is Ok ==> !explicit_clash(templates@, buses@),
{
    let n = templates.len();
    let mut ids: Vec<Option<MessageId>> = Vec::new();
    let mut m: usize = 0;
    while m < n
        invariant
            n == templates@.len() == buses@.len(),
            m <= n,
            ids@.len() == m,
            forall|q: int| 0 <= q < m ==> #[trigger] ids@[q] == explicit_id(templates@[q]),
            distinct_so_far(buses@.subrange(0, m as int), ids@),
        decreases n - m,
    {
        let e = explicit_id_exec(templates[m]);
        let bus_prefix = slice_buses(buses, m);
        if let Some(id) = e {
            if id_taken(&bus_prefix, &ids, buses[m], id) {
                proof {
                    let q = choose|q: int|
                        0 <= q < ids@.len() && bus_prefix@[q] == buses@[m as int] && #[trigger] ids@[q]
                            == Some(id);
                    assert(explicit_id(templates@[q]) == Some(id));
                    assert(buses@[q] == bus_prefix@[q]);
                    assert(explicit_clash(templates@, buses@));
                }
                return Err(ConfigError::DuplicateId);
            }
        }
        let ghost before = ids@;
        ids.push(e);
        proof {
            let bs = buses@.subrange(0, m as int + 1);
            assert forall|a: int, b: int|
                0 <= a < ids@.len() && 0 <= b < ids@.len() && a != b && ids@[a] is Some
                    && ids@[b] is Some && bs[a] == bs[b] implies #[trigger] ids@[a]
                != #[trigger] ids@[b] by {
                if a < m && b < m {
                    assert(ids@[a] == before[a] && ids@[b] == before[b]);
                    assert(bs[a] == bus_prefix@[a] && bs[b] == bus_prefix@[b]);
                } else if a == m {
                    assert(ids@[b] == before[b]);
                    assert(bs[b] == bus_prefix@[b]);
                } else {
                    assert(ids@[a] == before[a]);
                    assert(bs[a] == bus_prefix@[a]);
                }
            }
        }
        m += 1;
    }
    assert(buses@.subrange(0, n as int) =~= buses@);
    let mut out: Vec<MessageId> = Vec::new();
    let mut m: usize = 0;
    while m < n
        invariant
            n == templates@.len() == buses@.len(),
            m <= n,
            ids@.len() == n,
            out@.len() == m,
            forall|q: int| 0 <= q < m ==> ids@[q] == Some(#[trigger] out@[q]),
            forall|q: int| m <= q < n ==> #[trigger] ids@[q] == explicit_id(templates@[q]),
            forall|q: int|
                0 <= q < n && #[trigger] explicit_id(templates@[q]) is Some ==> ids@[q] == explicit_id(
                    templates@[q],
                ),
            distinct_so_far(buses@, ids@),
            forall|q: int|
                0 <= q < m && #[trigger] explicit_id(templates@[q]) is None ==> out@[q] == in_space(
                    templates@[q],
                    id_number(out@[q]),
                ) && forall|c: u32|
                    c < id_number(out@[q]) ==> #[trigger] taken_by_other(
                        buses@,
                        ids@,
                        q,
                        in_space(templates@[q], c),
                    ),
        decreases n - m,
    {
        let ghost out0 = out@;
        let ghost ids0 = ids@;
        match ids[m] {
            Some(id) => {
                out.push(id);
            },
            None => {
                let extended = match templates[m] {
                    MessageIdTemplate::AnyExt => true,
                    _ => false,
                };
                assert(explicit_id(templates@[m as int]) is None);
                let limit: u32 = if extended {
                    MAX_EXT_ID
                } else {
                    MAX_STD_ID
                };
                let mut c: u32 = 0;
                let mut chosen: Option<MessageId> = None;
                let ghost mut full = false;
                while c <= limit
                    invariant_except_break
                        !full,
                    invariant
                        c <= limit,
                        limit == space_limit(templates@[m as int]),
                        full ==> chosen is None && forall|c2: u32|
                            c2 <= limit ==> #[trigger] taken_by_other(
                                buses@,
                                ids@,
                                m as int,
                                in_space(templates@[m as int], c2),
                            ),
                        ids@.len() == buses@.len(),
                        m < ids@.len(),
                        ids@[m as int] is None,
                        extended == (templates@[m as int] is AnyExt),
                        chosen matches Some(id) ==> !exists|q: int|
                            0 <= q < ids@.len() && buses@[q] == buses@[m as int] && #[trigger] ids@[q]
                                == Some(id),
                        chosen matches Some(id) ==> id == in_space(templates@[m as int], c),
                        forall|c2: u32|
                            c2 < c ==> #[trigger] taken_by_other(
                                buses@,
                                ids@,
                                m as int,
                                in_space(templates@[m as int], c2),
                            ),
                    ensures
                        chosen is Some || full,
                    decreases limit - c + 1,
                {
                    let id = if extended {
                        MessageId::ExtendedId(c)
                    } else {
                        MessageId::StandardId(c)
                    };
                    assert(id == in_space(templates@[m as int], c));
                    if !id_taken(buses, &ids, buses[m], id) {
                        chosen = Some(id);
                        break;
                    }
                    proof {
                        let q = choose|q: int|
                            0 <= q < ids@.len() && buses@[q] == buses@[m as int] && #[trigger] ids@[q]
                                == Some(id);
                        assert(q != m);
                        assert(taken_by_other(buses@, ids@, m as int, in_space(templates@[m as int], c)));
                    }
                    if c == limit {
                        proof {
                            assert forall|c2: u32| c2 <= limit implies #[trigger] taken_by_other(
                                buses@,
                                ids@,
                                m as int,
                                in_space(templates@[m as int], c2),
                            ) by {
                                if c2 < c {
                                } else {
                                    assert(c2 == c);
                                }
                            }
                            full = true;
                        }
                        break;
                    }
                    c += 1;
                }
                let id = match chosen {
                    Some(id) => id,
                    None => {
                        proof {
                            assert(full);
                            assert forall|c2: u32| c2 <= space_limit(templates@[m as int]) implies #[trigger] held(
                                templates@,
                                buses@,
                                m as int,
                                in_space(templates@[m as int], c2),
                            ) by {
                                assert(taken_by_other(buses@, ids@, m as int, in_space(templates@[m as int], c2)));
                                let q = choose|q: int|
                                    0 <= q < ids@.len() && q != m && buses@[q] == buses@[m as int] && #[trigger] ids@[q]
                                        == Some(in_space(templates@[m as int], c2));
                                if explicit_id(templates@[q]) is Some {
                                    assert(ids@[q] == explicit_id(templates@[q]));
                                }
                            }
                            assert(space_full(templates@, buses@, m as int));
                        }
                        return Err(ConfigError::IdSpaceExhausted);
                    },
                };
                let ghost before = ids@;
                ids.set(m, Some(id));
                proof {
                    assert forall|a: int, b: int|
                        0 <= a < ids@.len() && 0 <= b < ids@.len() && a != b && ids@[a] is Some
                            && ids@[b] is Some && buses@[a] == buses@[b] implies #[trigger] ids@[a]
                        != #[trigger] ids@[b] by {
                        if a != m && b != m {
                            assert(ids@[a] == before[a] && ids@[b] == before[b]);
                        } else if a == m {
                            assert(ids@[b] == before[b]);
                        } else {
                            assert(ids@[a] == before[a]);
                        }
                    }
                    assert forall|q: int, id2: MessageId|
                        0 <= q < ids@.len() && #[trigger] taken_by_other(buses@, before, q, id2) implies taken_by_other(
                        buses@,
                        ids@,
                        q,
                        id2,
                    ) by {
                        let w = choose|w: int|
                            0 <= w < before.len() && w != q && buses@[w] == buses@[q] && #[trigger] before[w]
                                == Some(id2);
                        assert(w != m);
                        assert(ids@[w] == before[w]);
                    }
                    assert(before == ids0);
                    assert forall|c2: u32| c2 < id_number(id) implies #[trigger] taken_by_other(
                        buses@,
                        ids@,
                        m as int,
                        in_space(templates@[m as int], c2),
                    ) by {
                        assert(taken_by_other(buses@, before, m as int, in_space(templates@[m as int], c2)));
                    }
                }
                out.push(id);
            },
        }
        proof {
            assert forall|q: int, id2: MessageId|
                0 <= q < ids@.len() && #[trigger] taken_by_other(buses@, ids0, q, id2) implies taken_by_other(
                buses@,
                ids@,
                q,
                id2,
            ) by {
                let w = choose|w: int|
                    0 <= w < ids0.len() && w != q && buses@[w] == buses@[q] && #[trigger] ids0[w]
                        == Some(id2);
                assert(ids0[w] is Some);
                assert(ids@[w] == ids0[w]);
            }
            assert forall|q: int|
                0 <= q < m + 1 && #[trigger] explicit_id(templates@[q]) is None implies out@[q] == in_space(
                    templates@[q],
                    id_number(out@[q]),
                ) && forall|c: u32|
                    c < id_number(out@[q]) ==> #[trigger] taken_by_other(
                        buses@,
                        ids@,
                        q,
                        in_space(templates@[q], c),
                    ) by {
                if q < m {
                    assert(out@[q] == out0[q]);
                    assert forall|c: u32| c < id_number(out@[q]) implies #[trigger] taken_by_other(
                        buses@,
                        ids@,
                        q,
                        in_space(templates@[q], c),
                    ) by {
                        assert(taken_by_other(buses@, ids0, q, in_space(templates@[q], c)));
                    }
                }
            }
        }
        m += 1;
    }
    proof {
        assert forall|a: int, b: int|
            0 <= a < out@.len() && 0 <= b < out@.len() && a != b && buses@[a] == buses@[b] implies #[trigger] out@[a]
            != #[trigger] out@[b] by {
            assert(ids@[a] == Some(out@[a]) && ids@[b] == Some(out@[b]));
        }
        assert forall|q: int|
            0 <= q < out@.len() && #[trigger] explicit_id(templates@[q]) is None implies smallest_free(
            templates@[q],
            buses@,
            out@,
            q,
        ) by {
            assert forall|c: u32| c < id_number(out@[q]) implies #[trigger] used_by_other(
                buses@,
                out@,
                q,
                in_space(templates@[q], c),
            ) by {
                assert(taken_by_other(buses@, ids@, q, in_space(templates@[q], c)));
                let w = choose|w: int|
                    0 <= w < ids@.len() && w != q && buses@[w] == buses@[q] && #[trigger] ids@[w]
                        == Some(in_space(templates@[q], c));
                assert(ids@[w] == Some(out@[w]));
            }
        }
    }
    Ok(out)
}

fn slice_buses(buses: &Vec<usize>, m: usize) -> (r: Vec<usize>)
    requires
        m <= buses@.len(),
    ensures
        r@ == buses@.subrange(0, m as int),
{
    let mut r: Vec<usize> = Vec::new();
    let mut i: usize = 0;
    while i < m
        invariant
            i <= m <= buses@.len(),
            r@ == buses@.subrange(0, i as int),
        decreases m - i,
    {
        r.push(buses[i]);
        i += 1;
        assert(r@ =~= buses@.subrange(0, i as int));
    }
    r
}

} // verus!
