//! Dependency-first ordering of a type graph by depth-first post-order, with
//! cycle detection by colour marking.
use vstd::prelude::*;

use crate::error::ConfigError;

verus! {

pub const WHITE: u8 = 0;

pub const GRAY: u8 = 1;

pub const BLACK: u8 = 2;

/// Every dependency names a node of the graph.
pub open spec fn deps_wf(deps: Seq<Vec<usize>>) -> bool {
    forall|i: int, k: int|
        0 <= i < deps.len() && 0 <= k < deps[i]@.len() ==> #[trigger] deps[i]@[k] < deps.len()
}

/// `d` stands in `order` before position `j`.
pub open spec fn before(order: Seq<usize>, d: usize, j: int) -> bool {
    exists|m: int| 0 <= m < j && #[trigger] order[m] == d
}

/// Every node's dependencies stand before it.
pub open spec fn deps_first(deps: Seq<Vec<usize>>, order: Seq<usize>) -> bool {
    forall|j: int, k: int|
        0 <= j < order.len() && 0 <= k < deps[order[j] as int]@.len() ==> before(
            order,
            #[trigger] deps[order[j] as int]@[k],
            j,
        )
}

/// `order` lists each node of the graph exactly once, dependencies first.
pub open spec fn is_topological(deps: Seq<Vec<usize>>, order: Seq<usize>) -> bool {
    &&& order.no_duplicates()
    &&& forall|j: int| 0 <= j < order.len() ==> order[j] < deps.len()
    &&& forall|i: usize| i < deps.len() ==> order.contains(i)
    &&& deps_first(deps, order)
}

/// Every node depends only on nodes before it.
pub open spec fn already_ordered(deps: Seq<Vec<usize>>) -> bool {
    forall|i: int, k: int| 0 <= i < deps.len() && 0 <= k < deps[i]@.len() ==> #[trigger] deps[i]@[k] < i
}

/// `w` is a cycle: each node depends on the next, and the last on the first.
pub open spec fn is_cycle(deps: Seq<Vec<usize>>, w: Seq<usize>) -> bool {
    &&& w.len() > 0
    &&& forall|i: int| 0 <= i < w.len() ==> w[i] < deps.len()
    &&& forall|i: int| 0 <= i < w.len() - 1 ==> deps[w[i] as int]@.contains(#[trigger] w[i + 1])
    &&& deps[w.last() as int]@.contains(w[0])
}

pub open spec fn has_cycle(deps: Seq<Vec<usize>>) -> bool {
    exists|w: Seq<usize>| is_cycle(deps, w)
}

pub open spec fn count_white(c: Seq<u8>) -> nat
    decreases c.len(),
{
    if c.len() == 0 {
        0
    } else {
        count_white(c.drop_last()) + if c.last() == WHITE {
            1nat
        } else {
            0nat
        }
    }
}

proof fn lemma_count_white(a: Seq<u8>, b: Seq<u8>, j: int)
    requires
        a.len() == b.len(),
        forall|i: int| 0 <= i < b.len() && b[i] == WHITE ==> a[i] == WHITE,
    ensures
        count_white(b) <= count_white(a),
        0 <= j < a.len() && a[j] == WHITE && b[j] != WHITE ==> count_white(b) < count_white(a),
    decreases a.len(),
{
    if a.len() > 0 {
        let a1 = a.drop_last();
        let b1 = b.drop_last();
        assert forall|i: int| 0 <= i < b1.len() && b1[i] == WHITE implies a1[i] == WHITE by {
            assert(b1[i] == b[i] && a1[i] == a[i]);
        }
        lemma_count_white(a1, b1, j);
    }
}

/// The colouring agrees with the order built so far.
pub open spec fn dfs_inv(deps: Seq<Vec<usize>>, color: Seq<u8>, order: Seq<usize>) -> bool {
    &&& color.len() == deps.len()
    &&& forall|i: int| 0 <= i < color.len() ==> color[i] <= BLACK
    &&& order.no_duplicates()
    &&& forall|j: int| 0 <= j < order.len() ==> order[j] < deps.len() && color[order[j] as int] == BLACK
    &&& forall|i: usize| i < deps.len() && color[i as int] == BLACK ==> order.contains(i)
    &&& deps_first(deps, order)
}

/// The gray nodes are exactly those on the path `stack`, each depending on the next.
pub open spec fn stack_ok(deps: Seq<Vec<usize>>, color: Seq<u8>, stack: Seq<usize>) -> bool {
    &&& forall|i: usize| i < deps.len() ==> (color[i as int] == GRAY <==> stack.contains(i))
    &&& forall|i: int| 0 <= i < stack.len() ==> stack[i] < deps.len()
    &&& forall|i: int|
        0 <= i < stack.len() - 1 ==> deps[stack[i] as int]@.contains(#[trigger] stack[i + 1])
}

fn visit(
    deps: &Vec<Vec<usize>>,
    u: usize,
    color: &mut Vec<u8>,
    order: &mut Vec<usize>,
    Ghost(stack): Ghost<Seq<usize>>,
) -> (r: bool)
    requires
        deps_wf(deps@),
        u < deps@.len(),
        old(color)@[u as int] == WHITE,
        dfs_inv(deps@, old(color)@, old(order)@),
        stack_ok(deps@, old(color)@, stack),
        stack.len() > 0 ==> deps@[stack.last() as int]@.contains(u),
    ensures
        final(color)@.len() == old(color)@.len(),
        forall|i: int|
            0 <= i < final(color)@.len() && final(color)@[i] == WHITE ==> old(color)@[i] == WHITE,
        r ==> dfs_inv(deps@, final(color)@, final(order)@),
        r ==> final(color)@[u as int] == BLACK,
        r ==> forall|i: int|
            0 <= i < final(color)@.len() ==> (final(color)@[i] == GRAY <==> old(color)@[i] == GRAY),
        r ==> forall|i: int|
            0 <= i < final(color)@.len() && old(color)@[i] == BLACK ==> final(color)@[i] == BLACK,
        !r ==> has_cycle(deps@),
        (forall|m: int|
            0 <= m < deps@[u as int]@.len() ==> old(color)@[#[trigger] deps@[u as int]@[m] as int]
                == BLACK) ==> r && final(order)@ == old(order)@.push(u) && final(color)@
            == old(color)@.update(u as int, BLACK),
    decreases count_white(old(color)@),
{
    let ghost c0 = color@;
    let ghost o0 = order@;
    let ghost simple = forall|m: int|
        0 <= m < deps@[u as int]@.len() ==> c0[#[trigger] deps@[u as int]@[m] as int] == BLACK;
    color.set(u, GRAY);
    let ghost c1 = color@;
    let ghost st = stack.push(u);
    proof {
        lemma_count_white(c0, c1, u as int);
        assert forall|i: usize| i < deps@.len() implies (c1[i as int] == GRAY <==> st.contains(i)) by {
            if i == u {
                assert(st[st.len() - 1] == u);
            } else {
                assert(c1[i as int] == c0[i as int]);
                if stack.contains(i) {
                    let m = choose|m: int| 0 <= m < stack.len() && stack[m] == i;
                    assert(st[m] == i);
                }
                if st.contains(i) {
                    let m = choose|m: int| 0 <= m < st.len() && st[m] == i;
                    assert(stack[m] == i);
                }
            }
        }
        assert forall|i: int| 0 <= i < st.len() - 1 implies deps@[st[i] as int]@.contains(
            #[trigger] st[i + 1],
        ) by {
            if i < stack.len() - 1 {
                assert(st[i] == stack[i] && st[i + 1] == stack[i + 1]);
            }
        }
        assert(forall|j: int| 0 <= j < order@.len() ==> order@[j] != u);
    }
    let ds = &deps[u];
    let mut k: usize = 0;
    while k < ds.len()
        invariant
            deps_wf(deps@),
            u < deps@.len(),
            ds@ == deps@[u as int]@,
            k <= ds@.len(),
            c0 == old(color)@,
            c1.len() == c0.len(),
            forall|i: int| 0 <= i < c0.len() && i != u ==> c1[i] == c0[i],
            c1[u as int] == GRAY,
            c0[u as int] == WHITE,
            color@.len() == c0.len(),
            color@[u as int] == GRAY,
            dfs_inv(deps@, color@, order@),
            stack_ok(deps@, color@, st),
            st.len() > 0 && st.last() == u,
            forall|i: int| 0 <= i < color@.len() && color@[i] == WHITE ==> c1[i] == WHITE,
            forall|i: int|
                0 <= i < color@.len() ==> (color@[i] == GRAY <==> c1[i] == GRAY),
            forall|i: int| 0 <= i < color@.len() && c0[i] == BLACK ==> color@[i] == BLACK,
            forall|m: int| 0 <= m < k ==> color@[ds@[m] as int] == BLACK,
            count_white(c1) < count_white(c0),
            simple == forall|m: int|
                0 <= m < deps@[u as int]@.len() ==> c0[#[trigger] deps@[u as int]@[m] as int] == BLACK,
            simple ==> order@ == o0 && color@ == c1,
            o0 == old(order)@,
        decreases ds@.len() - k,
    {
        let v = ds[k];
        assert(v < deps@.len());
        proof {
            if simple {
                assert(c0[deps@[u as int]@[k as int] as int] == BLACK);
                assert(v != u);
            }
        }
        if color[v] == GRAY {
            proof {
                assert(st.contains(v));
                let m = choose|m: int| 0 <= m < st.len() && st[m] == v;
                let w = st.subrange(m, st.len() as int);
                assert(w.last() == u);
                assert(ds@.contains(v));
                assert(w[0] == v);
                assert forall|i: int| 0 <= i < w.len() - 1 implies deps@[w[i] as int]@.contains(
                    #[trigger] w[i + 1],
                ) by {
                    assert(w[i] == st[m + i] && w[i + 1] == st[m + i + 1]);
                }
                assert(is_cycle(deps@, w));
            }
            return false;
        }
        if color[v] == WHITE {
            proof {
                lemma_count_white(c1, color@, 0);
                assert(ds@.contains(v));
            }
            let ghost cb = color@;
            if !visit(deps, v, color, order, Ghost(st)) {
                return false;
            }
            proof {
                assert forall|i: usize| i < deps@.len() implies (color@[i as int] == GRAY
                    <==> st.contains(i)) by {
                    assert(color@[i as int] == GRAY <==> cb[i as int] == GRAY);
                }
            }
        }
        k += 1;
    }
    let ghost ob = order@;
    let ghost cb = color@;
    order.push(u);
    color.set(u, BLACK);
    proof {
        if simple {
            assert(color@ =~= c0.update(u as int, BLACK));
        }
        assert(!ob.contains(u)) by {
            if ob.contains(u) {
                let m = choose|m: int| 0 <= m < ob.len() && ob[m] == u;
                assert(cb[u as int] == BLACK);
            }
        }
        assert forall|j: int| 0 <= j < order@.len() implies order@[j] < deps@.len()
            && color@[order@[j] as int] == BLACK by {
            if j < ob.len() {
                assert(order@[j] == ob[j]);
            }
        }
        assert forall|i: usize| i < deps@.len() && color@[i as int] == BLACK implies order@.contains(
            i,
        ) by {
            if i == u {
                assert(order@[ob.len() as int] == u);
            } else {
                assert(cb[i as int] == BLACK);
                let m = choose|m: int| 0 <= m < ob.len() && ob[m] == i;
                assert(order@[m] == i);
            }
        }
        assert forall|j: int, kk: int|
            0 <= j < order@.len() && 0 <= kk < deps@[order@[j] as int]@.len() implies before(
            order@,
            #[trigger] deps@[order@[j] as int]@[kk],
            j,
        ) by {
            let d = deps@[order@[j] as int]@[kk];
            if j < ob.len() {
                assert(order@[j] == ob[j]);
                assert(before(ob, d, j));
                let m = choose|m: int| 0 <= m < j && ob[m] == d;
                assert(order@[m] == d);
            } else {
                assert(order@[j] == u);
                assert(ds@[kk] == d);
                assert(cb[d as int] == BLACK);
                assert(ob.contains(d));
                let m = choose|m: int| 0 <= m < ob.len() && ob[m] == d;
                assert(order@[m] == d);
            }
        }
        assert(order@.no_duplicates()) by {
            assert forall|a: int, b: int|
                0 <= a < order@.len() && 0 <= b < order@.len() && a != b implies order@[a]
                != order@[b] by {
                if a < ob.len() && b < ob.len() {
                    assert(order@[a] == ob[a] && order@[b] == ob[b]);
                } else if a < ob.len() {
                    assert(order@[a] == ob[a]);
                } else if b < ob.len() {
                    assert(order@[b] == ob[b]);
                }
            }
        }
    }
    true
}

/// Orders the nodes of a dependency graph (`deps[i]` lists the nodes that node
/// `i` depends on) so that every node follows its dependencies, by depth-first
/// post-order from each node in turn; fails exactly on a cyclic graph.
pub fn topo_order(deps: &Vec<Vec<usize>>) -> (r: Result<Vec<usize>, ConfigError>)
    requires
        deps_wf(deps@),
    ensures
        r matches Ok(order) ==> is_topological(deps@, order@),
        r matches Err(e) ==> e == ConfigError::CyclicType && has_cycle(deps@),
        already_ordered(deps@) ==> (r matches Ok(order) && order@ == Seq::new(
            deps@.len(),
            |i: int| i as usize,
        )),
{
    let n = deps.len();
    let mut color: Vec<u8> = Vec::new();
    let mut i: usize = 0;
    while i < n
        invariant
            n == deps@.len(),
            i <= n,
            color@.len() == i,
            forall|j: int| 0 <= j < i ==> color@[j] == WHITE,
        decreases n - i,
    {
        color.push(WHITE);
        i += 1;
    }
    let mut order: Vec<usize> = Vec::new();
    let mut i: usize = 0;
    while i < n
        invariant
            deps_wf(deps@),
            n == deps@.len(),
            i <= n,
            dfs_inv(deps@, color@, order@),
            forall|j: int| 0 <= j < n ==> color@[j] != GRAY,
            forall|j: int| 0 <= j < i ==> color@[j] == BLACK,
            already_ordered(deps@) ==> order@ == Seq::new(i as nat, |x: int| x as usize) && forall|j: int|
                i <= j < n ==> color@[j] == WHITE,
        decreases n - i,
    {
        if color[i] == WHITE {
            let ghost cb = color@;
            let ghost ob = order@;
            proof {
                if already_ordered(deps@) {
                    assert forall|m: int| 0 <= m < deps@[i as int]@.len() implies cb[#[trigger] deps@[i as int]@[m] as int]
                        == BLACK by {
                        assert(deps@[i as int]@[m] < i);
                    }
                }
            }
            if !visit(deps, i, &mut color, &mut order, Ghost(Seq::empty())) {
                return Err(ConfigError::CyclicType);
            }
            proof {
                assert forall|j: int| 0 <= j < n implies color@[j] != GRAY by {
                    assert(cb[j] != GRAY);
                }
                if already_ordered(deps@) {
                    assert(order@ =~= Seq::new((i + 1) as nat, |x: int| x as usize));
                }
            }
        }
        i += 1;
    }
    proof {
        assert forall|j: usize| j < deps@.len() implies order@.contains(j) by {
            assert(color@[j as int] == BLACK);
        }
    }
    Ok(order)
}

} // verus!
