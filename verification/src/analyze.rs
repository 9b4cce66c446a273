//! Linking the function nodes into a call graph and computing, for each
//! function, the worst-case stack usage of a call to it.
use vstd::prelude::*;
use crate::fn_node::{FnNode, FnInfo, LocalStackInfo, MaxStackInfo, file_name};
use crate::symtab::SymbolTable;
use crate::text::{views, copy_strings};

verus! {

// ---------------------------------------------------------------------------
// Resolving callees to nodes
// ---------------------------------------------------------------------------

/// The names of the nodes, in order.
pub open spec fn node_names(fns: Seq<FnNode>) -> Seq<Seq<char>> {
    fns.map_values(|f: FnNode| f.info.name@)
}

/// The position of the first name equal to `n`, or `names.len()` if none is.
pub open spec fn name_pos(names: Seq<Seq<char>>, n: Seq<char>) -> nat
    decreases names.len(),
{
    if names.len() == 0 {
        0
    } else if names[0] == n {
        0
    } else {
        1 + name_pos(names.drop_first(), n)
    }
}

/// The positions of the callees that are nodes, in call order.
pub open spec fn resolved_ids(names: Seq<Seq<char>>, children: Seq<Seq<char>>) -> Seq<usize>
    decreases children.len(),
{
    if children.len() == 0 {
        Seq::empty()
    } else {
        let rest = resolved_ids(names, children.drop_last());
        let p = name_pos(names, children.last());
        if p < names.len() {
            rest.push(p as usize)
        } else {
            rest
        }
    }
}

/// The callees that are not nodes, in call order.
pub open spec fn unresolved(names: Seq<Seq<char>>, children: Seq<Seq<char>>) -> Seq<Seq<char>>
    decreases children.len(),
{
    if children.len() == 0 {
        Seq::empty()
    } else {
        let rest = unresolved(names, children.drop_last());
        if name_pos(names, children.last()) < names.len() {
            rest
        } else {
            rest.push(children.last())
        }
    }
}

/// `name_pos` finds the first equal name.
pub proof fn lemma_name_pos(names: Seq<Seq<char>>, n: Seq<char>, i: int)
    requires
        0 <= i <= names.len(),
        forall|j: int| 0 <= j < i ==> names[j] != n,
        i < names.len() ==> names[i] == n,
    ensures
        name_pos(names, n) == i,
    decreases i,
{
    if i > 0 {
        let t = names.drop_first();
        assert forall|j: int| 0 <= j < i - 1 implies t[j] != n by {
            assert(t[j] == names[j + 1]);
        }
        lemma_name_pos(t, n, i - 1);
    }
}

/// The position of the first node named `name`, if any.
pub(crate) fn find_node_pos(fns: &Vec<FnNode>, name: &String) -> (r: usize)
    ensures
        r == name_pos(node_names(fns@), name@),
{
    let ghost names = node_names(fns@);
    let mut j: usize = 0;
    while j < fns.len()
        invariant
            j <= fns.len(),
            names == node_names(fns@),
            forall|k: int| 0 <= k < j ==> names[k] != name@,
        decreases fns.len() - j,
    {
        if fns[j].info.name == *name {
            proof {
                lemma_name_pos(names, name@, j as int);
            }
            return j;
        }
        j += 1;
    }
    proof {
        lemma_name_pos(names, name@, fns.len() as int);
    }
    j
}

/// Links each node to the nodes it calls: `children_ids` becomes the
/// positions of the callees that are nodes (the first node of that name), and
/// the callees that are not nodes are added to `children_missing`.
#[verifier::spinoff_prover]
pub fn populate_children_ids(fns: &mut Vec<FnNode>)
    ensures
        final(fns)@.len() == old(fns)@.len(),
        forall|i: int|
            #![trigger final(fns)@[i]]
            0 <= i < old(fns)@.len() ==> {
                &&& final(fns)@[i].info == old(fns)@[i].info
                &&& final(fns)@[i].children == old(fns)@[i].children
                &&& final(fns)@[i].local_stack == old(fns)@[i].local_stack
                &&& final(fns)@[i].max_stack == old(fns)@[i].max_stack
                &&& final(fns)@[i].children_ids@ == resolved_ids(
                    node_names(old(fns)@),
                    views(old(fns)@[i].children@),
                )
                &&& views(final(fns)@[i].children_missing@) == views(
                    old(fns)@[i].children_missing@,
                ) + unresolved(node_names(old(fns)@), views(old(fns)@[i].children@))
            },
{
    let ghost names = node_names(fns@);
    let ghost orig = fns@;
    let mut i: usize = 0;
    while i < fns.len()
        invariant
            i <= fns.len(),
            fns@.len() == orig.len(),
            node_names(fns@) == names,
            names == node_names(orig),
            forall|k: int|
                #![trigger fns@[k]]
                i <= k < orig.len() ==> fns@[k] == orig[k],
            forall|k: int|
                #![trigger fns@[k]]
                0 <= k < i ==> {
                    &&& fns@[k].info == orig[k].info
                    &&& fns@[k].children == orig[k].children
                    &&& fns@[k].local_stack == orig[k].local_stack
                    &&& fns@[k].max_stack == orig[k].max_stack
                    &&& fns@[k].children_ids@ == resolved_ids(names, views(orig[k].children@))
                    &&& views(fns@[k].children_missing@) == views(orig[k].children_missing@)
                        + unresolved(names, views(orig[k].children@))
                },
        decreases orig.len() - i,
    {
        let ghost cs = views(fns@[i as int].children@);
        let mut ids: Vec<usize> = Vec::new();
        let mut missing: Vec<String> = Vec::new();
        let mut m: usize = 0;
        let nch = fns[i].children.len();
        proof {
            assert(cs.take(0) =~= Seq::<Seq<char>>::empty());
            assert(views(missing@) =~= Seq::<Seq<char>>::empty());
        }
        while m < nch
            invariant
                m <= nch,
                i < fns@.len(),
                nch == fns@[i as int].children@.len(),
                cs == views(fns@[i as int].children@),
                names == node_names(fns@),
                ids@ == resolved_ids(names, cs.take(m as int)),
                views(missing@) == unresolved(names, cs.take(m as int)),
            decreases nch - m,
        {
            let p = find_node_pos(fns, &fns[i].children[m]);
            proof {
                assert(cs[m as int] == fns@[i as int].children@[m as int]@);
                assert(cs.take(m + 1).drop_last() =~= cs.take(m as int));
                assert(cs.take(m + 1).last() == cs[m as int]);
                assert(names.len() == fns@.len());
            }
            if p < fns.len() {
                ids.push(p);
            } else {
                let ghost before = views(missing@);
                let c = fns[i].children[m].clone();
                missing.push(c);
                proof {
                    assert(views(missing@) =~= before.push(cs[m as int]));
                }
            }
            m += 1;
        }
        proof {
            assert(cs.take(nch as int) =~= cs);
        }
        let ghost node0 = fns@[i as int];
        let ghost before_inner = fns@;
        let mut k: usize = 0;
        while k < missing.len()
            invariant
                k <= missing.len(),
                i < fns@.len(),
                fns@.len() == orig.len(),
                forall|j: int| #![trigger fns@[j]] 0 <= j < fns@.len() && j != i ==> fns@[j] == before_inner[j],
                fns@[i as int].info == node0.info,
                fns@[i as int].children == node0.children,
                fns@[i as int].local_stack == node0.local_stack,
                fns@[i as int].max_stack == node0.max_stack,
                fns@[i as int].children_ids == node0.children_ids,
                views(fns@[i as int].children_missing@) == views(node0.children_missing@) + views(
                    missing@,
                ).take(k as int),
            decreases missing.len() - k,
        {
            let c = missing[k].clone();
            let ghost before = views(fns@[i as int].children_missing@);
            fns[i].children_missing.push(c);
            proof {
                assert(views(fns@[i as int].children_missing@) =~= before.push(c@));
                assert(views(missing@).take(k + 1) =~= views(missing@).take(k as int).push(c@));
            }
            k += 1;
        }
        fns[i].children_ids = ids;
        proof {
            assert(views(missing@).take(missing.len() as int) =~= views(missing@));
            assert(node_names(fns@) =~= names);
        }
        i += 1;
    }
}


/// Every callee position of every node is a node.
pub open spec fn ids_in_range(fns: Seq<FnNode>) -> bool {
    forall|i: int, j: int|
        0 <= i < fns.len() && 0 <= j < fns[i].children_ids@.len() ==> #[trigger] fns[i].children_ids@[j]
            < fns.len()
}

/// Resolved positions are positions of nodes.
pub proof fn lemma_resolved_ids_in_range(names: Seq<Seq<char>>, children: Seq<Seq<char>>)
    ensures
        forall|j: int|
            0 <= j < resolved_ids(names, children).len() ==> #[trigger] resolved_ids(
                names,
                children,
            )[j] < names.len(),
    decreases children.len(),
{
    if children.len() > 0 {
        let rest = resolved_ids(names, children.drop_last());
        lemma_resolved_ids_in_range(names, children.drop_last());
        let p = name_pos(names, children.last());
        if p < names.len() {
            assert(resolved_ids(names, children) == rest.push(p as usize));
        }
    }
}

// ---------------------------------------------------------------------------
// Worst-case stack usage
// ---------------------------------------------------------------------------

/// A usage, if it fits in 32 bits.
pub open spec fn bounded(x: int) -> Option<int> {
    if x <= u32::MAX {
        Some(x)
    } else {
        None
    }
}

/// The largest of the values (0 for none), unknown if any of them is.
pub open spec fn opt_max(vals: Seq<Option<int>>) -> Option<int>
    decreases vals.len(),
{
    if vals.len() == 0 {
        Some(0)
    } else {
        match (opt_max(vals.drop_last()), vals.last()) {
            (Some(a), Some(b)) => Some(
                if b > a {
                    b
                } else {
                    a
                },
            ),
            _ => None,
        }
    }
}

/// The position of the first largest value.
pub open spec fn best_index(vals: Seq<Option<int>>) -> int
    decreases vals.len(),
{
    if vals.len() <= 1 {
        0
    } else {
        let b = best_index(vals.drop_last());
        if vals.last()->0 > vals[b]->0 {
            vals.len() - 1
        } else {
            b
        }
    }
}

/// The worst-case stack usage of a call to node `i` found by looking at most
/// `fuel` calls deep: its own usage plus the largest worst case among the
/// nodes it calls. It is unknown where the node's own usage is unknown, where
/// a callee's is, where the calls go deeper than `fuel` (as they do round a
/// cycle), and where it does not fit in 32 bits.
pub open spec fn stack_val(fns: Seq<FnNode>, i: int, fuel: nat) -> Option<int>
    decreases 2 * fuel,
{
    if fuel == 0 || i < 0 || i >= fns.len() {
        None
    } else {
        match fns[i].local_stack {
            None => None,
            Some(l) => match opt_max(child_values(fns, fns[i].children_ids@, (fuel - 1) as nat)) {
                Some(m) => bounded(l.usage + m),
                None => None,
            },
        }
    }
}

/// The worst cases of the callees `ch`, looking `fuel` calls deep.
pub open spec fn child_values(fns: Seq<FnNode>, ch: Seq<usize>, fuel: nat) -> Seq<Option<int>>
    decreases 2 * fuel + 1,
{
    ch.map_values(|c: usize| stack_val(fns, c as int, fuel))
}

/// The chain of calls below node `i` that reaches its worst case: at each step
/// the first callee with the largest worst case.
pub open spec fn stack_path(fns: Seq<FnNode>, i: int, fuel: nat) -> Seq<int>
    decreases fuel,
{
    if fuel == 0 || i < 0 || i >= fns.len() || fns[i].local_stack is None
        || fns[i].children_ids@.len() == 0 {
        Seq::empty()
    } else {
        let ch = fns[i].children_ids@;
        let c = ch[best_index(child_values(fns, ch, (fuel - 1) as nat))] as int;
        seq![c] + stack_path(fns, c, (fuel - 1) as nat)
    }
}

/// The worst-case stack usage of a call to node `i`: calls are followed as
/// deep as there are nodes, so it is known exactly when every node reachable
/// from `i` has a known usage, no cycle is reachable from `i`, and the sum
/// fits in 32 bits.
pub open spec fn max_stack_usage(fns: Seq<FnNode>, i: int) -> Option<int> {
    stack_val(fns, i, fns.len())
}

/// The nodes called, one below the other, on the way to the worst case.
pub open spec fn max_stack_path(fns: Seq<FnNode>, i: int) -> Seq<int> {
    stack_path(fns, i, fns.len())
}

/// What `opt_max` gives is known only if every value is, bounds them all,
/// and is the value at `best_index`.
pub proof fn lemma_opt_max(vals: Seq<Option<int>>)
    requires
        forall|j: int| 0 <= j < vals.len() && (#[trigger] vals[j]) is Some ==> vals[j]->0 >= 0,
    ensures
        opt_max(vals) is Some <==> forall|j: int| 0 <= j < vals.len() ==> (#[trigger] vals[j]) is Some,
        opt_max(vals) matches Some(m) ==> {
            &&& m >= 0
            &&& forall|j: int| 0 <= j < vals.len() ==> (#[trigger] vals[j])->0 <= m
            &&& vals.len() > 0 ==> 0 <= best_index(vals) < vals.len() && vals[best_index(vals)]->0
                == m
        },
    decreases vals.len(),
{
    if vals.len() > 0 {
        let p = vals.drop_last();
        lemma_opt_max(p);
        assert forall|j: int| 0 <= j < p.len() implies p[j] == vals[j] by {}
        if vals.len() > 1 {
            assert(0 <= best_index(p) < p.len() ==> p[best_index(p)] == vals[best_index(p)]);
        }
    }
}

/// Every known worst case is at least 0.
pub proof fn lemma_stack_val_nonneg(fns: Seq<FnNode>, i: int, fuel: nat)
    ensures
        stack_val(fns, i, fuel) matches Some(v) ==> v >= 0,
    decreases fuel,
{
    if fuel > 0 && 0 <= i < fns.len() && fns[i].local_stack is Some {
        let vals = child_values(fns, fns[i].children_ids@, (fuel - 1) as nat);
        assert forall|j: int| 0 <= j < vals.len() && (#[trigger] vals[j]) is Some implies vals[j]->0
            >= 0 by {
            lemma_stack_val_nonneg(fns, fns[i].children_ids@[j] as int, (fuel - 1) as nat);
        }
        lemma_opt_max(vals);
    }
}

/// The callee values that a known worst case rests on are all known.
pub proof fn lemma_children_known(fns: Seq<FnNode>, i: int, fuel: nat)
    requires
        stack_val(fns, i, fuel) is Some,
    ensures
        fuel > 0,
        0 <= i < fns.len(),
        fns[i].local_stack is Some,
        forall|j: int|
            0 <= j < fns[i].children_ids@.len() ==> (#[trigger] child_values(
                fns,
                fns[i].children_ids@,
                (fuel - 1) as nat,
            )[j]) is Some,
        opt_max(child_values(fns, fns[i].children_ids@, (fuel - 1) as nat)) matches Some(m)
            && m >= 0 && stack_val(fns, i, fuel) == Some(fns[i].local_stack->0.usage + m)
            && (forall|j: int|
            0 <= j < fns[i].children_ids@.len() ==> (#[trigger] child_values(
                fns,
                fns[i].children_ids@,
                (fuel - 1) as nat,
            )[j])->0 <= m) && (fns[i].children_ids@.len() > 0 ==> {
            let b = best_index(child_values(fns, fns[i].children_ids@, (fuel - 1) as nat));
            &&& 0 <= b < fns[i].children_ids@.len()
            &&& child_values(fns, fns[i].children_ids@, (fuel - 1) as nat)[b]->0 == m
        }),
{
    let vals = child_values(fns, fns[i].children_ids@, (fuel - 1) as nat);
    assert forall|j: int| 0 <= j < vals.len() && (#[trigger] vals[j]) is Some implies vals[j]->0
        >= 0 by {
        lemma_stack_val_nonneg(fns, fns[i].children_ids@[j] as int, (fuel - 1) as nat);
    }
    lemma_opt_max(vals);
}

/// Looking one call deeper changes nothing that is already known: neither
/// the worst case nor the chain that reaches it.
#[verifier::spinoff_prover]
pub proof fn lemma_stable(fns: Seq<FnNode>, i: int, fuel: nat)
    requires
        stack_val(fns, i, fuel) is Some,
    ensures
        stack_val(fns, i, fuel + 1) == stack_val(fns, i, fuel),
        stack_path(fns, i, fuel + 1) == stack_path(fns, i, fuel),
    decreases fuel,
{
    lemma_children_known(fns, i, fuel);
    let ch = fns[i].children_ids@;
    let lo = child_values(fns, ch, (fuel - 1) as nat);
    let hi = child_values(fns, ch, fuel);
    assert forall|j: int| 0 <= j < ch.len() implies #[trigger] hi[j] == lo[j] && stack_path(
        fns,
        ch[j] as int,
        fuel,
    ) == stack_path(fns, ch[j] as int, (fuel - 1) as nat) by {
        assert(lo[j] is Some);
        lemma_stable(fns, ch[j] as int, (fuel - 1) as nat);
    }
    assert(hi =~= lo);
}


/// A stored usage as a number.
pub open spec fn opt_int(o: Option<u32>) -> Option<int> {
    match o {
        Some(x) => Some(x as int),
        None => None,
    }
}

/// The table holds the worst case of every node looking `k` calls deep.
pub open spec fn table_at(fns: Seq<FnNode>, vals: Seq<Option<u32>>, k: nat) -> bool {
    &&& vals.len() == fns.len()
    &&& forall|x: int| 0 <= x < fns.len() ==> #[trigger] opt_int(vals[x]) == stack_val(fns, x, k)
}

/// For each node with a known worst case and some callee, `next` holds the
/// callee that the chain to the worst case goes through, looking `k` deep.
pub open spec fn next_at(fns: Seq<FnNode>, next: Seq<usize>, k: nat) -> bool {
    &&& next.len() == fns.len()
    &&& forall|x: int|
        0 <= x < fns.len() && stack_val(fns, x, k) is Some && fns[x].children_ids@.len() > 0
            && k > 0 ==> #[trigger] next[x] == fns[x].children_ids@[best_index(
            child_values(fns, fns[x].children_ids@, (k - 1) as nat),
        )]
}

/// The worst case of node `j` looking `k + 1` deep, from the table for `k`,
/// and the callee its chain goes through.
#[verifier::spinoff_prover]
fn node_round(fns: &Vec<FnNode>, prev: &Vec<Option<u32>>, j: usize, Ghost(k): Ghost<nat>) -> (r: (
    Option<u32>,
    usize,
))
    requires
        ids_in_range(fns@),
        j < fns@.len(),
        table_at(fns@, prev@, k),
    ensures
        opt_int(r.0) == stack_val(fns@, j as int, k + 1),
        r.0 is Some && fns@[j as int].children_ids@.len() > 0 ==> r.1
            == fns@[j as int].children_ids@[best_index(
            child_values(fns@, fns@[j as int].children_ids@, k),
        )],
{
    match &fns[j].local_stack {
        None => (None, 0),
        Some(l) => {
            let ids = &fns[j].children_ids;
            let ghost vals = child_values(fns@, ids@, k);
            let mut acc: Option<u32> = Some(0);
            let mut best: usize = 0;
            let mut m: usize = 0;
            proof {
                assert(vals.take(0) =~= Seq::<Option<int>>::empty());
            }
            while m < ids.len()
                invariant
                    ids_in_range(fns@),
                    j < fns@.len(),
                    *ids == fns@[j as int].children_ids,
                    table_at(fns@, prev@, k),
                    vals == child_values(fns@, ids@, k),
                    m <= ids.len(),
                    opt_int(acc) == opt_max(vals.take(m as int)),
                    m == 0 ==> best == 0,
                    acc is Some && m > 0 ==> best < m && vals[best as int]->0 == acc->0 && best
                        == best_index(vals.take(m as int)),
                decreases ids.len() - m,
            {
                let c = ids[m];
                proof {
                    assert(c < fns@.len());
                    assert(vals[m as int] == stack_val(fns@, c as int, k));
                    assert(opt_int(prev@[c as int]) == stack_val(fns@, c as int, k));
                    assert(vals.take(m + 1).drop_last() =~= vals.take(m as int));
                    assert(vals.take(m + 1).last() == vals[m as int]);
                    if m > 0 && acc is Some {
                        assert(vals.take(m + 1)[best as int] == vals[best as int]);
                    }
                }
                let pv = prev[c];
                acc = match (acc, pv) {
                    (Some(a), Some(b)) => {
                        if b > a {
                            best = m;
                            Some(b)
                        } else {
                            Some(a)
                        }
                    },
                    _ => None,
                };
                m += 1;
            }
            proof {
                assert(vals.take(ids.len() as int) =~= vals);
            }
            match acc {
                None => (None, 0),
                Some(mx) => match l.usage.checked_add(mx) {
                    Some(t) => {
                        let b = if ids.len() > 0 {
                            ids[best]
                        } else {
                            0
                        };
                        (Some(t), b)
                    },
                    None => (None, 0),
                },
            }
        },
    }
}

/// The worst case of every node, and the callee each chain goes through,
/// looking as many calls deep as there are nodes.
#[verifier::spinoff_prover]
fn max_stack_table(fns: &Vec<FnNode>) -> (r: (Vec<Option<u32>>, Vec<usize>))
    requires
        ids_in_range(fns@),
    ensures
        table_at(fns@, r.0@, fns@.len() as nat),
        next_at(fns@, r.1@, fns@.len() as nat),
{
    let n = fns.len();
    let mut vals: Vec<Option<u32>> = Vec::new();
    let mut next: Vec<usize> = Vec::new();
    let mut x: usize = 0;
    while x < n
        invariant
            x <= n,
            n == fns@.len(),
            vals@.len() == x,
            next@.len() == x,
            forall|y: int| 0 <= y < x ==> #[trigger] vals@[y] is None,
        decreases n - x,
    {
        vals.push(None);
        next.push(0);
        x += 1;
    }
    let mut k: usize = 0;
    let mut settled = false;
    while k < n && !settled
        invariant
            k <= n,
            n == fns@.len(),
            ids_in_range(fns@),
            table_at(fns@, vals@, k as nat),
            next_at(fns@, next@, k as nat),
            settled ==> k >= 1 && same_round(fns@, (k - 1) as nat, k as nat),
        decreases n - k,
    {
        let mut nv: Vec<Option<u32>> = Vec::new();
        let mut nn: Vec<usize> = Vec::new();
        let mut j: usize = 0;
        let mut changed = false;
        while j < n
            invariant
                j <= n,
                n == fns@.len(),
                ids_in_range(fns@),
                table_at(fns@, vals@, k as nat),
                nv@.len() == j,
                nn@.len() == j,
                forall|y: int|
                    0 <= y < j ==> #[trigger] opt_int(nv@[y]) == stack_val(fns@, y, (k + 1) as nat),
                forall|y: int|
                    0 <= y < j && stack_val(fns@, y, (k + 1) as nat) is Some
                        && fns@[y].children_ids@.len() > 0 ==> #[trigger] nn@[y]
                        == fns@[y].children_ids@[best_index(
                        child_values(fns@, fns@[y].children_ids@, k as nat),
                    )],
                !changed ==> forall|y: int|
                    0 <= y < j ==> #[trigger] stack_val(fns@, y, (k + 1) as nat) == stack_val(
                        fns@,
                        y,
                        k as nat,
                    ),
            decreases n - j,
        {
            let (v, b) = node_round(fns, &vals, j, Ghost(k as nat));
            proof {
                assert(opt_int(vals@[j as int]) == stack_val(fns@, j as int, k as nat));
            }
            if v != vals[j] {
                changed = true;
            }
            nv.push(v);
            nn.push(b);
            j += 1;
        }
        proof {
            if !changed {
                assert forall|y: int| 0 <= y < fns@.len() implies #[trigger] stack_val(fns@, y, k as nat)
                    == stack_val(fns@, y, (k + 1) as nat) by {}
            }
        }
        vals = nv;
        next = nn;
        k += 1;
        settled = !changed;
    }
    proof {
        if settled {
            let m = (k - 1) as nat;
            lemma_fixpoint(fns@, m, n as nat);
            lemma_fixpoint(fns@, m, (n - 1) as nat);
            assert forall|x: int| 0 <= x < fns@.len() implies #[trigger] opt_int(vals@[x])
                == stack_val(fns@, x, n as nat) by {
                assert(opt_int(vals@[x]) == stack_val(fns@, x, k as nat));
                assert(stack_val(fns@, x, m) == stack_val(fns@, x, k as nat));
                assert(stack_val(fns@, x, m) == stack_val(fns@, x, n as nat));
            }
            assert forall|x: int|
                0 <= x < fns@.len() && stack_val(fns@, x, n as nat) is Some
                    && fns@[x].children_ids@.len() > 0 && n > 0 implies #[trigger] next@[x]
                == fns@[x].children_ids@[best_index(
                child_values(fns@, fns@[x].children_ids@, (n - 1) as nat),
            )] by {
                let ch = fns@[x].children_ids@;
                assert(stack_val(fns@, x, m) == stack_val(fns@, x, k as nat));
                assert(stack_val(fns@, x, m) == stack_val(fns@, x, n as nat));
                assert forall|j: int| 0 <= j < ch.len() implies #[trigger] child_values(
                    fns@,
                    ch,
                    (n - 1) as nat,
                )[j] == child_values(fns@, ch, m)[j] by {
                    assert(ch[j] < fns@.len());
                    assert(stack_val(fns@, ch[j] as int, m) == stack_val(
                        fns@,
                        ch[j] as int,
                        (n - 1) as nat,
                    ));
                }
                assert(child_values(fns@, ch, (n - 1) as nat) =~= child_values(fns@, ch, m));
            }
        }
    }
    (vals, next)
}

/// The worst cases of all nodes are the same looking `a` and `b` calls deep.
pub open spec fn same_round(fns: Seq<FnNode>, a: nat, b: nat) -> bool {
    forall|y: int| 0 <= y < fns.len() ==> #[trigger] stack_val(fns, y, a) == stack_val(fns, y, b)
}

/// Worst cases one call deeper depend only on the worst cases at the depth
/// before.
proof fn lemma_round_determined(fns: Seq<FnNode>, a: nat, b: nat)
    requires
        ids_in_range(fns),
        same_round(fns, a, b),
    ensures
        same_round(fns, a + 1, b + 1),
{
    assert forall|y: int| 0 <= y < fns.len() implies #[trigger] stack_val(fns, y, a + 1) == stack_val(
        fns,
        y,
        b + 1,
    ) by {
        let ch = fns[y].children_ids@;
        assert forall|j: int| 0 <= j < ch.len() implies #[trigger] child_values(fns, ch, a)[j]
            == child_values(fns, ch, b)[j] by {
            assert(ch[j] < fns.len());
            assert(stack_val(fns, ch[j] as int, a) == stack_val(fns, ch[j] as int, b));
        }
        assert(child_values(fns, ch, a) =~= child_values(fns, ch, b));
    }
}

/// Once a round changes nothing, no later round does.
proof fn lemma_fixpoint(fns: Seq<FnNode>, k: nat, m: nat)
    requires
        ids_in_range(fns),
        same_round(fns, k, k + 1),
        k <= m,
    ensures
        same_round(fns, k, m),
    decreases m - k,
{
    if k < m {
        lemma_fixpoint(fns, k, (m - 1) as nat);
        lemma_round_determined(fns, k, (m - 1) as nat);
        assert forall|y: int| 0 <= y < fns.len() implies #[trigger] stack_val(fns, y, k) == stack_val(
            fns,
            y,
            m,
        ) by {
            assert(stack_val(fns, y, k) == stack_val(fns, y, k + 1));
            assert(stack_val(fns, y, (k + 1) as nat) == stack_val(fns, y, ((m - 1) + 1) as nat));
        }
    }
}

/// The names of the nodes in the chain of calls to the worst case of node `i`.
#[verifier::spinoff_prover]
fn call_path_names(fns: &Vec<FnNode>, next: &Vec<usize>, i: usize) -> (r: Vec<String>)
    requires
        ids_in_range(fns@),
        i < fns@.len(),
        next_at(fns@, next@, fns@.len() as nat),
        max_stack_usage(fns@, i as int) is Some,
    ensures
        views(r@) == max_stack_path(fns@, i as int).map_values(|c: int| fns@[c].info.name@),
{
    let ghost n = fns@.len() as nat;
    let ghost full = stack_path(fns@, i as int, n);
    let ghost mut ps: Seq<int> = Seq::empty();
    let mut r: Vec<String> = Vec::new();
    let mut x: usize = i;
    proof {
        assert(ps + full =~= full);
        assert(views(r@) =~= ps.map_values(|c: int| fns@[c].info.name@));
    }
    while fns[x].children_ids.len() > 0
        invariant
            ids_in_range(fns@),
            n == fns@.len(),
            x < fns@.len(),
            next_at(fns@, next@, n),
            stack_val(fns@, x as int, n) is Some,
            ps + stack_path(fns@, x as int, n) == full,
            views(r@) == ps.map_values(|c: int| fns@[c].info.name@),
        decreases stack_path(fns@, x as int, n).len(),
    {
        proof {
            lemma_children_known(fns@, x as int, n);
        }
        let c = next[x];
        proof {
            let ch = fns@[x as int].children_ids@;
            let b = best_index(child_values(fns@, ch, (n - 1) as nat));
            assert(c == ch[b]);
            assert(child_values(fns@, ch, (n - 1) as nat)[b] == stack_val(
                fns@,
                c as int,
                (n - 1) as nat,
            ));
            lemma_stable(fns@, c as int, (n - 1) as nat);
            assert(c < fns@.len());
            assert(stack_path(fns@, x as int, n) == seq![c as int] + stack_path(
                fns@,
                c as int,
                (n - 1) as nat,
            ));
        }
        let name = fns[c].info.name.clone();
        let ghost before = views(r@);
        r.push(name);
        proof {
            assert(views(r@) =~= before.push(fns@[c as int].info.name@));
            assert(ps.push(c as int).map_values(|d: int| fns@[d].info.name@) =~= ps.map_values(
                |d: int| fns@[d].info.name@,
            ).push(fns@[c as int].info.name@));
            assert(ps.push(c as int) + stack_path(fns@, c as int, n) =~= ps + stack_path(
                fns@,
                x as int,
                n,
            ));
            ps = ps.push(c as int);
        }
        x = c;
    }
    proof {
        lemma_children_known(fns@, x as int, n);
        assert(stack_path(fns@, x as int, n) =~= Seq::<int>::empty());
        assert(ps =~= full);
    }
    r
}


/// The two node lists describe the same call graph: same functions, own
/// usages and callee positions.
pub open spec fn same_graph(a: Seq<FnNode>, b: Seq<FnNode>) -> bool {
    &&& a.len() == b.len()
    &&& forall|i: int|
        #![trigger a[i]]
        0 <= i < a.len() ==> a[i].info == b[i].info && a[i].local_stack == b[i].local_stack
            && a[i].children_ids == b[i].children_ids
}

/// Worst cases and their chains depend on the call graph alone.
pub proof fn lemma_same_graph(a: Seq<FnNode>, b: Seq<FnNode>, i: int, fuel: nat)
    requires
        same_graph(a, b),
    ensures
        stack_val(a, i, fuel) == stack_val(b, i, fuel),
        stack_path(a, i, fuel) == stack_path(b, i, fuel),
    decreases fuel,
{
    if fuel > 0 && 0 <= i < a.len() {
        assert(a[i].children_ids == b[i].children_ids);
        let ch = a[i].children_ids@;
        let va = child_values(a, ch, (fuel - 1) as nat);
        let vb = child_values(b, ch, (fuel - 1) as nat);
        assert forall|j: int| 0 <= j < ch.len() implies #[trigger] va[j] == vb[j] && stack_path(
            a,
            ch[j] as int,
            (fuel - 1) as nat,
        ) == stack_path(b, ch[j] as int, (fuel - 1) as nat) by {
            lemma_same_graph(a, b, ch[j] as int, (fuel - 1) as nat);
        }
        assert(va =~= vb);
        lemma_same_graph(a, b, ch[best_index(va)] as int, (fuel - 1) as nat);
    }
}

/// The chain of calls runs through nodes only.
pub proof fn lemma_path_in_range(fns: Seq<FnNode>, i: int, fuel: nat)
    requires
        ids_in_range(fns),
    ensures
        forall|j: int|
            0 <= j < stack_path(fns, i, fuel).len() ==> 0 <= #[trigger] stack_path(fns, i, fuel)[j]
                < fns.len(),
    decreases fuel,
{
    if fuel > 0 && 0 <= i < fns.len() && fns[i].local_stack is Some
        && fns[i].children_ids@.len() > 0 {
        let ch = fns[i].children_ids@;
        let b = best_index(child_values(fns, ch, (fuel - 1) as nat));
        let c = ch[b] as int;
        lemma_path_in_range(fns, c, (fuel - 1) as nat);
        lemma_best_index_in_range(child_values(fns, ch, (fuel - 1) as nat));
        assert(0 <= c < fns.len());
        let p = stack_path(fns, i, fuel);
        assert(p == seq![c] + stack_path(fns, c, (fuel - 1) as nat));
        assert forall|j: int| 0 <= j < p.len() implies 0 <= #[trigger] p[j] < fns.len() by {
            if j > 0 {
                assert(p[j] == stack_path(fns, c, (fuel - 1) as nat)[j - 1]);
            }
        }
    }
}

/// `best_index` points into a non-empty sequence.
pub proof fn lemma_best_index_in_range(vals: Seq<Option<int>>)
    ensures
        vals.len() > 0 ==> 0 <= best_index(vals) < vals.len(),
    decreases vals.len(),
{
    if vals.len() > 1 {
        lemma_best_index_in_range(vals.drop_last());
    }
}

/// Naming the nodes of a chain gives the same names in two lists that
/// describe the same graph.
pub proof fn lemma_same_graph_names(a: Seq<FnNode>, b: Seq<FnNode>, i: int)
    requires
        same_graph(a, b),
        ids_in_range(b),
    ensures
        max_stack_path(a, i).map_values(|c: int| a[c].info.name@) == max_stack_path(
            b,
            i,
        ).map_values(|c: int| b[c].info.name@),
{
    lemma_same_graph(a, b, i, a.len());
    lemma_path_in_range(b, i, b.len());
    let p = max_stack_path(b, i);
    assert forall|j: int| 0 <= j < p.len() implies a[p[j]].info.name@ == b[p[j]].info.name@ by {
        assert(0 <= p[j] < b.len());
    }
    assert(max_stack_path(a, i).map_values(|c: int| a[c].info.name@) =~= p.map_values(
        |c: int| b[c].info.name@,
    ));
}

/// What was found of a node's worst case.
enum ComputedMaxStack {
    Value(Option<MaxStackInfo>),
    AlreadyComputed,
}

/// The worst case of node `i`, unless it already has one.
fn compute_max_stack(fns: &Vec<FnNode>, i: usize, vals: &Vec<Option<u32>>, next: &Vec<usize>) -> (r:
    ComputedMaxStack)
    requires
        ids_in_range(fns@),
        i < fns@.len(),
        table_at(fns@, vals@, fns@.len() as nat),
        next_at(fns@, next@, fns@.len() as nat),
    ensures
        match r {
            ComputedMaxStack::AlreadyComputed => fns@[i as int].max_stack is Some,
            ComputedMaxStack::Value(v) => {
                &&& fns@[i as int].max_stack is None
                &&& v is Some <==> max_stack_usage(fns@, i as int) is Some
                &&& v matches Some(ms) ==> ms.usage == max_stack_usage(fns@, i as int)->0 && views(
                    ms.call_path@,
                ) == max_stack_path(fns@, i as int).map_values(|c: int| fns@[c].info.name@)
            },
        },
{
    if fns[i].max_stack.is_some() {
        return ComputedMaxStack::AlreadyComputed;
    }
    proof {
        assert(opt_int(vals@[i as int]) == stack_val(fns@, i as int, fns@.len() as nat));
    }
    match vals[i] {
        Some(u) => {
            let call_path = call_path_names(fns, next, i);
            ComputedMaxStack::Value(Some(MaxStackInfo { usage: u, call_path }))
        },
        None => ComputedMaxStack::Value(None),
    }
}

/// Links the nodes into a call graph (see `populate_children_ids`) and gives
/// every node that has none yet its worst-case stack usage, where that is
/// known, with the chain of calls that reaches it.
#[verifier::spinoff_prover]
pub fn analyze_nodes(ctx: &crate::config::Context, fns: &mut Vec<FnNode>)
    ensures
        final(fns)@.len() == old(fns)@.len(),
        forall|i: int|
            #![trigger final(fns)@[i]]
            0 <= i < old(fns)@.len() ==> {
                &&& final(fns)@[i].info == old(fns)@[i].info
                &&& final(fns)@[i].children == old(fns)@[i].children
                &&& final(fns)@[i].local_stack == old(fns)@[i].local_stack
                &&& final(fns)@[i].children_ids@ == resolved_ids(
                    node_names(old(fns)@),
                    views(old(fns)@[i].children@),
                )
                &&& views(final(fns)@[i].children_missing@) == views(
                    old(fns)@[i].children_missing@,
                ) + unresolved(node_names(old(fns)@), views(old(fns)@[i].children@))
                &&& old(fns)@[i].max_stack is Some ==> final(fns)@[i].max_stack == old(
                    fns,
                )@[i].max_stack
                &&& old(fns)@[i].max_stack is None ==> {
                    &&& final(fns)@[i].max_stack is Some <==> max_stack_usage(final(fns)@, i) is Some
                    &&& final(fns)@[i].max_stack matches Some(ms) ==> ms.usage == max_stack_usage(
                        final(fns)@,
                        i,
                    )->0 && views(ms.call_path@) == max_stack_path(final(fns)@, i).map_values(
                        |c: int| final(fns)@[c].info.name@,
                    )
                }
            },
{
    populate_children_ids(fns);
    let ghost g = fns@;
    proof {
        assert forall|i: int, j: int|
            0 <= i < g.len() && 0 <= j < g[i].children_ids@.len() implies #[trigger] g[i].children_ids@[j]
            < g.len() by {
            lemma_resolved_ids_in_range(node_names(old(fns)@), views(old(fns)@[i].children@));
        }
    }
    let (vals, next) = max_stack_table(fns);
    let n = fns.len();
    let mut i: usize = 0;
    while i < n
        invariant
            i <= n,
            n == fns@.len(),
            n == g.len(),
            ids_in_range(g),
            same_graph(fns@, g),
            table_at(g, vals@, n as nat),
            next_at(g, next@, n as nat),
            forall|k: int|
                #![trigger fns@[k]]
                0 <= k < n ==> fns@[k].children == g[k].children && fns@[k].children_missing
                    == g[k].children_missing,
            forall|k: int| #![trigger fns@[k]] i <= k < n ==> fns@[k].max_stack == g[k].max_stack,
            forall|k: int|
                #![trigger fns@[k]]
                0 <= k < i ==> {
                    &&& g[k].max_stack is Some ==> fns@[k].max_stack == g[k].max_stack
                    &&& g[k].max_stack is None ==> {
                        &&& fns@[k].max_stack is Some <==> max_stack_usage(g, k) is Some
                        &&& fns@[k].max_stack matches Some(ms) ==> ms.usage == max_stack_usage(
                            g,
                            k,
                        )->0 && views(ms.call_path@) == max_stack_path(g, k).map_values(
                            |c: int| g[c].info.name@,
                        )
                    }
                },
        decreases n - i,
    {
        proof {
            assert forall|x: int| 0 <= x < n implies #[trigger] opt_int(vals@[x]) == stack_val(
                fns@,
                x,
                n as nat,
            ) by {
                lemma_same_graph(fns@, g, x, n as nat);
                assert(opt_int(vals@[x]) == stack_val(g, x, n as nat));
            }
            assert forall|x: int|
                0 <= x < n && stack_val(fns@, x, n as nat) is Some && fns@[x].children_ids@.len()
                    > 0 && n > 0 implies #[trigger] next@[x] == fns@[x].children_ids@[best_index(
                child_values(fns@, fns@[x].children_ids@, (n - 1) as nat),
            )] by {
                lemma_same_graph(fns@, g, x, n as nat);
                assert(fns@[x].children_ids == g[x].children_ids);
                let ch = g[x].children_ids@;
                lemma_best_index_in_range(child_values(g, ch, (n - 1) as nat));
                assert(child_values(fns@, ch, (n - 1) as nat) =~= child_values(
                    g,
                    ch,
                    (n - 1) as nat,
                )) by {
                    assert forall|j: int| 0 <= j < ch.len() implies #[trigger] child_values(
                        fns@,
                        ch,
                        (n - 1) as nat,
                    )[j] == child_values(g, ch, (n - 1) as nat)[j] by {
                        lemma_same_graph(fns@, g, ch[j] as int, (n - 1) as nat);
                    }
                }
            }
            assert forall|a: int, b: int|
                0 <= a < n && 0 <= b < fns@[a].children_ids@.len() implies #[trigger] fns@[a].children_ids@[b]
                < n by {
                assert(fns@[a].children_ids == g[a].children_ids);
            }
            lemma_same_graph(fns@, g, i as int, n as nat);
        }
        let r = compute_max_stack(fns, i, &vals, &next);
        proof {
            lemma_same_graph(fns@, g, i as int, n as nat);
            lemma_same_graph_names(fns@, g, i as int);
        }
        match r {
            ComputedMaxStack::Value(v) => {
                fns[i].max_stack = v;
            },
            ComputedMaxStack::AlreadyComputed => {},
        }
        i += 1;
    }
    proof {
        assert forall|i: int| 0 <= i < n implies max_stack_usage(fns@, i) == max_stack_usage(g, i)
            && max_stack_path(fns@, i).map_values(|c: int| fns@[c].info.name@) == max_stack_path(
            g,
            i,
        ).map_values(|c: int| g[c].info.name@) by {
            lemma_same_graph(fns@, g, i, n as nat);
            lemma_same_graph_names(fns@, g, i);
        }
    }
}


// ---------------------------------------------------------------------------
// Building the nodes of object files
// ---------------------------------------------------------------------------

/// What was read from one object file: its path, the stack usage of its
/// functions (from its `.su` file) and their callees (from its disassembly).
pub struct ObjectInfo {
    pub o_filepath: String,
    pub stack_usage: SymbolTable<LocalStackInfo>,
    pub call_graph: SymbolTable<Vec<String>>,
}

/// A node as the object file gives it: the file, the function's name, its own
/// usage and the names of its callees.
pub open spec fn node_summary(f: FnNode) -> (
    Seq<char>,
    Seq<char>,
    Option<(Seq<char>, u32)>,
    Seq<Seq<char>>,
) {
    (
        f.info.o_pathbuf@,
        f.info.name@,
        match f.local_stack {
            Some(l) => Some(l.deep_view()),
            None => None,
        },
        views(f.children@),
    )
}

/// A node just built: named after its symbol, from a C file whose name is
/// its path's last component, not yet linked nor analysed.
pub open spec fn fresh_node(f: FnNode) -> bool {
    &&& f.info.symbol@ == f.info.name@
    &&& file_name(f.info.o_pathbuf@) == Some(f.info.o_filename@)
    &&& f.info.lang == crate::fn_node::Lang::C
    &&& f.children_ids@.len() == 0
    &&& f.max_stack is None
    &&& f.children_missing@.len() == 0
}

/// The nodes of the functions with a known usage, in the order of the usage
/// table, with their callees where the call graph has them.
pub open spec fn su_nodes(
    path: Seq<char>,
    su: Seq<(String, LocalStackInfo)>,
    cg: Map<Seq<char>, Seq<Seq<char>>>,
) -> Seq<(Seq<char>, Seq<char>, Option<(Seq<char>, u32)>, Seq<Seq<char>>)> {
    su.map_values(
        |e: (String, LocalStackInfo)|
            (
                path,
                e.0@,
                Some(e.1.deep_view()),
                if cg.contains_key(e.0@) {
                    cg[e.0@]
                } else {
                    Seq::empty()
                },
            ),
    )
}

/// The nodes of the functions of the call graph whose usage is unknown, in
/// the order of the call graph.
pub open spec fn cg_nodes(
    path: Seq<char>,
    cg: Seq<(String, Vec<String>)>,
    su: Map<Seq<char>, (Seq<char>, u32)>,
) -> Seq<(Seq<char>, Seq<char>, Option<(Seq<char>, u32)>, Seq<Seq<char>>)>
    decreases cg.len(),
{
    if cg.len() == 0 {
        Seq::empty()
    } else {
        let rest = cg_nodes(path, cg.drop_last(), su);
        let e = cg.last();
        if su.contains_key(e.0@) {
            rest
        } else {
            rest.push((path, e.0@, None, e.1.deep_view()))
        }
    }
}

/// The nodes of one object file.
pub open spec fn object_nodes(o: ObjectInfo) -> Seq<
    (Seq<char>, Seq<char>, Option<(Seq<char>, u32)>, Seq<Seq<char>>),
> {
    su_nodes(o.o_filepath@, o.stack_usage.entries@, o.call_graph.map()) + cg_nodes(
        o.o_filepath@,
        o.call_graph.entries@,
        o.stack_usage.map(),
    )
}

/// The nodes of all object files, file after file.
pub open spec fn all_object_nodes(objs: Seq<ObjectInfo>) -> Seq<
    (Seq<char>, Seq<char>, Option<(Seq<char>, u32)>, Seq<Seq<char>>),
>
    decreases objs.len(),
{
    if objs.len() == 0 {
        Seq::empty()
    } else {
        all_object_nodes(objs.drop_last()) + object_nodes(objs.last())
    }
}

/// An object file whose nodes can be built: its path names a file and its
/// tables are well formed.
pub open spec fn object_ok(o: ObjectInfo) -> bool {
    &&& file_name(o.o_filepath@) is Some
    &&& o.stack_usage.wf()
    &&& o.call_graph.wf()
}

/// A fresh node.
fn make_node(path: &str, symbol: &String, children: Vec<String>, local: Option<LocalStackInfo>) -> (r:
    FnNode)
    requires
        file_name(path@) is Some,
    ensures
        fresh_node(r),
        r.info.o_pathbuf@ == path@,
        r.info.name@ == symbol@,
        r.children == children,
        r.local_stack == local,
{
    FnNode {
        info: FnInfo::new(path, symbol.as_str()),
        children,
        children_ids: Vec::new(),
        local_stack: local,
        max_stack: None,
        children_missing: Vec::new(),
    }
}

/// Appends the nodes of one object file: first a node for each function with
/// a known stack usage, then one for each function of the call graph without.
#[verifier::spinoff_prover]
fn push_object_nodes(fns: &mut Vec<FnNode>, o: &ObjectInfo)
    requires
        object_ok(*o),
    ensures
        final(fns)@.len() == old(fns)@.len() + object_nodes(*o).len(),
        forall|i: int| 0 <= i < old(fns)@.len() ==> #[trigger] final(fns)@[i] == old(fns)@[i],
        forall|i: int|
            0 <= i < object_nodes(*o).len() ==> #[trigger] node_summary(
                final(fns)@[old(fns)@.len() + i],
            ) == object_nodes(*o)[i] && fresh_node(final(fns)@[old(fns)@.len() + i]),
{
    let ghost start = fns@.len();
    let ghost base = fns@;
    let path = o.o_filepath.as_str();
    let su = &o.stack_usage;
    let cg = &o.call_graph;
    let ghost sun = su_nodes(path@, su.entries@, cg.map());
    let mut k: usize = 0;
    while k < su.entries.len()
        invariant
            object_ok(*o),
            path@ == o.o_filepath@,
            *su == o.stack_usage,
            *cg == o.call_graph,
            sun == su_nodes(path@, su.entries@, cg.map()),
            k <= su.entries@.len(),
            fns@.len() == start + k,
            forall|i: int| 0 <= i < start ==> #[trigger] fns@[i] == base[i],
            forall|i: int|
                0 <= i < k ==> #[trigger] node_summary(fns@[start + i]) == sun[i] && fresh_node(
                    fns@[start + i],
                ),
        decreases su.entries@.len() - k,
    {
        let sym = &su.entries[k].0;
        let children = match cg.get(sym) {
            Some(c) => copy_strings(c),
            None => Vec::new(),
        };
        proof {
            if !cg.map().contains_key(sym@) {
                assert(views(children@) =~= Seq::<Seq<char>>::empty());
            } else {
                assert(children.deep_view() =~= views(children@));
            }
        }
        let local = su.entries[k].1.duplicate();
        let node = make_node(path, sym, children, Some(local));
        fns.push(node);
        proof {
            assert(node_summary(fns@[start + k]) == sun[k as int]);
        }
        k += 1;
    }
    let ghost mid = fns@.len();
    let ghost cgn = cg_nodes(path@, cg.entries@, su.map());
    let mut m: usize = 0;
    proof {
        assert(cg.entries@.take(0) =~= Seq::<(String, Vec<String>)>::empty());
    }
    while m < cg.entries.len()
        invariant
            object_ok(*o),
            path@ == o.o_filepath@,
            *su == o.stack_usage,
            *cg == o.call_graph,
            sun == su_nodes(path@, su.entries@, cg.map()),
            mid == start + sun.len(),
            m <= cg.entries@.len(),
            fns@.len() == mid + cg_nodes(path@, cg.entries@.take(m as int), su.map()).len(),
            forall|i: int| 0 <= i < start ==> #[trigger] fns@[i] == base[i],
            forall|i: int|
                0 <= i < sun.len() ==> #[trigger] node_summary(fns@[start + i]) == sun[i]
                    && fresh_node(fns@[start + i]),
            forall|i: int|
                0 <= i < cg_nodes(path@, cg.entries@.take(m as int), su.map()).len()
                    ==> #[trigger] node_summary(fns@[mid + i]) == cg_nodes(
                    path@,
                    cg.entries@.take(m as int),
                    su.map(),
                )[i] && fresh_node(fns@[mid + i]),
        decreases cg.entries@.len() - m,
    {
        let ghost pre = cg.entries@.take(m as int);
        let ghost cur = cg.entries@.take(m + 1);
        proof {
            assert(cur.drop_last() =~= pre);
            assert(cur.last() == cg.entries@[m as int]);
        }
        let sym = &cg.entries[m].0;
        if su.find(sym).is_none() {
            let children = copy_strings(&cg.entries[m].1);
            let node = make_node(path, sym, children, None);
            let ghost old_len = fns@.len();
            fns.push(node);
            proof {
                assert(cg_nodes(path@, cur, su.map()) == cg_nodes(path@, pre, su.map()).push(
                    (path@, sym@, None, cg.entries@[m as int].1.deep_view()),
                ));
                assert(children.deep_view() == cg.entries@[m as int].1.deep_view());
                assert(children.deep_view() =~= views(children@));
                assert forall|i: int|
                    0 <= i < cg_nodes(path@, cur, su.map()).len() implies #[trigger] node_summary(
                    fns@[mid + i],
                ) == cg_nodes(path@, cur, su.map())[i] && fresh_node(fns@[mid + i]) by {}
            }
        } else {
            proof {
                assert(cg_nodes(path@, cur, su.map()) == cg_nodes(path@, pre, su.map()));
            }
        }
        m += 1;
    }
    proof {
        assert(cg.entries@.take(cg.entries@.len() as int) =~= cg.entries@);
        let on = object_nodes(*o);
        assert(on == sun + cgn);
        assert forall|i: int| 0 <= i < on.len() implies #[trigger] node_summary(fns@[start + i])
            == on[i] && fresh_node(fns@[start + i]) by {
            if i >= sun.len() {
                assert(fns@[start + i] == fns@[mid + (i - sun.len())]);
            }
        }
    }
}

/// The nodes of all object files, file after file (see `object_nodes`), each
/// fresh: not yet linked into a call graph nor analysed.
#[verifier::spinoff_prover]
pub fn get_stack_usage_and_call_graph_info(objs: &Vec<ObjectInfo>) -> (fns: Vec<FnNode>)
    requires
        forall|i: int| 0 <= i < objs@.len() ==> object_ok(#[trigger] objs@[i]),
    ensures
        fns@.len() == all_object_nodes(objs@).len(),
        forall|i: int|
            0 <= i < fns@.len() ==> #[trigger] node_summary(fns@[i]) == all_object_nodes(objs@)[i]
                && fresh_node(fns@[i]),
{
    let mut fns: Vec<FnNode> = Vec::new();
    let mut j: usize = 0;
    proof {
        assert(objs@.take(0) =~= Seq::<ObjectInfo>::empty());
    }
    while j < objs.len()
        invariant
            j <= objs@.len(),
            forall|i: int| 0 <= i < objs@.len() ==> object_ok(#[trigger] objs@[i]),
            fns@.len() == all_object_nodes(objs@.take(j as int)).len(),
            forall|i: int|
                0 <= i < fns@.len() ==> #[trigger] node_summary(fns@[i]) == all_object_nodes(
                    objs@.take(j as int),
                )[i] && fresh_node(fns@[i]),
        decreases objs@.len() - j,
    {
        let ghost before = fns@;
        let ghost pre = objs@.take(j as int);
        proof {
            assert(objs@.take(j + 1).drop_last() =~= pre);
            assert(objs@.take(j + 1).last() == objs@[j as int]);
        }
        push_object_nodes(&mut fns, &objs[j]);
        proof {
            let all = all_object_nodes(objs@.take(j + 1));
            assert(all == all_object_nodes(pre) + object_nodes(objs@[j as int]));
            assert forall|i: int| 0 <= i < fns@.len() implies #[trigger] node_summary(fns@[i])
                == all[i] && fresh_node(fns@[i]) by {
                let on = object_nodes(objs@[j as int]);
                if i >= before.len() {
                    let d = i - before.len();
                    assert(0 <= d < on.len());
                    assert(node_summary(fns@[before.len() + d]) == on[d] && fresh_node(
                        fns@[before.len() + d],
                    ));
                    assert(all[i] == on[d]);
                } else {
                    assert(fns@[i] == before[i]);
                    assert(node_summary(before[i]) == all_object_nodes(pre)[i]);
                    assert(all[i] == all_object_nodes(pre)[i]);
                }
            }
        }
        j += 1;
    }
    proof {
        assert(objs@.take(objs@.len() as int) =~= objs@);
    }
    fns
}


// ---------------------------------------------------------------------------
// Laws of the worst-case stack usage
// ---------------------------------------------------------------------------

/// Node `b` is among the callees of node `a`.
pub open spec fn calls(fns: Seq<FnNode>, a: int, b: int) -> bool {
    exists|m: int| 0 <= m < fns[a].children_ids@.len() && fns[a].children_ids@[m] as int == b
}

/// The own usages of the nodes of a chain, added up.
pub open spec fn sum_locals(fns: Seq<FnNode>, p: Seq<int>) -> int
    decreases p.len(),
{
    if p.len() == 0 {
        0
    } else {
        fns[p[0]].local_stack->0.usage + sum_locals(fns, p.drop_first())
    }
}

/// Where the worst case of a node is known, so is its own usage, and the
/// worst case is at least that usage.
pub proof fn law_max_covers_local(fns: Seq<FnNode>, i: int)
    requires
        max_stack_usage(fns, i) is Some,
    ensures
        fns[i].local_stack is Some,
        max_stack_usage(fns, i)->0 >= fns[i].local_stack->0.usage,
{
    lemma_children_known(fns, i, fns.len());
}

/// A node whose own usage is unknown has an unknown worst case.
pub proof fn law_unknown_local_unknown_max(fns: Seq<FnNode>, i: int)
    requires
        0 <= i < fns.len(),
        fns[i].local_stack is None,
    ensures
        max_stack_usage(fns, i) is None,
{
}

/// A node that calls nothing has its own usage as its worst case, reached
/// with no further call.
pub proof fn law_leaf(fns: Seq<FnNode>, i: int)
    requires
        0 <= i < fns.len(),
        fns[i].local_stack is Some,
        fns[i].children_ids@.len() == 0,
    ensures
        max_stack_usage(fns, i) == Some(fns[i].local_stack->0.usage as int),
        max_stack_path(fns, i) == Seq::<int>::empty(),
{
    assert(child_values(fns, fns[i].children_ids@, (fns.len() - 1) as nat) =~= Seq::<
        Option<int>,
    >::empty());
}

/// Where the worst case of a node is known, so is that of each node it
/// calls, and the worst case of the caller is at least its own usage plus
/// the worst case of the callee.
pub proof fn law_max_covers_callees(fns: Seq<FnNode>, i: int, c: int)
    requires
        ids_in_range(fns),
        max_stack_usage(fns, i) is Some,
        calls(fns, i, c),
    ensures
        max_stack_usage(fns, c) is Some,
        max_stack_usage(fns, i)->0 >= fns[i].local_stack->0.usage + max_stack_usage(fns, c)->0,
{
    let n = fns.len();
    lemma_children_known(fns, i, n);
    let m = choose|m: int| 0 <= m < fns[i].children_ids@.len() && fns[i].children_ids@[m] as int == c;
    let vals = child_values(fns, fns[i].children_ids@, (n - 1) as nat);
    assert(vals[m] == stack_val(fns, c, (n - 1) as nat));
    lemma_stable(fns, c, (n - 1) as nat);
}

/// The chain of calls reported for a known worst case is a chain of calls of
/// the graph, starting at a callee of the node, and the own usages along it
/// add up, with the node's own, to exactly the worst case.
pub proof fn law_path_accounts_for_max(fns: Seq<FnNode>, i: int)
    requires
        ids_in_range(fns),
        max_stack_usage(fns, i) is Some,
    ensures
        max_stack_usage(fns, i)->0 == fns[i].local_stack->0.usage + sum_locals(
            fns,
            max_stack_path(fns, i),
        ),
        max_stack_path(fns, i).len() > 0 ==> calls(fns, i, max_stack_path(fns, i)[0]),
        forall|j: int|
            0 <= j < max_stack_path(fns, i).len() - 1 ==> calls(
                fns,
                #[trigger] max_stack_path(fns, i)[j],
                max_stack_path(fns, i)[j + 1],
            ),
{
    lemma_path_sum(fns, i, fns.len());
}

/// The chain at depth `fuel` accounts for the worst case at that depth.
#[verifier::spinoff_prover]
proof fn lemma_path_sum(fns: Seq<FnNode>, i: int, fuel: nat)
    requires
        ids_in_range(fns),
        stack_val(fns, i, fuel) is Some,
    ensures
        stack_val(fns, i, fuel)->0 == fns[i].local_stack->0.usage + sum_locals(
            fns,
            stack_path(fns, i, fuel),
        ),
        stack_path(fns, i, fuel).len() > 0 ==> calls(fns, i, stack_path(fns, i, fuel)[0]),
        forall|j: int|
            0 <= j < stack_path(fns, i, fuel).len() - 1 ==> calls(
                fns,
                #[trigger] stack_path(fns, i, fuel)[j],
                stack_path(fns, i, fuel)[j + 1],
            ),
    decreases fuel,
{
    lemma_children_known(fns, i, fuel);
    let ch = fns[i].children_ids@;
    if ch.len() > 0 {
        let vals = child_values(fns, ch, (fuel - 1) as nat);
        let b = best_index(vals);
        let c = ch[b] as int;
        assert(vals[b] == stack_val(fns, c, (fuel - 1) as nat));
        lemma_path_sum(fns, c, (fuel - 1) as nat);
        let p = stack_path(fns, i, fuel);
        let q = stack_path(fns, c, (fuel - 1) as nat);
        assert(p == seq![c] + q);
        assert(p.drop_first() =~= q);
        assert(calls(fns, i, c));
        assert forall|j: int| 0 <= j < p.len() - 1 implies calls(
            fns,
            #[trigger] p[j],
            p[j + 1],
        ) by {
            if j == 0 {
                lemma_children_known(fns, c, (fuel - 1) as nat);
                if q.len() > 0 {
                    assert(p[1] == q[0]);
                }
            } else {
                assert(p[j] == q[j - 1]);
                assert(p[j + 1] == q[j]);
            }
        }
    } else {
        assert(child_values(fns, ch, (fuel - 1) as nat) =~= Seq::<Option<int>>::empty());
    }
}

/// The nodes of a call cycle, at no depth, have a known worst case.
proof fn lemma_cycle_none(fns: Seq<FnNode>, cyc: Seq<int>, k: nat)
    requires
        cyc.len() >= 1,
        forall|j: int| 0 <= j < cyc.len() ==> 0 <= #[trigger] cyc[j] < fns.len(),
        forall|j: int| 0 <= j < cyc.len() - 1 ==> calls(fns, #[trigger] cyc[j], cyc[j + 1]),
        calls(fns, cyc.last(), cyc[0]),
    ensures
        forall|j: int| 0 <= j < cyc.len() ==> stack_val(fns, #[trigger] cyc[j], k) is None,
    decreases k,
{
    if k > 0 {
        lemma_cycle_none(fns, cyc, (k - 1) as nat);
        assert forall|j: int| 0 <= j < cyc.len() implies stack_val(fns, #[trigger] cyc[j], k)
            is None by {
            if stack_val(fns, cyc[j], k) is Some {
                lemma_children_known(fns, cyc[j], k);
                let nxt = if j < cyc.len() - 1 {
                    cyc[j + 1]
                } else {
                    cyc[0]
                };
                assert(calls(fns, cyc[j], nxt));
                let m = choose|m: int|
                    0 <= m < fns[cyc[j]].children_ids@.len() && fns[cyc[j]].children_ids@[m] as int
                        == nxt;
                let vals = child_values(fns, fns[cyc[j]].children_ids@, (k - 1) as nat);
                assert(vals[m] == stack_val(fns, nxt, (k - 1) as nat));
                if j < cyc.len() - 1 {
                    assert(stack_val(fns, cyc[j + 1], (k - 1) as nat) is None);
                } else {
                    assert(stack_val(fns, cyc[0], (k - 1) as nat) is None);
                }
            }
        }
    }
}

/// Recursion: every node of a cycle of calls has an unknown worst case, and
/// so (by `law_max_covers_callees`) has every node that reaches one.
pub proof fn law_call_cycle_unknown(fns: Seq<FnNode>, cyc: Seq<int>)
    requires
        cyc.len() >= 1,
        forall|j: int| 0 <= j < cyc.len() ==> 0 <= #[trigger] cyc[j] < fns.len(),
        forall|j: int| 0 <= j < cyc.len() - 1 ==> calls(fns, #[trigger] cyc[j], cyc[j + 1]),
        calls(fns, cyc.last(), cyc[0]),
    ensures
        forall|j: int| 0 <= j < cyc.len() ==> max_stack_usage(fns, #[trigger] cyc[j]) is None,
{
    lemma_cycle_none(fns, cyc, fns.len());
}


/// Every callee is either linked to a node or listed as missing.
pub proof fn law_callees_partitioned(names: Seq<Seq<char>>, children: Seq<Seq<char>>)
    ensures
        resolved_ids(names, children).len() + unresolved(names, children).len() == children.len(),
    decreases children.len(),
{
    if children.len() > 0 {
        law_callees_partitioned(names, children.drop_last());
    }
}


// ---------------------------------------------------------------------------
// Completeness of the worst case
// ---------------------------------------------------------------------------

/// A chain of calls: nodes, each calling the next.
pub open spec fn is_chain(fns: Seq<FnNode>, p: Seq<int>) -> bool {
    &&& p.len() >= 1
    &&& forall|j: int| 0 <= j < p.len() ==> 0 <= #[trigger] p[j] < fns.len()
    &&& forall|j: int| 0 <= j < p.len() - 1 ==> calls(fns, #[trigger] p[j], p[j + 1])
}

/// A worst case known looking `k` deep stays the same looking deeper.
proof fn lemma_stable_upto(fns: Seq<FnNode>, i: int, k: nat, m: nat)
    requires
        stack_val(fns, i, k) is Some,
        k <= m,
    ensures
        stack_val(fns, i, m) == stack_val(fns, i, k),
    decreases m - k,
{
    if k < m {
        lemma_stable(fns, i, k);
        lemma_stable_upto(fns, i, k + 1, m);
    }
}

/// Along a chain from a node whose worst case is known looking `big` deep,
/// the `j`-th node's is known looking `big - j` deep.
proof fn lemma_known_along_chain(fns: Seq<FnNode>, p: Seq<int>, big: nat)
    requires
        is_chain(fns, p),
        stack_val(fns, p[0], big) is Some,
    ensures
        forall|j: int|
            0 <= j < p.len() ==> j < big && stack_val(fns, #[trigger] p[j], (big - j) as nat) is Some,
    decreases p.len(),
{
    if p.len() > 1 {
        let q = p.drop_last();
        assert(is_chain(fns, q)) by {
            assert forall|j: int| 0 <= j < q.len() - 1 implies calls(fns, #[trigger] q[j], q[j + 1]) by {
                assert(q[j] == p[j] && q[j + 1] == p[j + 1]);
            }
        }
        lemma_known_along_chain(fns, q, big);
        let a = p.len() - 2;
        assert(q[a] == p[a]);
        assert(stack_val(fns, p[a], (big - a) as nat) is Some);
        lemma_children_known(fns, p[a], (big - a) as nat);
        assert(calls(fns, p[a], p[a + 1]));
        let ch = fns[p[a]].children_ids@;
        let m = choose|m: int| 0 <= m < ch.len() && ch[m] as int == p[a + 1];
        let lo = child_values(fns, ch, (big - a - 1) as nat);
        assert(lo[m] == stack_val(fns, p[a + 1], (big - a - 1) as nat));
        assert(stack_val(fns, p[a + 1], (big - (a + 1)) as nat) is Some);
        assert forall|j: int| 0 <= j < p.len() implies j < big && stack_val(
            fns,
            #[trigger] p[j],
            (big - j) as nat,
        ) is Some by {
            if j < p.len() - 1 {
                assert(q[j] == p[j]);
            }
        }
    }
}

/// A node whose worst case is known looking `k` deep but not `m` deep starts
/// a chain of `m + 1` calls.
proof fn lemma_fuel_short_chain(fns: Seq<FnNode>, x: int, k: nat, m: nat) -> (p: Seq<int>)
    requires
        stack_val(fns, x, k) is Some,
        stack_val(fns, x, m) is None,
    ensures
        is_chain(fns, p),
        p[0] == x,
        p.len() == m + 1,
    decreases m,
{
    if m >= k {
        lemma_stable_upto(fns, x, k, m);
    }
    lemma_children_known(fns, x, k);
    assert(m < k);
    if m == 0 {
        seq![x]
    } else {
        let ch = fns[x].children_ids@;
        let lo = child_values(fns, ch, (m - 1) as nat);
        let hi = child_values(fns, ch, (k - 1) as nat);
        if forall|j: int| 0 <= j < ch.len() ==> (#[trigger] lo[j]) is Some {
            assert forall|j: int| 0 <= j < ch.len() implies #[trigger] lo[j] == hi[j] by {
                assert(lo[j] == stack_val(fns, ch[j] as int, (m - 1) as nat));
                assert(hi[j] == stack_val(fns, ch[j] as int, (k - 1) as nat));
                lemma_stable_upto(fns, ch[j] as int, (m - 1) as nat, (k - 1) as nat);
            }
            assert(lo =~= hi);
        }
        assert(exists|j: int| 0 <= j < ch.len() && (#[trigger] lo[j]) is None);
        let j = choose|j: int| 0 <= j < ch.len() && (#[trigger] lo[j]) is None;
        let c = ch[j] as int;
        assert(hi[j] is Some);
        let q = lemma_fuel_short_chain(fns, c, (k - 1) as nat, (m - 1) as nat);
        let p = seq![x] + q;
        assert(calls(fns, x, c));
        assert forall|t: int| 0 <= t < p.len() implies 0 <= #[trigger] p[t] < fns.len() by {
            if t > 0 {
                assert(p[t] == q[t - 1]);
            }
        }
        assert forall|t: int| 0 <= t < p.len() - 1 implies calls(fns, #[trigger] p[t], p[t + 1]) by {
            if t > 0 {
                assert(p[t] == q[t - 1] && p[t + 1] == q[t]);
            }
        }
        p
    }
}

/// Two places of a chain from a node with a known worst case hold different
/// nodes.
#[verifier::spinoff_prover]
proof fn lemma_no_repeat_pair(fns: Seq<FnNode>, p: Seq<int>, big: nat, lo: int, hi: int)
    requires
        is_chain(fns, p),
        forall|j: int|
            0 <= j < p.len() ==> j < big && stack_val(fns, #[trigger] p[j], (big - j) as nat) is Some,
        0 <= lo < hi < p.len(),
    ensures
        p[lo] != p[hi],
{
    if p[lo] == p[hi] {
        let cyc = p.subrange(lo, hi);
        assert forall|j: int| 0 <= j < cyc.len() implies 0 <= #[trigger] cyc[j] < fns.len() by {
            assert(cyc[j] == p[lo + j]);
        }
        assert forall|j: int| 0 <= j < cyc.len() - 1 implies calls(
            fns,
            #[trigger] cyc[j],
            cyc[j + 1],
        ) by {
            assert(cyc[j] == p[lo + j] && cyc[j + 1] == p[lo + j + 1]);
        }
        assert(cyc.last() == p[hi - 1]);
        assert(calls(fns, p[hi - 1], p[hi]));
        lemma_cycle_none(fns, cyc, (big - lo) as nat);
        assert(cyc[0] == p[lo]);
        assert(stack_val(fns, p[lo], (big - lo) as nat) is Some);
    }
}

/// A chain from a node with a known worst case visits no node twice.
proof fn lemma_chain_no_repeat(fns: Seq<FnNode>, p: Seq<int>, big: nat)
    requires
        is_chain(fns, p),
        stack_val(fns, p[0], big) is Some,
    ensures
        p.no_duplicates(),
{
    lemma_known_along_chain(fns, p, big);
    assert forall|a: int, b: int| 0 <= a < p.len() && 0 <= b < p.len() && a != b implies p[a]
        != p[b] by {
        if a < b {
            lemma_no_repeat_pair(fns, p, big, a, b);
        } else {
            lemma_no_repeat_pair(fns, p, big, b, a);
        }
    }
}

/// Distinct node positions number at most the nodes, and as many cover them
/// all.
proof fn lemma_pigeonhole(p: Seq<int>, n: nat)
    requires
        p.no_duplicates(),
        forall|j: int| 0 <= j < p.len() ==> 0 <= #[trigger] p[j] < n,
    ensures
        p.len() <= n,
        p.len() == n ==> forall|x: int| 0 <= x < n ==> p.contains(x),
{
    let r = vstd::set_lib::set_int_range(0, n as int);
    vstd::set_lib::lemma_int_range(0, n as int);
    p.unique_seq_to_set();
    assert(p.to_set().subset_of(r)) by {
        assert forall|x: int| p.to_set().contains(x) implies r.contains(x) by {
            let j = choose|j: int| 0 <= j < p.len() && p[j] == x;
        }
    }
    vstd::set_lib::lemma_len_subset(p.to_set(), r);
    if p.len() == n {
        vstd::set_lib::lemma_subset_equality(p.to_set(), r);
        assert forall|x: int| 0 <= x < n implies p.contains(x) by {
            assert(r.contains(x));
            assert(p.to_set().contains(x));
        }
    }
}

/// A callee with a known worst case has it known one call less deep too.
proof fn lemma_callee_depth(fns: Seq<FnNode>, i: int, c: int)
    requires
        0 <= i < fns.len(),
        calls(fns, i, c),
        max_stack_usage(fns, c) is Some,
    ensures
        stack_val(fns, c, (fns.len() - 1) as nat) == max_stack_usage(fns, c),
{
    let n = fns.len();
    if stack_val(fns, c, (n - 1) as nat) is None {
        let q = lemma_fuel_short_chain(fns, c, n as nat, (n - 1) as nat);
        lemma_chain_no_repeat(fns, q, n as nat);
        lemma_pigeonhole(q, n as nat);
        assert(q.contains(i));
        let a = choose|a: int| 0 <= a < q.len() && q[a] == i;
        let cyc = q.take(a + 1);
        assert forall|j: int| 0 <= j < cyc.len() implies 0 <= #[trigger] cyc[j] < fns.len() by {
            assert(cyc[j] == q[j]);
        }
        assert forall|j: int| 0 <= j < cyc.len() - 1 implies calls(
            fns,
            #[trigger] cyc[j],
            cyc[j + 1],
        ) by {
            assert(cyc[j] == q[j] && cyc[j + 1] == q[j + 1]);
        }
        assert(cyc.last() == i);
        assert(cyc[0] == c);
        lemma_cycle_none(fns, cyc, n as nat);
        assert(stack_val(fns, cyc[0], n as nat) is None);
    } else {
        lemma_stable(fns, c, (n - 1) as nat);
    }
}

/// Completeness of the worst case: a node with a known own usage whose
/// callees all have known worst cases (so no cycle runs through it), each
/// fitting with its own usage in 32 bits, has a known worst case, and it is
/// its own usage plus the largest worst case among its callees (its own usage
/// alone where it calls nothing).
pub proof fn law_max_from_callees(fns: Seq<FnNode>, i: int)
    requires
        0 <= i < fns.len(),
        fns[i].local_stack is Some,
        forall|c: int| #[trigger] calls(fns, i, c) ==> max_stack_usage(fns, c) is Some,
        forall|c: int|
            #[trigger] calls(fns, i, c) ==> fns[i].local_stack->0.usage + max_stack_usage(fns, c)->0
                <= u32::MAX,
    ensures
        max_stack_usage(fns, i) is Some,
        forall|c: int|
            #[trigger] calls(fns, i, c) ==> max_stack_usage(fns, i)->0 >= fns[i].local_stack->0.usage
                + max_stack_usage(fns, c)->0,
        fns[i].children_ids@.len() == 0 ==> max_stack_usage(fns, i)->0
            == fns[i].local_stack->0.usage,
        fns[i].children_ids@.len() > 0 ==> exists|c: int|
            #[trigger] calls(fns, i, c) && max_stack_usage(fns, i)->0 == fns[i].local_stack->0.usage
                + max_stack_usage(fns, c)->0,
{
    let n = fns.len();
    let ch = fns[i].children_ids@;
    let lo = child_values(fns, ch, (n - 1) as nat);
    let l = fns[i].local_stack->0.usage;
    assert forall|j: int| 0 <= j < ch.len() implies #[trigger] lo[j] == max_stack_usage(
        fns,
        ch[j] as int,
    ) && lo[j] is Some by {
        assert(calls(fns, i, ch[j] as int));
        lemma_callee_depth(fns, i, ch[j] as int);
    }
    assert forall|j: int| 0 <= j < lo.len() && (#[trigger] lo[j]) is Some implies lo[j]->0 >= 0 by {
        lemma_stack_val_nonneg(fns, ch[j] as int, (n - 1) as nat);
    }
    lemma_opt_max(lo);
    let mx = opt_max(lo)->0;
    if ch.len() > 0 {
        let b = best_index(lo);
        assert(calls(fns, i, ch[b] as int));
        assert(l + mx <= u32::MAX);
        assert(max_stack_usage(fns, i) == Some(l + mx));
    } else {
        assert(lo =~= Seq::<Option<int>>::empty());
        assert(max_stack_usage(fns, i) == Some(l as int));
    }
    assert forall|c: int| #[trigger] calls(fns, i, c) implies max_stack_usage(fns, i)->0 >= l
        + max_stack_usage(fns, c)->0 by {
        let m = choose|m: int| 0 <= m < ch.len() && ch[m] as int == c;
        assert(lo[m]->0 <= mx);
    }
}


// ---------------------------------------------------------------------------
// Which nodes an object file gives
// ---------------------------------------------------------------------------

/// What `cg_nodes` gives: nodes without own usage, one for each function of
/// the call graph that the usage table lacks, whatever its callees, and no
/// other.
proof fn lemma_cg_nodes_facts(
    path: Seq<char>,
    e: Seq<(String, Vec<String>)>,
    su: Map<Seq<char>, (Seq<char>, u32)>,
)
    requires
        forall|i: int, j: int| 0 <= i < j < e.len() ==> #[trigger] e[i].0@ != #[trigger] e[j].0@,
    ensures
        forall|t: int|
            0 <= t < cg_nodes(path, e, su).len() ==> {
                let nd = #[trigger] cg_nodes(path, e, su)[t];
                &&& nd.0 == path
                &&& nd.2 is None
                &&& !su.contains_key(nd.1)
                &&& crate::symtab::entries_map(e).contains_key(nd.1)
                &&& nd.3 == crate::symtab::entries_map(e)[nd.1]
            },
        forall|k: Seq<char>|
            #[trigger] crate::symtab::entries_map(e).contains_key(k) && !su.contains_key(k)
                ==> exists|t: int| 0 <= t < cg_nodes(path, e, su).len() && cg_nodes(path, e, su)[t].1 == k,
        forall|a: int, b: int|
            0 <= a < b < cg_nodes(path, e, su).len() ==> #[trigger] cg_nodes(path, e, su)[a].1
                != #[trigger] cg_nodes(path, e, su)[b].1,
    decreases e.len(),
{
    crate::symtab::lemma_entries_map(e);
    if e.len() > 0 {
        let p = e.drop_last();
        assert forall|i: int, j: int| 0 <= i < j < p.len() implies #[trigger] p[i].0@ != #[trigger] p[j].0@ by {
            assert(p[i] == e[i] && p[j] == e[j]);
        }
        lemma_cg_nodes_facts(path, p, su);
        crate::symtab::lemma_entries_map(p);
        let rest = cg_nodes(path, p, su);
        let last = e.last();
        let cur = cg_nodes(path, e, su);
        let m0 = crate::symtab::entries_map(p);
        let m1 = crate::symtab::entries_map(e);
        assert(m1 == m0.insert(last.0@, last.1.deep_view()));
        assert(!m0.contains_key(last.0@)) by {
            if m0.contains_key(last.0@) {
                let i = choose|i: int| 0 <= i < p.len() && p[i].0@ == last.0@;
                assert(e[i] == p[i]);
                assert(e[e.len() - 1] == last);
            }
        }
        assert forall|t: int| 0 <= t < cur.len() implies {
            let nd = #[trigger] cur[t];
            &&& nd.0 == path
            &&& nd.2 is None
            &&& !su.contains_key(nd.1)
            &&& m1.contains_key(nd.1)
            &&& nd.3 == m1[nd.1]
        } by {
            if t < rest.len() {
                assert(cur[t] == rest[t]);
                assert(m0.contains_key(rest[t].1));
                assert(rest[t].1 != last.0@);
            }
        }
        assert forall|k: Seq<char>| #[trigger] m1.contains_key(k) && !su.contains_key(k) implies exists|t: int|
            0 <= t < cur.len() && cur[t].1 == k by {
            if k == last.0@ {
                assert(cur[cur.len() - 1].1 == k);
            } else {
                assert(m0.contains_key(k));
                let t = choose|t: int| 0 <= t < rest.len() && rest[t].1 == k;
                assert(cur[t] == rest[t]);
            }
        }
        assert forall|a: int, b: int| 0 <= a < b < cur.len() implies #[trigger] cur[a].1
            != #[trigger] cur[b].1 by {
            if b < rest.len() {
                assert(cur[a] == rest[a] && cur[b] == rest[b]);
            } else {
                assert(cur[a] == rest[a]);
                assert(m0.contains_key(rest[a].1));
                assert(cur[b].1 == last.0@);
            }
        }
    }
}

/// The nodes of an object file are exactly one for each function that its
/// usage table or its call graph holds: each function with a known usage has
/// a node with that usage and its callees (none where the call graph lacks
/// it); each function of the call graph without a known usage has a node
/// without one, with its callees, whatever they are (none included); and no
/// function has two nodes.
pub proof fn law_object_nodes_one_per_function(o: ObjectInfo)
    requires
        object_ok(o),
    ensures
        forall|k: Seq<char>|
            #[trigger] o.stack_usage.map().contains_key(k) ==> exists|t: int|
                0 <= t < object_nodes(o).len() && object_nodes(o)[t] == (
                    o.o_filepath@,
                    k,
                    Some(o.stack_usage.map()[k]),
                    if o.call_graph.map().contains_key(k) {
                        o.call_graph.map()[k]
                    } else {
                        Seq::empty()
                    },
                ),
        forall|k: Seq<char>|
            #[trigger] o.call_graph.map().contains_key(k) && !o.stack_usage.map().contains_key(k)
                ==> exists|t: int|
                0 <= t < object_nodes(o).len() && object_nodes(o)[t] == (
                    o.o_filepath@,
                    k,
                    None::<(Seq<char>, u32)>,
                    o.call_graph.map()[k],
                ),
        forall|t: int|
            0 <= t < object_nodes(o).len() ==> #[trigger] o.stack_usage.map().contains_key(
                object_nodes(o)[t].1,
            ) || o.call_graph.map().contains_key(object_nodes(o)[t].1),
        forall|a: int, b: int|
            0 <= a < b < object_nodes(o).len() ==> #[trigger] object_nodes(o)[a].1
                != #[trigger] object_nodes(o)[b].1,
{
    let path = o.o_filepath@;
    let se = o.stack_usage.entries@;
    let sm = o.stack_usage.map();
    let cm = o.call_graph.map();
    let sn = su_nodes(path, se, cm);
    let cn = cg_nodes(path, o.call_graph.entries@, sm);
    let on = object_nodes(o);
    crate::symtab::lemma_entries_map(se);
    lemma_cg_nodes_facts(path, o.call_graph.entries@, sm);
    assert(on == sn + cn);
    assert forall|k: Seq<char>| #[trigger] sm.contains_key(k) implies exists|t: int|
        0 <= t < on.len() && on[t] == (
            path,
            k,
            Some(sm[k]),
            if cm.contains_key(k) {
                cm[k]
            } else {
                Seq::empty()
            },
        ) by {
        let i = choose|i: int| 0 <= i < se.len() && se[i].0@ == k;
        assert(on[i] == sn[i]);
    }
    assert forall|k: Seq<char>| #[trigger] cm.contains_key(k) && !sm.contains_key(k) implies exists|t: int|
        0 <= t < on.len() && on[t] == (path, k, None::<(Seq<char>, u32)>, cm[k]) by {
        let t = choose|t: int| 0 <= t < cn.len() && cn[t].1 == k;
        assert(on[sn.len() + t] == cn[t]);
    }
    assert forall|t: int| 0 <= t < on.len() implies #[trigger] sm.contains_key(on[t].1)
        || cm.contains_key(on[t].1) by {
        if t < sn.len() {
            assert(on[t] == sn[t]);
            assert(sn[t].1 == se[t].0@);
        } else {
            assert(on[t] == cn[t - sn.len()]);
        }
    }
    assert forall|a: int, b: int| 0 <= a < b < on.len() implies #[trigger] on[a].1
        != #[trigger] on[b].1 by {
        if b < sn.len() {
            assert(on[a] == sn[a] && on[b] == sn[b]);
        } else if a < sn.len() {
            assert(on[a] == sn[a]);
            assert(sn[a].1 == se[a].0@);
            assert(on[b] == cn[b - sn.len()]);
        } else {
            assert(on[a] == cn[a - sn.len()] && on[b] == cn[b - sn.len()]);
        }
    }
}


/// `name_pos` points at an equal name, or past the end where none is equal.
pub proof fn lemma_name_pos_found(names: Seq<Seq<char>>, n: Seq<char>)
    ensures
        name_pos(names, n) <= names.len(),
        name_pos(names, n) < names.len() ==> names[name_pos(names, n) as int] == n,
        name_pos(names, n) == names.len() ==> !names.contains(n),
        forall|j: int| 0 <= j < name_pos(names, n) ==> names[j] != n,
    decreases names.len(),
{
    if names.len() > 0 && names[0] != n {
        let t = names.drop_first();
        lemma_name_pos_found(t, n);
        assert forall|j: int| 0 <= j < name_pos(names, n) implies names[j] != n by {
            if j > 0 {
                assert(names[j] == t[j - 1]);
            }
        }
        if name_pos(names, n) == names.len() {
            if names.contains(n) {
                let j = choose|j: int| 0 <= j < names.len() && names[j] == n;
                assert(t[j - 1] == n);
            }
        }
    }
}

proof fn lemma_linked_found(names: Seq<Seq<char>>, children: Seq<Seq<char>>)
    ensures
        forall|c: Seq<char>|
            #[trigger] children.contains(c) && names.contains(c) ==> exists|p: int|
                0 <= p < names.len() && names[p] == c && (forall|q: int|
                    0 <= q < p ==> names[q] != c) && resolved_ids(names, children).contains(
                    p as usize,
                ),
    decreases children.len(),
{
    if children.len() > 0 {
        let pre = children.drop_last();
        let last = children.last();
        lemma_linked_found(names, pre);
        lemma_name_pos_found(names, last);
        let rp = resolved_ids(names, pre);
        let r = resolved_ids(names, children);
        let pos = name_pos(names, last);
        assert forall|c: Seq<char>| #[trigger] children.contains(c) && names.contains(c) implies exists|p: int|
            0 <= p < names.len() && names[p] == c && (forall|q: int| 0 <= q < p ==> names[q] != c)
                && r.contains(p as usize) by {
            let k = choose|k: int| 0 <= k < children.len() && children[k] == c;
            if k < children.len() - 1 {
                assert(pre[k] == c);
                assert(pre.contains(c));
                let p = choose|p: int|
                    0 <= p < names.len() && names[p] == c && (forall|q: int|
                        0 <= q < p ==> names[q] != c) && rp.contains(p as usize);
                let w = choose|w: int| 0 <= w < rp.len() && rp[w] == p as usize;
                assert(r[w] == rp[w]);
            } else {
                assert(c == last);
                assert(pos < names.len());
                assert(r[r.len() - 1] == pos as usize);
                assert(r.contains(pos as usize));
            }
        }
    }
}

proof fn lemma_missing_found(names: Seq<Seq<char>>, children: Seq<Seq<char>>)
    ensures
        forall|c: Seq<char>|
            #[trigger] children.contains(c) && !names.contains(c) ==> unresolved(
                names,
                children,
            ).contains(c),
    decreases children.len(),
{
    if children.len() > 0 {
        let pre = children.drop_last();
        let last = children.last();
        lemma_missing_found(names, pre);
        lemma_name_pos_found(names, last);
        let up = unresolved(names, pre);
        let u = unresolved(names, children);
        let pos = name_pos(names, last);
        assert forall|c: Seq<char>| #[trigger] children.contains(c) && !names.contains(c) implies u.contains(c) by {
            let k = choose|k: int| 0 <= k < children.len() && children[k] == c;
            if k < children.len() - 1 {
                assert(pre[k] == c);
                assert(pre.contains(c));
                let w = choose|w: int| 0 <= w < up.len() && up[w] == c;
                assert(u[w] == up[w]);
            } else {
                assert(c == last);
                if pos < names.len() {
                    assert(names[pos as int] == last);
                }
                assert(u[u.len() - 1] == c);
            }
        }
    }
}

proof fn lemma_resolved_sound(names: Seq<Seq<char>>, children: Seq<Seq<char>>)
    requires
        names.len() <= usize::MAX,
    ensures
        forall|j: int|
            0 <= j < resolved_ids(names, children).len() ==> {
                let p = #[trigger] resolved_ids(names, children)[j] as int;
                &&& 0 <= p < names.len()
                &&& children.contains(names[p])
            },
    decreases children.len(),
{
    if children.len() > 0 {
        let pre = children.drop_last();
        let last = children.last();
        lemma_resolved_sound(names, pre);
        lemma_name_pos_found(names, last);
        let rp = resolved_ids(names, pre);
        let r = resolved_ids(names, children);
        let pos = name_pos(names, last);
        assert forall|j: int| 0 <= j < r.len() implies {
            let p = #[trigger] r[j] as int;
            &&& 0 <= p < names.len()
            &&& children.contains(names[p])
        } by {
            if j < rp.len() {
                assert(r[j] == rp[j]);
                let p = rp[j] as int;
                let k = choose|k: int| 0 <= k < pre.len() && pre[k] == names[p];
                assert(children[k] == pre[k]);
            } else {
                assert(pos < names.len());
                assert(r == rp.push(pos as usize));
                assert(r[j] == pos as usize);
                assert(names[pos as int] == last);
                assert(children[children.len() - 1] == last);
            }
        }
    }
}

proof fn lemma_unresolved_sound(names: Seq<Seq<char>>, children: Seq<Seq<char>>)
    ensures
        forall|j: int|
            0 <= j < unresolved(names, children).len() ==> {
                let c = #[trigger] unresolved(names, children)[j];
                &&& children.contains(c)
                &&& !names.contains(c)
            },
    decreases children.len(),
{
    if children.len() > 0 {
        let pre = children.drop_last();
        let last = children.last();
        lemma_unresolved_sound(names, pre);
        lemma_name_pos_found(names, last);
        let up = unresolved(names, pre);
        let u = unresolved(names, children);
        assert forall|j: int| 0 <= j < u.len() implies {
            let c = #[trigger] u[j];
            &&& children.contains(c)
            &&& !names.contains(c)
        } by {
            if j < up.len() {
                assert(u[j] == up[j]);
                let k = choose|k: int| 0 <= k < pre.len() && pre[k] == u[j];
                assert(children[k] == pre[k]);
            } else {
                assert(u[j] == last);
                assert(children[children.len() - 1] == last);
            }
        }
    }
}

/// Linking callees: a callee with a node of its name is linked to the first
/// such node, and only such callees are linked; the callees listed as missing
/// are exactly those without a node of their name.
pub proof fn law_callees_linked(names: Seq<Seq<char>>, children: Seq<Seq<char>>)
    requires
        names.len() <= usize::MAX,
    ensures
        forall|c: Seq<char>|
            #[trigger] children.contains(c) && names.contains(c) ==> exists|p: int|
                0 <= p < names.len() && names[p] == c && (forall|q: int|
                    0 <= q < p ==> names[q] != c) && resolved_ids(names, children).contains(
                    p as usize,
                ),
        forall|c: Seq<char>|
            #[trigger] children.contains(c) && !names.contains(c) ==> unresolved(
                names,
                children,
            ).contains(c),
        forall|j: int|
            0 <= j < resolved_ids(names, children).len() ==> {
                let p = #[trigger] resolved_ids(names, children)[j] as int;
                &&& 0 <= p < names.len()
                &&& children.contains(names[p])
            },
        forall|j: int|
            0 <= j < unresolved(names, children).len() ==> {
                let c = #[trigger] unresolved(names, children)[j];
                &&& children.contains(c)
                &&& !names.contains(c)
            },
{
    lemma_linked_found(names, children);
    lemma_missing_found(names, children);
    lemma_resolved_sound(names, children);
    lemma_unresolved_sound(names, children);
}

} // verus!
