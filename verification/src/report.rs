//! The summary of an analysis: how much is known, the worst cases of the
//! functions listed in the settings, and what is unknown or missing.
use vstd::prelude::*;
use crate::analyze::{name_pos, node_names};
use crate::call_graph::{cleanup_children, sorted_set_of};
use crate::fn_node::FnNode;
use crate::text::views;

verus! {

/// The worst-case stack usage of a function listed in the settings.
pub struct FnReportInfo {
    pub name: String,
    pub su_max: u32,
}

/// The summary written to `out/strack_report.json`.
pub struct Report {
    pub total_function_nodes: u32,
    pub num_functions_known_local_stack: u32,
    pub num_functions_known_max_stack: u32,
    pub tracked_functions: Vec<FnReportInfo>,
    pub unknown_local_su: Vec<String>,
    pub unknown_max_su: Vec<String>,
    pub missing_children: Vec<String>,
}

/// How many nodes have a known own usage.
pub open spec fn count_known_local(fns: Seq<FnNode>) -> nat
    decreases fns.len(),
{
    if fns.len() == 0 {
        0
    } else {
        count_known_local(fns.drop_last()) + if fns.last().local_stack is Some {
            1nat
        } else {
            0nat
        }
    }
}

/// How many nodes have a known worst case.
pub open spec fn count_known_max(fns: Seq<FnNode>) -> nat
    decreases fns.len(),
{
    if fns.len() == 0 {
        0
    } else {
        count_known_max(fns.drop_last()) + if fns.last().max_stack is Some {
            1nat
        } else {
            0nat
        }
    }
}

/// The names of the nodes whose own usage is unknown, in order.
pub open spec fn unknown_local_names(fns: Seq<FnNode>) -> Seq<Seq<char>>
    decreases fns.len(),
{
    if fns.len() == 0 {
        Seq::empty()
    } else {
        let rest = unknown_local_names(fns.drop_last());
        if fns.last().local_stack is None {
            rest.push(fns.last().info.name@)
        } else {
            rest
        }
    }
}

/// The names of the nodes whose worst case is unknown, in order.
pub open spec fn unknown_max_names(fns: Seq<FnNode>) -> Seq<Seq<char>>
    decreases fns.len(),
{
    if fns.len() == 0 {
        Seq::empty()
    } else {
        let rest = unknown_max_names(fns.drop_last());
        if fns.last().max_stack is None {
            rest.push(fns.last().info.name@)
        } else {
            rest
        }
    }
}

/// The callees that are not nodes, of all nodes in order.
pub open spec fn all_missing(fns: Seq<FnNode>) -> Seq<Seq<char>>
    decreases fns.len(),
{
    if fns.len() == 0 {
        Seq::empty()
    } else {
        all_missing(fns.drop_last()) + views(fns.last().children_missing@)
    }
}

/// The listed functions that are nodes with a known worst case, in the
/// order of the list, each with that worst case (of the first node of that
/// name).
pub open spec fn tracked_worst_cases(fns: Seq<FnNode>, names: Seq<Seq<char>>) -> Seq<
    (Seq<char>, u32),
>
    decreases names.len(),
{
    if names.len() == 0 {
        Seq::empty()
    } else {
        let rest = tracked_worst_cases(fns, names.drop_last());
        let t = names.last();
        let p = name_pos(node_names(fns), t);
        if p < fns.len() && fns[p as int].max_stack is Some {
            rest.push((t, fns[p as int].max_stack->0.usage))
        } else {
            rest
        }
    }
}

/// The listed functions of a report as names and usages.
pub open spec fn report_tracked(r: Seq<FnReportInfo>) -> Seq<(Seq<char>, u32)> {
    r.map_values(|e: FnReportInfo| (e.name@, e.su_max))
}

/// The summary of the analysed nodes, with the worst cases of the functions
/// named in `names` (the settings' `tracked_functions`).
#[verifier::spinoff_prover]
pub fn build_report(fns: &Vec<FnNode>, names: &Vec<String>) -> (r: Report)
    requires
        fns@.len() <= u32::MAX,
    ensures
        r.total_function_nodes == fns@.len(),
        r.num_functions_known_local_stack == count_known_local(fns@),
        r.num_functions_known_max_stack == count_known_max(fns@),
        report_tracked(r.tracked_functions@) == tracked_worst_cases(fns@, views(names@)),
        views(r.unknown_local_su@) == unknown_local_names(fns@),
        views(r.unknown_max_su@) == unknown_max_names(fns@),
        sorted_set_of(views(r.missing_children@), all_missing(fns@)),
{
    let mut n_local: u32 = 0;
    let mut n_max: u32 = 0;
    let mut unknown_local: Vec<String> = Vec::new();
    let mut unknown_max: Vec<String> = Vec::new();
    let mut missing: Vec<String> = Vec::new();
    let mut i: usize = 0;
    proof {
        assert(fns@.take(0) =~= Seq::<FnNode>::empty());
        assert(views(unknown_local@) =~= Seq::<Seq<char>>::empty());
        assert(views(unknown_max@) =~= Seq::<Seq<char>>::empty());
        assert(views(missing@) =~= Seq::<Seq<char>>::empty());
    }
    while i < fns.len()
        invariant
            i <= fns@.len(),
            fns@.len() <= u32::MAX,
            n_local == count_known_local(fns@.take(i as int)),
            n_max == count_known_max(fns@.take(i as int)),
            count_known_local(fns@.take(i as int)) <= i,
            count_known_max(fns@.take(i as int)) <= i,
            views(unknown_local@) == unknown_local_names(fns@.take(i as int)),
            views(unknown_max@) == unknown_max_names(fns@.take(i as int)),
            views(missing@) == all_missing(fns@.take(i as int)),
        decreases fns@.len() - i,
    {
        let ghost pre = fns@.take(i as int);
        let ghost cur = fns@.take(i + 1);
        proof {
            assert(cur.drop_last() =~= pre);
            assert(cur.last() == fns@[i as int]);
        }
        let f = &fns[i];
        if f.local_stack.is_some() {
            n_local = n_local + 1;
        } else {
            let ghost before = views(unknown_local@);
            unknown_local.push(f.info.name.clone());
            proof {
                assert(views(unknown_local@) =~= before.push(f.info.name@));
            }
        }
        if f.max_stack.is_some() {
            n_max = n_max + 1;
        } else {
            let ghost before = views(unknown_max@);
            unknown_max.push(f.info.name.clone());
            proof {
                assert(views(unknown_max@) =~= before.push(f.info.name@));
            }
        }
        let mut k: usize = 0;
        let ghost before_missing = views(missing@);
        let ghost fm = views(f.children_missing@);
        while k < f.children_missing.len()
            invariant
                k <= f.children_missing@.len(),
                fm == views(f.children_missing@),
                views(missing@) == before_missing + fm.take(k as int),
            decreases f.children_missing@.len() - k,
        {
            let ghost b = views(missing@);
            missing.push(f.children_missing[k].clone());
            proof {
                assert(views(missing@) =~= b.push(fm[k as int]));
                assert(fm.take(k + 1) =~= fm.take(k as int).push(fm[k as int]));
                assert(before_missing + fm.take(k + 1) =~= (before_missing + fm.take(k as int)).push(
                    fm[k as int],
                ));
            }
            k += 1;
        }
        proof {
            assert(fm.take(f.children_missing@.len() as int) =~= fm);
        }
        i += 1;
    }
    proof {
        assert(fns@.take(fns@.len() as int) =~= fns@);
    }
    cleanup_children(&mut missing);
    let mut tracked_out: Vec<FnReportInfo> = Vec::new();
    let ghost tv = views(names@);
    let mut t: usize = 0;
    proof {
        assert(tv.take(0) =~= Seq::<Seq<char>>::empty());
        assert(report_tracked(tracked_out@) =~= Seq::<(Seq<char>, u32)>::empty());
    }
    while t < names.len()
        invariant
            t <= names@.len(),
            tv == views(names@),
            report_tracked(tracked_out@) == tracked_worst_cases(fns@, tv.take(t as int)),
        decreases names@.len() - t,
    {
        let ghost pre = tv.take(t as int);
        proof {
            assert(tv.take(t + 1).drop_last() =~= pre);
            assert(tv.take(t + 1).last() == names@[t as int]@);
        }
        let p = crate::analyze::find_node_pos(fns, &names[t]);
        if p < fns.len() {
            match &fns[p].max_stack {
                Some(ms) => {
                    let ghost before = report_tracked(tracked_out@);
                    tracked_out.push(FnReportInfo { name: names[t].clone(), su_max: ms.usage });
                    proof {
                        assert(report_tracked(tracked_out@) =~= before.push(
                            (names@[t as int]@, ms.usage),
                        ));
                    }
                },
                None => {},
            }
        }
        t += 1;
    }
    proof {
        assert(tv.take(names@.len() as int) =~= tv);
    }
    Report {
        total_function_nodes: fns.len() as u32,
        num_functions_known_local_stack: n_local,
        num_functions_known_max_stack: n_max,
        tracked_functions: tracked_out,
        unknown_local_su: unknown_local,
        unknown_max_su: unknown_max,
        missing_children: missing,
    }
}


/// Every node is counted either as having a known own usage or among the
/// names with an unknown one, and likewise for worst cases.
pub proof fn law_report_partitions(fns: Seq<FnNode>)
    ensures
        count_known_local(fns) + unknown_local_names(fns).len() == fns.len(),
        count_known_max(fns) + unknown_max_names(fns).len() == fns.len(),
    decreases fns.len(),
{
    if fns.len() > 0 {
        law_report_partitions(fns.drop_last());
    }
}

/// Where every node with a known worst case has a known own usage (as the
/// analysis ensures, see `law_max_covers_local`), no more worst cases than own
/// usages are known.
pub proof fn law_known_max_within_known_local(fns: Seq<FnNode>)
    requires
        forall|i: int| 0 <= i < fns.len() && (#[trigger] fns[i]).max_stack is Some ==> fns[i].local_stack is Some,
    ensures
        count_known_max(fns) <= count_known_local(fns),
    decreases fns.len(),
{
    if fns.len() > 0 {
        let p = fns.drop_last();
        assert forall|i: int| 0 <= i < p.len() && (#[trigger] p[i]).max_stack is Some implies p[i].local_stack is Some by {
            assert(p[i] == fns[i]);
        }
        law_known_max_within_known_local(p);
        assert(fns.last() == fns[fns.len() - 1]);
    }
}


/// The listed functions reported are listed ones, each with the worst case
/// of the first node of its name.
pub proof fn law_report_entries_sound(fns: Seq<FnNode>, names: Seq<Seq<char>>)
    ensures
        forall|j: int|
            0 <= j < tracked_worst_cases(fns, names).len() ==> {
                let e = #[trigger] tracked_worst_cases(fns, names)[j];
                &&& names.contains(e.0)
                &&& exists|p: int|
                    0 <= p < fns.len() && fns[p].info.name@ == e.0 && (forall|q: int|
                        0 <= q < p ==> fns[q].info.name@ != e.0) && fns[p].max_stack is Some
                        && fns[p].max_stack->0.usage == e.1
            },
    decreases names.len(),
{
    if names.len() > 0 {
        let pre = names.drop_last();
        let t0 = names.last();
        law_report_entries_sound(fns, pre);
        let nn = node_names(fns);
        crate::analyze::lemma_name_pos_found(nn, t0);
        let pos = name_pos(nn, t0);
        let rp = tracked_worst_cases(fns, pre);
        let r = tracked_worst_cases(fns, names);
        assert forall|j: int| 0 <= j < r.len() implies {
            let e = #[trigger] r[j];
            &&& names.contains(e.0)
            &&& exists|p: int|
                0 <= p < fns.len() && fns[p].info.name@ == e.0 && (forall|q: int|
                    0 <= q < p ==> fns[q].info.name@ != e.0) && fns[p].max_stack is Some
                    && fns[p].max_stack->0.usage == e.1
        } by {
            if j < rp.len() {
                assert(r[j] == rp[j]);
                let k = choose|k: int| 0 <= k < pre.len() && pre[k] == rp[j].0;
                assert(names[k] == pre[k]);
            } else {
                assert(pos < fns.len() && fns[pos as int].max_stack is Some);
                assert(r[j] == (t0, fns[pos as int].max_stack->0.usage));
                assert(names[names.len() - 1] == t0);
                assert(nn[pos as int] == fns[pos as int].info.name@);
                assert forall|q: int| 0 <= q < pos implies fns[q].info.name@ != t0 by {
                    assert(nn[q] == fns[q].info.name@);
                }
            }
        }
    }
}

/// A listed function whose first node (node `p`) has a known worst case is
/// reported with it.
pub proof fn law_report_lists_known(fns: Seq<FnNode>, names: Seq<Seq<char>>, t: Seq<char>, p: int)
    requires
        names.contains(t),
        0 <= p < fns.len(),
        fns[p].info.name@ == t,
        forall|q: int| 0 <= q < p ==> fns[q].info.name@ != t,
        fns[p].max_stack is Some,
    ensures
        tracked_worst_cases(fns, names).contains((t, fns[p].max_stack->0.usage)),
    decreases names.len(),
{
    let pre = names.drop_last();
    let t0 = names.last();
    let nn = node_names(fns);
    let rp = tracked_worst_cases(fns, pre);
    let r = tracked_worst_cases(fns, names);
    let k = choose|k: int| 0 <= k < names.len() && names[k] == t;
    if k < names.len() - 1 {
        assert(pre[k] == t);
        law_report_lists_known(fns, pre, t, p);
        let w = choose|w: int| 0 <= w < rp.len() && rp[w] == (t, fns[p].max_stack->0.usage);
        assert(r[w] == rp[w]);
    } else {
        assert(t == t0);
        assert forall|q: int| 0 <= q < p implies nn[q] != t0 by {
            assert(nn[q] == fns[q].info.name@);
        }
        assert(nn[p] == fns[p].info.name@);
        crate::analyze::lemma_name_pos(nn, t0, p);
        assert(r[r.len() - 1] == (t, fns[p].max_stack->0.usage));
    }
}


/// Some node named `n` has an unknown own usage.
pub open spec fn has_unknown_local(fns: Seq<FnNode>, n: Seq<char>) -> bool {
    exists|p: int| 0 <= p < fns.len() && fns[p].local_stack is None && fns[p].info.name@ == n
}

/// Some node named `n` has an unknown worst case.
pub open spec fn has_unknown_max(fns: Seq<FnNode>, n: Seq<char>) -> bool {
    exists|p: int| 0 <= p < fns.len() && fns[p].max_stack is None && fns[p].info.name@ == n
}

/// The names reported with an unknown own usage are those of the nodes whose
/// own usage is unknown, and the same for worst cases.
pub proof fn law_unknown_names(fns: Seq<FnNode>)
    ensures
        forall|p: int|
            0 <= p < fns.len() && (#[trigger] fns[p]).local_stack is None ==> unknown_local_names(
                fns,
            ).contains(fns[p].info.name@),
        forall|j: int|
            0 <= j < unknown_local_names(fns).len() ==> has_unknown_local(
                fns,
                #[trigger] unknown_local_names(fns)[j],
            ),
        forall|p: int|
            0 <= p < fns.len() && (#[trigger] fns[p]).max_stack is None ==> unknown_max_names(
                fns,
            ).contains(fns[p].info.name@),
        forall|j: int|
            0 <= j < unknown_max_names(fns).len() ==> has_unknown_max(
                fns,
                #[trigger] unknown_max_names(fns)[j],
            ),
    decreases fns.len(),
{
    if fns.len() > 0 {
        let pre = fns.drop_last();
        law_unknown_names(pre);
        let ul = unknown_local_names(fns);
        let um = unknown_max_names(fns);
        let ulp = unknown_local_names(pre);
        let ump = unknown_max_names(pre);
        let last = fns.len() - 1;
        assert(fns[last] == fns.last());
        assert forall|p: int| 0 <= p < fns.len() && (#[trigger] fns[p]).local_stack is None implies ul.contains(
            fns[p].info.name@,
        ) by {
            if p < last {
                assert(pre[p] == fns[p]);
                let w = choose|w: int| 0 <= w < ulp.len() && ulp[w] == pre[p].info.name@;
                assert(ul[w] == ulp[w]);
            } else {
                assert(ul[ul.len() - 1] == fns[p].info.name@);
            }
        }
        assert forall|j: int| 0 <= j < ul.len() implies has_unknown_local(fns, #[trigger] ul[j]) by {
            if j < ulp.len() {
                assert(ul[j] == ulp[j]);
                assert(has_unknown_local(pre, ulp[j]));
                let p = choose|p: int|
                    0 <= p < pre.len() && pre[p].local_stack is None && pre[p].info.name@ == ulp[j];
                assert(fns[p] == pre[p]);
            } else {
                assert(fns.last().local_stack is None);
                assert(ul == ulp.push(fns.last().info.name@));
                assert(ul[j] == fns[last].info.name@);
                assert(fns[last].local_stack is None);
                assert(has_unknown_local(fns, ul[j]));
            }
        }
        assert forall|p: int| 0 <= p < fns.len() && (#[trigger] fns[p]).max_stack is None implies um.contains(
            fns[p].info.name@,
        ) by {
            if p < last {
                assert(pre[p] == fns[p]);
                let w = choose|w: int| 0 <= w < ump.len() && ump[w] == pre[p].info.name@;
                assert(um[w] == ump[w]);
            } else {
                assert(um[um.len() - 1] == fns[p].info.name@);
            }
        }
        assert forall|j: int| 0 <= j < um.len() implies has_unknown_max(fns, #[trigger] um[j]) by {
            if j < ump.len() {
                assert(um[j] == ump[j]);
                assert(has_unknown_max(pre, ump[j]));
                let p = choose|p: int|
                    0 <= p < pre.len() && pre[p].max_stack is None && pre[p].info.name@ == ump[j];
                assert(fns[p] == pre[p]);
            } else {
                assert(fns.last().max_stack is None);
                assert(um == ump.push(fns.last().info.name@));
                assert(um[j] == fns[last].info.name@);
                assert(fns[last].max_stack is None);
                assert(has_unknown_max(fns, um[j]));
            }
        }
    }
}

} // verus!
