//! The scopes that are active at an instruction pointer, and the variables
//! that they make visible.

use vstd::prelude::*;
use crate::program::{Scope, Variable};
use crate::table::NameMap;

verus! {

/// The name under which a scope is listed.
pub open spec fn label(s: Scope) -> Seq<char> {
    match s.name {
        Some(n) => n@,
        None => "unnamed scope"@,
    }
}

/// Whether a child scope holds the instruction pointer `rip`.
pub open spec fn contains_rip(s: Scope, rip: u64) -> bool {
    s.low_pc <= rip && rip - s.low_pc <= s.high_pc
}

/// The names of the active scopes found below `s`, visiting its children
/// from index `i` on, each active child followed by its own active
/// descendants.
pub open spec fn chain_below(s: Scope, rip: u64, i: int) -> Seq<Seq<char>>
    decreases s, s.scopes@.len() - i,
    when 0 <= i
{
    if i >= s.scopes@.len() {
        seq![]
    } else {
        let c = s.scopes@[i];
        let here = if contains_rip(c, rip) {
            seq![label(c)] + chain_below(c, rip, 0)
        } else {
            seq![]
        };
        here + chain_below(s, rip, i + 1)
    }
}

/// The active scope chain of `s` at `rip`, outermost first.
pub open spec fn scope_chain(s: Scope, rip: u64) -> Seq<Seq<char>> {
    seq![label(s)] + chain_below(s, rip, 0)
}

/// The bindings in `acc` after the variables of the active scopes below `s`
/// have been laid over it, children from index `i` on, in visiting order.
pub open spec fn merge_below(acc: Map<Seq<char>, Variable>, s: Scope, rip: u64, i: int) -> Map<
    Seq<char>,
    Variable,
>
    decreases s, s.scopes@.len() - i,
    when 0 <= i
{
    if i >= s.scopes@.len() {
        acc
    } else {
        let c = s.scopes@[i];
        let next = if contains_rip(c, rip) {
            merge_below(acc.union_prefer_right(c.variables@), c, rip, 0)
        } else {
            acc
        };
        merge_below(next, s, rip, i + 1)
    }
}

/// The variables visible at `rip` from the scope `s`, the innermost binding
/// of each name winning.
pub open spec fn visible_variables(s: Scope, rip: u64) -> Map<Seq<char>, Variable> {
    merge_below(s.variables@, s, rip, 0)
}

pub open spec fn names_of(v: Seq<String>) -> Seq<Seq<char>> {
    v.map_values(|s: String| s@)
}

/// Appends to `scopes` the names of the scopes of `scope` that hold `rip`,
/// `scope` itself first, and lays their variables over `variables`, outer
/// scopes first, so that an inner binding of a name replaces an outer one.
pub fn construct_context(
    scope: &Scope,
    variables: &mut NameMap<Variable>,
    scopes: &mut Vec<String>,
    rip: u64,
)
    requires
        old(variables).wf(),
    ensures
        final(variables).wf(),
        final(variables)@ == merge_below(old(variables)@.union_prefer_right(scope.variables@), *scope, rip, 0),
        names_of(final(scopes)@) == names_of(old(scopes)@) + seq![label(*scope)] + chain_below(*scope, rip, 0),
    decreases *scope,
{
    match &scope.name {
        Some(name) => scopes.push(name.clone()),
        None => scopes.push(String::from_str("unnamed scope")),
    }
    proof {
        assert(names_of(scopes@) =~= names_of(old(scopes)@) + seq![label(*scope)]);
    }

    let mut k: usize = 0;
    let ghost start = variables@;
    while k < scope.variables.entries.len()
        invariant
            variables.wf(),
            k <= scope.variables.entries@.len(),
            variables@ == start.union_prefer_right(crate::table::map_of(scope.variables.entries@.take(k as int))),
        decreases scope.variables.entries@.len() - k,
    {
        let entry = &scope.variables.entries[k];
        variables.insert(entry.0.clone(), entry.1.duplicate());
        proof {
            let s = scope.variables.entries@;
            assert(s.take(k + 1).drop_last() =~= s.take(k as int));
        }
        k = k + 1;
    }
    proof {
        assert(scope.variables.entries@.take(k as int) =~= scope.variables.entries@);
    }

    let ghost names_target = names_of(old(scopes)@) + seq![label(*scope)] + chain_below(*scope, rip, 0);
    let ghost vars_target = merge_below(old(variables)@.union_prefer_right(scope.variables@), *scope, rip, 0);
    let mut i: usize = 0;
    while i < scope.scopes.len()
        invariant
            variables.wf(),
            i <= scope.scopes@.len(),
            names_of(scopes@) + chain_below(*scope, rip, i as int) == names_target,
            merge_below(variables@, *scope, rip, i as int) == vars_target,
        decreases scope.scopes@.len() - i,
    {
        let child = &scope.scopes[i];
        let ghost before = names_of(scopes@);
        if rip >= child.low_pc && rip - child.low_pc <= child.high_pc {
            construct_context(child, variables, scopes, rip);
        }
        proof {
            assert(names_of(scopes@) + chain_below(*scope, rip, i + 1) =~= before + chain_below(*scope, rip, i as int));
        }
        i = i + 1;
    }
    proof {
        assert(chain_below(*scope, rip, i as int) =~= seq![]);
        assert(names_of(scopes@) =~= names_of(scopes@) + chain_below(*scope, rip, i as int));
    }
}


/// The active scopes below `s`, children from index `i` on, in the order in
/// which the resolver visits them.
pub open spec fn active_below(s: Scope, rip: u64, i: int) -> Seq<Scope>
    decreases s, s.scopes@.len() - i,
    when 0 <= i
{
    if i >= s.scopes@.len() {
        seq![]
    } else {
        let c = s.scopes@[i];
        let here = if contains_rip(c, rip) {
            seq![c] + active_below(c, rip, 0)
        } else {
            seq![]
        };
        here + active_below(s, rip, i + 1)
    }
}

/// The active scopes of the tree rooted at `s`, root first.
pub open spec fn active_scopes(s: Scope, rip: u64) -> Seq<Scope> {
    seq![s] + active_below(s, rip, 0)
}

/// Each scope of `q` is a child of `root` or of a scope listed before it.
pub open spec fn parent_listed_first(q: Seq<Scope>, root: Scope) -> bool {
    forall|k: int|
        0 <= k < q.len() ==> root.scopes@.contains(#[trigger] q[k]) || exists|j: int|
            0 <= j < k && q[j].scopes@.contains(q[k])
}

/// The variables of the scopes of `q` laid over `acc`, first to last.
pub open spec fn layered(acc: Map<Seq<char>, Variable>, q: Seq<Scope>) -> Map<Seq<char>, Variable>
    decreases q.len(),
{
    if q.len() == 0 {
        acc
    } else {
        layered(acc, q.drop_last()).union_prefer_right(q.last().variables@)
    }
}

proof fn lemma_active_below(s: Scope, rip: u64, i: int)
    requires
        0 <= i,
    ensures
        chain_below(s, rip, i) == active_below(s, rip, i).map_values(|c: Scope| label(c)),
        parent_listed_first(active_below(s, rip, i), s),
        forall|k: int| 0 <= k < active_below(s, rip, i).len() ==> contains_rip(#[trigger] active_below(s, rip, i)[k], rip),
    decreases s, s.scopes@.len() - i,
{
    if i < s.scopes@.len() {
        let c = s.scopes@[i];
        lemma_active_below(s, rip, i + 1);
        let rest = active_below(s, rip, i + 1);
        let here = if contains_rip(c, rip) {
            lemma_active_below(c, rip, 0);
            seq![c] + active_below(c, rip, 0)
        } else {
            seq![]
        };
        let q = here + rest;
        assert(q == active_below(s, rip, i));
        if contains_rip(c, rip) {
            let below = active_below(c, rip, 0);
            assert forall|k: int| 0 <= k < here.len() implies s.scopes@.contains(#[trigger] here[k]) || exists|j: int|
                0 <= j < k && here[j].scopes@.contains(here[k]) by {
                if k == 0 {
                    assert(s.scopes@[i] == here[0]);
                } else {
                    assert(here[k] == below[k - 1]);
                    if !c.scopes@.contains(below[k - 1]) {
                        let j = choose|j: int| 0 <= j < k - 1 && below[j].scopes@.contains(below[k - 1]);
                        assert(here[j + 1] == below[j]);
                    } else {
                        assert(here[0] == c);
                    }
                }
            }
            assert(here.map_values(|c: Scope| label(c)) =~= seq![label(c)] + below.map_values(|c: Scope| label(c)));
        } else {
            assert(here.map_values(|c: Scope| label(c)) =~= seq![]);
        }
        assert forall|k: int| 0 <= k < q.len() implies s.scopes@.contains(#[trigger] q[k]) || exists|j: int|
            0 <= j < k && q[j].scopes@.contains(q[k]) by {
            if k < here.len() {
                assert(q[k] == here[k]);
                if !s.scopes@.contains(here[k]) {
                    let j = choose|j: int| 0 <= j < k && here[j].scopes@.contains(here[k]);
                    assert(q[j] == here[j]);
                }
            } else {
                let m = k - here.len();
                assert(q[k] == rest[m]);
                if !s.scopes@.contains(rest[m]) {
                    let j = choose|j: int| 0 <= j < m && rest[j].scopes@.contains(rest[m]);
                    assert(q[j + here.len()] == rest[j]);
                }
            }
        }
        assert forall|k: int| 0 <= k < q.len() implies contains_rip(#[trigger] q[k], rip) by {
            if k < here.len() {
                if k > 0 {
                    assert(here[k] == active_below(c, rip, 0)[k - 1]);
                }
            } else {
                assert(q[k] == rest[k - here.len()]);
            }
        }
        assert(q.map_values(|c: Scope| label(c)) =~= here.map_values(|c: Scope| label(c)) + rest.map_values(
            |c: Scope| label(c),
        ));
    } else {
        assert(active_below(s, rip, i).map_values(|c: Scope| label(c)) =~= seq![]);
    }
}

proof fn lemma_layered_append(acc: Map<Seq<char>, Variable>, a: Seq<Scope>, b: Seq<Scope>)
    ensures
        layered(acc, a + b) == layered(layered(acc, a), b),
    decreases b.len(),
{
    if b.len() == 0 {
        assert(a + b =~= a);
    } else {
        assert((a + b).drop_last() =~= a + b.drop_last());
        lemma_layered_append(acc, a, b.drop_last());
    }
}

proof fn lemma_merge_is_layered(acc: Map<Seq<char>, Variable>, s: Scope, rip: u64, i: int)
    requires
        0 <= i,
    ensures
        merge_below(acc, s, rip, i) == layered(acc, active_below(s, rip, i)),
    decreases s, s.scopes@.len() - i,
{
    if i < s.scopes@.len() {
        let c = s.scopes@[i];
        let rest = active_below(s, rip, i + 1);
        if contains_rip(c, rip) {
            let inner = acc.union_prefer_right(c.variables@);
            lemma_merge_is_layered(inner, c, rip, 0);
            lemma_merge_is_layered(merge_below(inner, c, rip, 0), s, rip, i + 1);
            let below = active_below(c, rip, 0);
            assert(layered(acc, seq![c]) == inner) by {
                assert(seq![c].drop_last() =~= Seq::<Scope>::empty());
                assert(layered(acc, Seq::<Scope>::empty()) == acc);
            }
            lemma_layered_append(acc, seq![c], below);
            lemma_layered_append(acc, seq![c] + below, rest);
        } else {
            lemma_merge_is_layered(acc, s, rip, i + 1);
            assert(active_below(s, rip, i) =~= rest);
        }
    } else {
        assert(active_below(s, rip, i) =~= Seq::<Scope>::empty());
    }
}

proof fn lemma_layered_last(acc: Map<Seq<char>, Variable>, q: Seq<Scope>, k: int, name: Seq<char>)
    requires
        0 <= k < q.len(),
        q[k].variables@.contains_key(name),
        forall|j: int| k < j < q.len() ==> !(#[trigger] q[j].variables@.contains_key(name)),
    ensures
        layered(acc, q).contains_key(name),
        layered(acc, q)[name] == q[k].variables@[name],
    decreases q.len(),
{
    if k < q.len() - 1 {
        let d = q.drop_last();
        assert forall|j: int| k < j < d.len() implies !(#[trigger] d[j].variables@.contains_key(name)) by {
            assert(d[j] == q[j]);
        }
        assert(!q[q.len() - 1].variables@.contains_key(name));
        lemma_layered_last(acc, d, k, name);
    }
}

/// The resolver lists the root first, then only scopes that hold `rip`,
/// each listed after the scope that it is nested in.
pub proof fn lemma_chain_is_nested_and_contains_rip(s: Scope, rip: u64)
    ensures
        scope_chain(s, rip) == active_scopes(s, rip).map_values(|c: Scope| label(c)),
        active_scopes(s, rip)[0] == s,
        forall|k: int|
            1 <= k < active_scopes(s, rip).len() ==> contains_rip(#[trigger] active_scopes(s, rip)[k], rip),
        forall|k: int|
            1 <= k < active_scopes(s, rip).len() ==> exists|j: int|
                0 <= j < k && active_scopes(s, rip)[j].scopes@.contains(#[trigger] active_scopes(s, rip)[k]),
{
    lemma_active_below(s, rip, 0);
    let below = active_below(s, rip, 0);
    let q = active_scopes(s, rip);
    assert(q.map_values(|c: Scope| label(c)) =~= seq![label(s)] + below.map_values(|c: Scope| label(c)));
    assert forall|k: int| 1 <= k < q.len() implies contains_rip(#[trigger] q[k], rip) by {
        assert(q[k] == below[k - 1]);
    }
    assert forall|k: int| 1 <= k < q.len() implies exists|j: int|
        0 <= j < k && q[j].scopes@.contains(#[trigger] q[k]) by {
        assert(q[k] == below[k - 1]);
        if s.scopes@.contains(below[k - 1]) {
            assert(q[0] == s);
        } else {
            let j = choose|j: int| 0 <= j < k - 1 && below[j].scopes@.contains(below[k - 1]);
            assert(q[j + 1] == below[j]);
        }
    }
}

/// Of the active scopes that bind a name, the one visited last, which is
/// nested inside the others on its path, gives the binding the resolver
/// returns.
pub proof fn lemma_inner_binding_wins(s: Scope, rip: u64, k: int, name: Seq<char>)
    requires
        0 <= k < active_scopes(s, rip).len(),
        active_scopes(s, rip)[k].variables@.contains_key(name),
        forall|j: int|
            k < j < active_scopes(s, rip).len() ==> !(#[trigger] active_scopes(s, rip)[j].variables@.contains_key(name)),
    ensures
        visible_variables(s, rip).contains_key(name),
        visible_variables(s, rip)[name] == active_scopes(s, rip)[k].variables@[name],
{
    let q = active_scopes(s, rip);
    lemma_merge_is_layered(s.variables@, s, rip, 0);
    assert(layered(Map::empty(), seq![s]) == s.variables@) by {
        assert(seq![s].drop_last() =~= Seq::<Scope>::empty());
        assert(layered(Map::empty(), Seq::<Scope>::empty()) == Map::<Seq<char>, Variable>::empty());
        assert(Map::<Seq<char>, Variable>::empty().union_prefer_right(s.variables@) =~= s.variables@);
    }
    lemma_layered_append(Map::empty(), seq![s], active_below(s, rip, 0));
    lemma_layered_last(Map::empty(), q, k, name);
}

} // verus!
