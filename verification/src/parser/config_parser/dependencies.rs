//! What the two maps read from any configuration satisfy: a task is listed
//! under `u` exactly when one of its declarations depends on `u`; every task
//! named in a dependency list is a declared task; every declared task has
//! settings and a list of its own; and so every listed name is a key of the
//! dependency map.

use vstd::prelude::*;

use super::grammar::{CommandV, DeclV};
use super::{add_dependent, add_dependents, apply_command, begin_task, build_tasks, config_maps, run_commands, TaskState};
use crate::executor::scheduler::deps_closed;

verus! {

/// Some declaration of `ds` is named `x`.
pub open spec fn declares(ds: Seq<DeclV>, x: Seq<char>) -> bool {
    exists|j: int| 0 <= j < ds.len() && ds[j].name == x
}

/// Every name in every list of `deps` is declared in `ds`.
pub open spec fn lists_declared(deps: Map<Seq<char>, Seq<Seq<char>>>, ds: Seq<DeclV>) -> bool {
    forall|k: Seq<char>, i: int|
        deps.contains_key(k) && 0 <= i < deps[k].len() ==> declares(ds, #[trigger] deps[k][i])
}

proof fn lemma_add_dependent(deps: Map<Seq<char>, Seq<Seq<char>>>, up: Seq<char>, name: Seq<char>, ds: Seq<DeclV>)
    requires
        lists_declared(deps, ds),
        declares(ds, name),
    ensures
        lists_declared(add_dependent(deps, up, name), ds),
        forall|k: Seq<char>| deps.contains_key(k) ==> #[trigger] add_dependent(deps, up, name).contains_key(k),
{
    let r = add_dependent(deps, up, name);
    let before = if deps.contains_key(up) {
        deps[up]
    } else {
        Seq::empty()
    };
    assert forall|k: Seq<char>, i: int| r.contains_key(k) && 0 <= i < r[k].len() implies declares(
        ds,
        #[trigger] r[k][i],
    ) by {
        if k == up {
            if i < before.len() {
                assert(r[k][i] == before[i]);
                assert(deps.contains_key(up) && deps[up][i] == before[i]);
            } else {
                assert(r[k][i] == name);
            }
        } else {
            assert(r[k] == deps[k]);
            assert(deps[k][i] == r[k][i]);
        }
    }
}

proof fn lemma_add_dependents(deps: Map<Seq<char>, Seq<Seq<char>>>, ups: Seq<Seq<char>>, name: Seq<char>, ds: Seq<DeclV>)
    requires
        lists_declared(deps, ds),
        declares(ds, name),
    ensures
        lists_declared(add_dependents(deps, ups, name), ds),
        forall|k: Seq<char>| deps.contains_key(k) ==> #[trigger] add_dependents(deps, ups, name).contains_key(k),
    decreases ups.len(),
{
    if ups.len() > 0 {
        lemma_add_dependents(deps, ups.drop_last(), name, ds);
        lemma_add_dependent(add_dependents(deps, ups.drop_last(), name), ups.last(), name, ds);
    }
}

proof fn lemma_run_commands(st: TaskState, name: Seq<char>, cs: Seq<CommandV>, ds: Seq<DeclV>)
    requires
        lists_declared(st.deps, ds),
        declares(ds, name),
    ensures
        lists_declared(run_commands(st, name, cs).deps, ds),
        forall|k: Seq<char>| st.deps.contains_key(k) ==> #[trigger] run_commands(st, name, cs).deps.contains_key(k),
    decreases cs.len(),
{
    if cs.len() > 0 {
        lemma_run_commands(st, name, cs.drop_last(), ds);
        let mid = run_commands(st, name, cs.drop_last());
        match cs.last() {
            CommandV::DependsOn(ups) => {
                lemma_add_dependents(mid.deps, ups, name, ds);
            },
            _ => {
                assert(apply_command(mid, name, cs.last()).deps == mid.deps);
            },
        }
    }
}

proof fn lemma_lists_declared_grow(deps: Map<Seq<char>, Seq<Seq<char>>>, ds: Seq<DeclV>)
    requires
        ds.len() > 0,
        lists_declared(deps, ds.drop_last()),
    ensures
        lists_declared(deps, ds),
{
    assert forall|k: Seq<char>, i: int| deps.contains_key(k) && 0 <= i < deps[k].len() implies declares(
        ds,
        #[trigger] deps[k][i],
    ) by {
        let x = deps[k][i];
        assert(declares(ds.drop_last(), x));
        let j = choose|j: int| 0 <= j < ds.drop_last().len() && ds.drop_last()[j].name == x;
        assert(ds[j] == ds.drop_last()[j]);
    }
}

proof fn lemma_build_tasks(ds: Seq<DeclV>)
    ensures
        lists_declared(build_tasks(ds).deps, ds),
        forall|j: int| 0 <= j < ds.len() ==> build_tasks(ds).deps.contains_key(#[trigger] ds[j].name),
        forall|j: int| 0 <= j < ds.len() ==> build_tasks(ds).props.contains_key(#[trigger] ds[j].name),
        forall|x: Seq<char>| #[trigger] build_tasks(ds).props.contains_key(x) ==> declares(ds, x),
    decreases ds.len(),
{
    if ds.len() > 0 {
        let prev_ds = ds.drop_last();
        let d = ds.last();
        let last = ds.len() - 1;
        lemma_build_tasks(prev_ds);
        let b = build_tasks(prev_ds);
        lemma_lists_declared_grow(b.deps, ds);
        assert(ds[last] == d);
        assert(declares(ds, d.name));
        let st0 = begin_task(b, d.name);
        assert(lists_declared(st0.deps, ds)) by {
            assert forall|k: Seq<char>, i: int| st0.deps.contains_key(k) && 0 <= i < st0.deps[k].len() implies declares(
                ds,
                #[trigger] st0.deps[k][i],
            ) by {
                if !b.deps.contains_key(d.name) && k == d.name {
                    assert(st0.deps[k].len() == 0);
                } else {
                    assert(st0.deps[k] == b.deps[k]);
                    assert(b.deps[k][i] == st0.deps[k][i]);
                }
            }
        }
        lemma_run_commands(st0, d.name, d.commands, ds);
        let r = build_tasks(ds);
        assert(st0.deps.contains_key(d.name));
        assert forall|j: int| 0 <= j < ds.len() implies r.deps.contains_key(#[trigger] ds[j].name) by {
            if j < last {
                assert(ds[j] == prev_ds[j]);
                assert(b.deps.contains_key(prev_ds[j].name));
                assert(st0.deps.contains_key(prev_ds[j].name));
            }
        }
        assert forall|j: int| 0 <= j < ds.len() implies r.props.contains_key(#[trigger] ds[j].name) by {
            if j < last {
                assert(ds[j] == prev_ds[j]);
                assert(b.props.contains_key(prev_ds[j].name));
            }
        }
        assert forall|x: Seq<char>| #[trigger] r.props.contains_key(x) implies declares(ds, x) by {
            if x != d.name {
                assert(b.props.contains_key(x));
                assert(declares(prev_ds, x));
                let j = choose|j: int| 0 <= j < prev_ds.len() && prev_ds[j].name == x;
                assert(ds[j] == prev_ds[j]);
            }
        }
    }
}

/// Every task named in a dependency list is a task that the configuration
/// declares.
pub proof fn lemma_listed_tasks_are_declared(ds: Seq<DeclV>, u: Seq<char>, i: int)
    requires
        config_maps(ds).1.contains_key(u),
        0 <= i < config_maps(ds).1[u].len(),
    ensures
        declares(ds, config_maps(ds).1[u][i]),
{
    lemma_build_tasks(ds);
}

/// The settings map holds exactly the declared tasks and the empty name; the
/// dependency map holds every declared task.
pub proof fn lemma_declared_tasks_have_entries(ds: Seq<DeclV>, x: Seq<char>)
    ensures
        config_maps(ds).0.contains_key(x) <==> (x == Seq::<char>::empty() || declares(ds, x)),
        declares(ds, x) ==> config_maps(ds).1.contains_key(x),
{
    lemma_build_tasks(ds);
    if declares(ds, x) {
        let j = choose|j: int| 0 <= j < ds.len() && ds[j].name == x;
        assert(build_tasks(ds).props.contains_key(ds[j].name));
        assert(build_tasks(ds).deps.contains_key(ds[j].name));
    }
}

/// Every name in a dependency list is itself a key of the dependency map, so
/// the in-degree of every listed task can be counted.
pub proof fn lemma_dependencies_closed(ds: Seq<DeclV>)
    ensures
        deps_closed(config_maps(ds).1),
{
    lemma_build_tasks(ds);
    let m = config_maps(ds).1;
    assert forall|k: Seq<char>, i: int| m.contains_key(k) && 0 <= i < m[k].len() implies #[trigger] m.contains_key(
        #[trigger] m[k][i],
    ) by {
        let x = m[k][i];
        assert(declares(ds, x));
        let j = choose|j: int| 0 <= j < ds.len() && ds[j].name == x;
        assert(build_tasks(ds).deps.contains_key(ds[j].name));
    }
}

/// `t` is listed under `u` in `deps`.
pub open spec fn listed(deps: Map<Seq<char>, Seq<Seq<char>>>, u: Seq<char>, t: Seq<char>) -> bool {
    deps.contains_key(u) && deps[u].contains(t)
}

/// One of the commands `cs` is a `depends_on` that names `u`.
pub open spec fn names_upstream(cs: Seq<CommandV>, u: Seq<char>) -> bool {
    exists|c: int| 0 <= c < cs.len() && (#[trigger] cs[c] matches CommandV::DependsOn(ups) && ups.contains(u))
}

/// Some declaration of `t` in `ds` has a `depends_on` that names `u`.
pub open spec fn declares_dependency(ds: Seq<DeclV>, t: Seq<char>, u: Seq<char>) -> bool {
    exists|j: int| 0 <= j < ds.len() && (#[trigger] ds[j]).name == t && names_upstream(ds[j].commands, u)
}

proof fn lemma_listed_add_dependent(
    deps: Map<Seq<char>, Seq<Seq<char>>>,
    up: Seq<char>,
    name: Seq<char>,
    u: Seq<char>,
    t: Seq<char>,
)
    ensures
        listed(add_dependent(deps, up, name), u, t) <==> (listed(deps, u, t) || (u == up && t == name)),
{
    let r = add_dependent(deps, up, name);
    if u == up {
        let before = if deps.contains_key(up) {
            deps[up]
        } else {
            Seq::empty()
        };
        assert(r[u] == before.push(name));
        if before.push(name).contains(t) && t != name {
            let i = choose|i: int| 0 <= i < before.push(name).len() && before.push(name)[i] == t;
            assert(i < before.len());
            assert(before[i] == t);
        }
        if listed(deps, u, t) {
            let i = choose|i: int| 0 <= i < deps[u].len() && deps[u][i] == t;
            assert(before.push(name)[i] == t);
        }
        if t == name {
            assert(before.push(name)[before.len() as int] == t);
        }
    } else {
        assert(r.contains_key(u) == deps.contains_key(u));
        if deps.contains_key(u) {
            assert(r[u] == deps[u]);
        }
    }
}

proof fn lemma_listed_add_dependents(
    deps: Map<Seq<char>, Seq<Seq<char>>>,
    ups: Seq<Seq<char>>,
    name: Seq<char>,
    u: Seq<char>,
    t: Seq<char>,
)
    ensures
        listed(add_dependents(deps, ups, name), u, t) <==> (listed(deps, u, t) || (t == name && ups.contains(u))),
    decreases ups.len(),
{
    if ups.len() > 0 {
        lemma_listed_add_dependents(deps, ups.drop_last(), name, u, t);
        lemma_listed_add_dependent(add_dependents(deps, ups.drop_last(), name), ups.last(), name, u, t);
        if ups.contains(u) && !ups.drop_last().contains(u) {
            let i = choose|i: int| 0 <= i < ups.len() && ups[i] == u;
            if i < ups.len() - 1 {
                assert(ups.drop_last()[i] == u);
            }
        }
        if ups.drop_last().contains(u) {
            let i = choose|i: int| 0 <= i < ups.drop_last().len() && ups.drop_last()[i] == u;
            assert(ups[i] == u);
        }
        if ups.last() == u {
            assert(ups[ups.len() - 1] == u);
        }
    }
}

proof fn lemma_listed_run_commands(st: TaskState, name: Seq<char>, cs: Seq<CommandV>, u: Seq<char>, t: Seq<char>)
    ensures
        listed(run_commands(st, name, cs).deps, u, t) <==> (listed(st.deps, u, t) || (t == name
            && names_upstream(cs, u))),
    decreases cs.len(),
{
    if cs.len() > 0 {
        let prev = cs.drop_last();
        lemma_listed_run_commands(st, name, prev, u, t);
        let mid = run_commands(st, name, prev);
        let last = cs.len() - 1;
        assert(cs[last] == cs.last());
        match cs.last() {
            CommandV::DependsOn(ups) => {
                lemma_listed_add_dependents(mid.deps, ups, name, u, t);
            },
            _ => {
                assert(apply_command(mid, name, cs.last()).deps == mid.deps);
            },
        }
        if names_upstream(cs, u) && !names_upstream(prev, u) {
            let c = choose|c: int| 0 <= c < cs.len() && (#[trigger] cs[c] matches CommandV::DependsOn(ups) && ups.contains(u));
            if c < last {
                assert(prev[c] == cs[c]);
            }
        }
        if names_upstream(prev, u) {
            let c = choose|c: int| 0 <= c < prev.len() && (#[trigger] prev[c] matches CommandV::DependsOn(ups) && ups.contains(u));
            assert(cs[c] == prev[c]);
        }
        if cs.last() matches CommandV::DependsOn(ups) && ups.contains(u) {
            assert(names_upstream(cs, u));
        }
    }
}

proof fn lemma_listed_build_tasks(ds: Seq<DeclV>, u: Seq<char>, t: Seq<char>)
    ensures
        listed(build_tasks(ds).deps, u, t) <==> declares_dependency(ds, t, u),
    decreases ds.len(),
{
    if ds.len() > 0 {
        let prev = ds.drop_last();
        let d = ds.last();
        let last = ds.len() - 1;
        lemma_listed_build_tasks(prev, u, t);
        let b = build_tasks(prev);
        let st0 = begin_task(b, d.name);
        assert(listed(st0.deps, u, t) == listed(b.deps, u, t)) by {
            if !b.deps.contains_key(d.name) && u == d.name {
                assert(st0.deps[u] == Seq::<Seq<char>>::empty());
            }
        }
        lemma_listed_run_commands(st0, d.name, d.commands, u, t);
        assert(ds[last] == d);
        if declares_dependency(ds, t, u) && !declares_dependency(prev, t, u) {
            let j = choose|j: int| 0 <= j < ds.len() && (#[trigger] ds[j]).name == t && names_upstream(ds[j].commands, u);
            if j < last {
                assert(prev[j] == ds[j]);
            }
        }
        if declares_dependency(prev, t, u) {
            let j = choose|j: int| 0 <= j < prev.len() && (#[trigger] prev[j]).name == t && names_upstream(prev[j].commands, u);
            assert(ds[j] == prev[j]);
        }
    }
}

/// `t` is listed among the tasks that depend on `u` exactly when some
/// declaration of `t` has a `depends_on` line that names `u`.
pub proof fn lemma_listed_exactly_when_declared(ds: Seq<DeclV>, u: Seq<char>, t: Seq<char>)
    ensures
        listed(config_maps(ds).1, u, t) <==> declares_dependency(ds, t, u),
{
    lemma_listed_build_tasks(ds, u, t);
}

} // verus!
