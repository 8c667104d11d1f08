//! What a task's settings are: the chain name of its last `select` line, the
//! method name of its last `use` line (both empty without one), and every
//! property written on its `properties` lines under its name as written,
//! with the value of its last occurrence; its request text is set by its
//! last `method_params` line, with the method of the last `use` line before
//! it. The settings are those of the task's last declaration.

use vstd::prelude::*;

use super::grammar::{CommandV, DeclV};
use super::request::{request_text, ParamsModel};
use super::{add_properties, begin_task, next_params, build_tasks, config_maps, run_commands, TaskState};

verus! {

/// All pairs written on the `properties` lines among `cs`, in order.
pub open spec fn property_pairs(cs: Seq<CommandV>) -> Seq<(Seq<char>, Seq<char>)>
    decreases cs.len(),
{
    if cs.len() == 0 {
        seq![]
    } else {
        property_pairs(cs.drop_last()) + match cs.last() {
            CommandV::Properties(ps) => ps,
            _ => seq![],
        }
    }
}

proof fn lemma_property_keys(m: Map<Seq<char>, Seq<char>>, ps: Seq<(Seq<char>, Seq<char>)>, k: Seq<char>)
    ensures
        add_properties(m, ps).contains_key(k) <==> (m.contains_key(k) || exists|i: int|
            0 <= i < ps.len() && (#[trigger] ps[i]).0 == k),
    decreases ps.len(),
{
    if ps.len() > 0 {
        let prev = ps.drop_last();
        lemma_property_keys(m, prev, k);
        if exists|i: int| 0 <= i < ps.len() && (#[trigger] ps[i]).0 == k {
            let i = choose|i: int| 0 <= i < ps.len() && (#[trigger] ps[i]).0 == k;
            if i < ps.len() - 1 {
                assert(prev[i] == ps[i]);
            }
        }
        if exists|i: int| 0 <= i < prev.len() && (#[trigger] prev[i]).0 == k {
            let i = choose|i: int| 0 <= i < prev.len() && (#[trigger] prev[i]).0 == k;
            assert(ps[i] == prev[i]);
        }
    }
}

proof fn lemma_property_kept(m: Map<Seq<char>, Seq<char>>, ps: Seq<(Seq<char>, Seq<char>)>, k: Seq<char>)
    requires
        forall|i: int| 0 <= i < ps.len() ==> (#[trigger] ps[i]).0 != k,
        m.contains_key(k),
    ensures
        add_properties(m, ps)[k] == m[k],
    decreases ps.len(),
{
    if ps.len() > 0 {
        let prev = ps.drop_last();
        assert forall|i: int| 0 <= i < prev.len() implies (#[trigger] prev[i]).0 != k by {
            assert(ps[i] == prev[i]);
        }
        lemma_property_kept(m, prev, k);
        assert(ps[ps.len() - 1] == ps.last());
    }
}

proof fn lemma_property_last(m: Map<Seq<char>, Seq<char>>, ps: Seq<(Seq<char>, Seq<char>)>, i: int)
    requires
        0 <= i < ps.len(),
        forall|i2: int| i < i2 < ps.len() ==> (#[trigger] ps[i2]).0 != ps[i].0,
    ensures
        add_properties(m, ps)[ps[i].0] == ps[i].1,
    decreases ps.len(),
{
    let prev = ps.drop_last();
    let last = ps.len() - 1;
    if i < last {
        assert(prev[i] == ps[i]);
        assert(ps[last].0 != ps[i].0);
        assert forall|i2: int| i < i2 < prev.len() implies (#[trigger] prev[i2]).0 != prev[i].0 by {
            assert(ps[i2] == prev[i2]);
        }
        lemma_property_last(m, prev, i);
    }
}

/// After a `properties` line with pairs `ps`: a name is a key exactly when
/// it was one before or is written on the line, as written; a name written
/// on the line maps to the value of its last occurrence there; any other
/// name keeps its value.
pub proof fn lemma_add_properties(m: Map<Seq<char>, Seq<char>>, ps: Seq<(Seq<char>, Seq<char>)>, k: Seq<char>)
    ensures
        add_properties(m, ps).contains_key(k) <==> (m.contains_key(k) || exists|i: int|
            0 <= i < ps.len() && (#[trigger] ps[i]).0 == k),
        (forall|i: int| 0 <= i < ps.len() ==> (#[trigger] ps[i]).0 != k) && m.contains_key(k) ==> add_properties(
            m,
            ps,
        )[k] == m[k],
        forall|i: int|
            0 <= i < ps.len() && (#[trigger] ps[i]).0 == k && (forall|i2: int| i < i2 < ps.len() ==> (#[trigger] ps[i2]).0 != k)
                ==> add_properties(m, ps)[k] == ps[i].1,
{
    lemma_property_keys(m, ps, k);
    if (forall|i: int| 0 <= i < ps.len() ==> (#[trigger] ps[i]).0 != k) && m.contains_key(k) {
        lemma_property_kept(m, ps, k);
    }
    assert forall|i: int|
        0 <= i < ps.len() && (#[trigger] ps[i]).0 == k && (forall|i2: int| i < i2 < ps.len() ==> (#[trigger] ps[i2]).0 != k)
        implies add_properties(m, ps)[k] == ps[i].1 by {
        lemma_property_last(m, ps, i);
    }
}

proof fn lemma_add_properties_concat(
    m: Map<Seq<char>, Seq<char>>,
    a: Seq<(Seq<char>, Seq<char>)>,
    b: Seq<(Seq<char>, Seq<char>)>,
)
    ensures
        add_properties(m, a + b) == add_properties(add_properties(m, a), b),
    decreases b.len(),
{
    if b.len() == 0 {
        assert(a + b =~= a);
    } else {
        lemma_add_properties_concat(m, a, b.drop_last());
        assert((a + b).drop_last() =~= a + b.drop_last());
        assert((a + b).last() == b.last());
    }
}

proof fn lemma_run_properties(st: TaskState, name: Seq<char>, cs: Seq<CommandV>)
    ensures
        run_commands(st, name, cs).properties == add_properties(st.properties, property_pairs(cs)),
    decreases cs.len(),
{
    if cs.len() > 0 {
        let prev = cs.drop_last();
        lemma_run_properties(st, name, prev);
        match cs.last() {
            CommandV::Properties(ps) => {
                lemma_add_properties_concat(st.properties, property_pairs(prev), ps);
            },
            _ => {
                assert(property_pairs(cs) =~= property_pairs(prev));
            },
        }
    }
}

proof fn lemma_run_chain(st: TaskState, name: Seq<char>, cs: Seq<CommandV>)
    ensures
        (forall|c: int| 0 <= c < cs.len() ==> !((#[trigger] cs[c]) is Select)) ==> run_commands(st, name, cs).chain_name
            == st.chain_name,
        forall|c: int|
            0 <= c < cs.len() && (#[trigger] cs[c]) is Select && (forall|c2: int| c < c2 < cs.len() ==> !((#[trigger] cs[c2]) is Select))
                ==> run_commands(st, name, cs).chain_name == cs[c]->Select_0,
    decreases cs.len(),
{
    if cs.len() > 0 {
        let prev = cs.drop_last();
        let last = cs.len() - 1;
        lemma_run_chain(st, name, prev);
        assert(cs[last] == cs.last());
        let r = run_commands(st, name, cs);
        assert forall|c: int|
            0 <= c < cs.len() && (#[trigger] cs[c]) is Select && (forall|c2: int| c < c2 < cs.len() ==> !((#[trigger] cs[c2]) is Select))
            implies r.chain_name == cs[c]->Select_0 by {
            if c < last {
                assert(!(cs[last] is Select));
                assert(prev[c] == cs[c]);
                assert forall|c2: int| c < c2 < prev.len() implies !((#[trigger] prev[c2]) is Select) by {
                    assert(cs[c2] == prev[c2]);
                }
            }
        }
        if forall|c: int| 0 <= c < cs.len() ==> !((#[trigger] cs[c]) is Select) {
            assert(!(cs[last] is Select));
            assert forall|c: int| 0 <= c < prev.len() implies !((#[trigger] prev[c]) is Select) by {
                assert(cs[c] == prev[c]);
            }
        }
    }
}

proof fn lemma_run_method(st: TaskState, name: Seq<char>, cs: Seq<CommandV>)
    ensures
        (forall|c: int| 0 <= c < cs.len() ==> !((#[trigger] cs[c]) is Use)) ==> run_commands(st, name, cs).method_name
            == st.method_name && run_commands(st, name, cs).method == st.method,
        forall|c: int|
            0 <= c < cs.len() && (#[trigger] cs[c]) is Use && (forall|c2: int| c < c2 < cs.len() ==> !((#[trigger] cs[c2]) is Use))
                ==> run_commands(st, name, cs).method_name == cs[c]->Use_0 && run_commands(st, name, cs).method == Some(
                cs[c]->Use_0,
            ),
    decreases cs.len(),
{
    if cs.len() > 0 {
        let prev = cs.drop_last();
        let last = cs.len() - 1;
        lemma_run_method(st, name, prev);
        assert(cs[last] == cs.last());
        let r = run_commands(st, name, cs);
        assert forall|c: int|
            0 <= c < cs.len() && (#[trigger] cs[c]) is Use && (forall|c2: int| c < c2 < cs.len() ==> !((#[trigger] cs[c2]) is Use))
            implies r.method_name == cs[c]->Use_0 && r.method == Some(cs[c]->Use_0) by {
            if c < last {
                assert(!(cs[last] is Use));
                assert(prev[c] == cs[c]);
                assert forall|c2: int| c < c2 < prev.len() implies !((#[trigger] prev[c2]) is Use) by {
                    assert(cs[c2] == prev[c2]);
                }
            }
        }
        if forall|c: int| 0 <= c < cs.len() ==> !((#[trigger] cs[c]) is Use) {
            assert(!(cs[last] is Use));
            assert forall|c: int| 0 <= c < prev.len() implies !((#[trigger] prev[c]) is Use) by {
                assert(cs[c] == prev[c]);
            }
        }
    }
}

proof fn lemma_run_json(st: TaskState, name: Seq<char>, cs: Seq<CommandV>)
    ensures
        (forall|c: int| 0 <= c < cs.len() ==> !((#[trigger] cs[c]) is MethodParams)) ==> run_commands(st, name, cs).json
            == st.json,
        forall|c: int|
            0 <= c < cs.len() && (#[trigger] cs[c]) is MethodParams && (forall|c2: int|
                c < c2 < cs.len() ==> !((#[trigger] cs[c2]) is MethodParams)) ==> run_commands(st, name, cs).json
                == request_text(
                run_commands(st, name, cs.take(c)).method,
                next_params(run_commands(st, name, cs.take(c)).params, cs[c]->kind, cs[c]->params),
            ),
    decreases cs.len(),
{
    if cs.len() > 0 {
        let prev = cs.drop_last();
        let last = cs.len() - 1;
        lemma_run_json(st, name, prev);
        assert(cs[last] == cs.last());
        assert(prev =~= cs.take(last));
        let r = run_commands(st, name, cs);
        assert forall|c: int|
            0 <= c < cs.len() && (#[trigger] cs[c]) is MethodParams && (forall|c2: int|
                c < c2 < cs.len() ==> !((#[trigger] cs[c2]) is MethodParams)) implies r.json == request_text(
            run_commands(st, name, cs.take(c)).method,
            next_params(run_commands(st, name, cs.take(c)).params, cs[c]->kind, cs[c]->params),
        ) by {
            if c < last {
                assert(!(cs[last] is MethodParams));
                assert(prev[c] == cs[c]);
                assert(prev.take(c) =~= cs.take(c));
                assert forall|c2: int| c < c2 < prev.len() implies !((#[trigger] prev[c2]) is MethodParams) by {
                    assert(cs[c2] == prev[c2]);
                }
            }
        }
        if forall|c: int| 0 <= c < cs.len() ==> !((#[trigger] cs[c]) is MethodParams) {
            assert(!(cs[last] is MethodParams));
            assert forall|c: int| 0 <= c < prev.len() implies !((#[trigger] prev[c]) is MethodParams) by {
                assert(cs[c] == prev[c]);
            }
        }
    }
}

/// The settings stored for the last declaration of a name.
proof fn lemma_last_declaration(ds: Seq<DeclV>, j: int)
    requires
        0 <= j < ds.len(),
        forall|k: int| j < k < ds.len() ==> (#[trigger] ds[k]).name != ds[j].name,
    ensures
        build_tasks(ds).props.contains_key(ds[j].name),
        build_tasks(ds).props[ds[j].name] == super::settings_of(
            run_commands(begin_task(build_tasks(ds.take(j)), ds[j].name), ds[j].name, ds[j].commands),
        ),
    decreases ds.len(),
{
    let last = ds.len() - 1;
    if j == last {
        assert(ds.drop_last() =~= ds.take(j));
    } else {
        let prev = ds.drop_last();
        assert(prev[j] == ds[j]);
        assert forall|k: int| j < k < prev.len() implies (#[trigger] prev[k]).name != prev[j].name by {
            assert(prev[k] == ds[k]);
        }
        lemma_last_declaration(prev, j);
        assert(prev.take(j) =~= ds.take(j));
        assert(ds[last].name != ds[j].name);
    }
}

/// A task's settings, for its last declaration `ds[j]` (a declared task has
/// a name): its chain name is the value of its last `select` line and its
/// method name that of its last `use` line, character for character, or
/// empty without one; its properties map holds exactly the names written on
/// its `properties` lines, as written, each with the value of its last
/// occurrence; without a `method_params` line its request text is empty,
/// and otherwise it is the request of its last such line, carrying the
/// method of the last `use` line before it.
pub proof fn lemma_task_settings(ds: Seq<DeclV>, j: int)
    requires
        0 <= j < ds.len(),
        ds[j].name.len() > 0,
        forall|k: int| j < k < ds.len() ==> (#[trigger] ds[k]).name != ds[j].name,
    ensures
        config_maps(ds).0.contains_key(ds[j].name),
        ({
            let s = config_maps(ds).0[ds[j].name];
            let cs = ds[j].commands;
            let pairs = property_pairs(cs);
            &&& (forall|c: int| 0 <= c < cs.len() ==> !((#[trigger] cs[c]) is Select)) ==> s.chain_name
                == Seq::<char>::empty()
            &&& forall|c: int|
                0 <= c < cs.len() && (#[trigger] cs[c]) is Select && (forall|c2: int|
                    c < c2 < cs.len() ==> !((#[trigger] cs[c2]) is Select)) ==> s.chain_name == cs[c]->Select_0
            &&& (forall|c: int| 0 <= c < cs.len() ==> !((#[trigger] cs[c]) is Use)) ==> s.method_name
                == Seq::<char>::empty()
            &&& forall|c: int|
                0 <= c < cs.len() && (#[trigger] cs[c]) is Use && (forall|c2: int|
                    c < c2 < cs.len() ==> !((#[trigger] cs[c2]) is Use)) ==> s.method_name == cs[c]->Use_0
            &&& forall|i: int| 0 <= i < pairs.len() ==> s.properties_map.contains_key((#[trigger] pairs[i]).0)
            &&& forall|k: Seq<char>|
                #[trigger] s.properties_map.contains_key(k) ==> exists|i: int|
                    0 <= i < pairs.len() && (#[trigger] pairs[i]).0 == k
            &&& forall|i: int|
                0 <= i < pairs.len() && (forall|i2: int| i < i2 < pairs.len() ==> (#[trigger] pairs[i2]).0 != (#[trigger] pairs[i]).0)
                    ==> s.properties_map[pairs[i].0] == pairs[i].1
            &&& (forall|c: int| 0 <= c < cs.len() ==> !((#[trigger] cs[c]) is MethodParams)) ==> s.method_params_json_string
                == Seq::<char>::empty()
            &&& forall|u: int, c: int|
                0 <= u < c < cs.len() && (#[trigger] cs[c]) is MethodParams && (forall|c2: int|
                    c < c2 < cs.len() ==> !((#[trigger] cs[c2]) is MethodParams)) && (#[trigger] cs[u]) is Use && (forall|u2: int|
                    u < u2 < c ==> !((#[trigger] cs[u2]) is Use)) ==> exists|q: Option<ParamsModel>|
                    s.method_params_json_string == request_text(
                        Some(cs[u]->Use_0),
                        #[trigger] next_params(q, cs[c]->kind, cs[c]->params),
                    )
        }),
{
    let x = ds[j].name;
    lemma_last_declaration(ds, j);
    let st0 = begin_task(build_tasks(ds.take(j)), x);
    let cs = ds[j].commands;
    lemma_run_properties(st0, x, cs);
    lemma_run_chain(st0, x, cs);
    lemma_run_method(st0, x, cs);
    lemma_run_json(st0, x, cs);
    assert(x != Seq::<char>::empty());
    let s = config_maps(ds).0[x];
    let pairs = property_pairs(cs);
    let e = Map::<Seq<char>, Seq<char>>::empty();
    assert(s.properties_map == add_properties(e, pairs));
    assert forall|i: int| 0 <= i < pairs.len() implies s.properties_map.contains_key((#[trigger] pairs[i]).0) by {
        lemma_add_properties(e, pairs, pairs[i].0);
    }
    assert forall|k: Seq<char>| #[trigger] s.properties_map.contains_key(k) implies exists|i: int|
        0 <= i < pairs.len() && (#[trigger] pairs[i]).0 == k by {
        lemma_add_properties(e, pairs, k);
    }
    assert forall|i: int|
        0 <= i < pairs.len() && (forall|i2: int| i < i2 < pairs.len() ==> (#[trigger] pairs[i2]).0 != (#[trigger] pairs[i]).0)
        implies s.properties_map[pairs[i].0] == pairs[i].1 by {
        lemma_add_properties(e, pairs, pairs[i].0);
    }
    assert forall|u: int, c: int|
        0 <= u < c < cs.len() && (#[trigger] cs[c]) is MethodParams && (forall|c2: int|
            c < c2 < cs.len() ==> !((#[trigger] cs[c2]) is MethodParams)) && (#[trigger] cs[u]) is Use && (forall|u2: int|
            u < u2 < c ==> !((#[trigger] cs[u2]) is Use)) implies exists|q: Option<ParamsModel>|
        s.method_params_json_string == request_text(
            Some(cs[u]->Use_0),
            #[trigger] next_params(q, cs[c]->kind, cs[c]->params),
        ) by {
        let pre = cs.take(c);
        lemma_run_method(st0, x, pre);
        assert(pre[u] == cs[u]);
        assert forall|u2: int| u < u2 < pre.len() implies !((#[trigger] pre[u2]) is Use) by {
            assert(pre[u2] == cs[u2]);
        }
        let mid = run_commands(st0, x, pre);
        assert(mid.method == Some(cs[u]->Use_0));
        let q = mid.params;
        assert(s.method_params_json_string == request_text(Some(cs[u]->Use_0), next_params(q, cs[c]->kind, cs[c]->params)));
    }
}

} // verus!
