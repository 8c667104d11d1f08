//! The configuration format: lexing, the line grammar, and the maps that the
//! rest of the program works on.

pub mod config_structs;
pub mod dependencies;
pub mod grammar;
pub mod lexer;
pub mod parameters;
pub mod request;
pub mod settings;
pub mod syntax;

use vstd::prelude::*;

use crate::name_map::NameMap;
use crate::text::ascii_lowercase;
use config_structs::{TaskParams, TaskParamsV};
use crate::text::split_on;
use grammar::{
    pairs_view, parse_decls, parse_file, spec_parse_file, strings_view, Command, CommandV, ConfigFile, DeclV,
    MethodParam, ParamV, ParseError, TaskDeclaration,
};
use request::{
    lit_list, opt_params_view, opt_string_view, param_is_ok, param_models, param_ok, param_value,
    param_values_view, request_json_text, request_text, ParamValue, ParamsModel, RequestParams,
};

verus! {

// ---------------------------------------------------------------------------
// What the configuration yields
// ---------------------------------------------------------------------------
/// `name` depends on `up`: it is appended to the tasks that wait for `up`.
pub open spec fn add_dependent(deps: Map<Seq<char>, Seq<Seq<char>>>, up: Seq<char>, name: Seq<char>) -> Map<
    Seq<char>,
    Seq<Seq<char>>,
> {
    deps.insert(
        up,
        (if deps.contains_key(up) {
            deps[up]
        } else {
            Seq::empty()
        }).push(name),
    )
}

pub open spec fn add_dependents(
    deps: Map<Seq<char>, Seq<Seq<char>>>,
    ups: Seq<Seq<char>>,
    name: Seq<char>,
) -> Map<Seq<char>, Seq<Seq<char>>>
    decreases ups.len(),
{
    if ups.len() == 0 {
        deps
    } else {
        add_dependent(add_dependents(deps, ups.drop_last(), name), ups.last(), name)
    }
}

pub open spec fn add_properties(
    m: Map<Seq<char>, Seq<char>>,
    ps: Seq<(Seq<char>, Seq<char>)>,
) -> Map<Seq<char>, Seq<char>>
    decreases ps.len(),
{
    if ps.len() == 0 {
        m
    } else {
        add_properties(m, ps.drop_last()).insert(ps.last().0, ps.last().1)
    }
}

/// The `params` member after a `method_params` line: all typed parameters
/// as a list when the line's kind is `list` (in any letter case); otherwise
/// the first typed parameter, or the earlier member when there is none.
pub open spec fn next_params(old: Option<ParamsModel>, kind: Seq<char>, params: Seq<ParamV>) -> Option<
    ParamsModel,
> {
    let list = param_models(params);
    if ascii_lowercase(kind) == lit_list() {
        Some(ParamsModel::List(list))
    } else if list.len() > 0 {
        Some(ParamsModel::Single(list[0]))
    } else {
        old
    }
}

/// What is known while the commands of one task are read: that task's own
/// settings, and what is shared with the other tasks (the dependency lists
/// and the request's `method` and `params` members).
pub struct TaskState {
    pub chain_name: Seq<char>,
    pub method_name: Seq<char>,
    pub properties: Map<Seq<char>, Seq<char>>,
    pub json: Seq<char>,
    pub deps: Map<Seq<char>, Seq<Seq<char>>>,
    pub method: Option<Seq<char>>,
    pub params: Option<ParamsModel>,
}

pub open spec fn apply_command(st: TaskState, name: Seq<char>, c: CommandV) -> TaskState {
    match c {
        CommandV::DependsOn(ups) => TaskState { deps: add_dependents(st.deps, ups, name), ..st },
        CommandV::Select(chain) => TaskState { chain_name: chain, ..st },
        CommandV::Use(m) => TaskState { method_name: m, method: Some(m), ..st },
        CommandV::Properties(ps) => TaskState { properties: add_properties(st.properties, ps), ..st },
        CommandV::MethodParams { kind, params } => {
            let p = next_params(st.params, kind, params);
            TaskState { params: p, json: request_text(st.method, p), ..st }
        },
    }
}

pub open spec fn run_commands(st: TaskState, name: Seq<char>, cs: Seq<CommandV>) -> TaskState
    decreases cs.len(),
{
    if cs.len() == 0 {
        st
    } else {
        apply_command(run_commands(st, name, cs.drop_last()), name, cs.last())
    }
}

/// What is known between tasks.
pub struct BuildState {
    pub props: Map<Seq<char>, TaskParamsV>,
    pub deps: Map<Seq<char>, Seq<Seq<char>>>,
    pub method: Option<Seq<char>>,
    pub params: Option<ParamsModel>,
}

/// A task starts with empty settings and an (empty) dependency list of its
/// own unless it already has one.
pub open spec fn begin_task(b: BuildState, name: Seq<char>) -> TaskState {
    TaskState {
        chain_name: Seq::empty(),
        method_name: Seq::empty(),
        properties: Map::empty(),
        json: Seq::empty(),
        deps: if b.deps.contains_key(name) {
            b.deps
        } else {
            b.deps.insert(name, Seq::empty())
        },
        method: b.method,
        params: b.params,
    }
}

pub open spec fn settings_of(st: TaskState) -> TaskParamsV {
    TaskParamsV {
        chain_name: st.chain_name,
        method_name: st.method_name,
        properties_map: st.properties,
        method_params_json_string: st.json,
    }
}

pub open spec fn build_task(b: BuildState, d: DeclV) -> BuildState {
    let st = run_commands(begin_task(b, d.name), d.name, d.commands);
    BuildState {
        props: b.props.insert(d.name, settings_of(st)),
        deps: st.deps,
        method: st.method,
        params: st.params,
    }
}

pub open spec fn build_tasks(ds: Seq<DeclV>) -> BuildState
    decreases ds.len(),
{
    if ds.len() == 0 {
        BuildState { props: Map::empty(), deps: Map::empty(), method: None, params: None }
    } else {
        build_task(build_tasks(ds.drop_last()), ds.last())
    }
}

pub open spec fn empty_settings() -> TaskParamsV {
    TaskParamsV {
        chain_name: Seq::empty(),
        method_name: Seq::empty(),
        properties_map: Map::empty(),
        method_params_json_string: Seq::empty(),
    }
}

/// The two maps of a configuration: the settings of each task, and for each
/// task the tasks that depend on it. The end of the file counts as one more
/// task, with an empty name and empty settings.
pub open spec fn config_maps(ds: Seq<DeclV>) -> (
    Map<Seq<char>, TaskParamsV>,
    Map<Seq<char>, Seq<Seq<char>>>,
) {
    let b = build_tasks(ds);
    (b.props.insert(Seq::empty(), empty_settings()), b.deps)
}

pub open spec fn command_ok(c: CommandV) -> bool {
    match c {
        CommandV::MethodParams { params, .. } => forall|k: int|
            0 <= k < params.len() ==> param_ok(#[trigger] params[k]),
        _ => true,
    }
}

pub open spec fn decl_ok(d: DeclV) -> bool {
    forall|j: int| 0 <= j < d.commands.len() ==> command_ok(#[trigger] d.commands[j])
}

/// Every number and boolean in the configuration can be read.
pub open spec fn decls_ok(ds: Seq<DeclV>) -> bool {
    forall|i: int| 0 <= i < ds.len() ==> decl_ok(#[trigger] ds[i])
}

/// A text that the grammar accepts and whose values can all be read.
pub open spec fn config_accepts(text: Seq<char>) -> bool {
    spec_parse_file(text) matches Some(ds) && decls_ok(ds)
}

// ---------------------------------------------------------------------------
// Implementation
// ---------------------------------------------------------------------------
/// Reads the configuration grammar.
pub struct INIParser;

impl INIParser {
    /// The tasks of a configuration text, or the first line that breaks the
    /// grammar.
    pub fn parse(text: &str) -> (r: Result<ConfigFile, ParseError>)
        ensures
            match r {
                Ok(f) => spec_parse_file(text@) == Some(f@),
                Err(e) => {
                    &&& spec_parse_file(text@) is None
                    &&& 1 <= e.line <= split_on(text@, '\n').len()
                    &&& parse_decls(split_on(text@, '\n').take(e.line - 1)) is Some
                    &&& parse_decls(split_on(text@, '\n').take(e.line as int)) is None
                },
            },
    {
        parse_file(text)
    }
}

impl ConfigFile {
    /// Whether every number and boolean of the file can be read.
    pub fn values_are_valid(&self) -> (b: bool)
        ensures
            b == decls_ok(self@),
    {
        let mut i: usize = 0;
        while i < self.tasks.len()
            invariant
                i <= self.tasks.len(),
                forall|k: int| 0 <= k < i ==> decl_ok(#[trigger] self@[k]),
            decreases self.tasks.len() - i,
        {
            assert(self@[i as int] == self.tasks@[i as int]@);
            if !decl_is_ok(&self.tasks[i]) {
                return false;
            }
            i = i + 1;
        }
        true
    }
}

fn decl_is_ok(d: &TaskDeclaration) -> (b: bool)
    ensures
        b == decl_ok(d@),
{
    let mut j: usize = 0;
    while j < d.commands.len()
        invariant
            j <= d.commands.len(),
            forall|k: int| 0 <= k < j ==> command_ok(#[trigger] d@.commands[k]),
        decreases d.commands.len() - j,
    {
        assert(d@.commands[j as int] == d.commands@[j as int]@);
        if !command_is_ok(&d.commands[j]) {
            return false;
        }
        j = j + 1;
    }
    true
}

fn command_is_ok(c: &Command) -> (b: bool)
    ensures
        b == command_ok(c@),
{
    match c {
        Command::MethodParams { params, .. } => {
            let ghost pv = params@.map_values(|p: MethodParam| p@);
            let mut k: usize = 0;
            while k < params.len()
                invariant
                    k <= params.len(),
                    pv == params@.map_values(|p: MethodParam| p@),
                    c@ matches CommandV::MethodParams { params: ps, .. } && ps == pv,
                    forall|m: int| 0 <= m < k ==> param_ok(#[trigger] pv[m]),
                decreases params.len() - k,
            {
                assert(pv[k as int] == params@[k as int]@);
                if !param_is_ok(&params[k]) {
                    assert(!param_ok(pv[k as int]));
                    return false;
                }
                k = k + 1;
            }
            true
        },
        _ => true,
    }
}

fn add_dependents_to(deps: &mut NameMap<Vec<String>>, ups: &Vec<String>, name: &String)
    ensures
        final(deps)@ == add_dependents(old(deps)@, strings_view(ups@), name@),
{
    let ghost start = deps@;
    let mut i: usize = 0;
    assert(strings_view(ups@).take(0) =~= Seq::<Seq<char>>::empty());
    while i < ups.len()
        invariant
            i <= ups.len(),
            deps@ == add_dependents(start, strings_view(ups@).take(i as int), name@),
        decreases ups.len() - i,
    {
        assert(strings_view(ups@).take(i + 1).drop_last() =~= strings_view(ups@).take(i as int));
        assert(strings_view(ups@).take(i + 1).last() == ups@[i as int]@);
        deps.push_to(&ups[i], name.clone());
        i = i + 1;
    }
    assert(strings_view(ups@).take(i as int) =~= strings_view(ups@));
}

fn add_properties_to(m: &mut NameMap<String>, ps: &Vec<(String, String)>)
    ensures
        final(m)@ == add_properties(old(m)@, pairs_view(ps@)),
{
    let ghost start = m@;
    let mut i: usize = 0;
    assert(pairs_view(ps@).take(0) =~= Seq::<(Seq<char>, Seq<char>)>::empty());
    while i < ps.len()
        invariant
            i <= ps.len(),
            m@ == add_properties(start, pairs_view(ps@).take(i as int)),
        decreases ps.len() - i,
    {
        assert(pairs_view(ps@).take(i + 1).drop_last() =~= pairs_view(ps@).take(i as int));
        assert(pairs_view(ps@).take(i + 1).last() == (ps@[i as int].0@, ps@[i as int].1@));
        m.insert(ps[i].0.clone(), ps[i].1.clone());
        i = i + 1;
    }
    assert(pairs_view(ps@).take(i as int) =~= pairs_view(ps@));
}

/// The typed parameters of a `method_params` line.
fn typed_params(ps: &Vec<MethodParam>) -> (r: Vec<ParamValue>)
    requires
        forall|k: int| 0 <= k < ps@.len() ==> param_ok(#[trigger] ps@[k]@),
    ensures
        param_values_view(r@) == param_models(ps@.map_values(|p: MethodParam| p@)),
{
    let ghost pv = ps@.map_values(|p: MethodParam| p@);
    let mut out: Vec<ParamValue> = Vec::new();
    let mut i: usize = 0;
    assert(pv.take(0) =~= Seq::<ParamV>::empty());
    while i < ps.len()
        invariant
            i <= ps.len(),
            pv == ps@.map_values(|p: MethodParam| p@),
            forall|k: int| 0 <= k < ps@.len() ==> param_ok(#[trigger] ps@[k]@),
            param_values_view(out@) == param_models(pv.take(i as int)),
        decreases ps.len() - i,
    {
        assert(pv.take(i + 1).drop_last() =~= pv.take(i as int));
        assert(pv.take(i + 1).last() == ps@[i as int]@);
        match param_value(&ps[i]) {
            Some(v) => {
                let ghost before = param_values_view(out@);
                let ghost vv = v.deep_view();
                out.push(v);
                assert(param_values_view(out@) =~= before.push(vv));
            },
            None => {},
        }
        i = i + 1;
    }
    assert(pv.take(i as int) =~= pv);
    out
}

pub open spec fn state_of(
    chain: String,
    mname: String,
    props: NameMap<String>,
    json: String,
    deps: NameMap<Vec<String>>,
    method: Option<String>,
    params: Option<RequestParams>,
) -> TaskState {
    TaskState {
        chain_name: chain@,
        method_name: mname@,
        properties: props@,
        json: json@,
        deps: deps@,
        method: opt_string_view(method),
        params: opt_params_view(params),
    }
}

/// Builds the two maps of a parsed configuration.
pub fn build(file: &ConfigFile) -> (r: (Box<NameMap<TaskParams>>, Box<NameMap<Vec<String>>>))
    requires
        decls_ok(file@),
    ensures
        (r.0@, r.1@) == config_maps(file@),
{
    let ghost ds = file@;
    let mut props: NameMap<TaskParams> = NameMap::new();
    let mut deps: NameMap<Vec<String>> = NameMap::new();
    let mut method: Option<String> = None;
    let mut params: Option<RequestParams> = None;
    let mut i: usize = 0;
    assert(ds.take(0) =~= Seq::<DeclV>::empty());
    while i < file.tasks.len()
        invariant
            i <= file.tasks.len(),
            ds == file@,
            decls_ok(ds),
            build_tasks(ds.take(i as int)) == (BuildState {
                props: props@,
                deps: deps@,
                method: opt_string_view(method),
                params: opt_params_view(params),
            }),
        decreases file.tasks.len() - i,
    {
        let d: &TaskDeclaration = &file.tasks[i];
        assert(ds.take(i + 1).drop_last() =~= ds.take(i as int));
        assert(ds.take(i + 1).last() == d@);
        assert(decl_ok(ds[i as int]));
        let ghost b = build_tasks(ds.take(i as int));
        let ghost dv = d@;
        if !deps.contains_key(&d.name) {
            let fresh: Vec<String> = Vec::new();
            assert(fresh.deep_view() =~= Seq::<Seq<char>>::empty());
            deps.insert(d.name.clone(), fresh);
        }
        let mut chain = String::new();
        let mut mname = String::new();
        let mut pmap: NameMap<String> = NameMap::new();
        let mut json = String::new();
        let mut j: usize = 0;
        assert(dv.commands.take(0) =~= Seq::<CommandV>::empty());
        assert(state_of(chain, mname, pmap, json, deps, method, params) == begin_task(b, dv.name));
        while j < d.commands.len()
            invariant
                j <= d.commands.len(),
                dv == d@,
                decl_ok(dv),
                run_commands(begin_task(b, dv.name), dv.name, dv.commands.take(j as int))
                    == state_of(chain, mname, pmap, json, deps, method, params),
            decreases d.commands.len() - j,
        {
            assert(dv.commands.take(j + 1).drop_last() =~= dv.commands.take(j as int));
            assert(dv.commands.take(j + 1).last() == d.commands@[j as int]@);
            assert(command_ok(dv.commands[j as int]));
            match &d.commands[j] {
                Command::DependsOn(ups) => {
                    add_dependents_to(&mut deps, ups, &d.name);
                },
                Command::Select(x) => {
                    chain = x.clone();
                },
                Command::Use(x) => {
                    mname = x.clone();
                    method = Some(x.clone());
                },
                Command::Properties(ps) => {
                    add_properties_to(&mut pmap, ps);
                },
                Command::MethodParams { kind, params: ps } => {
                    proof {
                        let pv = ps@.map_values(|p: MethodParam| p@);
                        let cv = CommandV::MethodParams { kind: kind@, params: pv };
                        assert(dv.commands[j as int] == cv);
                        assert forall|k: int| 0 <= k < ps@.len() implies param_ok(#[trigger] ps@[k]@) by {
                            assert(pv[k] == ps@[k]@);
                            assert(param_ok(cv->params[k]));
                        }
                    }
                    let mut list = typed_params(ps);
                    let lk = crate::text::lowercase_chars(crate::text::chars_of(kind.as_str()).as_slice());
                    if crate::text::chars_eq(&lk, &['l', 'i', 's', 't']) {
                        params = Some(RequestParams::List(list));
                    } else if list.len() > 0 {
                        let first = list.remove(0);
                        params = Some(RequestParams::Single(first));
                    }
                    json = request_json_text(&method, &params);
                },
            }
            j = j + 1;
        }
        assert(dv.commands.take(j as int) =~= dv.commands);
        let settings = TaskParams {
            chain_name: chain,
            method_name: mname,
            properties_map: pmap,
            method_params_json_string: json,
        };
        props.insert(d.name.clone(), settings);
        i = i + 1;
    }
    assert(ds.take(i as int) =~= ds);
    let end = TaskParams {
        chain_name: String::new(),
        method_name: String::new(),
        properties_map: NameMap::new(),
        method_params_json_string: String::new(),
    };
    props.insert(String::new(), end);
    (Box::new(props), Box::new(deps))
}

/// Reads a configuration text into its two maps: the settings of each task,
/// and for each task the tasks that depend on it.
pub fn parse(text: &str) -> (r: (Box<NameMap<TaskParams>>, Box<NameMap<Vec<String>>>))
    requires
        config_accepts(text@),
    ensures
        (r.0@, r.1@) == config_maps(spec_parse_file(text@)->Some_0),
{
    match INIParser::parse(text) {
        Ok(file) => build(&file),
        Err(_) => {
            proof {
                assert(false);
            }
            (Box::new(NameMap::new()), Box::new(NameMap::new()))
        },
    }
}

} // verus!
