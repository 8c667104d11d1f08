//! What the parameters of a `method_params` line become: types are read in
//! any letter case, a `string` keeps its text, a `number` is the `i64` its
//! text reads as (sign included), a `boolean` is whether its text is `true`,
//! an object holds its typed fields by name, and each becomes the matching
//! JSON value.

use vstd::prelude::*;

use super::grammar::{FieldV, ParamV};
use super::next_params;
use super::request::{
    field_json, field_model, field_ok, object_entries, param_json, param_model, param_models, params_json,
    request_text, scalar_model, FieldModel, ParamModel, ParamsModel,
};
use crate::json::{
    json_array_value, json_bool_value, json_number_value, json_object_value, json_string_value, json_text,
};
use crate::name_map::{entries_map, keys_unique, lemma_insert_entry};
use crate::text::{ascii_lowercase, lemma_ascii_lowercase, spec_parse_i64};

verus! {

pub open spec fn ty_string() -> Seq<char> {
    seq!['s', 't', 'r', 'i', 'n', 'g']
}

pub open spec fn ty_number() -> Seq<char> {
    seq!['n', 'u', 'm', 'b', 'e', 'r']
}

pub open spec fn ty_boolean() -> Seq<char> {
    seq!['b', 'o', 'o', 'l', 'e', 'a', 'n']
}

pub open spec fn ty_list_of_string() -> Seq<char> {
    seq!['l', 'i', 's', 't', '_', 'o', 'f', '_', 's', 't', 'r', 'i', 'n', 'g']
}

pub open spec fn ty_list_of_number() -> Seq<char> {
    seq!['l', 'i', 's', 't', '_', 'o', 'f', '_', 'n', 'u', 'm', 'b', 'e', 'r']
}

/// A parameter's type name counts in any letter case.
pub proof fn lemma_parameter_type_any_case(ty: Seq<char>, value: Seq<char>)
    ensures
        scalar_model(ty, value) == scalar_model(ascii_lowercase(ty), value),
        param_model(ParamV::Scalar { ty, value }) == param_model(
            ParamV::Scalar { ty: ascii_lowercase(ty), value },
        ),
{
    lemma_ascii_lowercase(ty);
}

/// An object field's type name counts in any letter case.
pub proof fn lemma_field_type_any_case(f: FieldV)
    ensures
        field_model(f) == field_model(FieldV { ty: ascii_lowercase(f.ty), ..f }),
{
    lemma_ascii_lowercase(f.ty);
}

/// What a scalar parameter gives, by its type in any letter case: `string`
/// its text, `number` the `i64` that `i64::from_str` reads from its text,
/// `boolean` whether its text is `true`; any other type gives nothing.
pub proof fn lemma_scalar_parameter(ty: Seq<char>, value: Seq<char>)
    ensures
        ascii_lowercase(ty) == ty_string() ==> param_model(ParamV::Scalar { ty, value }) == Some(
            ParamModel::Str(value),
        ),
        ascii_lowercase(ty) == ty_number() && spec_parse_i64(value) is Some ==> param_model(
            ParamV::Scalar { ty, value },
        ) == Some(ParamModel::Number(spec_parse_i64(value)->Some_0)),
        ascii_lowercase(ty) == ty_boolean() ==> param_model(ParamV::Scalar { ty, value }) == Some(
            ParamModel::Bool(value == seq!['t', 'r', 'u', 'e']),
        ),
        ascii_lowercase(ty) != ty_string() && ascii_lowercase(ty) != ty_number() && ascii_lowercase(ty)
            != ty_boolean() ==> param_model(ParamV::Scalar { ty, value }) is None,
{
}

/// What an object field gives, by its type in any letter case: `string` its
/// first value, `number` the `i64` its first value reads as,
/// `list_of_string` all its values, `list_of_number` the `i64` of each value
/// in order; any other type gives nothing.
pub proof fn lemma_field_value(f: FieldV)
    requires
        field_ok(f),
    ensures
        ascii_lowercase(f.ty) == ty_string() ==> field_model(f) == Some(FieldModel::Str(f.values[0])),
        ascii_lowercase(f.ty) == ty_number() ==> spec_parse_i64(f.values[0]) is Some && field_model(f)
            == Some(FieldModel::Number(spec_parse_i64(f.values[0])->Some_0)),
        ascii_lowercase(f.ty) == ty_list_of_string() ==> field_model(f) == Some(
            FieldModel::StrList(f.values),
        ),
        ascii_lowercase(f.ty) == ty_list_of_number() ==> (field_model(f) matches Some(
            FieldModel::NumberList(ns),
        ) && ns.len() == f.values.len() && forall|i: int|
            0 <= i < ns.len() ==> spec_parse_i64(#[trigger] f.values[i]) == Some(ns[i])),
        ascii_lowercase(f.ty) != ty_string() && ascii_lowercase(f.ty) != ty_number() && ascii_lowercase(
            f.ty,
        ) != ty_list_of_string() && ascii_lowercase(f.ty) != ty_list_of_number() ==> field_model(f) is None,
{
    if ascii_lowercase(f.ty) == ty_list_of_number() {
        let ns = field_model(f)->Some_0->NumberList_0;
        assert forall|i: int| 0 <= i < ns.len() implies spec_parse_i64(#[trigger] f.values[i]) == Some(
            ns[i],
        ) by {
            assert(super::request::number_ok(f.values[i]));
        }
    }
}

/// The entries of an object hold no name twice; a name is present exactly
/// when some field of that name has a known type, and then it holds the
/// typed value of the last such field.
pub proof fn lemma_object_fields(fs: Seq<FieldV>, x: Seq<char>)
    ensures
        keys_unique(object_entries(fs)),
        entries_map(object_entries(fs)).contains_key(x) <==> exists|i: int|
            0 <= i < fs.len() && (#[trigger] fs[i]).name == x && field_model(fs[i]) is Some,
        forall|j: int|
            0 <= j < fs.len() && (#[trigger] fs[j]).name == x && field_model(fs[j]) is Some && (forall|k: int|
                j < k < fs.len() && (#[trigger] fs[k]).name == x ==> field_model(fs[k]) is None) ==> entries_map(
                object_entries(fs),
            )[x] == field_model(fs[j])->Some_0,
    decreases fs.len(),
{
    if fs.len() > 0 {
        let prev = fs.drop_last();
        let f = fs.last();
        let last = fs.len() - 1;
        lemma_object_fields(prev, x);
        let pe = object_entries(prev);
        assert(fs[last] == f);
        assert forall|i: int| 0 <= i < prev.len() implies #[trigger] prev[i] == fs[i] by {}
        match field_model(f) {
            Some(m) => {
                lemma_insert_entry(pe, f.name, m);
            },
            None => {},
        }
        let e = object_entries(fs);
        if entries_map(e).contains_key(x) && x != f.name {
            assert(entries_map(pe).contains_key(x));
            let i = choose|i: int| 0 <= i < prev.len() && (#[trigger] prev[i]).name == x && field_model(prev[i]) is Some;
            assert(fs[i] == prev[i]);
        }
        if exists|i: int| 0 <= i < fs.len() && (#[trigger] fs[i]).name == x && field_model(fs[i]) is Some {
            let i = choose|i: int| 0 <= i < fs.len() && (#[trigger] fs[i]).name == x && field_model(fs[i]) is Some;
            if i < last {
                assert(prev[i] == fs[i]);
            }
        }
        assert forall|j: int|
            0 <= j < fs.len() && (#[trigger] fs[j]).name == x && field_model(fs[j]) is Some && (forall|k: int|
                j < k < fs.len() && (#[trigger] fs[k]).name == x ==> field_model(fs[k]) is None) implies entries_map(e)[x]
            == field_model(fs[j])->Some_0 by {
            if j < last {
                assert(prev[j] == fs[j]);
                assert(field_model(f) is None || f.name != x);
                assert forall|k: int| j < k < prev.len() && (#[trigger] prev[k]).name == x implies field_model(
                    prev[k],
                ) is None by {
                    assert(fs[k] == prev[k]);
                }
            }
        }
    }
}

/// The JSON value of each typed parameter and field: a text becomes a JSON
/// string, a number a JSON number, a boolean a JSON boolean, a list a JSON
/// array of its items in order, an object a JSON object of its entries in
/// order; and a list of parameters becomes a JSON array of their values.
pub proof fn lemma_parameter_json(p: ParamModel, f: FieldModel, ps: Seq<ParamModel>)
    ensures
        p matches ParamModel::Str(s) ==> param_json(p) == json_string_value(s),
        p matches ParamModel::Number(n) ==> param_json(p) == json_number_value(n),
        p matches ParamModel::Bool(b) ==> param_json(p) == json_bool_value(b),
        p matches ParamModel::Object(es) ==> param_json(p) == json_object_value(
            Seq::new(es.len(), |i: int| (es[i].0, field_json(es[i].1))),
        ),
        f matches FieldModel::Str(s) ==> field_json(f) == json_string_value(s),
        f matches FieldModel::Number(n) ==> field_json(f) == json_number_value(n),
        f matches FieldModel::StrList(v) ==> field_json(f) == json_array_value(
            Seq::new(v.len(), |i: int| json_string_value(v[i])),
        ),
        f matches FieldModel::NumberList(v) ==> field_json(f) == json_array_value(
            Seq::new(v.len(), |i: int| json_number_value(v[i])),
        ),
        params_json(ParamsModel::List(ps)) == json_array_value(
            Seq::new(ps.len(), |i: int| param_json(ps[i])),
        ),
        params_json(ParamsModel::Single(p)) == param_json(p),
{
    match p {
        ParamModel::Object(es) => {
            assert(es.map_values(super::request::entry_json_fn()) =~= Seq::new(
                es.len(),
                |i: int| (es[i].0, field_json(es[i].1)),
            ));
        },
        _ => {},
    }
    match f {
        FieldModel::StrList(v) => {
            assert(v.map_values(super::request::str_json_fn()) =~= Seq::new(
                v.len(),
                |i: int| json_string_value(v[i]),
            ));
        },
        FieldModel::NumberList(v) => {
            assert(v.map_values(super::request::num_json_fn()) =~= Seq::new(
                v.len(),
                |i: int| json_number_value(v[i]),
            ));
        },
        _ => {},
    }
    assert(ps.map_values(super::request::param_json_fn()) =~= Seq::new(ps.len(), |i: int| param_json(ps[i])));
}

/// The typed parameters of a line: when every parameter has a known type,
/// all of them in order; when none has, nothing; and the first typed
/// parameter comes first.
pub proof fn lemma_typed_parameters(ps: Seq<ParamV>)
    ensures
        (forall|i: int| 0 <= i < ps.len() ==> (#[trigger] param_model(ps[i])) is Some) ==> param_models(ps).len()
            == ps.len() && forall|i: int| 0 <= i < ps.len() ==> #[trigger] param_models(ps)[i] == param_model(
            ps[i],
        )->Some_0,
        (forall|i: int| 0 <= i < ps.len() ==> (#[trigger] param_model(ps[i])) is None) ==> param_models(ps).len() == 0,
        forall|i: int|
            0 <= i < ps.len() && (#[trigger] param_model(ps[i])) is Some && (forall|i2: int|
                0 <= i2 < i ==> (#[trigger] param_model(ps[i2])) is None) ==> param_models(ps).len() > 0
                && param_models(ps)[0] == param_model(ps[i])->Some_0,
    decreases ps.len(),
{
    if ps.len() > 0 {
        let prev = ps.drop_last();
        let last = ps.len() - 1;
        lemma_typed_parameters(prev);
        assert(ps[last] == ps.last());
        assert forall|i: int| 0 <= i < prev.len() implies #[trigger] prev[i] == ps[i] by {}
        if forall|i: int| 0 <= i < ps.len() ==> (#[trigger] param_model(ps[i])) is Some {
            assert forall|i: int| 0 <= i < prev.len() implies (#[trigger] param_model(prev[i])) is Some by {
                assert(param_model(ps[i]) is Some);
            }
            assert(param_model(ps[last]) is Some);
        }
        if forall|i: int| 0 <= i < ps.len() ==> (#[trigger] param_model(ps[i])) is None {
            assert forall|i: int| 0 <= i < prev.len() implies (#[trigger] param_model(prev[i])) is None by {
                assert(param_model(ps[i]) is None);
            }
            assert(param_model(ps[last]) is None);
        }
        assert forall|i: int|
            0 <= i < ps.len() && (#[trigger] param_model(ps[i])) is Some && (forall|i2: int|
                0 <= i2 < i ==> (#[trigger] param_model(ps[i2])) is None) implies param_models(ps).len() > 0
            && param_models(ps)[0] == param_model(ps[i])->Some_0 by {
            if i < last {
                assert(param_model(prev[i]) is Some);
                assert forall|i2: int| 0 <= i2 < i implies (#[trigger] param_model(prev[i2])) is None by {
                    assert(param_model(ps[i2]) is None);
                }
            } else {
                assert forall|i2: int| 0 <= i2 < prev.len() implies (#[trigger] param_model(prev[i2])) is None by {
                    assert(param_model(ps[i2]) is None);
                }
            }
        }
    }
}

/// The `params` member after a `method_params` line: with kind `list` in
/// any letter case, all typed parameters as a list; with another kind, the
/// first typed parameter; and when there is none, the member it had.
pub proof fn lemma_line_params(old: Option<ParamsModel>, kind: Seq<char>, ps: Seq<ParamV>)
    ensures
        next_params(old, kind, ps) == next_params(old, ascii_lowercase(kind), ps),
        ascii_lowercase(kind) == seq!['l', 'i', 's', 't'] ==> next_params(old, kind, ps) == Some(
            ParamsModel::List(param_models(ps)),
        ),
        ascii_lowercase(kind) != seq!['l', 'i', 's', 't'] && param_models(ps).len() > 0 ==> next_params(
            old,
            kind,
            ps,
        ) == Some(ParamsModel::Single(param_models(ps)[0])),
        ascii_lowercase(kind) != seq!['l', 'i', 's', 't'] && param_models(ps).len() == 0 ==> next_params(
            old,
            kind,
            ps,
        ) == old,
{
    lemma_ascii_lowercase(kind);
}

pub open spec fn key_of_id() -> Seq<char> {
    seq!['i', 'd']
}

pub open spec fn key_of_jsonrpc() -> Seq<char> {
    seq!['j', 's', 'o', 'n', 'r', 'p', 'c']
}

pub open spec fn key_of_method() -> Seq<char> {
    seq!['m', 'e', 't', 'h', 'o', 'd']
}

pub open spec fn key_of_params() -> Seq<char> {
    seq!['p', 'a', 'r', 'a', 'm', 's']
}

/// The request text is the JSON object with `id` 1 and `jsonrpc` "2.0",
/// then `method` when one was set, then `params` when they were set.
pub proof fn lemma_request_members(m: Option<Seq<char>>, p: Option<ParamsModel>)
    ensures
        ({
            let base = seq![
                (key_of_id(), json_number_value(1)),
                (key_of_jsonrpc(), json_string_value(seq!['2', '.', '0'])),
            ];
            let with_method = match m {
                Some(mv) => base + seq![(key_of_method(), json_string_value(mv))],
                None => base,
            };
            let all = match p {
                Some(pv) => with_method + seq![(key_of_params(), params_json(pv))],
                None => with_method,
            };
            request_text(m, p) == json_text(json_object_value(all))
        }),
{
    let base = seq![
        (key_of_id(), json_number_value(1)),
        (key_of_jsonrpc(), json_string_value(seq!['2', '.', '0'])),
    ];
    let with_method = match m {
        Some(mv) => base + seq![(key_of_method(), json_string_value(mv))],
        None => base,
    };
    let all = match p {
        Some(pv) => with_method + seq![(key_of_params(), params_json(pv))],
        None => with_method,
    };
    assert(super::request::request_entries(m, p) =~= all);
}

} // verus!
