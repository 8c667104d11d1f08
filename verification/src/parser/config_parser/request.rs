//! The JSON-RPC request that a task's `method_params` line describes: the
//! typed parameters read from the line, and the request text.

use vstd::prelude::*;

use crate::json::{
    json_array_value, json_bool_value, json_from_bool, json_from_entries, json_from_i64,
    json_from_string, json_from_values, json_number_value, json_object_value, json_string_value,
    json_text, text_of,
};
use crate::name_map::{insert_entry, NameMap};
use crate::parser::config_parser::grammar::{
    strings_view, FieldV, MethodParam, ObjectField, ParamV,
};
use crate::text::{ascii_lowercase, chars_eq, chars_of, lowercase_chars, parse_i64, spec_parse_i64, string_of};

verus! {

// ---------------------------------------------------------------------------
// Typed parameters
// ---------------------------------------------------------------------------
/// A field of an object parameter.
pub enum FieldModel {
    Str(Seq<char>),
    Number(i64),
    StrList(Seq<Seq<char>>),
    NumberList(Seq<i64>),
}

/// A parameter of the request.
pub enum ParamModel {
    Str(Seq<char>),
    Number(i64),
    Bool(bool),
    Object(Seq<(Seq<char>, FieldModel)>),
}

/// The `params` member: all parameters as a list, or a single one.
pub enum ParamsModel {
    List(Seq<ParamModel>),
    Single(ParamModel),
}

pub enum FieldValue {
    Str(String),
    Number(i64),
    StrList(Vec<String>),
    NumberList(Vec<i64>),
}

pub enum ParamValue {
    Str(String),
    Number(i64),
    Bool(bool),
    Object(NameMap<FieldValue>),
}

pub enum RequestParams {
    List(Vec<ParamValue>),
    Single(ParamValue),
}

impl DeepView for FieldValue {
    type V = FieldModel;

    open spec fn deep_view(&self) -> FieldModel {
        match self {
            FieldValue::Str(s) => FieldModel::Str(s@),
            FieldValue::Number(n) => FieldModel::Number(*n),
            FieldValue::StrList(v) => FieldModel::StrList(strings_view(v@)),
            FieldValue::NumberList(v) => FieldModel::NumberList(v@),
        }
    }
}

impl DeepView for ParamValue {
    type V = ParamModel;

    open spec fn deep_view(&self) -> ParamModel {
        match self {
            ParamValue::Str(s) => ParamModel::Str(s@),
            ParamValue::Number(n) => ParamModel::Number(*n),
            ParamValue::Bool(b) => ParamModel::Bool(*b),
            ParamValue::Object(m) => ParamModel::Object(m.entry_seq()),
        }
    }
}

pub open spec fn param_values_view(v: Seq<ParamValue>) -> Seq<ParamModel> {
    v.map_values(|p: ParamValue| p.deep_view())
}

impl DeepView for RequestParams {
    type V = ParamsModel;

    open spec fn deep_view(&self) -> ParamsModel {
        match self {
            RequestParams::List(v) => ParamsModel::List(param_values_view(v@)),
            RequestParams::Single(p) => ParamsModel::Single(p.deep_view()),
        }
    }
}

// ---------------------------------------------------------------------------
// From the line to typed parameters
// ---------------------------------------------------------------------------
pub open spec fn lit_string() -> Seq<char> {
    seq!['s', 't', 'r', 'i', 'n', 'g']
}

pub open spec fn lit_number() -> Seq<char> {
    seq!['n', 'u', 'm', 'b', 'e', 'r']
}

pub open spec fn lit_boolean() -> Seq<char> {
    seq!['b', 'o', 'o', 'l', 'e', 'a', 'n']
}

pub open spec fn lit_list_of_string() -> Seq<char> {
    seq!['l', 'i', 's', 't', '_', 'o', 'f', '_', 's', 't', 'r', 'i', 'n', 'g']
}

pub open spec fn lit_list_of_number() -> Seq<char> {
    seq!['l', 'i', 's', 't', '_', 'o', 'f', '_', 'n', 'u', 'm', 'b', 'e', 'r']
}

pub open spec fn lit_list() -> Seq<char> {
    seq!['l', 'i', 's', 't']
}

pub open spec fn lit_true() -> Seq<char> {
    seq!['t', 'r', 'u', 'e']
}

pub open spec fn lit_false() -> Seq<char> {
    seq!['f', 'a', 'l', 's', 'e']
}

/// The number a value text denotes (meaningful where `spec_parse_i64` accepts it).
pub open spec fn number_of(v: Seq<char>) -> i64 {
    spec_parse_i64(v)->Some_0
}

pub open spec fn number_fn() -> spec_fn(Seq<char>) -> i64 {
    |v: Seq<char>| number_of(v)
}

/// A value text that a `number` type can hold.
pub open spec fn number_ok(v: Seq<char>) -> bool {
    spec_parse_i64(v) is Some
}

/// A value text that a `boolean` type can hold.
pub open spec fn boolean_ok(v: Seq<char>) -> bool {
    v == lit_true() || v == lit_false()
}

/// `type = value`, typed by the type name in any letter case; a type other
/// than `string`, `number` and `boolean` gives no parameter.
pub open spec fn scalar_model(ty: Seq<char>, value: Seq<char>) -> Option<ParamModel> {
    let t = ascii_lowercase(ty);
    if t == lit_string() {
        Some(ParamModel::Str(value))
    } else if t == lit_number() {
        Some(ParamModel::Number(number_of(value)))
    } else if t == lit_boolean() {
        Some(ParamModel::Bool(value == lit_true()))
    } else {
        None
    }
}

/// A field typed by its type name in any letter case: `string` and `number`
/// take the first value, the two list types take all values; any other type
/// gives no field.
pub open spec fn field_model(f: FieldV) -> Option<FieldModel> {
    let t = ascii_lowercase(f.ty);
    if t == lit_string() {
        Some(FieldModel::Str(f.values[0]))
    } else if t == lit_number() {
        Some(FieldModel::Number(number_of(f.values[0])))
    } else if t == lit_list_of_string() {
        Some(FieldModel::StrList(f.values))
    } else if t == lit_list_of_number() {
        Some(FieldModel::NumberList(f.values.map_values(number_fn())))
    } else {
        None
    }
}

/// The entries of an object parameter: the typed fields by name, a later
/// field of the same name replacing the earlier one.
pub open spec fn object_entries(fs: Seq<FieldV>) -> Seq<(Seq<char>, FieldModel)>
    decreases fs.len(),
{
    if fs.len() == 0 {
        seq![]
    } else {
        let prev = object_entries(fs.drop_last());
        match field_model(fs.last()) {
            Some(m) => insert_entry(prev, fs.last().name, m),
            None => prev,
        }
    }
}

pub open spec fn param_model(p: ParamV) -> Option<ParamModel> {
    match p {
        ParamV::Scalar { ty, value } => scalar_model(ty, value),
        ParamV::Object(fs) => Some(ParamModel::Object(object_entries(fs))),
    }
}

/// The typed parameters of a line, in order, leaving out those of unknown type.
pub open spec fn param_models(ps: Seq<ParamV>) -> Seq<ParamModel>
    decreases ps.len(),
{
    if ps.len() == 0 {
        seq![]
    } else {
        let prev = param_models(ps.drop_last());
        match param_model(ps.last()) {
            Some(m) => prev.push(m),
            None => prev,
        }
    }
}

/// The values of a field can be read as its type asks.
pub open spec fn field_ok(f: FieldV) -> bool {
    let t = ascii_lowercase(f.ty);
    &&& f.values.len() >= 1
    &&& t == lit_number() ==> number_ok(f.values[0])
    &&& t == lit_list_of_number() ==> forall|i: int| 0 <= i < f.values.len() ==> number_ok(#[trigger] f.values[i])
}

/// The value of a parameter can be read as its type asks.
pub open spec fn param_ok(p: ParamV) -> bool {
    match p {
        ParamV::Scalar { ty, value } => {
            &&& ascii_lowercase(ty) == lit_number() ==> number_ok(value)
            &&& ascii_lowercase(ty) == lit_boolean() ==> boolean_ok(value)
        },
        ParamV::Object(fs) => forall|i: int| 0 <= i < fs.len() ==> field_ok(#[trigger] fs[i]),
    }
}

// ---------------------------------------------------------------------------
// JSON of the request
// ---------------------------------------------------------------------------
pub open spec fn str_json_fn() -> spec_fn(Seq<char>) -> serde_json::Value {
    |s: Seq<char>| json_string_value(s)
}

pub open spec fn num_json_fn() -> spec_fn(i64) -> serde_json::Value {
    |n: i64| json_number_value(n)
}

pub open spec fn field_json(f: FieldModel) -> serde_json::Value {
    match f {
        FieldModel::Str(s) => json_string_value(s),
        FieldModel::Number(n) => json_number_value(n),
        FieldModel::StrList(v) => json_array_value(v.map_values(str_json_fn())),
        FieldModel::NumberList(v) => json_array_value(v.map_values(num_json_fn())),
    }
}

pub open spec fn entry_json_fn() -> spec_fn((Seq<char>, FieldModel)) -> (Seq<char>, serde_json::Value) {
    |e: (Seq<char>, FieldModel)| (e.0, field_json(e.1))
}

pub open spec fn param_json(p: ParamModel) -> serde_json::Value {
    match p {
        ParamModel::Str(s) => json_string_value(s),
        ParamModel::Number(n) => json_number_value(n),
        ParamModel::Bool(b) => json_bool_value(b),
        ParamModel::Object(es) => json_object_value(es.map_values(entry_json_fn())),
    }
}

pub open spec fn param_json_fn() -> spec_fn(ParamModel) -> serde_json::Value {
    |p: ParamModel| param_json(p)
}

pub open spec fn params_json(p: ParamsModel) -> serde_json::Value {
    match p {
        ParamsModel::List(ps) => json_array_value(ps.map_values(param_json_fn())),
        ParamsModel::Single(p) => param_json(p),
    }
}

pub open spec fn key_id() -> Seq<char> {
    seq!['i', 'd']
}

pub open spec fn key_jsonrpc() -> Seq<char> {
    seq!['j', 's', 'o', 'n', 'r', 'p', 'c']
}

pub open spec fn key_method() -> Seq<char> {
    seq!['m', 'e', 't', 'h', 'o', 'd']
}

pub open spec fn key_params() -> Seq<char> {
    seq!['p', 'a', 'r', 'a', 'm', 's']
}

pub open spec fn version_2_0() -> Seq<char> {
    seq!['2', '.', '0']
}

/// The members of the request object: `id` 1 and `jsonrpc` "2.0", then
/// `method` and `params` when they have been set.
pub open spec fn request_entries(method: Option<Seq<char>>, params: Option<ParamsModel>) -> Seq<
    (Seq<char>, serde_json::Value),
> {
    let base = seq![(key_id(), json_number_value(1)), (key_jsonrpc(), json_string_value(version_2_0()))];
    let with_method = match method {
        Some(m) => base.push((key_method(), json_string_value(m))),
        None => base,
    };
    match params {
        Some(p) => with_method.push((key_params(), params_json(p))),
        None => with_method,
    }
}

/// The text of the request object.
pub open spec fn request_text(method: Option<Seq<char>>, params: Option<ParamsModel>) -> Seq<char> {
    json_text(json_object_value(request_entries(method, params)))
}

// ---------------------------------------------------------------------------
// Implementation
// ---------------------------------------------------------------------------
fn lowered(s: &String) -> (r: Vec<char>)
    ensures
        r@ == ascii_lowercase(s@),
{
    let cs = chars_of(s.as_str());
    lowercase_chars(cs.as_slice())
}

/// The number a value text denotes.
fn number_in(v: &String) -> (n: i64)
    requires
        number_ok(v@),
    ensures
        n == number_of(v@),
{
    let cs = chars_of(v.as_str());
    match parse_i64(cs.as_slice()) {
        Some(n) => n,
        None => 0,
    }
}

/// Whether a value text is one that a `number` type can hold.
fn number_text_ok(v: &String) -> (b: bool)
    ensures
        b == number_ok(v@),
{
    let cs = chars_of(v.as_str());
    parse_i64(cs.as_slice()).is_some()
}

fn field_value(f: &ObjectField) -> (r: Option<FieldValue>)
    requires
        field_ok(f@),
    ensures
        match r {
            Some(v) => field_model(f@) == Some(v.deep_view()),
            None => field_model(f@) is None,
        },
{
    let t = lowered(&f.ty);
    if chars_eq(&t, &['s', 't', 'r', 'i', 'n', 'g']) {
        return Some(FieldValue::Str(f.values[0].clone()));
    }
    if chars_eq(&t, &['n', 'u', 'm', 'b', 'e', 'r']) {
        return Some(FieldValue::Number(number_in(&f.values[0])));
    }
    if chars_eq(&t, &['l', 'i', 's', 't', '_', 'o', 'f', '_', 's', 't', 'r', 'i', 'n', 'g']) {
        let mut out: Vec<String> = Vec::new();
        let mut i: usize = 0;
        while i < f.values.len()
            invariant
                i <= f.values.len(),
                strings_view(out@) == strings_view(f.values@).take(i as int),
            decreases f.values.len() - i,
        {
            let ghost before = strings_view(out@);
            let c = f.values[i].clone();
            assert(c@ == strings_view(f.values@)[i as int]);
            out.push(c);
            assert(strings_view(out@) =~= before.push(c@));
            assert(strings_view(f.values@).take(i + 1) =~= strings_view(f.values@).take(i as int).push(
                c@,
            ));
            i = i + 1;
        }
        assert(strings_view(f.values@).take(i as int) =~= strings_view(f.values@));
        return Some(FieldValue::StrList(out));
    }
    if chars_eq(&t, &['l', 'i', 's', 't', '_', 'o', 'f', '_', 'n', 'u', 'm', 'b', 'e', 'r']) {
        let mut out: Vec<i64> = Vec::new();
        let mut i: usize = 0;
        while i < f.values.len()
            invariant
                i <= f.values.len(),
                field_ok(f@),
                ascii_lowercase(f@.ty) == lit_list_of_number(),
                out@ == strings_view(f.values@).take(i as int).map_values(number_fn()),
            decreases f.values.len() - i,
        {
            assert(f@.values[i as int] == f.values@[i as int]@);
            let n = number_in(&f.values[i]);
            out.push(n);
            i = i + 1;
            assert(out@ =~= strings_view(f.values@).take(i as int).map_values(number_fn()));
        }
        assert(strings_view(f.values@).take(i as int) =~= strings_view(f.values@));
        return Some(FieldValue::NumberList(out));
    }
    None
}

/// The typed parameter of a line's parameter, if its type is known.
pub fn param_value(p: &MethodParam) -> (r: Option<ParamValue>)
    requires
        param_ok(p@),
    ensures
        match r {
            Some(v) => param_model(p@) == Some(v.deep_view()),
            None => param_model(p@) is None,
        },
{
    match p {
        MethodParam::Scalar { ty, value } => {
            let t = lowered(ty);
            if chars_eq(&t, &['s', 't', 'r', 'i', 'n', 'g']) {
                Some(ParamValue::Str(value.clone()))
            } else if chars_eq(&t, &['n', 'u', 'm', 'b', 'e', 'r']) {
                Some(ParamValue::Number(number_in(value)))
            } else if chars_eq(&t, &['b', 'o', 'o', 'l', 'e', 'a', 'n']) {
                let cs = chars_of(value.as_str());
                Some(ParamValue::Bool(chars_eq(&cs, &['t', 'r', 'u', 'e'])))
            } else {
                None
            }
        },
        MethodParam::Object(fields) => {
            let ghost fs = fields@.map_values(|f: ObjectField| f@);
            let mut m: NameMap<FieldValue> = NameMap::new();
            let mut i: usize = 0;
            assert(fs.take(0) =~= Seq::<FieldV>::empty());
            while i < fields.len()
                invariant
                    i <= fields.len(),
                    fs == fields@.map_values(|f: ObjectField| f@),
                    forall|k: int| 0 <= k < fs.len() ==> field_ok(#[trigger] fs[k]),
                    m.entry_seq() == object_entries(fs.take(i as int)),
                decreases fields.len() - i,
            {
                assert(fs.take(i + 1).drop_last() =~= fs.take(i as int));
                assert(fs.take(i + 1).last() == fields@[i as int]@);
                assert(field_ok(fs[i as int]));
                match field_value(&fields[i]) {
                    Some(v) => {
                        m.insert(fields[i].name.clone(), v);
                    },
                    None => {},
                }
                i = i + 1;
            }
            assert(fs.take(i as int) =~= fs);
            Some(ParamValue::Object(m))
        },
    }
}

/// Whether every value of a line's parameter can be read as its type asks.
pub fn param_is_ok(p: &MethodParam) -> (b: bool)
    ensures
        b == param_ok(p@),
{
    match p {
        MethodParam::Scalar { ty, value } => {
            let t = lowered(ty);
            assert(lit_number().len() == 6 && lit_boolean().len() == 7);
            if chars_eq(&t, &['n', 'u', 'm', 'b', 'e', 'r']) {
                number_text_ok(value)
            } else if chars_eq(&t, &['b', 'o', 'o', 'l', 'e', 'a', 'n']) {
                let cs = chars_of(value.as_str());
                chars_eq(&cs, &['t', 'r', 'u', 'e']) || chars_eq(&cs, &['f', 'a', 'l', 's', 'e'])
            } else {
                true
            }
        },
        MethodParam::Object(fields) => {
            let ghost fs = fields@.map_values(|f: ObjectField| f@);
            assert(p@ == ParamV::Object(fs));
            let mut i: usize = 0;
            while i < fields.len()
                invariant
                    i <= fields.len(),
                    fs == fields@.map_values(|f: ObjectField| f@),
                    p@ == ParamV::Object(fs),
                    forall|k: int| 0 <= k < i ==> field_ok(#[trigger] fs[k]),
                decreases fields.len() - i,
            {
                assert(fs[i as int] == fields@[i as int]@);
                if !field_is_ok(&fields[i]) {
                    assert(!field_ok(fs[i as int]));
                    assert(p@->Object_0 == fs);
                    assert(!field_ok(p@->Object_0[i as int]));
                    return false;
                }
                i = i + 1;
            }
            true
        },
    }
}

fn field_is_ok(f: &ObjectField) -> (b: bool)
    ensures
        b == field_ok(f@),
{
    if f.values.len() == 0 {
        return false;
    }
    let t = lowered(&f.ty);
    assert(lit_number().len() == 6 && lit_list_of_number().len() == 14);
    if chars_eq(&t, &['n', 'u', 'm', 'b', 'e', 'r']) {
        assert(f@.values[0] == f.values@[0]@);
        return number_text_ok(&f.values[0]);
    }
    if chars_eq(&t, &['l', 'i', 's', 't', '_', 'o', 'f', '_', 'n', 'u', 'm', 'b', 'e', 'r']) {
        let mut j: usize = 0;
        while j < f.values.len()
            invariant
                j <= f.values.len(),
                f.values.len() >= 1,
                ascii_lowercase(f@.ty) == lit_list_of_number(),
                lit_number().len() == 6 && lit_list_of_number().len() == 14,
                forall|k: int| 0 <= k < j ==> number_ok(#[trigger] f@.values[k]),
            decreases f.values.len() - j,
        {
            assert(f@.values[j as int] == f.values@[j as int]@);
            if !number_text_ok(&f.values[j]) {
                return false;
            }
            j = j + 1;
        }
    }
    true
}

fn string_jsons(v: &Vec<String>) -> (r: Vec<serde_json::Value>)
    ensures
        r@ == strings_view(v@).map_values(str_json_fn()),
{
    let mut out: Vec<serde_json::Value> = Vec::new();
    let mut i: usize = 0;
    while i < v.len()
        invariant
            i <= v.len(),
            out@ == strings_view(v@).take(i as int).map_values(str_json_fn()),
        decreases v.len() - i,
    {
        out.push(json_from_string(v[i].clone()));
        i = i + 1;
        assert(out@ =~= strings_view(v@).take(i as int).map_values(str_json_fn()));
    }
    assert(strings_view(v@).take(i as int) =~= strings_view(v@));
    out
}

fn field_json_value(f: &FieldValue) -> (r: serde_json::Value)
    ensures
        r == field_json(f.deep_view()),
{
    match f {
        FieldValue::Str(s) => json_from_string(s.clone()),
        FieldValue::Number(n) => json_from_i64(*n),
        FieldValue::StrList(v) => json_from_values(string_jsons(v)),
        FieldValue::NumberList(v) => {
            let mut out: Vec<serde_json::Value> = Vec::new();
            let mut i: usize = 0;
            while i < v.len()
                invariant
                    i <= v.len(),
                    out@ == v@.take(i as int).map_values(num_json_fn()),
                decreases v.len() - i,
            {
                out.push(json_from_i64(v[i]));
                i = i + 1;
                assert(out@ =~= v@.take(i as int).map_values(num_json_fn()));
            }
            assert(v@.take(i as int) =~= v@);
            json_from_values(out)
        },
    }
}

fn param_json_value(p: &ParamValue) -> (r: serde_json::Value)
    ensures
        r == param_json(p.deep_view()),
{
    match p {
        ParamValue::Str(s) => json_from_string(s.clone()),
        ParamValue::Number(n) => json_from_i64(*n),
        ParamValue::Bool(b) => json_from_bool(*b),
        ParamValue::Object(m) => {
            let es = m.entries();
            let ghost want = m.entry_seq().map_values(entry_json_fn());
            let mut out: Vec<(String, serde_json::Value)> = Vec::new();
            let mut i: usize = 0;
            while i < es.len()
                invariant
                    i <= es.len(),
                    es@.map_values(|e: (String, FieldValue)| (e.0@, e.1.deep_view())) == m.entry_seq(),
                    want == m.entry_seq().map_values(entry_json_fn()),
                    out@.map_values(|e: (String, serde_json::Value)| (e.0@, e.1)) == want.take(
                        i as int,
                    ),
                decreases es.len() - i,
            {
                let k = es[i].0.clone();
                let v = field_json_value(&es[i].1);
                assert(m.entry_seq()[i as int] == (es@[i as int].0@, es@[i as int].1.deep_view()));
                let ghost before = out@.map_values(|e: (String, serde_json::Value)| (e.0@, e.1));
                let ghost kv = (k@, v);
                assert(want[i as int] == kv);
                out.push((k, v));
                assert(out@.map_values(|e: (String, serde_json::Value)| (e.0@, e.1)) =~= before.push(kv));
                assert(want.take(i + 1) =~= want.take(i as int).push(kv));
                i = i + 1;
                assert(out@.map_values(|e: (String, serde_json::Value)| (e.0@, e.1)) =~= want.take(
                    i as int,
                ));
            }
            assert(want.take(i as int) =~= want);
            json_from_entries(out)
        },
    }
}

fn params_json_value(p: &RequestParams) -> (r: serde_json::Value)
    ensures
        r == params_json(p.deep_view()),
{
    match p {
        RequestParams::List(ps) => {
            let mut out: Vec<serde_json::Value> = Vec::new();
            let mut i: usize = 0;
            while i < ps.len()
                invariant
                    i <= ps.len(),
                    out@ == param_values_view(ps@).take(i as int).map_values(param_json_fn()),
                decreases ps.len() - i,
            {
                out.push(param_json_value(&ps[i]));
                i = i + 1;
                assert(out@ =~= param_values_view(ps@).take(i as int).map_values(param_json_fn()));
            }
            assert(param_values_view(ps@).take(i as int) =~= param_values_view(ps@));
            json_from_values(out)
        },
        RequestParams::Single(p) => param_json_value(p),
    }
}

pub open spec fn opt_string_view(s: Option<String>) -> Option<Seq<char>> {
    match s {
        Some(x) => Some(x@),
        None => None,
    }
}

pub open spec fn opt_params_view(p: Option<RequestParams>) -> Option<ParamsModel> {
    match p {
        Some(x) => Some(x.deep_view()),
        None => None,
    }
}

/// The text of the request with the method and parameters set so far.
pub fn request_json_text(method: &Option<String>, params: &Option<RequestParams>) -> (s: String)
    ensures
        s@ == request_text(opt_string_view(*method), opt_params_view(*params)),
{
    let mut entries: Vec<(String, serde_json::Value)> = Vec::new();
    entries.push((string_of(&['i', 'd']), json_from_i64(1)));
    entries.push(
        (
            string_of(&['j', 's', 'o', 'n', 'r', 'p', 'c']),
            json_from_string(string_of(&['2', '.', '0'])),
        ),
    );
    match method {
        Some(m) => {
            entries.push((string_of(&['m', 'e', 't', 'h', 'o', 'd']), json_from_string(m.clone())));
        },
        None => {},
    }
    match params {
        Some(p) => {
            entries.push((string_of(&['p', 'a', 'r', 'a', 'm', 's']), params_json_value(p)));
        },
        None => {},
    }
    assert(entries@.map_values(|e: (String, serde_json::Value)| (e.0@, e.1)) =~= request_entries(
        opt_string_view(*method),
        opt_params_view(*params),
    ));
    text_of(&json_from_entries(entries))
}

} // verus!
