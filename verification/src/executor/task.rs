//! One task of the configuration: its name and settings, where its response
//! is stored, and which responses it accepts.

use vstd::prelude::*;

use crate::json::{is_json_object_text, json_object_accepts};
use crate::parser::config_parser::config_structs::{TaskParams, TaskParamsV};

verus! {

/// A task to run, with the settings that the configuration gave it.
pub struct Task<'a> {
    name: String,
    task_params: &'a TaskParams,
}

/// Why a response was refused.
#[derive(Debug, PartialEq, Eq, Structural)]
pub enum ResponseError {
    /// The body is not one JSON object.
    NotAJsonObject,
}

/// The file a task's response is stored in.
pub open spec fn response_path_of(name: Seq<char>) -> Seq<char> {
    "./outputs/response_"@ + name + ".json"@
}

/// The response path of a task is the directory and prefix
/// `./outputs/response_` (19 characters), the task's name exactly as given,
/// and `.json`: so two tasks share a file only when their names are equal.
pub proof fn lemma_response_path_keeps_name(name: Seq<char>, other: Seq<char>)
    ensures
        response_path_of(name).len() == name.len() + 24,
        response_path_of(name).subrange(0, 19) == seq![
            '.', '/', 'o', 'u', 't', 'p', 'u', 't', 's', '/', 'r', 'e', 's', 'p', 'o', 'n', 's', 'e', '_',
        ],
        response_path_of(name).subrange(19, 19 + name.len() as int) == name,
        response_path_of(name).subrange(19 + name.len() as int, 24 + name.len() as int) == seq!['.', 'j', 's', 'o', 'n'],
        response_path_of(name) == response_path_of(other) <==> name == other,
{
    reveal_strlit("./outputs/response_");
    reveal_strlit(".json");
    let p = response_path_of(name);
    assert(p.subrange(0, 19) =~= seq![
        '.', '/', 'o', 'u', 't', 'p', 'u', 't', 's', '/', 'r', 'e', 's', 'p', 'o', 'n', 's', 'e', '_',
    ]);
    assert(p.subrange(19, 19 + name.len() as int) =~= name);
    assert(p.subrange(19 + name.len() as int, 24 + name.len() as int) =~= seq!['.', 'j', 's', 'o', 'n']);
    let q = response_path_of(other);
    if p == q {
        assert(q.subrange(19, 19 + other.len() as int) =~= other);
        assert(name.len() == other.len());
    }
}

impl<'a> Task<'a> {
    /// The task's name.
    pub closed spec fn name_view(&self) -> Seq<char> {
        self.name@
    }

    /// The task's settings.
    pub closed spec fn params_view(&self) -> TaskParamsV {
        self.task_params.deep_view()
    }

    /// A task named `name` with the settings `task_params`.
    pub fn new(name: String, task_params: &'a TaskParams) -> (t: Task<'a>)
        ensures
            t.name_view() == name@,
            t.params_view() == task_params.deep_view(),
    {
        Task { name, task_params }
    }

    /// The task's name.
    pub fn name(&self) -> (s: &String)
        ensures
            s@ == self.name_view(),
    {
        &self.name
    }

    /// The task's settings.
    pub fn task_params(&self) -> (p: &'a TaskParams)
        ensures
            p.deep_view() == self.params_view(),
    {
        self.task_params
    }

    /// Where the task's response is stored: `./outputs/response_<name>.json`.
    pub fn response_path(&self) -> (s: String)
        ensures
            s@ == response_path_of(self.name_view()),
            s@.len() == self.name_view().len() + 24,
            s@.subrange(19, 19 + self.name_view().len() as int) == self.name_view(),
    {
        let mut s = String::from_str("./outputs/response_");
        s.append(self.name.as_str());
        s.append(".json");
        proof {
            lemma_response_path_keeps_name(self.name_view(), self.name_view());
        }
        s
    }

    /// Accepts a response body that is one JSON object, and hands it back
    /// unchanged; any other body is refused.
    pub fn check_response(&self, body: String) -> (r: Result<String, ResponseError>)
        ensures
            r is Ok <==> is_json_object_text(body@),
            r is Ok ==> r->Ok_0@ == body@,
            r is Err ==> r->Err_0 == ResponseError::NotAJsonObject,
    {
        if json_object_accepts(body.as_str()) {
            Ok(body)
        } else {
            Err(ResponseError::NotAJsonObject)
        }
    }
}

} // verus!
