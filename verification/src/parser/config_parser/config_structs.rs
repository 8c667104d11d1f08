//! The per-task settings that the configuration yields.

use vstd::prelude::*;

use crate::name_map::NameMap;

verus! {

/// What a task's settings are, as mathematical values.
pub struct TaskParamsV {
    pub chain_name: Seq<char>,
    pub method_name: Seq<char>,
    pub properties_map: Map<Seq<char>, Seq<char>>,
    pub method_params_json_string: Seq<char>,
}

/// The settings of one task: the chain it selects, the method it uses, its
/// properties, and the JSON-RPC request text of its method parameters.
#[derive(Debug)]
pub struct TaskParams {
    pub chain_name: String,
    pub method_name: String,
    pub properties_map: NameMap<String>,
    pub method_params_json_string: String,
}

impl DeepView for TaskParams {
    type V = TaskParamsV;

    open spec fn deep_view(&self) -> TaskParamsV {
        TaskParamsV {
            chain_name: self.chain_name@,
            method_name: self.method_name@,
            properties_map: self.properties_map@,
            method_params_json_string: self.method_params_json_string@,
        }
    }
}

} // verus!
