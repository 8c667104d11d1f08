//! Reading the task configuration.

pub mod config_parser;

use vstd::prelude::*;

use crate::name_map::NameMap;
use config_parser::config_structs::TaskParams;
use config_parser::grammar::spec_parse_file;
use config_parser::{config_accepts, config_maps};

verus! {

/// Reads a configuration text into the settings of each task and, for each
/// task, the tasks that depend on it.
pub fn parse_config(text: &str) -> (r: (Box<NameMap<TaskParams>>, Box<NameMap<Vec<String>>>))
    requires
        config_accepts(text@),
    ensures
        (r.0@, r.1@) == config_maps(spec_parse_file(text@)->Some_0),
{
    config_parser::parse(text)
}

} // verus!
