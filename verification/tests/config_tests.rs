use taskflow::name_map::NameMap;
use taskflow::parser::config_parser::config_structs::TaskParams;
use taskflow::parser::config_parser::grammar::{Command, MethodParam};
use taskflow::parser::config_parser::{build, parse, INIParser};
use taskflow::parser::parse_config;

const PIPELINE: &str = "# a small pipeline\n\
[setup]\n\
select = ethereum\n\
use = eth_blockNumber\n\
\n\
[fetch]\n\
depends_on = setup\n\
use = eth_getBalance\n\
properties = url: \"https://rpc.example\", retries: 3\n\
method_params = list, string = \"0xabc\", number = 42\n";

fn settings<'a>(props: &'a NameMap<TaskParams>, name: &str) -> &'a TaskParams {
    props.get(&name.to_string()).expect("task has settings")
}

fn deps_of(deps: &NameMap<Vec<String>>, name: &str) -> Vec<String> {
    deps.get(&name.to_string()).expect("task has a list").clone()
}

#[test]
fn parses_pipeline_into_declarations() {
    let file = INIParser::parse(PIPELINE).expect("valid configuration");
    assert_eq!(file.tasks.len(), 2);
    assert_eq!(file.tasks[0].name, "setup");
    assert_eq!(file.tasks[0].commands.len(), 2);
    assert_eq!(file.tasks[1].name, "fetch");
    assert_eq!(file.tasks[1].commands.len(), 4);
    match &file.tasks[1].commands[0] {
        Command::DependsOn(ups) => assert_eq!(ups, &vec!["setup".to_string()]),
        other => panic!("unexpected command {:?}", other),
    }
    match &file.tasks[1].commands[2] {
        Command::Properties(ps) => {
            assert_eq!(ps.len(), 2);
            assert_eq!(ps[0], ("url".to_string(), "https://rpc.example".to_string()));
            assert_eq!(ps[1], ("retries".to_string(), "3".to_string()));
        }
        other => panic!("unexpected command {:?}", other),
    }
    match &file.tasks[1].commands[3] {
        Command::MethodParams { kind, params } => {
            assert_eq!(kind, "list");
            assert_eq!(params.len(), 2);
            assert!(matches!(&params[0], MethodParam::Scalar { ty, value } if ty == "string" && value == "0xabc"));
            assert!(matches!(&params[1], MethodParam::Scalar { ty, value } if ty == "number" && value == "42"));
        }
        other => panic!("unexpected command {:?}", other),
    }
    assert!(file.values_are_valid());
}

#[test]
fn parse_config_builds_both_maps() {
    let (props, deps) = parse_config(PIPELINE);
    // The two declared tasks, and the empty name of the end of the file.
    assert_eq!(props.len(), 3);
    assert_eq!(deps.len(), 2);
    assert_eq!(deps_of(&deps, "setup"), vec!["fetch".to_string()]);
    assert!(deps_of(&deps, "fetch").is_empty());

    let setup = settings(&props, "setup");
    assert_eq!(setup.chain_name, "ethereum");
    assert_eq!(setup.method_name, "eth_blockNumber");
    assert_eq!(setup.properties_map.len(), 0);
    assert_eq!(setup.method_params_json_string, "");

    let fetch = settings(&props, "fetch");
    assert_eq!(fetch.chain_name, "");
    assert_eq!(fetch.method_name, "eth_getBalance");
    assert_eq!(fetch.properties_map.len(), 2);
    assert_eq!(fetch.properties_map.get(&"url".to_string()).unwrap(), "https://rpc.example");
    assert_eq!(fetch.properties_map.get(&"retries".to_string()).unwrap(), "3");
    assert_eq!(
        fetch.method_params_json_string,
        r#"{"id":1,"jsonrpc":"2.0","method":"eth_getBalance","params":["0xabc",42]}"#
    );

    let end = settings(&props, "");
    assert_eq!(end.chain_name, "");
    assert_eq!(end.method_name, "");
    assert_eq!(end.properties_map.len(), 0);
    assert_eq!(end.method_params_json_string, "");
}

#[test]
fn parse_agrees_with_parse_config() {
    let (p1, d1) = parse(PIPELINE);
    let (p2, d2) = parse_config(PIPELINE);
    assert_eq!(p1.keys(), p2.keys());
    assert_eq!(d1.keys(), d2.keys());
    let file = INIParser::parse(PIPELINE).unwrap();
    let (p3, d3) = build(&file);
    assert_eq!(p3.keys(), p1.keys());
    assert_eq!(d3.keys(), d1.keys());
}

#[test]
fn dependents_are_listed_under_their_upstream_task() {
    let text = "[a]\n[b]\ndepends_on = a\n[c]\ndepends_on = a, b\n";
    let (_, deps) = parse_config(text);
    assert_eq!(deps_of(&deps, "a"), vec!["b".to_string(), "c".to_string()]);
    assert_eq!(deps_of(&deps, "b"), vec!["c".to_string()]);
    assert!(deps_of(&deps, "c").is_empty());
}

#[test]
fn upstream_task_named_before_its_header_gets_a_list() {
    let text = "[late_consumer]\ndepends_on = producer\n[producer]\nselect = x\n";
    let (props, deps) = parse_config(text);
    assert_eq!(deps.keys(), vec!["late_consumer".to_string(), "producer".to_string()]);
    assert_eq!(deps_of(&deps, "producer"), vec!["late_consumer".to_string()]);
    assert_eq!(settings(&props, "producer").chain_name, "x");
}

#[test]
fn single_parameter_kind_keeps_the_first_parameter() {
    let text = "[t]\nuse = m\nmethod_params = single, number = 7, string = \"skipped\"\n";
    let (props, _) = parse_config(text);
    assert_eq!(
        settings(&props, "t").method_params_json_string,
        r#"{"id":1,"jsonrpc":"2.0","method":"m","params":7}"#
    );
}

#[test]
fn list_kind_is_read_in_any_letter_case() {
    let text = "[t]\nuse = m\nmethod_params = LiSt, boolean = true, BOOLEAN = false\n";
    let (props, _) = parse_config(text);
    assert_eq!(
        settings(&props, "t").method_params_json_string,
        r#"{"id":1,"jsonrpc":"2.0","method":"m","params":[true,false]}"#
    );
}

#[test]
fn object_parameter_becomes_a_json_object() {
    let text = "[t]\nuse = m\nmethod_params = list, {to: string = \"0x1\"; ids: list_of_number = 1 2 3; tags: list_of_string = a b; n: number = -5}\n";
    let (props, _) = parse_config(text);
    assert_eq!(
        settings(&props, "t").method_params_json_string,
        r#"{"id":1,"jsonrpc":"2.0","method":"m","params":[{"ids":[1,2,3],"n":-5,"tags":["a","b"],"to":"0x1"}]}"#
    );
}

#[test]
fn unknown_parameter_types_are_left_out() {
    let text = "[t]\nuse = m\nmethod_params = list, float = 1.5, string = s\n";
    let (props, _) = parse_config(text);
    assert_eq!(
        settings(&props, "t").method_params_json_string,
        r#"{"id":1,"jsonrpc":"2.0","method":"m","params":["s"]}"#
    );
}

#[test]
fn request_members_carry_over_to_later_tasks() {
    let text = "[a]\nuse = first\nmethod_params = list, number = 1\n[b]\nmethod_params = single\n[c]\nuse = second\nmethod_params = single\n";
    let (props, _) = parse_config(text);
    assert_eq!(
        settings(&props, "a").method_params_json_string,
        r#"{"id":1,"jsonrpc":"2.0","method":"first","params":[1]}"#
    );
    // No parameter on the line: the earlier `params` member stays.
    assert_eq!(
        settings(&props, "b").method_params_json_string,
        r#"{"id":1,"jsonrpc":"2.0","method":"first","params":[1]}"#
    );
    assert_eq!(settings(&props, "b").method_name, "");
    assert_eq!(
        settings(&props, "c").method_params_json_string,
        r#"{"id":1,"jsonrpc":"2.0","method":"second","params":[1]}"#
    );
}

#[test]
fn request_without_method_or_params() {
    let text = "[t]\nmethod_params = single\n";
    let (props, _) = parse_config(text);
    assert_eq!(settings(&props, "t").method_params_json_string, r#"{"id":1,"jsonrpc":"2.0"}"#);
}

#[test]
fn later_property_replaces_earlier_one() {
    let text = "[t]\nproperties = k: one\nproperties = k: two, other: \"x y\"\n";
    let (props, _) = parse_config(text);
    let t = settings(&props, "t");
    assert_eq!(t.properties_map.len(), 2);
    assert_eq!(t.properties_map.get(&"k".to_string()).unwrap(), "two");
    assert_eq!(t.properties_map.get(&"other".to_string()).unwrap(), "x y");
}

#[test]
fn repeated_header_replaces_settings_and_keeps_list() {
    let text = "[a]\nselect = one\n[b]\ndepends_on = a\n[a]\nuse = m\n";
    let (props, deps) = parse_config(text);
    assert_eq!(props.len(), 3);
    assert_eq!(settings(&props, "a").chain_name, "");
    assert_eq!(settings(&props, "a").method_name, "m");
    assert_eq!(deps_of(&deps, "a"), vec!["b".to_string()]);
}

#[test]
fn empty_text_has_only_the_end_entry() {
    let (props, deps) = parse_config("");
    assert_eq!(props.len(), 1);
    assert!(props.contains_key(&String::new()));
    assert_eq!(deps.len(), 0);
}

#[test]
fn command_before_any_header_is_refused() {
    let e = INIParser::parse("# comment\nselect = x\n[a]\n").unwrap_err();
    assert_eq!(e.line, 2);
}

#[test]
fn unknown_keyword_is_refused_at_its_line() {
    let e = INIParser::parse("[a]\nselect = x\nfrobnicate = y\n").unwrap_err();
    assert_eq!(e.line, 3);
}

#[test]
fn unterminated_quote_is_refused() {
    let e = INIParser::parse("[a]\nselect = \"open\n").unwrap_err();
    assert_eq!(e.line, 2);
}

#[test]
fn malformed_header_is_refused() {
    let e = INIParser::parse("[a b]\n").unwrap_err();
    assert_eq!(e.line, 1);
    let e = INIParser::parse("[a]\n[]\n").unwrap_err();
    assert_eq!(e.line, 2);
}

#[test]
fn comments_and_blank_lines_are_ignored() {
    let file = INIParser::parse("  # lead\n\n[a]   # trailing\n\t\nselect = x # note\n").unwrap();
    assert_eq!(file.tasks.len(), 1);
    assert_eq!(file.tasks[0].commands.len(), 1);
}

#[test]
fn unreadable_values_are_reported() {
    let bad_number = INIParser::parse("[a]\nmethod_params = list, number = 12x\n").unwrap();
    assert!(!bad_number.values_are_valid());
    let bad_bool = INIParser::parse("[a]\nmethod_params = list, boolean = yes\n").unwrap();
    assert!(!bad_bool.values_are_valid());
    let too_big = INIParser::parse("[a]\nmethod_params = list, number = 9223372036854775808\n").unwrap();
    assert!(!too_big.values_are_valid());
    let bad_field = INIParser::parse("[a]\nmethod_params = list, {n: list_of_number = 1 x}\n").unwrap();
    assert!(!bad_field.values_are_valid());
    let fine = INIParser::parse("[a]\nmethod_params = list, number = -9223372036854775808, boolean = false\n").unwrap();
    assert!(fine.values_are_valid());
}

#[test]
fn every_listed_task_is_a_key() {
    let text = "[x]\ndepends_on = y, z\n[y]\ndepends_on = z\n[z]\n";
    let (props, deps) = parse_config(text);
    for key in deps.keys() {
        for listed in deps_of(&deps, &key) {
            assert!(deps.contains_key(&listed));
            assert!(props.contains_key(&listed));
        }
    }
}

#[test]
fn parsing_twice_gives_the_same_maps() {
    let (p1, d1) = parse_config(PIPELINE);
    let (p2, d2) = parse_config(PIPELINE);
    assert_eq!(p1.keys(), p2.keys());
    assert_eq!(d1.keys(), d2.keys());
    for k in d1.keys() {
        assert_eq!(deps_of(&d1, &k), deps_of(&d2, &k));
    }
    for k in p1.keys() {
        let (a, b) = (settings(&p1, &k), settings(&p2, &k));
        assert_eq!(a.chain_name, b.chain_name);
        assert_eq!(a.method_name, b.method_name);
        assert_eq!(a.properties_map.keys(), b.properties_map.keys());
        assert_eq!(a.method_params_json_string, b.method_params_json_string);
    }
}
