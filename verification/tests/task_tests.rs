use taskflow::executor::task::{ResponseError, Task};
use taskflow::name_map::NameMap;
use taskflow::parser::config_parser::config_structs::TaskParams;

fn params() -> TaskParams {
    TaskParams {
        chain_name: "ethereum".to_string(),
        method_name: "eth_call".to_string(),
        properties_map: NameMap::new(),
        method_params_json_string: "{}".to_string(),
    }
}

#[test]
fn new_task_keeps_name_and_settings() {
    let p = params();
    let t = Task::new("fetch".to_string(), &p);
    assert_eq!(t.name(), "fetch");
    assert_eq!(t.task_params().chain_name, "ethereum");
    assert_eq!(t.task_params().method_name, "eth_call");
}

#[test]
fn response_path_names_the_task() {
    let p = params();
    assert_eq!(Task::new("fetch".to_string(), &p).response_path(), "./outputs/response_fetch.json");
    assert_eq!(Task::new(String::new(), &p).response_path(), "./outputs/response_.json");
}

#[test]
fn json_object_response_is_accepted_unchanged() {
    let p = params();
    let t = Task::new("fetch".to_string(), &p);
    let body = r#"{"id": 2, "title": "post", "tags": ["a"]}"#.to_string();
    assert_eq!(t.check_response(body.clone()), Ok(body));
    assert_eq!(t.check_response("{}".to_string()), Ok("{}".to_string()));
}

#[test]
fn other_responses_are_refused() {
    let p = params();
    let t = Task::new("fetch".to_string(), &p);
    assert_eq!(t.check_response("[1, 2]".to_string()), Err(ResponseError::NotAJsonObject));
    assert_eq!(t.check_response("not json".to_string()), Err(ResponseError::NotAJsonObject));
    assert_eq!(t.check_response(String::new()), Err(ResponseError::NotAJsonObject));
    assert_eq!(t.check_response(r#"{"a": 1"#.to_string()), Err(ResponseError::NotAJsonObject));
}
