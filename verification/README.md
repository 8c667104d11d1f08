# taskflow

Runs the tasks of an INI-like configuration file in dependency order. Each
task sends a JSON-RPC style request and stores the JSON document it gets back
under `./outputs/response_<task>.json`.

## Layout

- `src/` is the verified library (Verus):
  - `text.rs`: characters, lines, lowercase, and decimal `i64` reading;
  - `parser/config_parser/lexer.rs` and `grammar.rs`: the configuration
    grammar, stated as spec functions and implemented by a parser proved
    against them (a refused file reports its first bad line);
  - `parser/config_parser/request.rs`: the typed `method_params` and the JSON
    text of the request, built with `serde_json`;
  - `parser/config_parser.rs` and `parser.rs`: the two maps that a
    configuration yields (the settings of each task, and for each task the
    tasks that depend on it); `dependencies.rs` proves what those maps always
    satisfy;
  - `name_map.rs`: a map keyed by names that keeps insertion order;
  - `executor/scheduler.rs`: the in-degree scheduler (on `queues::Queue`)
    that hands out tasks whose upstream tasks have completed;
  - `executor/task.rs` and `executor.rs`: where a task's response goes, which
    responses are accepted, and how a run ended;
  - `json.rs`: the `serde_json` calls the library makes.
- `tests/`: tests of the library.
- `app/main.rs`: the program: reads the file, runs tasks on a `rusty_pool`
  thread pool with `tokio` and `reqwest`, writes the responses.

## Configuration syntax

A line is blank (blanks, or a `#` comment to the end of the line), a task
header `[name]`, or a command of the task above it:

```text
[fetch]
depends_on = setup, login
select = ethereum
use = eth_getBalance
properties = url: "https://rpc.example", retries: 3
method_params = list, string = "0xabc", number = 42, {to: string = "0x1"; ids: list_of_number = 1 2 3}
```

- `depends_on`: the task runs after each task named.
- `select`, `use`: the chain name and method name; `use` also sets the
  request's `method`.
- `properties`: `name: value` pairs; a later value replaces an earlier one.
- `method_params`: a kind (`list` in any letter case gives all parameters as
  a list; any other kind gives the first parameter), then parameters
  `type = value` with types `string`, `number`, `boolean`, or an object of
  fields `name: type = values` with types `string`, `number`,
  `list_of_string`, `list_of_number`. Parameters of other types are left out.

The request's `method` and `params` members carry over from task to task.
