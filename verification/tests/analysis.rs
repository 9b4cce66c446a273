use strack::analyze::{analyze_nodes, get_stack_usage_and_call_graph_info, populate_children_ids, ObjectInfo};
use strack::config::{Config, Context};
use strack::fn_node::{FnNode, LocalStackInfo};
use strack::report::build_report;
use strack::symtab::SymbolTable;
use strack::{exit_code, select_command, Command};

fn strings(v: &[&str]) -> Vec<String> {
    v.iter().map(|s| s.to_string()).collect()
}

fn config(names: &[&str]) -> Config {
    Config {
        enabled: true,
        frame_cost: 0,
        allow_function_ptrs: false,
        allow_recursion: false,
        tracked_functions: strings(names),
    }
}

fn su_table(entries: &[(&str, u32)]) -> SymbolTable<LocalStackInfo> {
    let mut t = SymbolTable::new();
    for (name, usage) in entries {
        t.insert(name.to_string(), LocalStackInfo { stype: "static".to_string(), usage: *usage });
    }
    t
}

fn cg_table(entries: &[(&str, &[&str])]) -> SymbolTable<Vec<String>> {
    let mut t = SymbolTable::new();
    for (name, children) in entries {
        t.insert(name.to_string(), strings(children));
    }
    t
}

fn find<'a>(fns: &'a [FnNode], name: &str) -> &'a FnNode {
    fns.iter().find(|f| f.info.name == name).unwrap()
}

fn example_objects() -> Vec<ObjectInfo> {
    vec![
        ObjectInfo {
            o_filepath: "build/main.o".to_string(),
            stack_usage: su_table(&[("main", 16), ("a", 8), ("b", 4), ("c", 20)]),
            call_graph: cg_table(&[
                ("main", &["a", "c", "memcpy"]),
                ("a", &["b"]),
                ("b", &[]),
                ("c", &["memset"]),
            ]),
        },
        ObjectInfo {
            o_filepath: "build/startup.o".to_string(),
            stack_usage: su_table(&[("x", 4), ("y", 4), ("self_caller", 2)]),
            call_graph: cg_table(&[
                ("Reset_Handler", &["main"]),
                ("x", &["y"]),
                ("y", &["x"]),
                ("self_caller", &["self_caller"]),
            ]),
        },
    ]
}

#[test]
fn nodes_of_object_files() {
    let fns = get_stack_usage_and_call_graph_info(&example_objects());
    let names: Vec<&str> = fns.iter().map(|f| f.info.name.as_str()).collect();
    assert_eq!(names, vec!["main", "a", "b", "c", "x", "y", "self_caller", "Reset_Handler"]);
    let main = find(&fns, "main");
    assert_eq!(main.children, strings(&["a", "c", "memcpy"]));
    assert_eq!(main.local_stack.as_ref().unwrap().usage, 16);
    assert_eq!(main.info.o_filename, "main.o");
    assert!(main.max_stack.is_none());
    let reset = find(&fns, "Reset_Handler");
    assert!(reset.local_stack.is_none());
    assert_eq!(reset.info.o_pathbuf, "build/startup.o");
    assert_eq!(reset.children, strings(&["main"]));
}

#[test]
fn children_are_linked() {
    let mut fns = get_stack_usage_and_call_graph_info(&example_objects());
    populate_children_ids(&mut fns);
    let main = find(&fns, "main");
    assert_eq!(main.children_ids, vec![1, 3]);
    assert_eq!(main.children_missing, strings(&["memcpy"]));
    let reset = find(&fns, "Reset_Handler");
    assert_eq!(reset.children_ids, vec![0]);
    assert!(reset.children_missing.is_empty());
}

#[test]
fn worst_case_stack_usage() {
    let ctx = Context::new(".", config(&["main"]));
    let mut fns = get_stack_usage_and_call_graph_info(&example_objects());
    analyze_nodes(&ctx, &mut fns);
    // b: 4; a: 8 + 4; c: 20 (memset is missing and ignored); main: 16 + max(12, 20)
    let b = find(&fns, "b").max_stack.as_ref().unwrap();
    assert_eq!(b.usage, 4);
    assert!(b.call_path.is_empty());
    let a = find(&fns, "a").max_stack.as_ref().unwrap();
    assert_eq!(a.usage, 12);
    assert_eq!(a.call_path, strings(&["b"]));
    let main = find(&fns, "main").max_stack.as_ref().unwrap();
    assert_eq!(main.usage, 36);
    assert_eq!(main.call_path, strings(&["c"]));
    // Recursion and unknown own usage leave the worst case unknown.
    assert!(find(&fns, "x").max_stack.is_none());
    assert!(find(&fns, "y").max_stack.is_none());
    assert!(find(&fns, "self_caller").max_stack.is_none());
    assert!(find(&fns, "Reset_Handler").max_stack.is_none());
}

#[test]
fn worst_case_path_ties_take_first_callee() {
    let objs = vec![ObjectInfo {
        o_filepath: "t.o".to_string(),
        stack_usage: su_table(&[("top", 1), ("l", 10), ("r", 10), ("leaf", 3)]),
        call_graph: cg_table(&[("top", &["r", "l"]), ("l", &["leaf"]), ("r", &[])]),
    }];
    let ctx = Context::new("", config(&[]));
    let mut fns = get_stack_usage_and_call_graph_info(&objs);
    analyze_nodes(&ctx, &mut fns);
    let top = find(&fns, "top").max_stack.as_ref().unwrap();
    assert_eq!(top.usage, 14);
    assert_eq!(top.call_path, strings(&["l", "leaf"]));
    let objs = vec![ObjectInfo {
        o_filepath: "t.o".to_string(),
        stack_usage: su_table(&[("top", 1), ("l", 10), ("r", 10)]),
        call_graph: cg_table(&[("top", &["r", "l"])]),
    }];
    let mut fns = get_stack_usage_and_call_graph_info(&objs);
    analyze_nodes(&ctx, &mut fns);
    let top = find(&fns, "top").max_stack.as_ref().unwrap();
    assert_eq!(top.usage, 11);
    assert_eq!(top.call_path, strings(&["r"]));
}

#[test]
fn worst_case_overflow_is_unknown() {
    let objs = vec![ObjectInfo {
        o_filepath: "t.o".to_string(),
        stack_usage: su_table(&[("top", u32::MAX), ("leaf", 1)]),
        call_graph: cg_table(&[("top", &["leaf"])]),
    }];
    let ctx = Context::new("", config(&[]));
    let mut fns = get_stack_usage_and_call_graph_info(&objs);
    analyze_nodes(&ctx, &mut fns);
    assert!(find(&fns, "top").max_stack.is_none());
    assert_eq!(find(&fns, "leaf").max_stack.as_ref().unwrap().usage, 1);
}

#[test]
fn report_of_analysis() {
    let ctx = Context::new(".", config(&["main", "nowhere", "x", "a"]));
    let mut fns = get_stack_usage_and_call_graph_info(&example_objects());
    analyze_nodes(&ctx, &mut fns);
    let r = build_report(&fns, &ctx.config.tracked_functions);
    assert_eq!(r.total_function_nodes, 8);
    assert_eq!(r.num_functions_known_local_stack, 7);
    assert_eq!(r.num_functions_known_max_stack, 4);
    assert_eq!(r.tracked_functions.len(), 2);
    assert_eq!(r.tracked_functions[0].name, "main");
    assert_eq!(r.tracked_functions[0].su_max, 36);
    assert_eq!(r.tracked_functions[1].name, "a");
    assert_eq!(r.tracked_functions[1].su_max, 12);
    assert_eq!(r.unknown_local_su, strings(&["Reset_Handler"]));
    assert_eq!(r.unknown_max_su, strings(&["x", "y", "self_caller", "Reset_Handler"]));
    assert_eq!(r.missing_children, strings(&["memcpy", "memset"]));
    assert_eq!(
        r.total_function_nodes,
        r.num_functions_known_local_stack + r.unknown_local_su.len() as u32
    );
    assert_eq!(
        r.total_function_nodes,
        r.num_functions_known_max_stack + r.unknown_max_su.len() as u32
    );
    assert!(r.num_functions_known_max_stack <= r.num_functions_known_local_stack);
}

#[test]
fn worst_case_sums_own_usages_along_path() {
    let ctx = Context::new(".", config(&[]));
    let mut fns = get_stack_usage_and_call_graph_info(&example_objects());
    analyze_nodes(&ctx, &mut fns);
    for f in &fns {
        if let Some(ms) = &f.max_stack {
            let own = f.local_stack.as_ref().unwrap().usage;
            let below: u32 = ms
                .call_path
                .iter()
                .map(|n| find(&fns, n).local_stack.as_ref().unwrap().usage)
                .sum();
            assert_eq!(ms.usage, own + below);
            for &c in &f.children_ids {
                let cm = fns[c].max_stack.as_ref().unwrap();
                assert!(ms.usage >= own + cm.usage);
            }
        }
    }
}

#[test]
fn analysis_keeps_known_worst_cases() {
    let ctx = Context::new(".", config(&[]));
    let mut fns = get_stack_usage_and_call_graph_info(&example_objects());
    fns[0].max_stack = Some(strack::fn_node::MaxStackInfo { usage: 1, call_path: Vec::new() });
    analyze_nodes(&ctx, &mut fns);
    assert_eq!(fns[0].max_stack.as_ref().unwrap().usage, 1);
    assert_eq!(find(&fns, "a").max_stack.as_ref().unwrap().usage, 12);
}

#[test]
fn context_paths() {
    let ctx = Context::new(".", config(&[]));
    assert_eq!(ctx.config_json_path(), "./in/strack_config.json");
    assert_eq!(ctx.su_info_json_path(), "./local/strack_su.json");
    assert_eq!(ctx.cg_info_json_path(), "./local/strack_cg.json");
    assert_eq!(ctx.node_info_json_path(), "./out/strack_fn_nodes.json");
    assert_eq!(ctx.report_json_path(), "./out/strack_report.json");
    let ctx = Context::new("", config(&[]));
    assert_eq!(ctx.report_json_path(), "out/strack_report.json");
    let ctx = Context::new("/opt/strack/", config(&[]));
    assert_eq!(ctx.report_json_path(), "/opt/strack/out/strack_report.json");
    let std_path = std::path::Path::new("/opt/strack/").join("out").join("strack_report.json");
    assert_eq!(ctx.report_json_path(), std_path.to_string_lossy());
}

#[test]
fn commands() {
    assert_eq!(select_command(true, "analyze"), Command::Analyze);
    assert_eq!(select_command(true, "report"), Command::Report);
    assert_eq!(select_command(true, "analyse"), Command::Unknown);
    assert_eq!(select_command(false, "analyze"), Command::Disabled);
    assert_eq!(exit_code(Command::Analyze), 0);
    assert_eq!(exit_code(Command::Report), 0);
    assert_eq!(exit_code(Command::Disabled), 1);
    assert_eq!(exit_code(Command::Unknown), 1);
}
