use strack::call_graph::{call_graph_from_disassembly, cleanup_children, disassembly_is_supported};
use strack::fn_node::{lang_from_name, lang_name, path_file_name, FnInfo, Lang};
use strack::stack_usage::{parse_u32_exec, stack_usage_from_su_text, su_text_is_supported};
use strack::text::{join_strs, lines_of, split_str};

fn strings(v: &[&str]) -> Vec<String> {
    v.iter().map(|s| s.to_string()).collect()
}

#[test]
fn lines_follow_buffered_reader() {
    assert_eq!(lines_of("a\r\nb\n"), strings(&["a", "b"]));
    assert_eq!(lines_of("a\n\nb"), strings(&["a", "", "b"]));
    assert_eq!(lines_of("x\r"), strings(&["x\r"]));
    assert_eq!(lines_of(""), Vec::<String>::new());
    assert_eq!(lines_of("\n"), strings(&[""]));
}

#[test]
fn split_and_join_round_trip() {
    let parts = split_str("a.b..c", '.');
    assert_eq!(parts, strings(&["a", "b", "", "c"]));
    assert_eq!(join_strs(&parts, "."), "a.b..c");
    assert_eq!(split_str("", ':'), strings(&[""]));
    assert_eq!(join_strs(&Vec::new(), "-"), "");
}

#[test]
fn parse_u32_like_std() {
    assert_eq!(parse_u32_exec("316"), Some(316));
    assert_eq!(parse_u32_exec("+5"), Some(5));
    assert_eq!(parse_u32_exec("0"), Some(0));
    assert_eq!(parse_u32_exec("4294967295"), Some(u32::MAX));
    assert_eq!(parse_u32_exec("4294967296"), None);
    assert_eq!(parse_u32_exec("99999999999999999999"), None);
    assert_eq!(parse_u32_exec(""), None);
    assert_eq!(parse_u32_exec("+"), None);
    assert_eq!(parse_u32_exec("-1"), None);
    assert_eq!(parse_u32_exec("12a"), None);
    for s in ["17", "+0", "007", "4294967295", "x", "-0", " 1"] {
        assert_eq!(parse_u32_exec(s), s.parse::<u32>().ok());
    }
}

#[test]
fn su_file_entries() {
    let text = "main.c:10:5:main\t316\tstatic\n\
                main.c:20:6:helper\t16\tstatic\n\
                \n\
                not a line\n\
                other.c:1:1:helper\t24\tdynamic\n";
    assert!(su_text_is_supported(text));
    let t = stack_usage_from_su_text(text);
    assert_eq!(t.len(), 2);
    assert_eq!(t.entries[0].0, "main");
    assert_eq!(t.entries[0].1.usage, 316);
    assert_eq!(t.entries[0].1.stype, "static");
    // A later line for the same symbol replaces the earlier one.
    assert_eq!(t.entries[1].0, "helper");
    assert_eq!(t.entries[1].1.usage, 24);
    assert_eq!(t.entries[1].1.stype, "dynamic");
    let h = t.get(&"helper".to_string()).unwrap();
    assert_eq!(h.usage, 24);
    assert!(t.get(&"nothing".to_string()).is_none());
}

#[test]
fn su_file_unsupported_lines() {
    assert!(!su_text_is_supported("a.cpp:1:1:int f(int)\t8\tstatic\n"));
    assert!(!su_text_is_supported("a.c:1:1:f\teight\tstatic\n"));
    assert!(su_text_is_supported("a.c:1:1:f\teight\n"));
    let t = stack_usage_from_su_text("a.c:1:1:f\teight\n");
    assert_eq!(t.len(), 0);
}

const DISASSEMBLY: &str = "\n\
example/main.o:     file format elf32-littlearm\n\
\n\
\n\
Disassembly of section .text.main:\n\
\n\
00000000 <main>:\n\
   0:\tb580      \tpush\t{r7, lr}\n\
   2:\tf7ff fffe \tbl\t0 <HAL_Init>\t2: R_ARM_THM_CALL\tHAL_Init\n\
   6:\tf7ff fffe \tbl\t0 <SystemClock_Config.constprop.0>\t6: R_ARM_THM_CALL\tSystemClock_Config.constprop.0\n\
   a:\tf7ff fffe \tbl\t0 <HAL_Init>\ta: R_ARM_THM_CALL\tHAL_Init\n\
\n\
Disassembly of section .text.SystemClock_Config.constprop.0:\n\
\n\
00000000 <SystemClock_Config.constprop.0>:\n\
   0:\tf7ff fffe \tbl\t0 <memset>\t0: R_ARM_THM_CALL\tmemset\n\
\n\
00000000 <.text.idle>:\n\
\n\
00000000 <idle>:\n\
   0:\t4770      \tbx\tlr\n";

#[test]
fn call_graph_of_disassembly() {
    assert!(disassembly_is_supported(DISASSEMBLY));
    let g = call_graph_from_disassembly(DISASSEMBLY);
    assert_eq!(g.len(), 3);
    let main = g.get(&"main".to_string()).unwrap();
    // Callees are sorted and each appears once.
    assert_eq!(main, &strings(&["HAL_Init", "SystemClock_Config.constprop"]));
    let clock = g.get(&"SystemClock_Config.constprop".to_string()).unwrap();
    assert_eq!(clock, &strings(&["memset"]));
    let idle = g.get(&"idle".to_string()).unwrap();
    assert!(idle.is_empty());
    assert!(g.get(&".text.idle".to_string()).is_none());
}

#[test]
fn call_graph_unsupported_symbol_line() {
    assert!(!disassembly_is_supported("x> 00000000 <f:\n"));
    assert!(disassembly_is_supported("00000000 <f\n"));
}

#[test]
fn call_graph_function_replaced_without_blank_line() {
    let text = "00000000 <a>:\n 0:\tf7ff fffe \tbl\tx\n00000000 <b>:\n 0:\tf7ff fffe \tbl\ty\n";
    let g = call_graph_from_disassembly(text);
    // `a` never ended with a blank line, so only `b` is recorded.
    assert_eq!(g.len(), 1);
    assert_eq!(g.get(&"b".to_string()).unwrap(), &strings(&["y"]));
}

#[test]
fn callee_cleanup() {
    let mut c = strings(&["memset", "HAL_Init", "memset", "Error_Handler", "HAL_Init"]);
    cleanup_children(&mut c);
    assert_eq!(c, strings(&["Error_Handler", "HAL_Init", "memset"]));
    let again = c.clone();
    cleanup_children(&mut c);
    assert_eq!(c, again);
    let mut empty: Vec<String> = Vec::new();
    cleanup_children(&mut empty);
    assert!(empty.is_empty());
}

#[test]
fn file_names_of_paths() {
    assert_eq!(path_file_name("example/Debug/Application/User/main.o").as_deref(), Some("main.o"));
    assert_eq!(path_file_name("foo.txt/.").as_deref(), Some("foo.txt"));
    assert_eq!(path_file_name("a//b/").as_deref(), Some("b"));
    assert_eq!(path_file_name("a/.."), None);
    assert_eq!(path_file_name("/"), None);
    assert_eq!(path_file_name(""), None);
    assert_eq!(path_file_name("."), None);
    for p in ["x/y.o", "y.o", "./y.o", "a/../b", "..", "a/./"] {
        let std_name = std::path::Path::new(p)
            .file_name()
            .map(|n| n.to_string_lossy().to_string());
        assert_eq!(path_file_name(p), std_name);
    }
}

#[test]
fn fn_info_of_symbol() {
    let info = FnInfo::new("example/Debug/main.o", "LED_Thread1");
    assert_eq!(info.name, "LED_Thread1");
    assert_eq!(info.symbol, "LED_Thread1");
    assert_eq!(info.o_pathbuf, "example/Debug/main.o");
    assert_eq!(info.o_filename, "main.o");
    assert_eq!(info.lang, Lang::C);
}

#[test]
fn lang_names() {
    assert_eq!(lang_from_name("C"), Some(Lang::C));
    assert_eq!(lang_from_name("Cpp"), Some(Lang::Cpp));
    assert_eq!(lang_from_name("c"), None);
    assert_eq!(lang_name(Lang::C), "C");
    assert_eq!(lang_name(Lang::Cpp), "Cpp");
}

#[test]
fn su_rejected_lines_change_nothing() {
    let base = "main.c:10:5:main\t316\tstatic\nmain.c:20:6:helper\t16\tstatic\n";
    let padded = "\nmain.c:10:5:main\t316\tstatic\nno columns here\n\nmain.c:20:6:helper\t16\tstatic\n";
    let a = stack_usage_from_su_text(base);
    let b = stack_usage_from_su_text(padded);
    assert_eq!(a.len(), b.len());
    for (k, v) in &a.entries {
        let w = b.get(k).unwrap();
        assert_eq!(w.usage, v.usage);
        assert_eq!(w.stype, v.stype);
    }
}

#[test]
fn stray_call_lines_change_nothing() {
    let stray = "   0:\tf7ff fffe \tbl\t0 <lost>\t0: R_ARM_THM_CALL\tlost\n";
    let at_start = format!("{}{}", stray, DISASSEMBLY);
    let blank = DISASSEMBLY.find("\n\n").unwrap() + 2;
    let after_blank = format!("{}{}{}", &DISASSEMBLY[..blank], stray, &DISASSEMBLY[blank..]);
    let base = call_graph_from_disassembly(DISASSEMBLY);
    for text in [at_start, after_blank] {
        let g = call_graph_from_disassembly(&text);
        assert_eq!(g.len(), base.len());
        for (k, v) in &base.entries {
            assert_eq!(g.get(k).unwrap(), v);
        }
        assert!(g.get(&"lost".to_string()).is_none());
    }
}

#[test]
fn no_section_functions() {
    let g = call_graph_from_disassembly(DISASSEMBLY);
    for (k, _) in &g.entries {
        assert!(!k.starts_with('.'));
    }
}
