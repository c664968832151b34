use call_stack::analysis::{analyze, build, Analysis};
use call_stack::diag::{Diagnostic, Fatal};
use call_stack::ir::{Callee, Declare, Define, Ir};
use call_stack::machine::MachineCode;
use call_stack::symbols::{Symbol, SymbolTable};
use call_stack::target::Target;
use call_stack::usage::{Local, Max};

fn sym(address: u64, names: &[&str], stack: Option<u64>) -> Symbol {
    Symbol { address, names: names.iter().map(|s| s.to_string()).collect(), size: 4, stack }
}

fn define(name: &str, sig: &str, callees: Vec<Callee>) -> Define {
    Define { name: name.to_string(), sig: sig.to_string(), callees, inline_asm: false }
}

fn declare(name: &str, sig: &str) -> Declare {
    Declare { name: name.to_string(), sig: sig.to_string() }
}

fn direct(name: &str) -> Callee {
    Callee::Direct { name: name.to_string() }
}

fn indirect(sig: &str) -> Callee {
    Callee::Indirect { sig: sig.to_string() }
}

fn table(defined: Vec<Symbol>, undefined: &[&str]) -> SymbolTable {
    let undefined: Vec<String> = undefined.iter().map(|s| s.to_string()).collect();
    SymbolTable::build(Target::Other, &defined, &undefined)
}

fn run(defined: Vec<Symbol>, undefined: &[&str], ir: Ir, start: Option<&str>) -> Result<Analysis, Fatal> {
    let t = table(defined, undefined);
    analyze(Target::Other, &t, &ir, &Vec::new(), start)
}

fn index_of(a: &Analysis, name: &str) -> usize {
    (0..a.graph.node_count()).find(|i| a.graph.node(*i).name == name).unwrap()
}

fn callees_of(a: &Analysis, name: &str) -> Vec<String> {
    let mut names: Vec<String> = a
        .graph
        .neighbors(index_of(a, name))
        .into_iter()
        .map(|i| a.graph.node(i).name.clone())
        .collect();
    names.sort();
    names
}

#[test]
fn indirect_dispatch() {
    let ir = Ir {
        defines: vec![
            define("f", "i32 (i32)", vec![]),
            define("g", "i32 (i32)", vec![]),
            define("h", "void ()", vec![indirect("i32 (i32)")]),
        ],
        declares: vec![],
    };
    let a = run(
        vec![sym(0x100, &["f"], Some(4)), sym(0x200, &["g"], Some(12)), sym(0x300, &["h"], Some(2))],
        &[],
        ir,
        None,
    )
    .unwrap();
    assert_eq!(a.graph.node_count(), 4);
    let site = index_of(&a, "i32 (i32)*");
    assert_eq!(a.graph.node(site).local, Local::Exact(0));
    assert!(a.graph.node(site).dashed);
    assert_eq!(a.graph.node(site).max, Some(Max::Exact(12)));
    assert_eq!(callees_of(&a, "h"), vec!["i32 (i32)*".to_string()]);
    assert_eq!(callees_of(&a, "i32 (i32)*"), vec!["f".to_string(), "g".to_string()]);
    assert_eq!(a.graph.node(index_of(&a, "h")).max, Some(Max::Exact(14)));
    assert!(a.diagnostics.is_empty());
    assert!(a.cycles.is_empty());
}

#[test]
fn intrinsic_rewriting() {
    let ir = Ir {
        defines: vec![define("a", "void ()", vec![direct("llvm.memcpy.p0i8.p0i8.i32")])],
        declares: vec![declare("memcpy", "m"), declare("__aeabi_memcpy", "m")],
    };
    let a = run(
        vec![
            sym(0x100, &["a"], Some(8)),
            sym(0x200, &["memcpy"], Some(16)),
            sym(0x300, &["__aeabi_memcpy"], Some(24)),
        ],
        &[],
        ir,
        None,
    )
    .unwrap();
    assert_eq!(callees_of(&a, "a"), vec!["__aeabi_memcpy".to_string(), "memcpy".to_string()]);
    assert_eq!(a.graph.edge_count(), 2);
    assert_eq!(a.graph.node(index_of(&a, "a")).max, Some(Max::Exact(32)));
}

#[test]
fn memset_family_links_every_routine_present() {
    let ir = Ir {
        defines: vec![define(
            "a",
            "void ()",
            vec![direct("llvm.memset.p0i8.i32"), direct("llvm.memmove.p0i8.p0i8.i32")],
        )],
        declares: vec![declare("memset", "m"), declare("__aeabi_memclr4", "m")],
    };
    let a = run(
        vec![
            sym(0x100, &["a"], Some(8)),
            sym(0x200, &["memset"], Some(16)),
            sym(0x300, &["__aeabi_memclr4"], Some(4)),
        ],
        &[],
        ir,
        None,
    )
    .unwrap();
    // the second statement adds no edge twice
    assert_eq!(callees_of(&a, "a"), vec!["__aeabi_memclr4".to_string(), "memset".to_string()]);
    assert_eq!(a.graph.edge_count(), 2);
}

#[test]
fn markers_add_no_edge() {
    let ir = Ir {
        defines: vec![define(
            "a",
            "void ()",
            vec![
                direct("llvm.dbg.value"),
                direct("llvm.dbg.declare"),
                direct("llvm.assume"),
                direct("llvm.trap"),
                direct("llvm.lifetime.start.p0i8"),
                direct("llvm.lifetime.end.p0i8"),
                direct("llvm.experimental.noalias.scope.decl"),
            ],
        )],
        declares: vec![],
    };
    let a = run(vec![sym(0x100, &["a"], Some(8))], &[], ir, None).unwrap();
    assert_eq!(a.graph.edge_count(), 0);
    assert!(a.diagnostics.is_empty());
    assert_eq!(a.graph.node(0).max, Some(Max::Exact(8)));
}

#[test]
fn lowered_intrinsics_are_remarked_on_once() {
    let ir = Ir {
        defines: vec![
            define(
                "a",
                "void ()",
                vec![direct("llvm.bswap.i32"), direct("llvm.bswap.i32"), direct("llvm.x86.sse2.pause")],
            ),
            define("b", "void ()", vec![direct("llvm.bswap.i32"), direct("llvm.ctlz.i32")]),
        ],
        declares: vec![],
    };
    let a = run(vec![sym(0x100, &["a"], Some(8)), sym(0x200, &["b"], Some(8))], &[], ir, None).unwrap();
    assert_eq!(a.graph.edge_count(), 0);
    assert_eq!(
        a.diagnostics,
        vec![
            Diagnostic::AssumedLowered { intrinsic: "llvm.bswap.i32".to_string() },
            Diagnostic::AssumedLowered { intrinsic: "llvm.x86.sse2.pause".to_string() },
            Diagnostic::AssumedLowered { intrinsic: "llvm.ctlz.i32".to_string() },
        ]
    );
}

#[test]
fn unhandled_intrinsic_is_fatal_without_decoder() {
    let ir = Ir { defines: vec![define("a", "void ()", vec![direct("llvm.fma.f32")])], declares: vec![] };
    let r = run(vec![sym(0x100, &["a"], Some(8))], &[], ir, None);
    assert_eq!(r.err(), Some(Fatal::UnhandledIntrinsic { name: "llvm.fma.f32".to_string() }));
}

#[test]
fn other_intrinsics_are_left_to_the_decoder() {
    let ir = Ir { defines: vec![define("a", "void ()", vec![direct("llvm.fma.f32")])], declares: vec![] };
    let defined = vec![sym(0x101, &["a"], Some(8))];
    let t = SymbolTable::build(Target::Thumbv7m, &defined, &Vec::new());
    let a = analyze(Target::Thumbv7m, &t, &ir, &vec![None], None).unwrap();
    assert_eq!(a.graph.edge_count(), 0);
    assert_eq!(a.graph.node(0).max, Some(Max::Exact(8)));
}

#[test]
fn unknown_callee_is_fatal() {
    let ir = Ir { defines: vec![define("a", "void ()", vec![direct("nowhere")])], declares: vec![] };
    let r = run(vec![sym(0x100, &["a"], Some(8))], &[], ir, None);
    assert_eq!(r.err(), Some(Fatal::UnknownCallee { name: "nowhere".to_string() }));
}

#[test]
fn undefined_symbols_get_a_node_of_unknown_usage() {
    let ir = Ir {
        defines: vec![
            define("a", "void ()", vec![direct("puts"), direct("puts")]),
            define("b", "void ()", vec![direct("puts")]),
        ],
        declares: vec![declare("puts", "i32 (i8*)")],
    };
    let a = run(
        vec![sym(0x100, &["a"], Some(8)), sym(0x200, &["b"], Some(4))],
        &["puts@@GLIBC_2.2.5"],
        ir,
        None,
    )
    .unwrap();
    assert_eq!(a.graph.node_count(), 3);
    let puts = index_of(&a, "puts");
    assert_eq!(a.graph.node(puts).local, Local::Unknown);
    assert_eq!(a.graph.node(puts).max, Some(Max::LowerBound(0)));
    assert_eq!(a.graph.edge_count(), 2);
    assert_eq!(a.graph.node(index_of(&a, "a")).max, Some(Max::LowerBound(8)));
    assert_eq!(a.graph.node(index_of(&a, "b")).max, Some(Max::LowerBound(4)));
}

#[test]
fn symbolless_intrinsics_may_be_missing() {
    let ir = Ir { defines: vec![define("a", "void ()", vec![direct("memcmp")])], declares: vec![] };
    let a = run(vec![sym(0x100, &["a"], Some(8))], &[], ir, None).unwrap();
    assert_eq!(a.graph.edge_count(), 0);
}

#[test]
fn calls_go_to_the_canonical_name() {
    let ir = Ir {
        defines: vec![define("a", "void ()", vec![direct("alias")]), define("first", "void ()", vec![])],
        declares: vec![],
    };
    let a = run(
        vec![sym(0x100, &["a"], Some(8)), sym(0x200, &["$x.1", "first", "alias"], Some(16))],
        &[],
        ir,
        None,
    )
    .unwrap();
    assert_eq!(a.graph.node_count(), 2);
    assert_eq!(callees_of(&a, "a"), vec!["first".to_string()]);
    assert_eq!(a.graph.node(index_of(&a, "a")).max, Some(Max::Exact(24)));
}

#[test]
fn functions_dropped_by_the_linker_are_skipped() {
    let ir = Ir {
        defines: vec![define("gone", "void ()", vec![direct("nowhere")]), define("a", "void ()", vec![])],
        declares: vec![],
    };
    let a = run(vec![sym(0x100, &["a"], Some(8))], &[], ir, None).unwrap();
    assert_eq!(a.graph.node_count(), 1);
    assert_eq!(a.graph.edge_count(), 0);
}

#[test]
fn untyped_symbols_make_indirect_calls_unbounded() {
    let ir = Ir {
        defines: vec![define("f", "S", vec![]), define("h", "T", vec![indirect("S")])],
        declares: vec![],
    };
    let a = run(
        vec![sym(0x100, &["f"], Some(4)), sym(0x200, &["h"], Some(2)), sym(0x300, &["blob"], Some(1))],
        &[],
        ir,
        None,
    )
    .unwrap();
    assert_eq!(
        a.diagnostics,
        vec![Diagnostic::NoTypeInfo { name: "blob".to_string() }, Diagnostic::UntypedSymbols]
    );
    assert_eq!(callees_of(&a, "S*"), vec!["?".to_string(), "f".to_string()]);
    assert_eq!(a.graph.node(index_of(&a, "?")).local, Local::Unknown);
    assert_eq!(a.graph.node(index_of(&a, "h")).max, Some(Max::LowerBound(6)));
}

#[test]
fn outlined_helpers_need_no_type() {
    let ir = Ir { defines: vec![define("h", "T", vec![])], declares: vec![] };
    let a = run(
        vec![sym(0x100, &["h"], Some(2)), sym(0x200, &["OUTLINED_FUNCTION_3"], Some(0))],
        &[],
        ir,
        None,
    )
    .unwrap();
    assert!(a.diagnostics.is_empty());
}

#[test]
fn indirect_call_without_callees_is_remarked_on() {
    let ir = Ir { defines: vec![define("h", "T", vec![indirect("S")])], declares: vec![] };
    let a = run(vec![sym(0x100, &["h"], Some(2))], &[], ir, None).unwrap();
    assert_eq!(a.diagnostics, vec![Diagnostic::NoCallees { name: "S*".to_string() }]);
    assert_eq!(callees_of(&a, "h"), vec!["S*".to_string()]);
    assert_eq!(a.graph.node(index_of(&a, "h")).max, Some(Max::Exact(2)));
}

#[test]
fn declared_functions_are_callees_of_their_signature() {
    let ir = Ir {
        defines: vec![define("h", "T", vec![indirect("S"), indirect("S")])],
        declares: vec![declare("ext", "S")],
    };
    let a = run(vec![sym(0x100, &["h"], Some(2)), sym(0x200, &["ext"], Some(30))], &[], ir, None).unwrap();
    assert_eq!(callees_of(&a, "S*"), vec!["ext".to_string()]);
    assert_eq!(a.graph.edge_count(), 2);
    assert_eq!(a.graph.node(index_of(&a, "h")).max, Some(Max::Exact(32)));
}

#[test]
fn missing_stack_information_is_remarked_on() {
    let ir = Ir { defines: vec![define("a", "T", vec![]), define("b", "T", vec![])], declares: vec![] };
    let a = run(vec![sym(0x100, &["a"], Some(8)), sym(0x200, &["b"], None)], &[], ir, None).unwrap();
    assert_eq!(a.diagnostics, vec![Diagnostic::NoStackInfo { name: "b".to_string() }]);
    assert_eq!(a.graph.node(1).max, Some(Max::LowerBound(0)));
}

#[test]
fn without_any_stack_information_bounds_are_lower_bounds() {
    let ir = Ir { defines: vec![define("a", "T", vec![direct("b")]), define("b", "T", vec![])], declares: vec![] };
    let a = run(vec![sym(0x100, &["a"], None), sym(0x200, &["b"], None)], &[], ir, None).unwrap();
    assert_eq!(a.graph.node(0).max, Some(Max::LowerBound(0)));
    assert_eq!(a.graph.node(1).max, Some(Max::LowerBound(0)));
    assert_eq!(a.graph.edge_count(), 1);
    assert_eq!(
        a.diagnostics,
        vec![
            Diagnostic::NoStackInfo { name: "a".to_string() },
            Diagnostic::NoStackInfo { name: "b".to_string() },
        ]
    );
}

#[test]
fn decoded_frames_are_bounded_without_reported_sizes() {
    let defined = vec![sym(0x101, &["main"], None), sym(0x201, &["leaf"], None)];
    let t = SymbolTable::build(Target::Thumbv7m, &defined, &Vec::new());
    let ir = Ir { defines: vec![define("main", "T", vec![]), define("leaf", "T", vec![])], declares: vec![] };
    let codes = vec![
        Some(MachineCode { calls: vec![0x100], jumps: vec![], indirect: false, modifies_sp: true, stack: Some(8), size: 16 }),
        Some(MachineCode { calls: vec![], jumps: vec![], indirect: false, modifies_sp: true, stack: Some(24), size: 16 }),
    ];
    let a = analyze(Target::Thumbv7m, &t, &ir, &codes, None).unwrap();
    assert_eq!(a.graph.node(0).max, Some(Max::Exact(32)));
    assert_eq!(a.graph.node(1).max, Some(Max::Exact(24)));
    assert!(a.diagnostics.is_empty());
}

#[test]
fn a_single_function_of_unknown_usage_gets_a_lower_bound() {
    let ir = Ir { defines: vec![define("a", "T", vec![])], declares: vec![] };
    let a = run(vec![sym(0x100, &["a"], None)], &[], ir, None).unwrap();
    assert_eq!(a.graph.node(0).max, Some(Max::LowerBound(0)));
}

#[test]
fn graph_is_cut_down_to_the_entry_point() {
    let ir = Ir {
        defines: vec![
            define("main", "T", vec![direct("a")]),
            define("a", "T", vec![direct("b")]),
            define("b", "T", vec![]),
            define("other", "T", vec![direct("b")]),
        ],
        declares: vec![],
    };
    let a = run(
        vec![
            sym(0x100, &["other"], Some(100)),
            sym(0x200, &["main"], Some(8)),
            sym(0x300, &["a"], Some(16)),
            sym(0x400, &["b"], Some(4)),
        ],
        &[],
        ir,
        Some("a"),
    )
    .unwrap();
    assert_eq!(a.graph.node_count(), 2);
    assert_eq!(a.graph.node(0).name, "a");
    assert_eq!(a.graph.node(1).name, "b");
    assert_eq!(a.graph.neighbors(0), vec![1]);
    assert_eq!(a.graph.node(0).max, Some(Max::Exact(20)));
    assert!(a.diagnostics.is_empty());
}

#[test]
fn entry_point_may_be_given_without_its_hash() {
    let mangled = "_ZN3foo4main17h0123456789abcdefE";
    let ir = Ir {
        defines: vec![define(mangled, "T", vec![direct("b")]), define("b", "T", vec![]), define("c", "T", vec![])],
        declares: vec![],
    };
    let a = run(
        vec![sym(0x100, &["c"], Some(1)), sym(0x200, &[mangled], Some(8)), sym(0x300, &["b"], Some(4))],
        &[],
        ir,
        Some("foo::main"),
    )
    .unwrap();
    assert_eq!(a.graph.node_count(), 2);
    assert_eq!(a.graph.node(0).name, "foo::main");
    assert_eq!(a.graph.node(0).max, Some(Max::Exact(12)));
}

#[test]
fn ambiguous_entry_point_leaves_the_graph_whole() {
    let one = "_ZN3foo4main17h0123456789abcdefE";
    let two = "_ZN3foo4main17hfedcba9876543210E";
    let ir = Ir { defines: vec![define(one, "T", vec![]), define(two, "T", vec![])], declares: vec![] };
    let a = run(vec![sym(0x100, &[one], Some(1)), sym(0x200, &[two], Some(8))], &[], ir, Some("foo::main")).unwrap();
    assert_eq!(a.graph.node_count(), 2);
    assert_eq!(
        a.diagnostics,
        vec![
            Diagnostic::AmbiguousStart {
                name: "foo::main".to_string(),
                hits: vec![one.to_string(), two.to_string()]
            },
            Diagnostic::StartNotFound,
        ]
    );
    // both share the name before the hash, so neither is shortened
    assert_eq!(a.graph.node(0).name, one);
    assert_eq!(a.graph.node(1).name, two);
}

#[test]
fn missing_entry_point_leaves_the_graph_whole() {
    let ir = Ir { defines: vec![define("a", "T", vec![])], declares: vec![] };
    let a = run(vec![sym(0x100, &["a"], Some(1))], &[], ir, Some("main")).unwrap();
    assert_eq!(a.graph.node_count(), 1);
    assert_eq!(a.diagnostics, vec![Diagnostic::StartNotFound]);
}

#[test]
fn unique_names_lose_their_hash() {
    let one = "_ZN3foo4main17h0123456789abcdefE";
    let two = "_ZN3foo3bar17hfedcba9876543210E";
    let three = "_ZN3foo3bar17h00000000000000ffE";
    let ir = Ir {
        defines: vec![define(one, "T", vec![]), define(two, "T", vec![]), define(three, "T", vec![])],
        declares: vec![],
    };
    let a = run(
        vec![sym(0x100, &[one], Some(1)), sym(0x200, &[two], Some(8)), sym(0x300, &[three], Some(8))],
        &[],
        ir,
        None,
    )
    .unwrap();
    assert_eq!(a.graph.node(0).name, "foo::main");
    assert_eq!(a.graph.node(1).name, two);
    assert_eq!(a.graph.node(2).name, three);
    let mut names: Vec<String> = (0..3).map(|i| a.graph.node(i).name.clone()).collect();
    names.sort();
    names.dedup();
    assert_eq!(names.len(), 3);
}

#[test]
fn recursion_is_listed_as_a_cycle() {
    let ir = Ir {
        defines: vec![define("a", "T", vec![direct("b")]), define("b", "T", vec![direct("a")])],
        declares: vec![],
    };
    let a = run(vec![sym(0x100, &["a"], Some(8)), sym(0x200, &["b"], Some(16))], &[], ir, None).unwrap();
    assert_eq!(a.cycles.len(), 1);
    assert_eq!(a.graph.node(0).max, Some(Max::LowerBound(16)));
    assert_eq!(a.graph.node(1).max, Some(Max::LowerBound(16)));
}

#[test]
fn usage_beyond_the_integers_is_fatal() {
    let ir = Ir {
        defines: vec![define("a", "T", vec![direct("b")]), define("b", "T", vec![])],
        declares: vec![],
    };
    let r = run(vec![sym(0x100, &["a"], Some(u64::MAX)), sym(0x200, &["b"], Some(1))], &[], ir, None);
    assert_eq!(r.err(), Some(Fatal::UsageTooLarge));
}

fn code(calls: Vec<i32>, jumps: Vec<i32>, indirect: bool, modifies_sp: bool, stack: Option<u64>) -> Option<MachineCode> {
    Some(MachineCode { calls, jumps, indirect, modifies_sp, stack, size: 16 })
}

#[test]
fn machine_code_adds_calls_and_frames() {
    let defined = vec![
        sym(0x101, &["$t", "main"], Some(8)),
        sym(0x201, &["helper"], None),
        sym(0x301, &["tail"], Some(0)),
        sym(0x401, &["blob"], None),
    ];
    let t = SymbolTable::build(Target::Thumbv7m, &defined, &Vec::new());
    assert_eq!(t.defined[0].address, 0x100);
    let ir = Ir {
        defines: vec![define("main", "T", vec![]), define("helper", "T", vec![]), define("tail", "T", vec![])],
        declares: vec![],
    };
    let codes = vec![
        // a call of helper, a loop within main and a tail call of tail
        code(vec![0x100, 0x100], vec![8, 0x200], false, true, Some(8)),
        code(vec![], vec![], false, true, Some(24)),
        code(vec![], vec![], false, false, None),
        // no body in the representation, and a call through a register
        code(vec![-0x300], vec![], true, false, None),
    ];
    let b = build(Target::Thumbv7m, &t, &ir, &codes).unwrap();
    assert_eq!(b.graph.node(1).local, Local::Exact(24));
    assert_eq!(b.graph.node(2).local, Local::Exact(0));
    assert_eq!(b.graph.node(3).local, Local::Exact(0));
    assert_eq!(b.graph.neighbors(0), vec![2, 1]);
    assert_eq!(b.graph.node(4).name, "?");
    assert_eq!(b.graph.neighbors(3), vec![0, 4]);
    assert_eq!(
        b.diagnostics,
        vec![
            Diagnostic::NoTypeInfo { name: "blob".to_string() },
            Diagnostic::UntypedIndirectCall { name: "blob".to_string() },
            Diagnostic::UntypedSymbols,
        ]
    );
}

#[test]
fn branch_to_nowhere_is_fatal() {
    let defined = vec![sym(0x101, &["main"], Some(8))];
    let t = SymbolTable::build(Target::Thumbv7m, &defined, &Vec::new());
    let ir = Ir { defines: vec![define("main", "T", vec![])], declares: vec![] };
    let codes = vec![code(vec![0x40], vec![], false, true, Some(8))];
    let r = analyze(Target::Thumbv7m, &t, &ir, &codes, None);
    assert_eq!(r.err(), Some(Fatal::NoSymbolAt { address: 0x140 }));
}

#[test]
fn decoder_overrides_are_remarked_on() {
    let defined = vec![
        sym(0x101, &["OUTLINED_FUNCTION_7"], Some(0)),
        sym(0x201, &["handler"], Some(8)),
        sym(0x301, &["odd"], Some(8)),
        sym(0x401, &["still"], Some(4)),
    ];
    let t = SymbolTable::build(Target::Thumbv6m, &defined, &Vec::new());
    let ir = Ir {
        defines: vec![
            Define { name: "handler".to_string(), sig: "T".to_string(), callees: vec![], inline_asm: true },
            define("odd", "T", vec![]),
            define("still", "T", vec![]),
        ],
        declares: vec![],
    };
    let codes = vec![
        code(vec![], vec![], false, true, Some(24)),
        code(vec![], vec![], false, true, Some(40)),
        code(vec![], vec![], false, true, Some(16)),
        code(vec![], vec![], false, false, Some(4)),
    ];
    let a = analyze(Target::Thumbv6m, &t, &ir, &codes, None).unwrap();
    assert_eq!(a.graph.node(0).local, Local::Exact(24));
    assert_eq!(a.graph.node(1).local, Local::Exact(40));
    assert_eq!(a.graph.node(2).local, Local::Exact(16));
    assert_eq!(a.graph.node(3).local, Local::Exact(4));
    assert_eq!(
        a.diagnostics,
        vec![
            Diagnostic::OutlinedOverride { name: "OUTLINED_FUNCTION_7".to_string(), reported: 0, decoded: 24 },
            Diagnostic::InlineAsmOverride { name: "handler".to_string(), reported: 8, decoded: 40 },
            Diagnostic::Mismatch { name: "odd".to_string(), reported: 8, decoded: 16 },
            Diagnostic::StackPointerMismatch { name: "still".to_string(), stack: 4, modifies_sp: false },
        ]
    );
}
