use mimir::ast::MimirPos;
use mimir::chain_resolve::{
    build_chain_for_receiver, find_field_in_class, find_member, find_member_in_class_chain,
    find_method_in_class, resolve_member_chain, ChainScope, ChainSegment, ClassInfo, MemberKinds,
};
use mimir::document::{Position, Range};
use mimir::lsp::CompletionItem;
use mimir::member_features::{
    collect_class_members, complete_members, receiver_chain_before_dot, resolve_method_symbol,
    syntax_member_completion, synth_method_symbol, BuiltinMethod, BuiltinTables, CallKind,
    CallSite, ClassNewLhs, MethodResolution, MethodScope, ReceiverScope, TypeBuiltins,
};
use mimir::symbols::{Symbol, SymbolKind, WorkspaceIndex};
use ropey::Rope;

fn range(a: (u32, u32), b: (u32, u32)) -> Range {
    Range::new(Position::new(a.0, a.1), Position::new(b.0, b.1))
}

fn text(o: Option<&str>) -> Option<String> {
    o.map(str::to_string)
}

fn make_sym(
    name: &str,
    kind: SymbolKind,
    lines: (u32, u32),
    parent: Option<&str>,
    types: (Option<&str>, Option<&str>),
) -> Symbol {
    Symbol {
        name: name.to_string(),
        kind,
        name_range: range((lines.0, 0), (lines.0, name.len() as u32)),
        full_range: range((lines.0, 0), (lines.1, 0)),
        params: None,
        parent_class_name: text(parent),
        return_type: text(types.0),
        decl_type: text(types.1),
    }
}

fn test_url(name: &str) -> String {
    format!("file:///test/{name}.sv")
}

fn make_index() -> WorkspaceIndex {
    let mut idx = WorkspaceIndex::new();
    idx.update(
        &test_url("myclass"),
        &[
            make_sym("MyClass", SymbolKind::Class, (0, 9), None, (None, None)),
            make_sym("ap", SymbolKind::Variable, (1, 2), None, (None, Some("PortClass"))),
            make_sym("get", SymbolKind::Method, (2, 3), None, (Some("RetClass"), None)),
        ],
    );
    idx.update(
        &test_url("portclass"),
        &[
            make_sym("PortClass", SymbolKind::Class, (0, 4), None, (None, None)),
            make_sym("write", SymbolKind::Method, (1, 2), None, (None, None)),
        ],
    );
    idx.update(
        &test_url("retclass"),
        &[
            make_sym("RetClass", SymbolKind::Class, (0, 4), None, (None, None)),
            make_sym("val", SymbolKind::Variable, (1, 2), None, (None, Some("int"))),
        ],
    );
    idx
}

fn normalize(ty: &str) -> Option<String> {
    let base = ty.split('#').next().unwrap_or("").trim();
    if base.is_empty() {
        None
    } else {
        Some(base.to_string())
    }
}

#[test]
fn find_method_returns_url_and_symbol() {
    let idx = make_index();
    let e = find_method_in_class(&idx, "MyClass", "get").expect("should find get() in MyClass");
    assert_eq!(e.symbol.name, "get");
    assert!(e.url.contains("myclass"));
}

#[test]
fn find_field_returns_url_and_symbol() {
    let idx = make_index();
    let e = find_field_in_class(&idx, "MyClass", "ap").expect("should find ap in MyClass");
    assert_eq!(e.symbol.name, "ap");
    assert!(e.url.contains("myclass"));
}

#[test]
fn find_member_prefers_method() {
    let idx = make_index();
    let e = find_member(&idx, "MyClass", "get").expect("get found");
    assert_eq!(e.symbol.kind, SymbolKind::Method);
}

#[test]
fn build_chain_simple_receiver() {
    let chain = build_chain_for_receiver("obj", "write");
    assert_eq!(
        chain.segments,
        vec![ChainSegment::Root("obj".into()), ChainSegment::MethodCall("write".into())]
    );
    assert_eq!(chain.target_idx, 1);
}

#[test]
fn build_chain_two_hop_receiver() {
    let chain = build_chain_for_receiver("a.b", "method");
    assert_eq!(
        chain.segments,
        vec![
            ChainSegment::Root("a".into()),
            ChainSegment::Member("b".into()),
            ChainSegment::MethodCall("method".into()),
        ]
    );
    assert_eq!(chain.target_idx, 2);
}

#[test]
fn build_chain_this_receiver() {
    let chain = build_chain_for_receiver("this", "run");
    assert_eq!(chain.segments, vec![ChainSegment::This, ChainSegment::MethodCall("run".into())]);
    assert_eq!(chain.target_idx, 1);
}

#[test]
fn build_chain_super_receiver() {
    let chain = build_chain_for_receiver("super", "build_phase");
    assert_eq!(
        chain.segments,
        vec![ChainSegment::Super, ChainSegment::MethodCall("build_phase".into())]
    );
    assert_eq!(chain.target_idx, 1);
}

#[test]
fn members_come_from_the_nearest_class() {
    let mut wi = WorkspaceIndex::new();
    wi.update(
        "file:///a.sv",
        &[
            make_sym("A", SymbolKind::Class, (0, 3), None, (None, None)),
            make_sym("f", SymbolKind::Method, (1, 2), None, (None, None)),
            make_sym("B", SymbolKind::Class, (4, 9), Some("A"), (None, None)),
            make_sym("f", SymbolKind::Method, (5, 6), None, (None, None)),
            make_sym("C", SymbolKind::Class, (10, 12), Some("B"), (None, None)),
            make_sym("X", SymbolKind::Class, (20, 21), Some("Y"), (None, None)),
            make_sym("Y", SymbolKind::Class, (22, 23), Some("X"), (None, None)),
        ],
    );
    let (owner, e) =
        find_member_in_class_chain(&wi, "C", "f", MemberKinds::Methods).expect("inherited");
    assert_eq!(owner, "B");
    assert_eq!(e.symbol.name_range.start.line, 5);
    assert!(find_member_in_class_chain(&wi, "C", "f", MemberKinds::Fields).is_none());
    assert!(find_member_in_class_chain(&wi, "X", "f", MemberKinds::Methods).is_none());
    assert!(find_member_in_class_chain(&wi, "Nowhere", "f", MemberKinds::Methods).is_none());
}

#[test]
fn chains_resolve_through_types() {
    let wi = make_index();
    let scope = ChainScope {
        root_type: text(Some("MyClass #(int)")),
        class: Some(ClassInfo {
            class_name: "Here".into(),
            parent_class_name: text(Some("MyClass")),
        }),
    };
    let target = |recv: &str, method: &str| {
        let chain = build_chain_for_receiver(recv, method);
        resolve_member_chain(&chain, &scope, &normalize, &wi).map(|e| e.symbol.name.clone())
    };
    assert_eq!(target("obj", "get"), text(Some("get")));
    assert_eq!(target("obj.ap", "write"), text(Some("write")));
    assert_eq!(target("super.ap", "write"), text(Some("write")));
    assert_eq!(target("obj.get", "val"), text(Some("val")));
    assert_eq!(target("obj.ap", "nothing"), None);
    assert_eq!(target("this", "get"), None);
}

#[test]
fn receiver_chain_before_dot_super() {
    let rope = Rope::from_str("    super.");
    let pos = MimirPos { line: 0, character: 10 };
    assert_eq!(receiver_chain_before_dot(&rope, pos), Some(vec!["super".to_string()]));
}

#[test]
fn receiver_chain_before_dot_with_prefix() {
    let rope = Rope::from_str("obj.fo");
    let pos = MimirPos { line: 0, character: 6 };
    assert_eq!(receiver_chain_before_dot(&rope, pos), Some(vec!["obj".to_string()]));
}

#[test]
fn receiver_chain_before_dot_chained_call_returns_none() {
    let rope = Rope::from_str("get_obj().");
    let pos = MimirPos { line: 0, character: 10 };
    assert!(receiver_chain_before_dot(&rope, pos).is_none());
}

#[test]
fn receiver_chain_before_dot_scope_trigger_returns_none() {
    let rope = Rope::from_str("pkg::");
    let pos = MimirPos { line: 0, character: 5 };
    assert!(receiver_chain_before_dot(&rope, pos).is_none());
}

#[test]
fn receiver_chains_have_several_names() {
    let rope = Rope::from_str("x = a.b.c.de");
    let chain = receiver_chain_before_dot(&rope, MimirPos { line: 0, character: 12 });
    assert_eq!(chain, Some(vec!["a".to_string(), "b".to_string(), "c".to_string()]));
}

/// `class Base` with the method `foo` and the field `bar`.
#[test]
fn collect_class_members_single_class() {
    let mut wi = WorkspaceIndex::new();
    wi.update(
        "file:///a.sv",
        &[
            make_sym("Base", SymbolKind::Class, (0, 3), None, (None, None)),
            make_sym("foo", SymbolKind::Method, (1, 1), None, (None, None)),
            make_sym("bar", SymbolKind::Variable, (2, 2), None, (None, Some("int"))),
        ],
    );
    let members = collect_class_members(&wi, "Base");
    let names: Vec<&str> = members.iter().map(|e| e.symbol.name.as_str()).collect();
    assert!(names.contains(&"foo"), "should include method foo");
    assert!(names.contains(&"bar"), "should include field bar");
    assert!(!names.contains(&"Base"), "should not include the class itself");
}

#[test]
fn collect_class_members_walks_extends_chain() {
    let mut wi = WorkspaceIndex::new();
    wi.update(
        "file:///a.sv",
        &[
            make_sym("Base", SymbolKind::Class, (0, 2), None, (None, None)),
            make_sym("base_fn", SymbolKind::Method, (1, 1), None, (None, None)),
            make_sym("Child", SymbolKind::Class, (3, 5), Some("Base"), (None, None)),
            make_sym("child_fn", SymbolKind::Method, (4, 4), None, (None, None)),
        ],
    );
    let members = collect_class_members(&wi, "Child");
    let names: Vec<&str> = members.iter().map(|e| e.symbol.name.as_str()).collect();
    assert!(names.contains(&"child_fn"), "own method");
    assert!(names.contains(&"base_fn"), "inherited method");
    assert_eq!(names, vec!["child_fn", "base_fn"]);
}

#[test]
fn collect_class_members_override_deduplication() {
    let mut wi = WorkspaceIndex::new();
    wi.update(
        "file:///a.sv",
        &[
            make_sym("Base", SymbolKind::Class, (0, 2), None, (None, None)),
            make_sym("run", SymbolKind::Method, (1, 1), None, (None, None)),
            make_sym("Child", SymbolKind::Class, (3, 5), Some("Base"), (None, None)),
            make_sym("run", SymbolKind::Method, (4, 4), None, (None, None)),
        ],
    );
    let members = collect_class_members(&wi, "Child");
    let runs: Vec<_> = members.iter().filter(|e| e.symbol.name == "run").collect();
    assert_eq!(runs.len(), 1, "overridden method should appear only once");
    assert_eq!(runs[0].symbol.name_range.start.line, 4);
}

fn builtin(name: &str) -> BuiltinMethod {
    BuiltinMethod {
        name: name.into(),
        signature: format!("function int {name}()"),
        params: vec![],
        doc: format!("what {name} does"),
    }
}

fn tables() -> BuiltinTables {
    BuiltinTables {
        by_type: vec![TypeBuiltins {
            ty_name: "semaphore".into(),
            methods: vec![builtin("get"), builtin("put")],
        }],
        universal: vec![builtin("rand_mode"), builtin("constraint_mode"), builtin("randomize")],
    }
}

fn receiver(class: Option<(&str, Option<&str>)>, root_type: Option<&str>) -> ReceiverScope {
    ReceiverScope {
        class: class.map(|(n, p)| ClassInfo {
            class_name: n.into(),
            parent_class_name: text(p),
        }),
        root_type: text(root_type),
        root_base: text(root_type),
        dim_methods: vec![],
    }
}

fn labels(items: &[CompletionItem]) -> Vec<&str> {
    items.iter().map(|i| i.label.as_str()).collect()
}

#[test]
fn syntax_member_completion_super() {
    let src = "class Base;\n  function void base_method(); endfunction\nendclass\n\
               class Child extends Base;\n  function void my_fn();\n    super.\n  endfunction\n\
               endclass\n";
    let mut wi = WorkspaceIndex::new();
    wi.update(
        "file:///a.sv",
        &[
            make_sym("Base", SymbolKind::Class, (0, 2), None, (None, None)),
            make_sym("base_method", SymbolKind::Method, (1, 1), None, (None, None)),
            make_sym("Child", SymbolKind::Class, (3, 7), Some("Base"), (None, None)),
            make_sym("my_fn", SymbolKind::Method, (4, 6), None, (None, None)),
        ],
    );
    let rope = Rope::from_str(src);
    let pos = MimirPos { line: 5, character: 10 };
    let scope = receiver(Some(("Child", Some("Base"))), None);
    let items = syntax_member_completion(&wi, &rope, pos, &scope, &normalize, &tables(), "")
        .expect("should return Some for super.");
    assert!(labels(&items).contains(&"base_method"), "parent method should appear");
    assert!(!labels(&items).contains(&"my_fn"));
}

#[test]
fn syntax_member_completion_universal_methods_on_any_class() {
    let mut wi = WorkspaceIndex::new();
    wi.update(
        "file:///test/my.sv",
        &[make_sym("MyClass", SymbolKind::Class, (0, 5), None, (None, None))],
    );
    let src = "class wrapper;\n  MyClass obj;\n  function void run();\n    obj.\n  endfunction\nendclass\n";
    let rope = Rope::from_str(src);
    let pos = MimirPos { line: 3, character: 8 };
    let scope = receiver(Some(("wrapper", None)), Some("MyClass"));
    let items = syntax_member_completion(&wi, &rope, pos, &scope, &normalize, &tables(), "")
        .expect("universal methods should make Some");
    let labels = labels(&items);
    assert!(labels.contains(&"rand_mode"), "rand_mode should appear");
    assert!(labels.contains(&"constraint_mode"), "constraint_mode should appear");
    assert!(labels.contains(&"randomize"), "randomize should appear");
}

#[test]
fn syntax_member_completion_unknown_receiver_returns_none() {
    let wi = WorkspaceIndex::new();
    let src = "module m; initial unknown_var. endmodule\n";
    let rope = Rope::from_str(src);
    let pos = MimirPos { line: 0, character: 30 };
    let scope = receiver(None, None);
    assert!(
        syntax_member_completion(&wi, &rope, pos, &scope, &normalize, &tables(), "").is_none(),
        "undeclared variable should return None"
    );
}

#[test]
fn members_are_filtered_by_prefix() {
    let wi = make_index();
    let path = vec!["obj".to_string()];
    let scope = receiver(None, Some("MyClass"));
    let items = complete_members(&wi, &path, &scope, &normalize, &tables(), "RAN").unwrap();
    assert_eq!(labels(&items), vec!["rand_mode", "randomize"]);
    let scope = receiver(None, Some("semaphore"));
    let items = complete_members(&wi, &path, &scope, &normalize, &tables(), "").unwrap();
    assert_eq!(
        labels(&items),
        vec!["get", "put", "rand_mode", "constraint_mode", "randomize"]
    );
}

#[test]
fn members_are_reached_over_two_names() {
    let wi = make_index();
    let path = vec!["obj".to_string(), "ap".to_string()];
    let scope = receiver(None, Some("MyClass"));
    let items = complete_members(&wi, &path, &scope, &normalize, &tables(), "w").unwrap();
    assert_eq!(labels(&items), vec!["write"]);
}

fn call(name: &str, recv: &str) -> CallSite {
    CallSite {
        name: name.into(),
        name_range: range((30, 4), (30, 8)),
        kind: CallKind::Method(recv.into()),
    }
}

fn method_scope(root_type: Option<&str>, new_lhs: Option<ClassNewLhs>) -> MethodScope {
    MethodScope {
        chain: ChainScope {
            root_type: text(root_type),
            class: Some(ClassInfo {
                class_name: "MyClass".into(),
                parent_class_name: text(Some("PortClass")),
            }),
        },
        new_lhs,
    }
}

fn resolved(name: &str, recv: &str, scope: &MethodScope) -> Option<String> {
    let wi = make_index();
    let c = call(name, recv);
    let here = [
        make_sym("MyClass", SymbolKind::Class, (1, 9), None, (None, None)),
        make_sym("get", SymbolKind::Method, (2, 3), None, (None, None)),
    ];
    match resolve_method_symbol(&c, recv, scope, &normalize, &here, &wi, &tables()) {
        MethodResolution::Resolved(s, _) => Some(s.name),
        MethodResolution::NotResolved(_) => None,
    }
}

#[test]
fn methods_resolve_by_receiver() {
    let scope = method_scope(Some("MyClass"), None);
    assert_eq!(resolved("get", "this", &scope), text(Some("get")));
    assert_eq!(resolved("write", "super", &scope), text(Some("write")));
    assert_eq!(resolved("get", "obj.get", &scope), text(Some("get")));
    assert_eq!(resolved("write", "obj.ap.write", &scope), text(Some("write")));
    assert_eq!(resolved("missing", "obj.missing", &scope), None);
    assert_eq!(resolved("randomize", "obj.randomize", &scope), text(Some("randomize")));
    let scope = method_scope(Some("semaphore"), None);
    assert_eq!(resolved("put", "sem.put", &scope), text(Some("put")));
}

#[test]
fn this_means_the_class_around_the_call() {
    let wi = make_index();
    let here = [
        make_sym("Other", SymbolKind::Class, (0, 4), None, (None, None)),
        make_sym("get", SymbolKind::Method, (1, 2), None, (None, None)),
        make_sym("MyClass", SymbolKind::Class, (5, 9), None, (None, None)),
        make_sym("get", SymbolKind::Method, (6, 7), None, (None, None)),
    ];
    let line = |scope: &MethodScope, here: &[Symbol]| {
        match resolve_method_symbol(
            &call("get", "this"),
            "this",
            scope,
            &normalize,
            here,
            &wi,
            &tables(),
        ) {
            MethodResolution::Resolved(s, via) => Some((s.full_range.start.line, via)),
            MethodResolution::NotResolved(_) => None,
        }
    };
    let mut scope = method_scope(None, None);
    assert_eq!(line(&scope, &here), Some((6, "this/same-file")));
    assert_eq!(line(&scope, &here[..3]), None);
    assert_eq!(line(&scope, &here[..2]), None);
    scope.chain.class = None;
    assert_eq!(line(&scope, &here), None);
}

#[test]
fn unresolved_methods_say_why() {
    let wi = make_index();
    let reason = |recv: &str, scope: &MethodScope| {
        match resolve_method_symbol(
            &call("absent", recv),
            recv,
            scope,
            &normalize,
            &[],
            &wi,
            &tables(),
        ) {
            MethodResolution::Resolved(_, via) => panic!("resolved by {via}"),
            MethodResolution::NotResolved(why) => why,
        }
    };
    let scope = method_scope(None, None);
    assert_eq!(reason("this", &scope), "this.X not in same-file index");
    assert_eq!(reason("super", &scope), "super.X not found in any ancestor");
    assert_eq!(reason("", &scope), "class_new not in a recognised assignment shape");
    assert_eq!(reason("x.absent", &scope), "method not found in resolved receiver class");
    let scope = method_scope(None, Some(ClassNewLhs::Variable(None)));
    assert_eq!(reason("", &scope), "class_new LHS type unresolvable from AST");
    let scope = method_scope(None, Some(ClassNewLhs::DeclaredType("MyClass".into())));
    assert_eq!(reason("", &scope), "constructor not found for resolved class");
    let mut scope = method_scope(None, None);
    scope.chain.class = None;
    assert_eq!(reason("super", &scope), "super used but no extends clause");
}

#[test]
fn made_up_symbols_carry_parameters() {
    let params = vec![("a".to_string(), text(Some("int"))), ("b".to_string(), None)];
    let s = synth_method_symbol(&call("run", "x"), &params);
    assert_eq!(s.name, "run");
    assert_eq!(s.kind, SymbolKind::Method);
    let got = s.params.unwrap();
    assert_eq!(got.len(), 2);
    assert_eq!(got[0].name, "a");
    assert_eq!(got[0].ty.as_deref(), Some("int"));
    assert_eq!(got[1].ty, None);
}
