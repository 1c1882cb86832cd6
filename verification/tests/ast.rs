use mimir::ast::{
    DeclKind, MimirAst, MimirDecl, MimirFile, MimirParam, MimirPos, MimirRange, MimirRef,
    MimirScope, Visibility,
};
use mimir::ast_features::{
    callee_at, definition, find_decl, find_decl_at, find_ref_at, hover, identifier_completion,
    kind_label, member_completion, method_params_at, signature_help, type_definition,
    type_name_at, visible_decls, word_at_rope,
};
use ropey::Rope;

fn pos(line: u32, ch: u32) -> MimirPos {
    MimirPos { line, character: ch }
}

fn range(sl: u32, sc: u32, el: u32, ec: u32) -> MimirRange {
    MimirRange { start: pos(sl, sc), end: pos(el, ec) }
}

fn scope(range: MimirRange, declarations: Vec<MimirDecl>, children: Vec<MimirScope>) -> MimirScope {
    MimirScope { range, declarations, children, imported_packages: vec![] }
}

#[test]
fn range_contains_start() {
    assert!(range(1, 5, 3, 10).contains(pos(1, 5)));
}

#[test]
fn range_excludes_end() {
    assert!(!range(1, 5, 3, 10).contains(pos(3, 10)));
}

#[test]
fn range_contains_interior() {
    assert!(range(1, 0, 5, 0).contains(pos(3, 7)));
}

#[test]
fn range_excludes_before_start() {
    assert!(!range(1, 5, 3, 10).contains(pos(1, 4)));
}

#[test]
fn innermost_scope_finds_child() {
    let inner = scope(range(2, 0, 4, 0), vec![], vec![]);
    let outer = scope(range(0, 0, 10, 0), vec![], vec![inner]);
    let found = outer.innermost_at(pos(3, 5));
    assert_eq!(found.range, range(2, 0, 4, 0));
}

#[test]
fn innermost_scope_returns_self_when_no_child_matches() {
    let outer = scope(range(0, 0, 10, 0), vec![], vec![]);
    let found = outer.innermost_at(pos(5, 0));
    assert_eq!(found.range, range(0, 0, 10, 0));
}

#[test]
fn find_file_returns_none_for_unknown_uri() {
    let ast = MimirAst::default();
    assert!(ast.find_file("/nonexistent.sv").is_none());
}

fn make_decl(name: &str, kind: DeclKind, line: u32) -> MimirDecl {
    MimirDecl {
        name: name.to_owned(),
        kind,
        range: range(line, 0, line, name.len() as u32),
        full_range: range(line, 0, line + 1, 0),
        type_str: None,
        members: vec![],
        parent_class: None,
        visibility: Visibility::Public,
        doc: None,
    }
}

fn file(uri: &str, top_scope: MimirScope, references: Vec<MimirRef>) -> MimirFile {
    MimirFile { uri: uri.to_string(), diagnostics: vec![], top_scope, references }
}

fn simple_ast() -> MimirAst {
    MimirAst {
        files: vec![file(
            "/tmp/a.sv",
            scope(
                range(0, 0, 100, 0),
                vec![
                    make_decl("my_module", DeclKind::Module, 0),
                    make_decl("my_class", DeclKind::Class, 10),
                ],
                vec![],
            ),
            vec![],
        )],
    }
}

fn make_ref(use_range: MimirRange, path: &str, target_range: MimirRange, kind: DeclKind) -> MimirRef {
    MimirRef {
        use_range,
        target_path: path.to_string(),
        target_range,
        target_kind: kind,
        target_type_str: None,
        target_params: vec![],
        target_parent_class: None,
    }
}

#[test]
fn visible_decls_returns_top_level() {
    let ast = simple_ast();
    let decls = visible_decls(&ast, "/tmp/a.sv", pos(5, 0));
    let names: Vec<&str> = decls.iter().map(|d| d.name.as_str()).collect();
    assert!(names.contains(&"my_module"));
    assert!(names.contains(&"my_class"));
}

#[test]
fn visible_decls_includes_cross_file() {
    let mut ast = simple_ast();
    ast.files.push(file(
        "/tmp/b.sv",
        scope(range(0, 0, 50, 0), vec![make_decl("other_pkg", DeclKind::Package, 0)], vec![]),
        vec![],
    ));
    let decls = visible_decls(&ast, "/tmp/a.sv", pos(5, 0));
    let names: Vec<&str> = decls.iter().map(|d| d.name.as_str()).collect();
    assert!(names.contains(&"other_pkg"));
}

#[test]
fn find_decl_local_before_global() {
    let mut ast = simple_ast();
    ast.files[0].top_scope.children.push(scope(
        range(5, 0, 8, 0),
        vec![make_decl("inner_var", DeclKind::Variable, 6)],
        vec![],
    ));
    let (d, file) = find_decl(&ast, "/tmp/a.sv", pos(6, 0), "inner_var").unwrap();
    assert_eq!(d.name, "inner_var");
    assert_eq!(file, "/tmp/a.sv");
}

#[test]
fn find_decl_prefers_the_inner_scope() {
    let mut ast = simple_ast();
    ast.files[0].top_scope.declarations.push(make_decl("v", DeclKind::Variable, 3));
    ast.files[0].top_scope.children.push(scope(
        range(5, 0, 8, 0),
        vec![make_decl("v", DeclKind::Variable, 6)],
        vec![],
    ));
    let (d, _) = find_decl(&ast, "/tmp/a.sv", pos(6, 0), "v").unwrap();
    assert_eq!(d.range.start.line, 6);
    let (d, _) = find_decl(&ast, "/tmp/a.sv", pos(9, 0), "v").unwrap();
    assert_eq!(d.range.start.line, 3);
}

#[test]
fn find_decl_global_fallback() {
    let ast = simple_ast();
    let result = find_decl(&ast, "/tmp/a.sv", pos(0, 0), "my_class");
    assert!(result.is_some());
}

#[test]
fn find_decl_unknown_returns_none() {
    let ast = simple_ast();
    assert!(find_decl(&ast, "/tmp/a.sv", pos(0, 0), "nonexistent").is_none());
}

fn ast_with_handle(ty: &str, line: u32) -> MimirAst {
    let mut decl = make_decl("my_handle", DeclKind::Variable, line);
    decl.type_str = Some(ty.to_owned());
    MimirAst {
        files: vec![file("/tmp/a.sv", scope(range(0, 0, 100, 0), vec![decl], vec![]), vec![])],
    }
}

#[test]
fn type_name_at_resolves_instance_to_type() {
    let ast = ast_with_handle("my_class", 5);
    let rope = Rope::from_str("\n\n\n\n\nmy_handle\n");
    let ty = type_name_at(&ast, "/tmp/a.sv", pos(5, 2), &rope);
    assert_eq!(ty.as_deref(), Some("my_class"));
}

#[test]
fn type_name_at_strips_parameterization() {
    let ast = ast_with_handle("my_class#(int)", 0);
    let rope = Rope::from_str("my_handle\n");
    let ty = type_name_at(&ast, "/tmp/a.sv", pos(0, 2), &rope);
    assert_eq!(ty.as_deref(), Some("my_class"));
}

#[test]
fn type_name_at_none_when_no_declared_type() {
    let ast = simple_ast();
    let rope = Rope::from_str("\n\n\n\n\n\n\n\n\n\nmy_class\n");
    let ty = type_name_at(&ast, "/tmp/a.sv", pos(10, 2), &rope);
    assert_eq!(ty, None);
}

#[test]
fn definition_via_ref_map_returns_target() {
    let mut ast = simple_ast();
    ast.files[0].references.push(make_ref(
        range(7, 4, 7, 13),
        "/tmp/other.sv",
        range(42, 6, 42, 15),
        DeclKind::Function,
    ));
    let rope = Rope::from_str("");
    let loc = definition(&ast, "/tmp/a.sv", pos(7, 6), &rope).unwrap();
    assert!(loc.uri.ends_with("/tmp/other.sv"), "uri = {}", loc.uri);
    assert!(loc.uri.starts_with("file:"), "uri = {}", loc.uri);
    assert_eq!(loc.range.start.line, 42);
    assert_eq!(loc.range.start.character, 6);
}

#[test]
fn definition_falls_through_when_no_ref_at_pos() {
    let mut ast = simple_ast();
    ast.files[0].references.push(make_ref(
        range(7, 4, 7, 13),
        "/tmp/other.sv",
        range(42, 6, 42, 15),
        DeclKind::Function,
    ));
    let rope = Rope::from_str("my_module\n");
    let loc = definition(&ast, "/tmp/a.sv", pos(0, 0), &rope).unwrap();
    assert!(loc.uri.ends_with("/tmp/a.sv"), "uri = {}", loc.uri);
}

#[test]
fn type_definition_leads_to_the_class() {
    let mut ast = simple_ast();
    let mut handle = make_decl("my_handle", DeclKind::Variable, 20);
    handle.type_str = Some("my_class".to_owned());
    ast.files[0].top_scope.declarations.push(handle);
    let rope = Rope::from_str(&format!("{}my_handle\n", "\n".repeat(20)));
    let loc = type_definition(&ast, "/tmp/a.sv", pos(20, 1), &rope).unwrap();
    assert_eq!(loc.uri, "file:///tmp/a.sv");
    assert_eq!(loc.range.start.line, 10);
    let shadow = make_decl("my_class", DeclKind::Variable, 2);
    ast.files[0].top_scope.declarations.insert(0, shadow);
    let loc = type_definition(&ast, "/tmp/a.sv", pos(20, 1), &rope).unwrap();
    assert_eq!(loc.range.start.line, 10);
    ast.files[0].top_scope.declarations.retain(|d| d.kind != DeclKind::Class);
    assert!(type_definition(&ast, "/tmp/a.sv", pos(20, 1), &rope).is_none());
}

#[test]
fn find_ref_at_binary_search_picks_correct_entry() {
    let file = file(
        "/tmp/a.sv",
        scope(range(0, 0, 100, 0), vec![], vec![]),
        vec![
            make_ref(range(1, 0, 1, 5), "/x.sv", range(0, 0, 0, 1), DeclKind::Variable),
            make_ref(range(3, 0, 3, 5), "/y.sv", range(0, 0, 0, 1), DeclKind::Variable),
            make_ref(range(5, 4, 5, 12), "/target.sv", range(20, 0, 20, 4), DeclKind::Function),
            make_ref(range(7, 0, 7, 3), "/z.sv", range(0, 0, 0, 1), DeclKind::Variable),
        ],
    );
    let hit = find_ref_at(&file, pos(5, 7)).expect("ref at (5, 7)");
    assert_eq!(hit.target_path, "/target.sv");
    assert!(find_ref_at(&file, pos(4, 0)).is_none());
    assert!(find_ref_at(&file, pos(0, 0)).is_none());
    assert!(find_ref_at(&file, pos(9, 0)).is_none());
}

fn ast_with_method_ref() -> MimirAst {
    let mut a = make_decl("a", DeclKind::Port, 5);
    a.type_str = Some("int".to_owned());
    let mut b = make_decl("b", DeclKind::Port, 5);
    b.type_str = Some("string".to_owned());
    let mut configure = make_decl("configure", DeclKind::Function, 5);
    configure.members = vec![a, b];
    let mut base_cls = make_decl("base_cls", DeclKind::Class, 2);
    base_cls.members = vec![configure];
    let mut target = make_ref(
        range(30, 8, 30, 17),
        "/tmp/defs.sv",
        range(5, 0, 5, "configure".len() as u32),
        DeclKind::Function,
    );
    target.target_type_str = Some("void".into());
    target.target_params = vec![
        MimirParam { name: "a".into(), type_str: Some("int".into()) },
        MimirParam { name: "b".into(), type_str: Some("string".into()) },
    ];
    target.target_parent_class = Some("base_cls".into());
    MimirAst {
        files: vec![
            file("/tmp/call.sv", scope(range(0, 0, 50, 0), vec![], vec![]), vec![target]),
            file("/tmp/defs.sv", scope(range(0, 0, 50, 0), vec![base_cls], vec![]), vec![]),
        ],
    }
}

#[test]
fn method_params_at_resolves_cross_file_nested_method() {
    let ast = ast_with_method_ref();
    let params = method_params_at(&ast, "/tmp/call.sv", pos(30, 10))
        .expect("ref at the call site should resolve to configure's params");
    assert_eq!(
        params,
        vec![
            ("a".to_string(), Some("int".to_string())),
            ("b".to_string(), Some("string".to_string())),
        ]
    );
}

#[test]
fn method_params_at_returns_none_for_non_callable_target() {
    let mut ast = ast_with_method_ref();
    ast.files[0].references[0].target_kind = DeclKind::Variable;
    assert!(method_params_at(&ast, "/tmp/call.sv", pos(30, 10)).is_none());
}

#[test]
fn method_params_at_returns_none_when_no_ref_at_pos() {
    let ast = ast_with_method_ref();
    assert!(method_params_at(&ast, "/tmp/call.sv", pos(0, 0)).is_none());
}

#[test]
fn find_decl_at_locates_nested_member() {
    let ast = ast_with_method_ref();
    let defs = ast.find_file("/tmp/defs.sv").unwrap();
    let decl = find_decl_at(defs, range(5, 0, 5, "configure".len() as u32))
        .expect("configure is nested in base_cls.members");
    assert_eq!(decl.name, "configure");
    assert_eq!(decl.kind, DeclKind::Function);
}

fn call_rope() -> Rope {
    let mut lines = vec![String::new(); 31];
    lines[30] = format!("{:>8}configure(", "");
    Rope::from_str(&lines.join("\n"))
}

fn fence(sig: &str) -> String {
    format!("`{sig}`")
}

#[test]
fn hover_renders_from_ref_target_metadata() {
    let ast = ast_with_method_ref();
    let rope = call_rope();
    let h = hover(&ast, "/tmp/call.sv", pos(30, 10), &rope, &fence)
        .expect("ref-first hover should fire");
    assert!(h.value.contains("configure"), "hover body missing name: {}", h.value);
    assert!(h.value.contains("base_cls"), "hover should mention parent class: {}", h.value);
    let r = h.range.expect("hover should carry a range");
    assert_eq!(r.start.line, 30);
    assert_eq!(r.start.character, 8);
}

#[test]
fn hover_uses_the_given_format() {
    let ast = ast_with_method_ref();
    let rope = call_rope();
    let h = hover(&ast, "/tmp/call.sv", pos(30, 10), &rope, &fence).unwrap();
    assert_eq!(
        h.value,
        "`function configure(int a, string b)`\n\n*function of class `base_cls`*"
    );
}

#[test]
fn signature_help_renders_from_ref_target_metadata() {
    let ast = ast_with_method_ref();
    let rope = call_rope();
    let sig = signature_help(&ast, "/tmp/call.sv", pos(30, 18), &rope)
        .expect("ref-first signature_help should fire");
    assert!(sig.label.contains("configure"), "label missing name: {}", sig.label);
    assert!(sig.label.contains("int a"), "label missing first param: {}", sig.label);
    assert!(sig.label.contains("string b"), "label missing second param: {}", sig.label);
    assert_eq!(sig.parameters.len(), 2);
}

#[test]
fn identifier_completion_returns_visible_names() {
    let ast = simple_ast();
    let items = identifier_completion(&ast, "/tmp/a.sv", pos(5, 0));
    let labels: Vec<&str> = items.iter().map(|i| i.label.as_str()).collect();
    assert!(labels.contains(&"my_module"));
    assert!(labels.contains(&"my_class"));
}

#[test]
fn identifier_completion_is_sorted_and_distinct() {
    let mut ast = simple_ast();
    ast.files[0].top_scope.declarations.push(make_decl("my_class", DeclKind::Class, 40));
    let items = identifier_completion(&ast, "/tmp/a.sv", pos(5, 0));
    let labels: Vec<&str> = items.iter().map(|i| i.label.as_str()).collect();
    assert_eq!(labels, vec!["my_class", "my_module"]);
}

#[test]
fn member_completion_returns_class_members() {
    let mut ast = simple_ast();
    let mut field = make_decl("data", DeclKind::Field, 11);
    field.range = range(11, 4, 11, 8);
    field.full_range = range(11, 0, 12, 0);
    field.type_str = Some("logic [7:0]".to_owned());
    ast.files[0].top_scope.declarations[1].members.push(field);
    let mut var = make_decl("obj", DeclKind::Variable, 20);
    var.range = range(20, 0, 20, 3);
    var.full_range = range(20, 0, 21, 0);
    var.type_str = Some("my_class".to_owned());
    ast.files[0].top_scope.declarations.push(var);
    let items = member_completion(&ast, "/tmp/a.sv", pos(5, 0), "obj", false).unwrap();
    assert!(items.iter().any(|i| i.label == "data"));
    assert!(member_completion(&ast, "/tmp/a.sv", pos(5, 0), "obj", true).is_none());
}

#[test]
fn callee_at_finds_name_and_param_index() {
    let rope = Rope::from_str("foo(a, b, ");
    let (name, name_range, idx) = callee_at(&rope, pos(0, 10)).unwrap();
    assert_eq!(name, "foo");
    assert_eq!(idx, 2);
    assert_eq!(name_range.start, pos(0, 0));
    assert_eq!(name_range.end, pos(0, 3));
}

#[test]
fn callee_at_no_open_paren_returns_none() {
    let rope = Rope::from_str("just_ident");
    assert!(callee_at(&rope, pos(0, 10)).is_none());
}

#[test]
fn words_count_in_code_units() {
    let rope = Rope::from_str("/* 😀 */ größe_1 = $x;\n");
    assert_eq!(word_at_rope(&rope, pos(0, 9)).as_deref(), Some("größe_1"));
    assert_eq!(word_at_rope(&rope, pos(0, 15)).as_deref(), Some("größe_1"));
    assert_eq!(word_at_rope(&rope, pos(0, 16)), None);
    let plain = Rope::from_str("a+ $b_1;\t(");
    assert_eq!(word_at_rope(&plain, pos(0, 0)).as_deref(), Some("a"));
    assert_eq!(word_at_rope(&plain, pos(0, 5)).as_deref(), Some("$b_1"));
    for column in [1, 2, 7, 8, 9, 10] {
        assert_eq!(word_at_rope(&plain, pos(0, column)), None);
    }
    assert_eq!(word_at_rope(&rope, pos(9, 0)), None);
}

#[test]
fn kinds_have_labels() {
    assert_eq!(kind_label(DeclKind::Class), "class");
    assert_eq!(kind_label(DeclKind::Function), "function");
}
