use wasm_type_gen::annotate::{
    apply_changes, compose_guest_unit, guest_source_path, parse_closure_module,
    should_do_file_operations, struct_doc_comment, unquote, validate_guest, AnnotateError,
    ConstructKind, DocField, GuestItem, ItemHeader, LibraryObj, ParamShape, UserData, Visibility,
};

#[test]
fn closure_module_is_read() {
    let attr = "| obj : & mut mymod :: MyStruct | { obj . apples = 2 ; }";
    assert_eq!(parse_closure_module(attr).unwrap_or_else(|_| panic!()), "mymod");
    assert!(matches!(parse_closure_module("no bars"), Err(AnnotateError::MalformedSignature)));
    assert!(matches!(parse_closure_module("|obj: mymod::X| {}"), Err(AnnotateError::MalformedSignature)));
    assert!(matches!(parse_closure_module("|obj: &mut X| {}"), Err(AnnotateError::MalformedSignature)));
}

fn entry_fn() -> GuestItem {
    GuestItem::Function {
        name: "wasm_entrypoint".to_string(),
        returns_unit: true,
        params: vec![
            ParamShape::Typed { mut_ref_head: Some("LibraryObj".to_string()) },
            ParamShape::Typed { mut_ref_head: None },
        ],
    }
}

#[test]
fn guest_module_declarations() {
    let items = vec![
        GuestItem::Other,
        GuestItem::TypeAlias { name: "ExportType".to_string(), target: vec!["MyStruct".to_string()] },
        GuestItem::Const {
            name: "REQUIRED_CRATES".to_string(),
            strings: Some(vec!["\"serde\"".to_string(), "\"rand\"".to_string()]),
        },
        entry_fn(),
    ];
    let info = validate_guest(&items, "m.rs").unwrap_or_else(|_| panic!());
    assert!(validate_guest(&vec![entry_fn(), GuestItem::TypeAlias { name: "ExportType".to_string(), target: vec!["S".to_string()] }], "m.rs").is_ok());
    assert_eq!(info.export_type, "MyStruct");
    assert_eq!(info.required_crates, Some(vec!["serde".to_string(), "rand".to_string()]));
}

#[test]
fn guest_module_without_entrypoint_or_export() {
    let no_entry = vec![GuestItem::TypeAlias { name: "ExportType".to_string(), target: vec!["S".to_string()] }];
    match validate_guest(&no_entry, "m.rs") {
        Err(AnnotateError::MissingEntrypoint(p)) => assert_eq!(p, "m.rs"),
        _ => panic!("expected a missing entry point"),
    }
    let multi = vec![
        GuestItem::TypeAlias { name: "ExportType".to_string(), target: vec!["a".to_string(), "S".to_string()] },
        entry_fn(),
    ];
    match validate_guest(&multi, "m.rs") {
        Err(AnnotateError::MissingExportType(p)) => assert_eq!(p, "m.rs"),
        _ => panic!("expected a missing export"),
    }
    let wrong_first = vec![
        GuestItem::Function {
            name: "wasm_entrypoint".to_string(),
            returns_unit: true,
            params: vec![ParamShape::Receiver, ParamShape::Typed { mut_ref_head: None }],
        },
        GuestItem::TypeAlias { name: "ExportType".to_string(), target: vec!["S".to_string()] },
    ];
    assert!(matches!(validate_guest(&wrong_first, "m.rs"), Err(AnnotateError::MissingEntrypoint(_))));
}

#[test]
fn quotes_are_stripped() {
    assert_eq!(unquote("\"serde\""), "serde");
    assert_eq!(unquote("\"\"x\"\""), "x");
    assert_eq!(unquote("plain"), "plain");
    assert_eq!(unquote("\""), "");
}

#[test]
fn returned_name_and_visibility_are_applied() {
    let mut header = ItemHeader { kind: ConstructKind::Struct, name: "Old".to_string(), vis: Visibility::Inherited };
    let returned = UserData::Struct { name: "New".to_string(), is_pub: true, fields: vec![] };
    apply_changes(&mut header, &returned);
    assert_eq!(header.name, "New");
    assert_eq!(header.vis, Visibility::Public);
    let hide = UserData::Struct { name: "New".to_string(), is_pub: false, fields: vec![] };
    apply_changes(&mut header, &hide);
    assert_eq!(header.vis, Visibility::Inherited);
    let other_kind = UserData::Module { name: "m".to_string(), is_pub: true };
    apply_changes(&mut header, &other_kind);
    assert_eq!(header.name, "New");
    assert_eq!(header.vis, Visibility::Inherited);
    let mut restricted = ItemHeader { kind: ConstructKind::Static, name: "S".to_string(), vis: Visibility::Restricted };
    apply_changes(&mut restricted, &UserData::GlobalVariable { name: "S".to_string(), is_pub: false });
    assert_eq!(restricted.vis, Visibility::Restricted);
}

#[test]
fn file_operation_toggle() {
    assert!(should_do_file_operations(Some("full"), None));
    assert!(!should_do_file_operations(Some("short"), None));
    assert!(!should_do_file_operations(Some("full"), Some("0")));
    assert!(should_do_file_operations(None, Some("true")));
    assert!(!should_do_file_operations(None, Some("maybe")));
    assert!(should_do_file_operations(Some("full"), Some("maybe")));
}

#[test]
fn guest_unit_text() {
    let unit = compose_guest_unit("mymod", "pub struct MyStruct;", "MyStruct", "|o: &mut mymod::MyStruct| {}");
    assert!(unit.starts_with("pub fn wasm_main(library_obj: &mut LibraryObj) { mymod::wasm_entrypoint(library_obj, users_fn); }"));
    assert!(unit.contains("mod mymod { use super::LibraryObj; use super::UserData;\npub struct MyStruct;\n}"));
    assert!(unit.contains("pub fn users_fn(data: &mut mymod::MyStruct) { let cb = |o: &mut mymod::MyStruct| {}; cb(data); }"));
    assert_eq!(guest_source_path("/p/wasm_modules", "mymod"), "/p/wasm_modules/mymod.rs");
}

#[test]
fn struct_documentation() {
    let fields = vec![DocField {
        docs: vec!["\" this value can only be 2!\"".to_string()],
        vis: "pub".to_string(),
        name: "apples".to_string(),
        ty: "u32".to_string(),
    }];
    assert_eq!(
        struct_doc_comment("pub", "MyStruct", &fields),
        "# Full Definition:\n\n```\npub struct MyStruct {\n  /// this value can only be 2!\n  pub apples: u32,\n}\n```\n"
    );
}

#[test]
fn library_obj_error() {
    let mut obj = LibraryObj::new();
    obj.report_error("apples must be 2");
    assert_eq!(obj.compiler_error_message, "apples must be 2");
}

#[test]
fn import_targets() {
    use_import_target();
}

fn use_import_target() {
    let (path, name) = wasm_type_gen::annotate::import_target("/p/wasm_modules", "mymod");
    assert_eq!(path, "/p/wasm_modules/mymod.rs");
    assert_eq!(name, "mymod");
    let (path, name) = wasm_type_gen::annotate::import_target("/p", "sub/other.rs");
    assert_eq!(path, "/p/sub/other.rs");
    assert_eq!(name, "other");
    assert_eq!(wasm_type_gen::annotate::modules_dir("/m"), "/m/wasm_modules");
    assert_eq!(wasm_type_gen::annotate::shared_dir("/m"), "/m/wasmgen");
}

#[test]
fn bulk_import_reads_export_and_requirements() {
    let items = vec![
        GuestItem::TypeAlias { name: "ExportType".to_string(), target: vec!["MyStruct".to_string()] },
        GuestItem::Const { name: "REQUIRED_CRATES".to_string(), strings: Some(vec!["\"serde\"".to_string()]) },
    ];
    let (export, required) = wasm_type_gen::annotate::exported_declarations(&items);
    assert_eq!(export, Some("MyStruct".to_string()));
    assert_eq!(required, Some(vec!["serde".to_string()]));
    let (export, required) = wasm_type_gen::annotate::exported_declarations(&vec![GuestItem::Other]);
    assert_eq!(export, None);
    assert_eq!(required, None);
}
