use imgui::bindings::allowlist::{
    cimgui_dir_name, definitions_are_readable, get_definitions, get_types, is_bad_arg_type,
    output_file_name, wasm_output_file_name,
};
use imgui::bindings::derives::{filter_derives, parse_derive_traits};
use imgui::bindings::fields::{find_struct_end, parse_field, parse_struct_fields, Field};
use imgui::bindings::impl_block::{build_impl_block, is_fn_ptr_option_type, is_fn_ptr_type};
use imgui::bindings::json::{json_get, parse_json_text, JsonValue, MetadataError};
use imgui::bindings::patch::{
    bindings_patch_is_safe, find_impl_end, patch_bindings_text, patch_struct,
    retype_enum_aliases, PatchError,
};

const OPT_EQ: &str = "        macro_rules! fn_opt_eq {\n\
            ($left:expr, $right:expr) => {\n\
                match ($left, $right) {\n\
                    (Some(a), Some(b)) => ::core::ptr::fn_addr_eq(a, b),\n\
                    (None, None) => true,\n\
                    _ => false,\n\
                }\n\
            };\n\
        }\n\n";

const PLAIN_EQ: &str = "        macro_rules! fn_eq {\n\
            ($left:expr, $right:expr) => {\n\
                ::core::ptr::fn_addr_eq($left, $right)\n\
            };\n\
        }\n\n";

const OPT_HASH: &str = "        macro_rules! fn_opt_hash {\n\
            ($value:expr, $state:expr) => {{\n\
                let addr = match $value {\n\
                    Some(f) => f as *const () as usize,\n\
                    None => 0,\n\
                };\n\
                ::core::hash::Hash::hash(&addr, $state);\n\
            }};\n\
        }\n\n";

const PLAIN_HASH: &str = "        macro_rules! fn_hash {\n\
            ($value:expr, $state:expr) => {{\n\
                let addr = $value as *const () as usize;\n\
                ::core::hash::Hash::hash(&addr, $state);\n\
            }};\n\
        }\n\n";

fn strings(items: &[&str]) -> Vec<String> {
    items.iter().map(|s| s.to_string()).collect()
}

fn field(name: &str, ty: &str) -> Field {
    Field { name: name.to_string(), ty: ty.to_string() }
}

fn draw_cmd_lines() -> Vec<String> {
    strings(&[
        "#[repr(C)]",
        "#[derive(Debug, Copy, Clone, PartialEq, Eq, Hash)]",
        "pub struct ImDrawCmd {",
        "    pub ElemCount: ::core::ffi::c_uint,",
        "    pub UserCallback: ImDrawCallback,",
        "}",
        "impl Default for ImDrawCmd {",
        "    fn default() -> Self {",
        "        unsafe { ::core::mem::zeroed() }",
        "    }",
        "}",
        "pub type X = i32;",
    ])
}

fn draw_cmd_block() -> String {
    format!(
        "impl PartialEq for ImDrawCmd {{\n    fn eq(&self, other: &Self) -> bool {{\n{}        self.ElemCount == other.ElemCount\n            && fn_opt_eq!(self.UserCallback, other.UserCallback)\n    }}\n}}\n\nimpl Eq for ImDrawCmd {{}}\n\nimpl ::core::hash::Hash for ImDrawCmd {{\n    fn hash<H: ::core::hash::Hasher>(&self, state: &mut H) {{\n{}        ::core::hash::Hash::hash(&self.ElemCount, state);\n        fn_opt_hash!(self.UserCallback, state);\n    }}\n}}\n",
        OPT_EQ, OPT_HASH
    )
}

#[test]
fn function_pointer_types() {
    assert!(is_fn_ptr_type("Option<unsafe extern \"C\" fn(x: i32)>"));
    assert!(is_fn_ptr_option_type("Option<unsafe extern \"C\" fn(x: i32)>"));
    assert!(is_fn_ptr_type("unsafe extern \"C\" fn()"));
    assert!(!is_fn_ptr_option_type("unsafe extern \"C\" fn()"));
    assert!(is_fn_ptr_type("ImDrawCallback"));
    assert!(is_fn_ptr_option_type("ImDrawCallback"));
    assert!(!is_fn_ptr_type("ImDrawCallbackX"));
    assert!(!is_fn_ptr_type("i32"));
    assert!(is_fn_ptr_option_type("Option<i32>"));
}

#[test]
fn derive_lists_are_read() {
    assert_eq!(
        parse_derive_traits("#[derive(Debug, Copy, Clone)]"),
        strings(&["Debug", "Copy", "Clone"])
    );
    assert_eq!(parse_derive_traits("  #[derive( A , , B\t)]"), strings(&["A", "B"]));
    assert_eq!(parse_derive_traits("#[derive()]"), Vec::<String>::new());
    assert_eq!(parse_derive_traits("no list here"), Vec::<String>::new());
    assert_eq!(parse_derive_traits("#[derive(Debug"), Vec::<String>::new());
}

#[test]
fn derive_lists_are_filtered() {
    let remove = ["Hash", "PartialEq", "Eq"];
    assert_eq!(
        filter_derives("#[derive(Debug, Copy, Clone, PartialEq, Eq, Hash)]", &remove),
        "#[derive(Debug, Copy, Clone)]"
    );
    assert_eq!(filter_derives("#[derive(PartialEq)]", &remove), "#[derive()]");
    assert_eq!(filter_derives("#[derive(A,,B)]", &remove), "#[derive(A, , B)]");
    assert_eq!(filter_derives("plain", &remove), "plain");
}

#[test]
fn filtering_then_reading_drops_exactly_the_removed() {
    let remove = ["Hash", "PartialEq", "Eq"];
    for line in [
        "#[derive(Debug, Copy, Clone, PartialEq, Eq, Hash)]",
        "#[derive( Hash ,, Debug , Eq)]",
        "#[derive()]",
        "x (a, Eq) b (c) )",
    ] {
        let expected: Vec<String> = parse_derive_traits(line)
            .into_iter()
            .filter(|item| !remove.contains(&item.as_str()))
            .collect();
        assert_eq!(parse_derive_traits(&filter_derives(line, &remove)), expected);
    }
}

#[test]
fn fields_are_read() {
    assert_eq!(
        parse_field("    pub name: *const ::core::ffi::c_char,"),
        Some(field("name", "*const ::core::ffi::c_char"))
    );
    assert_eq!(parse_field("pub a: b::c,,"), Some(field("a", "b::c")));
    assert_eq!(parse_field("pub x"), None);
    assert_eq!(parse_field("fn foo(a: i32)"), None);
    let lines = strings(&[
        "pub struct S {",
        "    pub a: i32,",
        "    pub cb: Option<",
        "        unsafe extern \"C\" fn(),",
        "    >,",
        "    _private: u8,",
        "}",
        "    pub after: i32,",
    ]);
    assert_eq!(
        parse_struct_fields(&lines, 0),
        vec![field("a", "i32"), field("cb", "Option< unsafe extern \"C\" fn()")]
    );
    assert_eq!(parse_struct_fields(&lines, 7), Vec::<Field>::new());
    assert_eq!(find_struct_end(&lines, 0), Some(6));
    assert_eq!(find_struct_end(&lines, 7), None);
}

#[test]
fn impl_ends_are_found() {
    let lines = draw_cmd_lines();
    assert_eq!(find_impl_end(&lines, "impl Default for ImDrawCmd"), Some(10));
    assert_eq!(find_impl_end(&lines, "impl Default for Other"), None);
    // A one-line impl is already closed: the next line is where the depth is zero.
    let one_line = strings(&["impl Eq for S {}", "x", "}"]);
    assert_eq!(find_impl_end(&one_line, "impl Eq for S"), Some(1));
    // The depth never goes below zero.
    let unbalanced = strings(&["impl A {", "}}", "{", "}"]);
    assert_eq!(find_impl_end(&unbalanced, "impl A"), Some(1));
}

#[test]
fn impl_blocks_are_built() {
    let fields = vec![field("a", "i32"), field("cb", "Option<unsafe extern \"C\" fn()>")];
    let expected = format!(
        "impl PartialEq for S {{\n    fn eq(&self, other: &Self) -> bool {{\n{}        self.a == other.a\n            && fn_opt_eq!(self.cb, other.cb)\n    }}\n}}\n\nimpl Eq for S {{}}\n",
        OPT_EQ
    );
    assert_eq!(build_impl_block("S", &fields, true, true, false), expected);

    let fields = vec![field("f", "ImDrawCallback"), field("g", "unsafe extern \"C\" fn(x: i32)")];
    let expected = format!(
        "impl ::core::hash::Hash for T {{\n    fn hash<H: ::core::hash::Hasher>(&self, state: &mut H) {{\n{}{}        fn_opt_hash!(self.f, state);\n        fn_hash!(self.g, state);\n    }}\n}}\n",
        OPT_HASH, PLAIN_HASH
    );
    assert_eq!(build_impl_block("T", &fields, false, false, true), expected);

    let fields = vec![field("g", "unsafe extern \"C\" fn()")];
    let expected = format!(
        "impl PartialEq for U {{\n    fn eq(&self, other: &Self) -> bool {{\n{}        fn_eq!(self.g, other.g)\n    }}\n}}\n",
        PLAIN_EQ
    );
    assert_eq!(build_impl_block("U", &fields, true, false, false), expected);

    assert_eq!(
        build_impl_block("E", &[], true, false, true),
        "impl PartialEq for E {\n    fn eq(&self, other: &Self) -> bool {\n        true\n    }\n}\n\nimpl ::core::hash::Hash for E {\n    fn hash<H: ::core::hash::Hasher>(&self, state: &mut H) {\n        let _ = state;\n    }\n}\n"
    );
    assert_eq!(build_impl_block("E", &[], false, false, false), "");
}

#[test]
fn struct_is_patched_after_its_default_impl() {
    let mut lines = draw_cmd_lines();
    assert_eq!(patch_struct(&mut lines, "ImDrawCmd"), Ok(true));
    let mut expected = draw_cmd_lines();
    expected[1] = "#[derive(Debug, Copy, Clone)]".to_string();
    expected.insert(11, draw_cmd_block());
    assert_eq!(lines, expected);
    // A second run finds the hand-written impl and changes nothing.
    assert_eq!(patch_struct(&mut lines, "ImDrawCmd"), Ok(false));
    assert_eq!(lines, expected);
}

#[test]
fn struct_is_patched_after_its_body() {
    let mut lines = draw_cmd_lines();
    lines.truncate(6);
    assert_eq!(patch_struct(&mut lines, "ImDrawCmd"), Ok(true));
    assert_eq!(lines.len(), 7);
    assert_eq!(lines[1], "#[derive(Debug, Copy, Clone)]");
    assert_eq!(lines[6], draw_cmd_block());
}

#[test]
fn unrelated_structs_are_left_alone() {
    let original = draw_cmd_lines();
    let mut lines = original.clone();
    assert_eq!(patch_struct(&mut lines, "ImGuiIO"), Ok(false));
    assert_eq!(lines, original);
    let mut no_derive = strings(&["pub struct ImDrawCmd {", "    pub a: i32,", "}"]);
    assert_eq!(patch_struct(&mut no_derive, "ImDrawCmd"), Ok(false));
    let mut only_debug =
        strings(&["#[derive(Debug)]", "pub struct ImDrawCmd {", "    pub a: i32,", "}"]);
    assert_eq!(patch_struct(&mut only_debug, "ImDrawCmd"), Ok(false));
    let mut no_fields = strings(&["#[derive(PartialEq)]", "pub struct ImDrawCmd {", "}"]);
    assert_eq!(patch_struct(&mut no_fields, "ImDrawCmd"), Ok(false));
    assert_eq!(no_fields[0], "#[derive(PartialEq)]");
}

#[test]
fn struct_without_insertion_point_fails() {
    let mut lines = strings(&["#[derive(PartialEq)]", "pub struct S {", "    pub a: i32,"]);
    assert_eq!(
        patch_struct(&mut lines, "S"),
        Err(PatchError::NoInsertionPoint { name: "S".to_string() })
    );
    assert_eq!(lines[0], "#[derive()]");
}

#[test]
fn patching_a_struct_twice_changes_nothing_the_second_time() {
    let mut eq_only = strings(&[
        "#[derive(Debug, Eq, Hash)]",
        "pub struct S {",
        "    pub a: i32,",
        "}",
        "pub struct T {}",
    ]);
    assert_eq!(patch_struct(&mut eq_only, "S"), Ok(true));
    assert_eq!(eq_only[0], "#[derive(Debug)]");
    assert_eq!(eq_only.len(), 6);
    let once = eq_only.clone();
    assert_eq!(patch_struct(&mut eq_only, "S"), Ok(false));
    assert_eq!(eq_only, once);

    let mut unfinished = strings(&["#[derive(Clone, PartialEq)]", "pub struct S {", "    pub a: i32,"]);
    assert!(patch_struct(&mut unfinished, "S").is_err());
    let once = unfinished.clone();
    assert_eq!(patch_struct(&mut unfinished, "S"), Ok(false));
    assert_eq!(unfinished, once);
}

#[test]
fn enum_aliases_are_retyped() {
    let mut lines = strings(&[
        "pub type ImGuiDir = ::core::ffi::c_uint;",
        "pub type ImGuiKey = ::core::ffi::c_uint;",
        "pub type ImGuiDir = ::core::ffi::c_uint;",
    ]);
    assert!(retype_enum_aliases(&mut lines, &strings(&["ImGuiDir", "ImGuiCol"])));
    assert_eq!(
        lines,
        strings(&[
            "pub type ImGuiDir = ::core::ffi::c_int;",
            "pub type ImGuiKey = ::core::ffi::c_uint;",
            "pub type ImGuiDir = ::core::ffi::c_uint;",
        ])
    );
    assert!(!retype_enum_aliases(&mut lines, &strings(&["ImGuiCol"])));
}

#[test]
fn bindings_text_is_patched() {
    let enums = strings(&["ImGuiDir"]);
    let text = format!(
        "pub type ImGuiDir = ::core::ffi::c_uint;\r\n{}\n",
        draw_cmd_lines().join("\n")
    );
    assert!(bindings_patch_is_safe(&text, &enums));
    let mut expected = draw_cmd_lines();
    expected[1] = "#[derive(Debug, Copy, Clone)]".to_string();
    expected.insert(11, draw_cmd_block());
    expected.insert(0, "pub type ImGuiDir = ::core::ffi::c_int;".to_string());
    assert_eq!(patch_bindings_text(&text, &enums), Ok(Some(expected.join("\n") + "\n")));
}

#[test]
fn unchanged_bindings_text_is_not_rewritten() {
    let text = "pub type A = i32;\n";
    assert!(bindings_patch_is_safe(text, &[]));
    assert_eq!(patch_bindings_text(text, &strings(&["B"])), Ok(None));
    assert_eq!(patch_bindings_text("", &[]), Ok(None));
}

#[test]
fn untouched_lines_survive_patching() {
    let text = "// header\n\npub type ImGuiDir = ::core::ffi::c_uint;\n    indented line\n";
    let patched = patch_bindings_text(text, &strings(&["ImGuiDir"])).unwrap().unwrap();
    assert_eq!(patched, "// header\n\npub type ImGuiDir = ::core::ffi::c_int;\n    indented line\n");
}

#[test]
fn derive_line_with_parentheses_out_of_order_is_unsafe() {
    let text = "x) #[derive(PartialEq, Hash\npub struct ImDrawCmd {\n    pub a: i32,\n}\n";
    assert!(!bindings_patch_is_safe(text, &[]));
}

#[test]
fn patching_stops_at_a_struct_without_insertion_point() {
    let text = "#[derive(PartialEq)]\npub struct ImFontLoader {\n    pub a: i32,\n";
    assert!(bindings_patch_is_safe(text, &[]));
    assert_eq!(
        patch_bindings_text(text, &[]),
        Err(PatchError::NoInsertionPoint { name: "ImFontLoader".to_string() })
    );
}

#[test]
fn json_metadata_is_read() {
    let v = parse_json_text(r#"{"enums": {"B": [], "A": [1.5, -2]}, "structs": {"S": {}}}"#)
        .unwrap();
    match json_get(&v, "enums") {
        Some(JsonValue::Object(entries)) => {
            assert_eq!(entries.len(), 2);
            assert_eq!(entries[0].0, "A");
            assert_eq!(
                entries[0].1,
                JsonValue::Array(vec![
                    JsonValue::Number("1.5".to_string()),
                    JsonValue::Number("-2".to_string())
                ])
            );
        }
        other => panic!("unexpected {:?}", other),
    }
    assert_eq!(json_get(&v, "missing"), None);
    assert_eq!(json_get(&JsonValue::Null, "enums"), None);
    assert!(matches!(parse_json_text("{"), Err(MetadataError::Parse { .. })));
    assert!(matches!(parse_json_text("[1, 2] x"), Err(MetadataError::Parse { .. })));
    assert_eq!(
        parse_json_text(r#"[null, true, "s"]"#),
        Ok(JsonValue::Array(vec![
            JsonValue::Null,
            JsonValue::Bool(true),
            JsonValue::Str("s".to_string())
        ]))
    );
}

#[test]
fn json_number_literals_are_read() {
    assert_eq!(
        parse_json_text("[-1, 0.5, 1e-5, 1e2, -0.0]"),
        Ok(JsonValue::Array(vec![
            JsonValue::Number("-1".to_string()),
            JsonValue::Number("0.5".to_string()),
            JsonValue::Number("0.00001".to_string()),
            JsonValue::Number("100".to_string()),
            JsonValue::Number("0".to_string())
        ]))
    );
    assert_eq!(
        parse_json_text(r#"["-0", "1e999"]"#),
        Ok(JsonValue::Array(vec![
            JsonValue::Str("-0".to_string()),
            JsonValue::Str("1e999".to_string())
        ]))
    );
}

#[test]
fn json_number_literals_the_reader_refuses() {
    assert_eq!(parse_json_text("[-0]"), Err(MetadataError::UnsupportedNumber));
    assert_eq!(parse_json_text("-00"), Err(MetadataError::UnsupportedNumber));
    assert_eq!(parse_json_text("[1e999]"), Err(MetadataError::UnsupportedNumber));
    assert_eq!(parse_json_text(r#"{"a": 1E+400}"#), Err(MetadataError::UnsupportedNumber));
    assert_eq!(parse_json_text(r#"["\"", -0]"#), Err(MetadataError::UnsupportedNumber));
    assert_eq!(
        parse_json_text("1.7976931348623159e308"),
        Err(MetadataError::UnsupportedNumber)
    );
    assert_eq!(parse_json_text("-1e309"), Err(MetadataError::UnsupportedNumber));
    let limit = "179769313486231580793728971405303415079934132710037826936173778980444968292764750946649017977587207096330286416692887910946555547851940402630657488671505820681908902000708383676273854845817711531764475730270069855571366959622842914819860834936475292719074168444365510704342711559699508093042880177904174497792";
    assert_eq!(parse_json_text(limit), Err(MetadataError::UnsupportedNumber));
    assert_eq!(
        parse_json_text(&format!("0.0{}e310", limit)),
        Err(MetadataError::UnsupportedNumber)
    );
}

#[test]
fn large_finite_json_numbers_are_read() {
    let number = |text: &str| parse_json_text(text);
    assert_eq!(number("1e307"), Ok(JsonValue::Number(format!("{}", 1e307f64))));
    assert_eq!(number("9.9e307"), Ok(JsonValue::Number(format!("{}", 9.9e307f64))));
    assert_eq!(number("0e400"), Ok(JsonValue::Number("0".to_string())));
    assert_eq!(number("0.0001e-400"), Ok(JsonValue::Number("0".to_string())));
    assert_eq!(
        number("1.7976931348623158e308"),
        Ok(JsonValue::Number(format!("{}", f64::MAX)))
    );
    assert_eq!(
        number("-1.7976931348623157e308"),
        Ok(JsonValue::Number(format!("{}", -f64::MAX)))
    );
    assert_eq!(number("179769313486231580793728971405303415079934132710037826936173778980444968292764750946649017977587207096330286416692887910946555547851940402630657488671505820681908902000708383676273854845817711531764475730270069855571366959622842914819860834936475292719074168444365510704342711559699508093042880177904174497791"), Ok(JsonValue::Number(format!("{}", f64::MAX))));
    assert!(matches!(number("1e400e1"), Err(MetadataError::Parse { .. })));
}

#[test]
fn text_that_is_not_json_is_a_parse_error_even_with_refused_numbers() {
    assert!(matches!(parse_json_text("x 1e400"), Err(MetadataError::Parse { .. })));
    assert!(matches!(parse_json_text("[1e400"), Err(MetadataError::Parse { .. })));
    assert!(matches!(parse_json_text("[-0, ]]"), Err(MetadataError::Parse { .. })));
    assert_eq!(parse_json_text("[-0, 1]"), Err(MetadataError::UnsupportedNumber));
    assert_eq!(
        parse_json_text(r#"{"a": [1e999, "-0"], "b": -0}"#),
        Err(MetadataError::UnsupportedNumber)
    );
}

#[test]
fn type_allowlist_is_built() {
    let v = parse_json_text(r#"{"enums": {"B": [], "A": []}, "structs": {"S": {}}}"#).unwrap();
    assert_eq!(get_types(&v), Ok((strings(&["^A", "^B", "^S"]), strings(&["A", "B"]))));
    let v = parse_json_text(r#"{"structs": {}}"#).unwrap();
    assert_eq!(get_types(&v), Err(MetadataError::NoEnums));
    let v = parse_json_text(r#"{"enums": {}, "structs": []}"#).unwrap();
    assert_eq!(get_types(&v), Err(MetadataError::NoStructs));
}

#[test]
fn function_allowlist_is_built() {
    let v = parse_json_text(
        r#"{
            "igFoo": [{"argsT": [{"type": "int"}], "ov_cimguiname": "igFoo"}],
            "igBar": [
                {"argsT": [{"name": "args", "type": "va_list"}], "ov_cimguiname": "igBarV"},
                {"argsT": [{"type": "__builtin_va_list"}], "ov_cimguiname": "igBarB"},
                {"argsT": [], "ov_cimguiname": "igBar"}
            ]
        }"#,
    )
    .unwrap();
    assert!(definitions_are_readable(&v));
    assert_eq!(get_definitions(&v), Ok(strings(&["^igBar", "^igFoo"])));

    let v = parse_json_text("[1]").unwrap();
    assert_eq!(get_definitions(&v), Err(MetadataError::DefinitionsNotObject));
    let v = parse_json_text(r#"{"x": 1}"#).unwrap();
    assert_eq!(
        get_definitions(&v),
        Err(MetadataError::DefinitionNotArray { name: "x".to_string() })
    );
    let v = parse_json_text(r#"{"x": [{"argsT": [], "ov_cimguiname": 3}]}"#).unwrap();
    assert_eq!(get_definitions(&v), Err(MetadataError::NameNotString));
    let v = parse_json_text(r#"{"x": [{"ov_cimguiname": "x"}]}"#).unwrap();
    assert!(!definitions_are_readable(&v));
    // A malformed definition before an unreadable overload ends the reading first.
    let v = parse_json_text(r#"{"a": 1, "b": [{}]}"#).unwrap();
    assert!(definitions_are_readable(&v));
}

#[test]
fn bad_argument_types() {
    assert!(is_bad_arg_type("va_list"));
    assert!(is_bad_arg_type("__va_list_tag"));
    assert!(!is_bad_arg_type("va_list*"));
    assert!(!is_bad_arg_type("_x"));
}

#[test]
fn binding_file_names() {
    assert_eq!(cimgui_dir_name("master", None), "imgui-sys/third-party/imgui-master");
    assert_eq!(
        cimgui_dir_name("docking", Some("freetype")),
        "imgui-sys/third-party/imgui-docking-freetype"
    );
    assert_eq!(output_file_name("master", None), "bindings.rs");
    assert_eq!(output_file_name("master", Some("freetype")), "freetype_bindings.rs");
    assert_eq!(output_file_name("docking", None), "docking_bindings.rs");
    assert_eq!(output_file_name("docking", Some("freetype")), "docking_freetype_bindings.rs");
    assert_eq!(wasm_output_file_name("master", None), "wasm_bindings.rs");
    assert_eq!(
        wasm_output_file_name("docking", Some("freetype")),
        "wasm_docking_freetype_bindings.rs"
    );
}
