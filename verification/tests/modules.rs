use runjs::modules::{classify, load_module, LoadError, ModuleKind, ModuleType};

#[test]
fn plain_script_extensions_classify_as_script() {
    assert_eq!(classify("main.js"), Some(ModuleKind::Script));
    assert_eq!(classify("lib/util.mjs"), Some(ModuleKind::Script));
    assert_eq!(classify("legacy.cjs"), Some(ModuleKind::Script));
}

#[test]
fn typed_and_jsx_extensions_need_transform() {
    assert_eq!(classify("app.ts"), Some(ModuleKind::NeedsTransform));
    assert_eq!(classify("app.mts"), Some(ModuleKind::NeedsTransform));
    assert_eq!(classify("app.cts"), Some(ModuleKind::NeedsTransform));
    assert_eq!(classify("view.jsx"), Some(ModuleKind::NeedsTransform));
    assert_eq!(classify("view.tsx"), Some(ModuleKind::NeedsTransform));
    assert_eq!(classify("types.d.ts"), Some(ModuleKind::NeedsTransform));
}

#[test]
fn json_extension_is_data() {
    assert_eq!(classify("config.json"), Some(ModuleKind::Data));
}

#[test]
fn unlisted_extensions_are_refused() {
    assert_eq!(classify("style.css"), None);
    assert_eq!(classify("image.wasm"), None);
    assert_eq!(classify("readme.md"), None);
    assert_eq!(classify("noextension"), None);
    assert_eq!(classify(""), None);
    assert_eq!(classify("trailingdot."), None);
}

#[test]
fn classification_ignores_ascii_case() {
    assert_eq!(classify("MAIN.JS"), Some(ModuleKind::Script));
    assert_eq!(classify("App.Ts"), Some(ModuleKind::NeedsTransform));
    assert_eq!(classify("CONF.JSON"), Some(ModuleKind::Data));
}

#[test]
fn classification_uses_the_last_dot() {
    assert_eq!(classify("archive.tar.js"), Some(ModuleKind::Script));
    assert_eq!(classify("a.js.txt"), None);
}

#[test]
fn query_and_fragment_do_not_reach_the_table() {
    assert_eq!(classify("file:///mod.ts?v=1"), Some(ModuleKind::NeedsTransform));
    assert_eq!(classify("file:///mod.js#part"), Some(ModuleKind::Script));
    assert_eq!(classify("file:///data.json?x=1.cjs"), Some(ModuleKind::Data));
    // a dot only after the separator is no extension
    assert_eq!(classify("file:///plain?v=1.ts"), None);
}

#[test]
fn a_leading_byte_order_mark_does_not_stop_transpilation() {
    let text = "\u{FEFF}export const answer: number = 42;\n";
    let m = load_module("file:///work/bom.ts", String::from(text)).unwrap();
    assert_eq!(m.module_type, ModuleType::JavaScript);
    assert!(!m.code.contains(": number"));
    assert!(m.code.contains("42"));
}

#[test]
fn a_plain_script_keeps_its_byte_order_mark() {
    let text = "\u{FEFF}console.log('hi');\n";
    let m = load_module("file:///work/bom.js", String::from(text)).unwrap();
    assert_eq!(m.code, text);
}

#[test]
fn plain_script_passes_through_unmodified() {
    let text = "console.log('hi');\n";
    let m = load_module("file:///work/main.js", String::from(text)).unwrap();
    assert_eq!(m.module_type, ModuleType::JavaScript);
    assert_eq!(m.code, text);
}

#[test]
fn json_passes_through_as_data() {
    let text = "{\"a\": 1}";
    let m = load_module("file:///work/config.json", String::from(text)).unwrap();
    assert_eq!(m.module_type, ModuleType::Json);
    assert_eq!(m.code, text);
}

#[test]
fn typescript_is_transpiled_to_plain_script() {
    let text = "export const answer: number = 42;\n";
    let m = load_module("file:///work/app.ts", String::from(text)).unwrap();
    assert_eq!(m.module_type, ModuleType::JavaScript);
    // the type annotation is erased, the binding survives
    assert!(!m.code.contains(": number"));
    assert!(m.code.contains("answer"));
    assert!(m.code.contains("42"));
    assert_ne!(m.code, text);
}

#[test]
fn jsx_is_lowered_to_calls() {
    let text = "export const el = <div>hello</div>;\n";
    let m = load_module("file:///work/view.jsx", String::from(text)).unwrap();
    assert_eq!(m.module_type, ModuleType::JavaScript);
    assert!(!m.code.contains("<div>"));
    assert!(m.code.contains("React.createElement"));
}

#[test]
fn reimporting_retranspiles_to_the_same_text() {
    let text = "const n: string = 'x';\n";
    let a = load_module("file:///work/again.ts", String::from(text)).unwrap();
    let b = load_module("file:///work/again.ts", String::from(text)).unwrap();
    assert_eq!(a.code, b.code);
}

#[test]
fn malformed_typed_source_is_a_transform_error() {
    let text = "const : = ;;;(";
    let r = load_module("file:///work/bad.ts", String::from(text));
    match r {
        Err(LoadError::Transform(msg)) => assert!(!msg.is_empty()),
        other => panic!("expected a transform error, got {:?}", other),
    }
}

#[test]
fn unsupported_extension_is_a_load_error() {
    let r = load_module("file:///work/notes.txt", String::from("x"));
    assert!(matches!(r, Err(LoadError::UnsupportedExtension)));
}
