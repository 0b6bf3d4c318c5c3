use vibes::codegen::{
    brace_delta, deduplicate_service_source, find_declaration_end, find_declaration_start,
    format_pub_use_super, insert_super_import, looks_like_service_module, match_public_type_name,
    public_type_names, remove_known_declarations, sanitize_module_name,
};

fn owned(lines: &[&str]) -> Vec<String> {
    lines.iter().map(|l| l.to_string()).collect()
}

#[test]
fn module_names_are_sanitized() {
    assert_eq!(sanitize_module_name("Message-Service"), "message_service");
    assert_eq!(sanitize_module_name("echo.v1"), "echo_v1");
    assert_eq!(sanitize_module_name("Grüße"), "gr__e");
    assert_eq!(sanitize_module_name(""), "generated_file");
}

#[test]
fn service_modules_are_recognized() {
    assert!(looks_like_service_module("message_service"));
    assert!(looks_like_service_module("EchoServer"));
    assert!(looks_like_service_module("echo_CLIENT"));
    assert!(!looks_like_service_module("message"));
    assert!(!looks_like_service_module("serve"));
}

#[test]
fn brace_delta_counts_open_minus_close() {
    assert_eq!(brace_delta("pub struct Message {"), 1);
    assert_eq!(brace_delta("    }}"), -2);
    assert_eq!(brace_delta("{ x: u8 }"), 0);
    assert_eq!(brace_delta("no braces"), 0);
}

#[test]
fn declaration_start_takes_attributes_docs_and_blank_lines() {
    let lines = owned(&[
        "use x;",
        "",
        "    /// Doc comment.",
        "#[derive(Clone)]",
        "pub struct A {",
        "}",
    ]);
    assert_eq!(find_declaration_start(&lines, 4), 1);
    assert_eq!(find_declaration_start(&lines, 0), 0);
    let tight = owned(&["fn f() {}", "pub struct B;"]);
    assert_eq!(find_declaration_start(&tight, 1), 1);
}

#[test]
fn declaration_end_follows_braces() {
    let lines = owned(&[
        "pub struct A {",
        "    inner: Inner { x: u8 },",
        "}",
        "pub struct B;",
        "fn f() {",
    ]);
    assert_eq!(find_declaration_end(&lines, 0), 2);
    assert_eq!(find_declaration_end(&lines, 3), 3);
    // an unclosed declaration runs to the last line
    assert_eq!(find_declaration_end(&lines, 4), 4);
}

#[test]
fn public_type_names_match_known_types() {
    let known = owned(&["Message", "Kind"]);
    assert_eq!(
        match_public_type_name("pub struct Message {", &known),
        Some("Message".to_string())
    );
    assert_eq!(
        match_public_type_name("pub enum Kind {", &known),
        Some("Kind".to_string())
    );
    assert_eq!(match_public_type_name("pub struct Other {", &known), None);
    assert_eq!(match_public_type_name("struct Message {", &known), None);
    assert_eq!(match_public_type_name("pub struct Message {", &[]), None);
}

#[test]
fn public_type_names_are_extracted_in_order() {
    let lines = owned(&[
        "  pub struct Alpha {",
        "pub enum Beta_2 { A }",
        "pub struct ;",
        "struct Hidden;",
        "    pub struct Gamma<T>(T);",
    ]);
    assert_eq!(public_type_names(&lines), owned(&["Alpha", "Beta_2", "Gamma"]));
}

#[test]
fn pub_use_super_lines_are_formatted() {
    assert_eq!(format_pub_use_super(&owned(&["Message"])), "pub use super::Message;");
    assert_eq!(format_pub_use_super(&owned(&["A", "B"])), "pub use super::{A, B};");
    assert_eq!(format_pub_use_super(&[]), "pub use super::{};");
}

#[test]
fn existing_super_import_is_extended() {
    let mut lines = owned(&["// header", "  use super::Foo;", "fn f() {}"]);
    let mut names = owned(&["Message"]);
    insert_super_import(&mut lines, &mut names);
    assert_eq!(names, owned(&["Foo", "Message"]));
    assert_eq!(
        lines,
        owned(&["// header", "pub use super::{Foo, Message};", "fn f() {}"])
    );

    let mut lines = owned(&["pub use super::{Zeta, , Alpha };"]);
    let mut names = owned(&["Message", "Zeta"]);
    insert_super_import(&mut lines, &mut names);
    assert_eq!(names, owned(&["Alpha", "Message", "Zeta"]));
    assert_eq!(lines, owned(&["pub use super::{Alpha, Message, Zeta};"]));
}

#[test]
fn new_super_import_follows_leading_comments() {
    let mut lines = owned(&["// header", "use std::x;"]);
    let mut names = owned(&["Message"]);
    insert_super_import(&mut lines, &mut names);
    assert_eq!(
        lines,
        owned(&["// header", "", "pub use super::Message;", "", "use std::x;"])
    );

    let mut empty: Vec<String> = Vec::new();
    insert_super_import(&mut empty, &mut owned(&["A", "B"]));
    assert_eq!(empty, owned(&["pub use super::{A, B};", ""]));

    let mut untouched = owned(&["x"]);
    insert_super_import(&mut untouched, &mut Vec::new());
    assert_eq!(untouched, owned(&["x"]));
}

#[test]
fn known_declarations_are_removed() {
    let mut lines = owned(&[
        "/// The message.",
        "#[derive(Clone)]",
        "pub struct Message {",
        "    pub uid: String,",
        "}",
        "pub struct Other;",
    ]);
    let removed = remove_known_declarations(&mut lines, &owned(&["Message"]));
    assert_eq!(removed, owned(&["Message"]));
    assert_eq!(lines, owned(&["pub struct Other;"]));
}

#[test]
fn service_source_is_deduplicated() {
    let lines = owned(&[
        "// This file is @generated by prost-build.",
        "#[derive(Clone, PartialEq)]",
        "pub struct Message {",
        "    #[prost(string, tag = \"1\")]",
        "    pub uid: ::prost::alloc::string::String,",
        "}",
        "pub mod message_service_server {",
        "}",
    ]);
    let text = deduplicate_service_source(lines, &owned(&["Message"])).expect("rewritten");
    assert_eq!(
        text,
        "// This file is @generated by prost-build.\n\npub use super::Message;\n\npub mod message_service_server {\n}\n"
    );

    let nothing = owned(&["pub mod message_service_server {", "}"]);
    assert_eq!(deduplicate_service_source(nothing.clone(), &owned(&["Message"])), None);
    assert_eq!(deduplicate_service_source(nothing, &[]), None);
}
