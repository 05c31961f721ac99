use stalecheck::scan::{cpp_dep, parse_include};

#[test]
fn test_parse_include() {
    let stdio = "#include <stdio.h>";
    let custom = "#include \"custom.h\"";
    let invalid = "#include \"custom.h>";

    assert_eq!(parse_include(stdio), Some("stdio.h".to_string()));
    assert_eq!(parse_include(custom), Some("custom.h".to_string()));
    assert_eq!(parse_include(invalid), None);
}

#[test]
fn test_parse_content() {
    let content = "\n#include <stdio.h>\n#include \"somelib.h\"\n#include \"culib.cuh\"\n\nint main() {\n    return 0;\n}\n        ";

    let deps = cpp_dep(content);
    assert_eq!(&deps[0], "stdio.h");
    assert_eq!(&deps[1], "somelib.h");
    assert_eq!(&deps[2], "culib.cuh");
}

#[test]
fn test_leading_whitespace_allowed() {
    assert_eq!(parse_include("   \t#include <a.h>"), Some("a.h".to_string()));
}

#[test]
fn test_mid_line_directive_rejected() {
    assert_eq!(parse_include("int x; #include <a.h>"), None);
    assert_eq!(parse_include("// #include <a.h>"), None);
}

#[test]
fn test_quoted_reference_keeps_stray_angle() {
    assert_eq!(
        parse_include("#include \"foo>bar.h\""),
        Some("foo>bar.h".to_string())
    );
}

#[test]
fn test_no_delimiter_yields_nothing() {
    assert_eq!(parse_include("#include stdio"), None);
    assert_eq!(parse_include("#include"), None);
}

#[test]
fn test_missing_close_angle_yields_nothing() {
    assert_eq!(parse_include("#include <stdio.h"), None);
}

#[test]
fn test_empty_reference() {
    assert_eq!(parse_include("#include <>"), Some(String::new()));
}

#[test]
fn test_duplicates_kept_in_order() {
    let deps = cpp_dep("#include <a.h>\n#include <b.h>\n#include <a.h>");
    assert_eq!(deps, vec!["a.h".to_string(), "b.h".to_string(), "a.h".to_string()]);
}

#[test]
fn test_empty_content_yields_nothing() {
    assert_eq!(cpp_dep(""), Vec::<String>::new());
    assert_eq!(cpp_dep("int main() { return 0; }"), Vec::<String>::new());
}

#[test]
fn test_multisegment_reference() {
    let deps = cpp_dep("#include <sys/types.h>");
    assert_eq!(deps, vec!["sys/types.h".to_string()]);
}

#[test]
fn test_carriage_return_line_endings() {
    let deps = cpp_dep("#include <a.h>\r\n#include \"b.h\"\r\n");
    assert_eq!(deps, vec!["a.h".to_string(), "b.h".to_string()]);
}

#[test]
fn test_malformed_line_between_good_ones() {
    let deps = cpp_dep("#include <a.h>\n#include \"broken.h>\n#include <c.h>");
    assert_eq!(deps, vec!["a.h".to_string(), "c.h".to_string()]);
}
