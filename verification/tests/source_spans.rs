use strandmap::source_span::{enclosing, merged_spans, resolve, rust_test_ranges, supports_dynamic, Span};

#[test]
fn rust_function_span_moves_with_its_annotation() {
    let source = "// unrelated\n// @anchor service.run\npub fn run() {\n    work();\n}\n";
    assert_eq!(
        resolve("src/lib.rs", source, 2).unwrap(),
        Span {
            start_line: 3,
            end_line: 5
        }
    );
}

#[test]
fn javascript_nested_arrow_uses_the_following_callback() {
    let source = "const values = input\n  // @anchor values.keep\n  .filter((value) => {\n    return value.keep;\n  });\n";
    assert_eq!(
        resolve("src/index.js", source, 2).unwrap(),
        Span {
            start_line: 3,
            end_line: 5
        }
    );
}

#[test]
fn declarations_end_at_the_next_anchor() {
    let source = "-- @anchor proof.one\ntheorem one : True := by\n  trivial\n\n-- @anchor proof.two\ntheorem two : True := by\n  trivial\n";
    assert_eq!(
        resolve("Proof.lean", source, 1).unwrap(),
        Span {
            start_line: 2,
            end_line: 3
        }
    );
}

#[test]
fn spans_move_with_the_lines_above_them() {
    let rust = "// @anchor run\npub fn run() {\n    work();\n}\n";
    let braces = "// here\nint f() {\n    return 1;\n}\n";
    let lean = "-- @anchor one\ntheorem one : True := by\n  trivial\n";
    for (path, source) in [("a.rs", rust), ("a.c", braces), ("a.lean", lean)] {
        let first = resolve(path, source, 1).unwrap();
        assert!(first.start_line > 1);
        for above in 1..5u32 {
            let moved = format!("{}{source}", "\n".repeat(above as usize));
            assert_eq!(
                resolve(path, &moved, 1 + above as usize).unwrap(),
                Span { start_line: first.start_line + above, end_line: first.end_line + above }
            );
        }
    }
}

#[test]
fn rust_test_ranges_cover_modules_and_standalone_tests() {
    let source = r#"pub fn production() {}

#[cfg(test)]
mod tests {
    #[test]
    fn unit_test() {}
}

#[tokio::test]
async fn async_test() {}
"#;
    assert_eq!(
        rust_test_ranges("src/lib.rs", source),
        [
            Span {
                start_line: 3,
                end_line: 7,
            },
            Span {
                start_line: 9,
                end_line: 10,
            },
        ]
    );
}

#[test]
fn rust_test_ranges_include_the_complete_attribute_block() {
    let source = r#"#[allow(clippy::unwrap_used)]
#[tokio::test(
    flavor = "multi_thread"
)]
async fn attributed_test() {}
"#;
    assert_eq!(
        rust_test_ranges("src/lib.rs", source),
        [Span {
            start_line: 1,
            end_line: 5,
        }]
    );
}

#[test]
fn files_without_test_attributes_have_no_test_ranges() {
    assert!(rust_test_ranges("src/lib.rs", "fn a() {}\n").is_empty());
    assert!(rust_test_ranges("src/lib.py", "#[test]\nfn a() {}\n").is_empty());
    assert!(rust_test_ranges("src/lib.rs", "#[cfg(feature = \"testing\")]\nfn a() {}\n").is_empty());
}

#[test]
fn dynamic_spans_need_a_known_extension() {
    assert!(supports_dynamic("src/lib.rs"));
    assert!(supports_dynamic("a/b.mjs"));
    assert!(supports_dynamic("x.tla"));
    assert!(!supports_dynamic("README.md"));
    assert!(!supports_dynamic("Makefile"));
    assert!(!supports_dynamic(".rs"));
}

#[test]
fn constructs_are_found_by_their_brackets() {
    let source = "/* @anchor a */\nint f(int x) {\n  return \"}\"[0]; // }\n}\nint g;\n";
    assert_eq!(
        resolve("a.c", source, 1).unwrap(),
        Span { start_line: 2, end_line: 4 }
    );
    let statement = "// @anchor a\n\nint g\n  = 1;\n";
    assert_eq!(
        resolve("a.c", statement, 1).unwrap(),
        Span { start_line: 3, end_line: 4 }
    );
}

#[test]
fn unresolvable_annotations_say_why() {
    assert_eq!(
        resolve("a.c", "x\n", 5).unwrap_err(),
        "annotation line 5 is outside the source"
    );
    assert_eq!(
        resolve("a.c", "x;\n// only a comment\n", 1).unwrap_err(),
        "no source construct follows the annotation"
    );
    assert_eq!(
        resolve("a.c", "// here\nint f() {\n", 1).unwrap_err(),
        "could not find the end of the following source construct"
    );
    assert_eq!(
        resolve("a.lean", "-- here\n", 1).unwrap_err(),
        "no declaration follows the annotation"
    );
    let embedded = "const x = `\n// @anchor a\n`;\nconst y = 1;\n";
    assert_eq!(
        resolve("a.js", embedded, 2).unwrap_err(),
        "annotation is embedded in a string literal; structural fallback failed: could not find the end of the following source construct"
    );
    assert_eq!(
        resolve("a.rs", "// @anchor a\n", 1).unwrap_err(),
        "no attachable syntax node follows the annotation; structural fallback failed: no source construct follows the annotation"
    );
}

#[test]
fn units_around_a_line() {
    let source = "fn a() {\n    one();\n}\n\nfn b() {\n    two();\n}\n";
    assert_eq!(
        enclosing("src/lib.rs", source, 6),
        Span { start_line: 5, end_line: 7 }
    );
    let prose = "# One\ntext\n\n# Two\nmore\nand more\n";
    assert_eq!(
        enclosing("notes.md", prose, 5),
        Span { start_line: 4, end_line: 6 }
    );
    assert_eq!(enclosing("empty.md", "", 9), Span { start_line: 1, end_line: 1 });
    assert_eq!(
        enclosing("notes.md", prose, 900),
        Span { start_line: 4, end_line: 6 }
    );
}

#[test]
fn touching_spans_are_merged() {
    let span = |start_line, end_line| Span { start_line, end_line };
    assert_eq!(
        merged_spans(&vec![span(9, 10), span(1, 3), span(4, 5), span(2, 2)]),
        [span(1, 5), span(9, 10)]
    );
}

#[test]
fn code_outside_tests_is_no_test() {
    let ranges = |attribute: &str| rust_test_ranges("src/lib.rs", &format!("{attribute}\nfn a() {{}}\n"));
    for attribute in [
        "#[cfg(not(test))]",
        "#[cfg(all(not(test), unix))]",
        "#[cfg(not(any(unix, test)))]",
        "#[cfg( not ( test ) )]",
        "#[cfg(not(all(feature = \")\", test)))]",
    ] {
        assert!(ranges(attribute).is_empty(), "{attribute}");
    }
    for attribute in [
        "#[cfg(test)]",
        "#[cfg(any(test, feature = \"x\"))]",
        "#[cfg(all(not(unix), test))]",
        "#[cfg(any(not(test), test))]",
        "#[cfg(not(not(test)))]",
        "#[cfg(all(feature = \"not(\", test))]",
        "#[cfg(all(feature = \"\\\"not(\", test))]",
    ] {
        assert_eq!(ranges(attribute), [Span { start_line: 1, end_line: 2 }], "{attribute}");
    }
}
