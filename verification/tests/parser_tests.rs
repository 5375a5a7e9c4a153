use stylist::{parse, ParseError, ToCss};

#[test]
fn flat_declarations_form_default_block() {
    let scopes = parse("color: red;").unwrap();
    assert_eq!(scopes.scopes.len(), 1);
    assert_eq!(scopes.to_css("X"), ".X {\ncolor: red;\n}");
}

#[test]
fn final_declaration_may_omit_semicolon() {
    let scopes = parse("color: red").unwrap();
    assert_eq!(scopes.to_css("X"), ".X {\ncolor: red;\n}");
}

#[test]
fn nested_selector_block() {
    let scopes = parse(".nested { background-color: blue; width: 100px }").unwrap();
    assert_eq!(
        scopes.to_css("t"),
        ".t .nested {\nbackground-color: blue;\nwidth: 100px;\n}"
    );
}

#[test]
fn current_selector_parses_and_renders() {
    let scopes = parse("&:hover { color: red; }").unwrap();
    assert_eq!(scopes.to_css("foo-123"), ".foo-123:hover {\ncolor: red;\n}");
}

#[test]
fn declarations_and_blocks_keep_source_order() {
    let scopes = parse("color: red;\n.inner { color: blue; }\nwidth: 10px;").unwrap();
    assert_eq!(
        scopes.to_css("t"),
        ".t {\ncolor: red;\n}\n.t .inner {\ncolor: blue;\n}\n.t {\nwidth: 10px;\n}"
    );
}

#[test]
fn media_scope_wraps_its_contents() {
    let scopes = parse("@media only screen and (min-width: 1000px) { width: 100vw; }").unwrap();
    assert_eq!(
        scopes.to_css("test"),
        "@media only screen and (min-width: 1000px) {\n.test {\nwidth: 100vw;\n}\n}"
    );
}

#[test]
fn media_scope_with_nested_selector() {
    let scopes = parse("@media screen { background: red; .inner { color: red; } }").unwrap();
    assert_eq!(
        scopes.to_css("t"),
        "@media screen {\n.t {\nbackground: red;\n}\n.t .inner {\ncolor: red;\n}\n}"
    );
}

#[test]
fn supports_scope_is_recognized() {
    let scopes = parse("@supports (display: grid) { display: grid; }").unwrap();
    assert_eq!(
        scopes.to_css("t"),
        "@supports (display: grid) {\n.t {\ndisplay: grid;\n}\n}"
    );
}

#[test]
fn keyframes_interior_is_kept_opaque() {
    let scopes = parse("@keyframes move { from { width: 100px; } to { width: 200px; } }").unwrap();
    assert_eq!(
        scopes.to_css("t"),
        "@keyframes move {\nfrom{width: 100px;}to{width: 200px;}\n}"
    );
}

#[test]
fn keyframes_nested_inside_media_scope() {
    let scopes = parse("@media print { @keyframes m { from { top: 0; } } }").unwrap();
    assert_eq!(scopes.to_css("t"), "@media print {\n@keyframes m {\nfrom{top: 0;}\n}\n}");
}

#[test]
fn content_after_media_scope_opens_new_default_scope() {
    let scopes = parse("color: red;\n@media print { color: black; }\ncolor: blue;").unwrap();
    assert_eq!(scopes.scopes.len(), 3);
    assert_eq!(
        scopes.to_css("t"),
        ".t {\ncolor: red;\n}\n@media print {\n.t {\ncolor: black;\n}\n}\n.t {\ncolor: blue;\n}"
    );
}

#[test]
fn unrecognized_at_rule_is_rejected() {
    let r = parse("@page { margin: 1cm; }");
    assert!(matches!(r, Err(ParseError::UnrecognizedAtRule { pos: 0 })));
}

#[test]
fn nested_conditioned_at_rule_is_rejected() {
    let r = parse("@media screen { @media print { color: red; } }");
    assert!(matches!(r, Err(ParseError::UnrecognizedAtRule { .. })));
}

#[test]
fn at_rule_without_body_is_rejected() {
    let r = parse("@media screen;");
    assert!(matches!(r, Err(ParseError::ExpectedBlock { .. })));
}

#[test]
fn unterminated_block_is_rejected() {
    let r = parse("div { color: red;");
    assert!(matches!(r, Err(ParseError::UnterminatedBlock { .. })));
}

#[test]
fn stray_closing_brace_is_rejected() {
    let r = parse("}");
    assert!(matches!(r, Err(ParseError::UnbalancedBrace { pos: 0 })));
}

#[test]
fn declaration_without_colon_is_rejected() {
    let r = parse("color red;");
    assert!(matches!(r, Err(ParseError::MalformedDeclaration { .. })));
}

#[test]
fn empty_selector_is_rejected() {
    let r = parse("{ color: red; }");
    assert!(matches!(r, Err(ParseError::MalformedSelector { .. })));
}

#[test]
fn comments_are_stripped() {
    let scopes = parse("color: /* a comment */ red; /* trailing */").unwrap();
    assert_eq!(scopes.to_css("t"), ".t {\ncolor: red;\n}");
}

#[test]
fn unterminated_comment_is_rejected() {
    let r = parse("color: red; /* no end");
    assert!(matches!(r, Err(ParseError::UnterminatedComment { pos: 12 })));
}

#[test]
fn error_position_points_into_input() {
    let r = parse("@page { margin: 1cm; }");
    match r {
        Err(e) => assert_eq!(e.position(), 0),
        Ok(_) => panic!("expected a parse failure"),
    }
}

#[test]
fn error_context_shows_surrounding_text() {
    let input = "color: red; @page { }";
    let r = parse(input);
    match r {
        Err(e) => {
            assert_eq!(e.position(), 12);
            assert_eq!(stylist::error_context(input, e.position(), 5), "red; @page");
            assert_eq!(stylist::error_context(input, 0, 4), "colo");
            assert_eq!(stylist::error_context(input, 100, 4), "");
        }
        Ok(_) => panic!("expected a parse failure"),
    }
}

#[test]
fn empty_input_yields_no_scopes() {
    let scopes = parse("").unwrap();
    assert_eq!(scopes.scopes.len(), 0);
    assert_eq!(scopes.to_css("t"), "");
}

#[test]
fn whitespace_and_stray_semicolons_are_skipped() {
    let scopes = parse("  ;;  color: red;  ;  ").unwrap();
    assert_eq!(scopes.to_css("t"), ".t {\ncolor: red;\n}");
}

#[test]
fn opaque_rule_round_trip_is_byte_identical() {
    let first = parse("@keyframes fade { opacity: 0 }").unwrap().to_css("x");
    assert_eq!(first, "@keyframes fade {\nopacity: 0\n}");
    let second = parse(first.as_str()).unwrap().to_css("x");
    assert_eq!(second, first);
}

#[test]
fn rendered_output_reparses_with_literal_selectors() {
    let scopes = parse("color: red;").unwrap();
    let rendered = scopes.to_css("X");
    assert_eq!(rendered, ".X {\ncolor: red;\n}");
    let again = parse(rendered.as_str()).unwrap();
    assert_eq!(again.to_css("X"), ".X .X {\ncolor: red;\n}");
}
