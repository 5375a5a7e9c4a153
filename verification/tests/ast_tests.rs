use stylist::{Block, Rule, RuleContent, Scope, ScopeContent, Scopes, StyleAttribute, ToCss};

fn sample_scope(condition: Option<String>) -> Scope {
    Scope {
        condition,
        stylesets: vec![
            ScopeContent::Block(Block {
                condition: None,
                style_attributes: vec![StyleAttribute {
                    key: String::from("width"),
                    value: String::from("100vw"),
                }],
            }),
            ScopeContent::Block(Block {
                condition: Some(String::from(".inner")),
                style_attributes: vec![StyleAttribute {
                    key: String::from("background-color"),
                    value: String::from("red"),
                }],
            }),
            ScopeContent::Rule(Rule {
                condition: String::from("@keyframes move"),
                content: vec![RuleContent::Text(String::from(
                    "from {\nwidth: 100px;\n}\nto {\nwidth: 200px;\n}",
                ))],
            }),
        ],
    }
}

#[test]
fn test_scope_building_without_condition() {
    let test_block = sample_scope(None);
    assert_eq!(
        test_block.to_css("test"),
        r#".test {
width: 100vw;
}
.test .inner {
background-color: red;
}
@keyframes move {
from {
width: 100px;
}
to {
width: 200px;
}
}"#
    );
}

#[test]
fn test_scope_building_with_condition() {
    let test_block = sample_scope(Some(String::from(
        "@media only screen and (min-width: 1000px)",
    )));
    assert_eq!(
        test_block.to_css("test"),
        r#"@media only screen and (min-width: 1000px) {
.test {
width: 100vw;
}
.test .inner {
background-color: red;
}
@keyframes move {
from {
width: 100px;
}
to {
width: 200px;
}
}
}"#
    );
}

#[test]
fn current_selector_substitution() {
    let block = Block {
        condition: Some(String::from("&:hover")),
        style_attributes: vec![StyleAttribute {
            key: String::from("color"),
            value: String::from("red"),
        }],
    };
    assert_eq!(block.to_css("foo-123"), ".foo-123:hover {\ncolor: red;\n}");
}

#[test]
fn current_selector_substituted_everywhere() {
    let block = Block {
        condition: Some(String::from("& > & + p")),
        style_attributes: vec![StyleAttribute {
            key: String::from("margin"),
            value: String::from("0"),
        }],
    };
    assert_eq!(block.to_css("x"), ".x > .x + p {\nmargin: 0;\n}");
}

#[test]
fn descendant_selector_nesting() {
    let block = Block {
        condition: Some(String::from(".inner")),
        style_attributes: vec![StyleAttribute {
            key: String::from("color"),
            value: String::from("red"),
        }],
    };
    assert_eq!(block.to_css("test"), ".test .inner {\ncolor: red;\n}");
}

#[test]
fn default_scope_is_trimmed() {
    let scope = Scope {
        condition: None,
        stylesets: vec![ScopeContent::Block(Block {
            condition: None,
            style_attributes: vec![StyleAttribute {
                key: String::from("width"),
                value: String::from("100vw"),
            }],
        })],
    };
    assert_eq!(scope.to_css("test"), ".test {\nwidth: 100vw;\n}");
}

#[test]
fn conditioned_scope_is_wrapped() {
    let scope = Scope {
        condition: Some(String::from(
            "@media only screen and (min-width: 1000px)",
        )),
        stylesets: vec![ScopeContent::Block(Block {
            condition: None,
            style_attributes: vec![StyleAttribute {
                key: String::from("width"),
                value: String::from("100vw"),
            }],
        })],
    };
    assert_eq!(
        scope.to_css("test"),
        "@media only screen and (min-width: 1000px) {\n.test {\nwidth: 100vw;\n}\n}"
    );
}

#[test]
fn rendering_twice_is_identical() {
    let scopes = Scopes {
        scopes: vec![sample_scope(None), sample_scope(Some(String::from("@media print")))],
    };
    let first = scopes.to_css("abc");
    let second = scopes.to_css("abc");
    assert_eq!(first, second);
}

#[test]
fn rule_contents_render_with_braces() {
    let rule = Rule {
        condition: String::from("@keyframes spin"),
        content: vec![
            RuleContent::Text(String::from("from ")),
            RuleContent::Braced(vec![RuleContent::Text(String::from("top: 0px;"))]),
            RuleContent::Text(String::from("\nto ")),
            RuleContent::Braced(vec![RuleContent::Braced(vec![RuleContent::Text(
                String::from("x"),
            )])]),
        ],
    };
    assert_eq!(
        rule.to_css("ignored"),
        "@keyframes spin {\nfrom {top: 0px;}\nto {{x}}\n}"
    );
}

#[test]
fn attribute_renders_verbatim() {
    let attr = StyleAttribute { key: String::from("color"), value: String::from("red") };
    assert_eq!(attr.to_css("anything"), "color: red;");
}

#[test]
fn append_concatenates_scopes() {
    let mut a = Scopes {
        scopes: vec![Scope {
            condition: None,
            stylesets: vec![ScopeContent::Block(Block {
                condition: None,
                style_attributes: vec![StyleAttribute {
                    key: String::from("color"),
                    value: String::from("red"),
                }],
            })],
        }],
    };
    let b = Scopes {
        scopes: vec![Scope {
            condition: None,
            stylesets: vec![ScopeContent::Block(Block {
                condition: Some(String::from(".x")),
                style_attributes: vec![StyleAttribute {
                    key: String::from("color"),
                    value: String::from("blue"),
                }],
            })],
        }],
    };
    a.append(b);
    assert_eq!(a.scopes.len(), 2);
    assert_eq!(a.to_css("c"), ".c {\ncolor: red;\n}\n.c .x {\ncolor: blue;\n}");
}

#[test]
fn default_scopes_render_empty() {
    let scopes = Scopes::default();
    assert_eq!(scopes.scopes.len(), 0);
    assert_eq!(scopes.to_css("t"), "");
}

#[test]
fn clone_preserves_rendering() {
    let scopes = Scopes { scopes: vec![sample_scope(None)] };
    let copy = scopes.clone();
    assert_eq!(scopes.to_css("t"), copy.to_css("t"));
}
