//! The parser of the dialect.
//!
//! The input is first stripped of `/* ... */` comments, then consumed by a
//! recursive descent over character positions:
//!
//! * consecutive flat declarations accumulate into an implicit default block;
//! * a selector followed by `{ ... }` becomes a [`Block`](crate::ast::Block);
//! * `@media` and `@supports` open a conditioned scope whose interior holds
//!   blocks, declarations and opaque rules (a further conditioned scope may
//!   not nest inside it);
//! * `@keyframes` and `@font-face` become a [`Rule`](crate::ast::Rule) whose
//!   interior is kept as text, preserving brace structure;
//! * any other at-rule is rejected: the allow-list is closed.
//!
//! The `parse_*` spec functions are the grammar, written as total functions
//! over character sequences; [`parse`] returns exactly what they describe.
//! Error positions index the comment-stripped text.

use vstd::prelude::*;
use vstd::string::StrSliceExecFns;
use vstd::string::StringExecFns;

use crate::ast::{Block, BlockView, Rule, RuleContent, RuleContentView, RuleView, Scope,
    ScopeContent, ScopeContentView, ScopeView, Scopes, StyleAttribute, StyleAttributeView,
    attrs_view, rule_content_view, rule_contents_view, scope_content_view, scope_contents_view,
    scope_view, scopes_view};
use crate::ast::{attr_css, attrs_css, block_css, block_header, rule_content_css, rule_contents_css,
    rule_css, scope_content_css, scope_contents_css, scope_css, scopes_css};
use crate::text::{find_char_to, find_char_to_exec, find_space_to, find_space_to_exec, is_item_delim,
    is_space, is_space_exec, lemma_find_char_to, lemma_find_space_to, lemma_scan_item_end, rskip_ws_from, scan_item_end,
    scan_item_end_exec, skip_ws_to, str_eq, trimmed, trimmed_range, trimmed_sub};

verus! {

/// A typed parse failure.  Each position indexes the comment-stripped input.
#[derive(Debug, Clone, Copy, PartialEq, Eq, Structural)]
pub enum ParseError {
    /// A `/*` without its closing `*/`.
    UnterminatedComment { pos: usize },
    /// The input ended inside a block or rule body.
    UnterminatedBlock { pos: usize },
    /// A closing brace with no block to close.
    UnbalancedBrace { pos: usize },
    /// An at-rule outside the closed allow-list, or a conditioned at-rule
    /// nested where the dialect does not allow one.
    UnrecognizedAtRule { pos: usize },
    /// An at-rule header that is not followed by a braced body.
    ExpectedBlock { pos: usize },
    /// A block opener with an empty selector.
    MalformedSelector { pos: usize },
    /// A declaration without a colon, or with an empty key, or a block opener
    /// inside a declaration body.
    MalformedDeclaration { pos: usize },
}

impl ParseError {
    /// The position in the comment-stripped input that the failure points at.
    pub fn position(&self) -> (r: usize)
        ensures
            r == self.spec_position(),
    {
        match self {
            ParseError::UnterminatedComment { pos } => *pos,
            ParseError::UnterminatedBlock { pos } => *pos,
            ParseError::UnbalancedBrace { pos } => *pos,
            ParseError::UnrecognizedAtRule { pos } => *pos,
            ParseError::ExpectedBlock { pos } => *pos,
            ParseError::MalformedSelector { pos } => *pos,
            ParseError::MalformedDeclaration { pos } => *pos,
        }
    }

    pub open spec fn spec_position(&self) -> usize {
        match self {
            ParseError::UnterminatedComment { pos } => *pos,
            ParseError::UnterminatedBlock { pos } => *pos,
            ParseError::UnbalancedBrace { pos } => *pos,
            ParseError::UnrecognizedAtRule { pos } => *pos,
            ParseError::ExpectedBlock { pos } => *pos,
            ParseError::MalformedSelector { pos } => *pos,
            ParseError::MalformedDeclaration { pos } => *pos,
        }
    }
}

/// The window of `s` that [`error_context`] returns around `pos`.
pub open spec fn context_window(s: Seq<char>, pos: int, radius: int) -> Seq<char> {
    let lo = if pos - radius > 0 {
        pos - radius
    } else {
        0
    };
    let hi = if pos + radius < s.len() {
        pos + radius
    } else {
        s.len() as int
    };
    if lo <= hi {
        s.subrange(lo, hi)
    } else {
        Seq::empty()
    }
}

/// The text surrounding a failure position, for a user-actionable message:
/// up to `radius` characters on each side of `pos` in the comment-stripped
/// input that the position indexes.
pub fn error_context(text: &str, pos: usize, radius: usize) -> (r: String)
    ensures
        r@ == context_window(text@, pos as int, radius as int),
{
    let n = text.unicode_len();
    let lo = if pos > radius {
        pos - radius
    } else {
        0
    };
    if lo >= n {
        proof {
            assert(context_window(text@, pos as int, radius as int) =~= Seq::<char>::empty());
        }
        return String::new();
    }
    let hi = if pos <= n && radius <= n - pos {
        pos + radius
    } else {
        n
    };
    let piece = text.substring_char(lo, hi);
    String::from_str(piece)
}

// ---------------------------------------------------------------------------
// Comment stripping
// ---------------------------------------------------------------------------

/// One character at a time: outside a comment, characters are kept; `/*`
/// switches into a comment until the matching `*/`; a comment left open at
/// the end of the input is an error pointing at its opener.
pub open spec fn strip_comments_from(
    s: Seq<char>,
    pos: int,
    in_comment: bool,
    start: int,
    acc: Seq<char>,
) -> Result<Seq<char>, ParseError>
    decreases s.len() - pos,
{
    if pos >= s.len() {
        if in_comment {
            Err(ParseError::UnterminatedComment { pos: start as usize })
        } else {
            Ok(acc)
        }
    } else if in_comment {
        if s[pos] == '*' && pos + 1 < s.len() && s[pos + 1] == '/' {
            strip_comments_from(s, pos + 2, false, start, acc)
        } else {
            strip_comments_from(s, pos + 1, true, start, acc)
        }
    } else {
        if s[pos] == '/' && pos + 1 < s.len() && s[pos + 1] == '*' {
            strip_comments_from(s, pos + 2, true, pos, acc)
        } else {
            strip_comments_from(s, pos + 1, false, start, acc.push(s[pos]))
        }
    }
}

/// `s` with every comment removed, or the position of an unterminated one.
pub open spec fn strip_comments(s: Seq<char>) -> Result<Seq<char>, ParseError> {
    strip_comments_from(s, 0, false, 0, Seq::empty())
}

pub fn strip_comments_exec(s: &str) -> (r: Result<String, ParseError>)
    ensures
        match r {
            Ok(t) => strip_comments(s@) == Ok::<Seq<char>, ParseError>(t@),
            Err(e) => strip_comments(s@) == Err::<Seq<char>, ParseError>(e),
        },
{
    let n = s.unicode_len();
    let mut out = String::new();
    let mut pos: usize = 0;
    let mut in_comment = false;
    let mut start: usize = 0;
    while pos < n
        invariant
            0 <= pos <= n,
            n as nat == s@.len(),
            strip_comments(s@) == strip_comments_from(
                s@,
                pos as int,
                in_comment,
                start as int,
                out@,
            ),
        decreases n - pos,
    {
        let c = s.get_char(pos);
        if in_comment {
            if c == '*' && pos + 1 < n && s.get_char(pos + 1) == '/' {
                pos = pos + 2;
                in_comment = false;
            } else {
                pos = pos + 1;
            }
        } else {
            if c == '/' && pos + 1 < n && s.get_char(pos + 1) == '*' {
                start = pos;
                pos = pos + 2;
                in_comment = true;
            } else {
                let ghost prev = out@;
                out.append(s.substring_char(pos, pos + 1));
                proof {
                    assert(s@.subrange(pos as int, pos + 1 as int) =~= seq![s@[pos as int]]);
                    assert(out@ =~= prev.push(s@[pos as int]));
                }
                pos = pos + 1;
            }
        }
    }
    if in_comment {
        Err(ParseError::UnterminatedComment { pos: start })
    } else {
        Ok(out)
    }
}

// ---------------------------------------------------------------------------
// At-rule classification
// ---------------------------------------------------------------------------

/// How an at-rule header is treated: a conditioned scope whose interior is
/// parsed, an opaque-bodied rule whose interior is kept as text, or rejected.
#[derive(Debug, Clone, Copy, PartialEq, Eq, Structural)]
pub enum AtRuleKind {
    Scoped,
    Opaque,
    Unknown,
}

/// Classifies a header by its first word.  `@media` and `@supports` are
/// selector-bearing; `@keyframes` and `@font-face` are opaque-bodied; the
/// allow-list is closed.
pub open spec fn at_rule_kind(header: Seq<char>) -> AtRuleKind {
    let kw = header.subrange(0, find_space_to(header, 0, header.len() as int));
    if kw == "@media"@ || kw == "@supports"@ {
        AtRuleKind::Scoped
    } else if kw == "@keyframes"@ || kw == "@font-face"@ {
        AtRuleKind::Opaque
    } else {
        AtRuleKind::Unknown
    }
}

pub fn at_rule_kind_exec(header: &str) -> (k: AtRuleKind)
    ensures
        k == at_rule_kind(header@),
{
    let n = header.unicode_len();
    let sp = find_space_to_exec(header, 0, n);
    let kw = header.substring_char(0, sp);
    if str_eq(kw, "@media") || str_eq(kw, "@supports") {
        AtRuleKind::Scoped
    } else if str_eq(kw, "@keyframes") || str_eq(kw, "@font-face") {
        AtRuleKind::Opaque
    } else {
        AtRuleKind::Unknown
    }
}

// ---------------------------------------------------------------------------
// Rule interiors: brace-structured opaque text
// ---------------------------------------------------------------------------

/// Closes the text run `s[from..to]`: trimmed, and dropped when empty.
pub open spec fn flush_text(
    cur: Seq<RuleContentView>,
    s: Seq<char>,
    from: int,
    to: int,
) -> Seq<RuleContentView> {
    let t = trimmed_range(s, from, to);
    if t.len() == 0 {
        cur
    } else {
        cur.push(RuleContentView::Text(t))
    }
}

/// Consumes an opaque rule interior up to and including the `}` that closes
/// it.  `stack` holds the partially built groups outside the current braces,
/// `cur` the fragments of the current group, and `text_start` the start of
/// the text run being scanned.
pub open spec fn parse_rule_contents(
    s: Seq<char>,
    pos: int,
    stack: Seq<Seq<RuleContentView>>,
    cur: Seq<RuleContentView>,
    text_start: int,
) -> Result<(Seq<RuleContentView>, int), ParseError>
    decreases s.len() - pos,
{
    if pos >= s.len() {
        Err(ParseError::UnterminatedBlock { pos: s.len() as usize })
    } else if s[pos] == '{' {
        parse_rule_contents(
            s,
            pos + 1,
            stack.push(flush_text(cur, s, text_start, pos)),
            Seq::empty(),
            pos + 1,
        )
    } else if s[pos] == '}' {
        let flushed = flush_text(cur, s, text_start, pos);
        if stack.len() == 0 {
            Ok((flushed, pos + 1))
        } else {
            parse_rule_contents(
                s,
                pos + 1,
                stack.drop_last(),
                stack.last().push(RuleContentView::Braced(flushed)),
                pos + 1,
            )
        }
    } else {
        parse_rule_contents(s, pos + 1, stack, cur, text_start)
    }
}

pub proof fn lemma_parse_rule_contents_progress(
    s: Seq<char>,
    pos: int,
    stack: Seq<Seq<RuleContentView>>,
    cur: Seq<RuleContentView>,
    text_start: int,
)
    requires
        0 <= pos <= s.len(),
    ensures
        parse_rule_contents(s, pos, stack, cur, text_start) matches Ok(r) ==> pos < r.1 <= s.len(),
    decreases s.len() - pos,
{
    if pos < s.len() {
        if s[pos] == '{' {
            lemma_parse_rule_contents_progress(
                s,
                pos + 1,
                stack.push(flush_text(cur, s, text_start, pos)),
                Seq::empty(),
                pos + 1,
            );
        } else if s[pos] == '}' {
            if stack.len() > 0 {
                lemma_parse_rule_contents_progress(
                    s,
                    pos + 1,
                    stack.drop_last(),
                    stack.last().push(RuleContentView::Braced(flush_text(cur, s, text_start, pos))),
                    pos + 1,
                );
            }
        } else {
            lemma_parse_rule_contents_progress(s, pos + 1, stack, cur, text_start);
        }
    }
}

// ---------------------------------------------------------------------------
// Block bodies: flat declarations
// ---------------------------------------------------------------------------

/// Consumes the flat declarations of a block body up to and including the
/// `}` that closes it.  Stray semicolons are skipped; a nested block opener
/// is rejected; the final declaration may omit its semicolon.
pub open spec fn parse_attrs(
    s: Seq<char>,
    pos: int,
    acc: Seq<StyleAttributeView>,
) -> Result<(Seq<StyleAttributeView>, int), ParseError>
    decreases s.len() - pos,
    when 0 <= pos <= s.len()
{
    if pos >= s.len() {
        Err(ParseError::UnterminatedBlock { pos: s.len() as usize })
    } else if is_space(s[pos]) || s[pos] == ';' {
        parse_attrs(s, pos + 1, acc)
    } else if s[pos] == '}' {
        Ok((acc, pos + 1))
    } else if s[pos] == '{' {
        Err(ParseError::MalformedDeclaration { pos: pos as usize })
    } else {
        let e = scan_item_end(s, pos);
        proof {
            lemma_scan_item_end(s, pos);
        }
        if e >= s.len() {
            Err(ParseError::UnterminatedBlock { pos: s.len() as usize })
        } else if s[e] == '{' {
            Err(ParseError::MalformedDeclaration { pos: pos as usize })
        } else {
            let c = find_char_to(s, pos, e, ':');
            let key = trimmed_range(s, pos, c);
            let value = trimmed_range(s, c + 1, e);
            if c >= e || key.len() == 0 {
                Err(ParseError::MalformedDeclaration { pos: pos as usize })
            } else {
                let acc2 = acc.push(StyleAttributeView { key, value });
                if s[e] == ';' {
                    parse_attrs(s, e + 1, acc2)
                } else {
                    Ok((acc2, e + 1))
                }
            }
        }
    }
}

pub proof fn lemma_parse_attrs_progress(s: Seq<char>, pos: int, acc: Seq<StyleAttributeView>)
    requires
        0 <= pos <= s.len(),
    ensures
        parse_attrs(s, pos, acc) matches Ok(r) ==> pos < r.1 <= s.len(),
    decreases s.len() - pos,
{
    if pos < s.len() {
        if is_space(s[pos]) || s[pos] == ';' {
            lemma_parse_attrs_progress(s, pos + 1, acc);
        } else if s[pos] == '}' || s[pos] == '{' {
        } else {
            let e = scan_item_end(s, pos);
            lemma_scan_item_end(s, pos);
            if e < s.len() && s[e] != '{' {
                let c = find_char_to(s, pos, e, ':');
                let key = trimmed_range(s, pos, c);
                let value = trimmed_range(s, c + 1, e);
                if c < e && key.len() > 0 && s[e] == ';' {
                    lemma_parse_attrs_progress(s, e + 1, acc.push(StyleAttributeView { key, value }));
                }
            }
        }
    }
}

// ---------------------------------------------------------------------------
// Scope contents and the document
// ---------------------------------------------------------------------------

/// Closes the run of pending flat declarations into an implicit default
/// block; nothing is added when the run is empty.
pub open spec fn flush_attrs(
    cur: Seq<ScopeContentView>,
    attrs: Seq<StyleAttributeView>,
) -> Seq<ScopeContentView> {
    if attrs.len() == 0 {
        cur
    } else {
        cur.push(
            ScopeContentView::Block(BlockView { condition: None, style_attributes: attrs }),
        )
    }
}

/// Consumes the interior of a conditioned scope up to and including the `}`
/// that closes it: declarations, blocks, and opaque rules.  A conditioned
/// at-rule may not nest here.
pub open spec fn parse_scope_contents(
    s: Seq<char>,
    pos: int,
    cur: Seq<ScopeContentView>,
    attrs: Seq<StyleAttributeView>,
) -> Result<(Seq<ScopeContentView>, int), ParseError>
    decreases s.len() - pos,
    when 0 <= pos <= s.len()
{
    if pos >= s.len() {
        Err(ParseError::UnterminatedBlock { pos: s.len() as usize })
    } else if is_space(s[pos]) || s[pos] == ';' {
        parse_scope_contents(s, pos + 1, cur, attrs)
    } else if s[pos] == '}' {
        Ok((flush_attrs(cur, attrs), pos + 1))
    } else if s[pos] == '@' {
        let e = scan_item_end(s, pos);
        proof {
            lemma_scan_item_end(s, pos);
        }
        if e >= s.len() || s[e] != '{' {
            Err(ParseError::ExpectedBlock { pos: pos as usize })
        } else {
            let header = trimmed_range(s, pos, e);
            if at_rule_kind(header) == AtRuleKind::Opaque {
                match parse_rule_contents(s, e + 1, Seq::empty(), Seq::empty(), e + 1) {
                    Ok(r) => {
                        proof {
                            lemma_parse_rule_contents_progress(
                                s,
                                e + 1,
                                Seq::empty(),
                                Seq::empty(),
                                e + 1,
                            );
                        }
                        parse_scope_contents(
                            s,
                            r.1,
                            flush_attrs(cur, attrs).push(
                                ScopeContentView::Rule(
                                    RuleView { condition: header, content: r.0 },
                                ),
                            ),
                            Seq::empty(),
                        )
                    },
                    Err(err) => Err(err),
                }
            } else {
                Err(ParseError::UnrecognizedAtRule { pos: pos as usize })
            }
        }
    } else {
        let e = scan_item_end(s, pos);
        proof {
            lemma_scan_item_end(s, pos);
            if !is_item_delim(s[pos]) {
                lemma_scan_item_end(s, pos + 1);
            }
        }
        if e < s.len() && s[e] == '{' {
            let selector = trimmed_range(s, pos, e);
            if selector.len() == 0 {
                Err(ParseError::MalformedSelector { pos: pos as usize })
            } else {
                match parse_attrs(s, e + 1, Seq::empty()) {
                    Ok(r) => {
                        proof {
                            lemma_parse_attrs_progress(s, e + 1, Seq::empty());
                        }
                        parse_scope_contents(
                            s,
                            r.1,
                            flush_attrs(cur, attrs).push(
                                ScopeContentView::Block(
                                    BlockView {
                                        condition: Some(selector),
                                        style_attributes: r.0,
                                    },
                                ),
                            ),
                            Seq::empty(),
                        )
                    },
                    Err(err) => Err(err),
                }
            }
        } else if e >= s.len() {
            Err(ParseError::UnterminatedBlock { pos: s.len() as usize })
        } else {
            let c = find_char_to(s, pos, e, ':');
            let key = trimmed_range(s, pos, c);
            let value = trimmed_range(s, c + 1, e);
            if c >= e || key.len() == 0 {
                Err(ParseError::MalformedDeclaration { pos: pos as usize })
            } else {
                let attrs2 = attrs.push(StyleAttributeView { key, value });
                if s[e] == ';' {
                    parse_scope_contents(s, e + 1, cur, attrs2)
                } else {
                    parse_scope_contents(s, e, cur, attrs2)
                }
            }
        }
    }
}

pub proof fn lemma_parse_scope_contents_progress(
    s: Seq<char>,
    pos: int,
    cur: Seq<ScopeContentView>,
    attrs: Seq<StyleAttributeView>,
)
    requires
        0 <= pos <= s.len(),
    ensures
        parse_scope_contents(s, pos, cur, attrs) matches Ok(r) ==> pos < r.1 <= s.len(),
    decreases s.len() - pos,
{
    if pos < s.len() {
        if is_space(s[pos]) || s[pos] == ';' {
            lemma_parse_scope_contents_progress(s, pos + 1, cur, attrs);
        } else if s[pos] == '}' {
        } else if s[pos] == '@' {
            let e = scan_item_end(s, pos);
            lemma_scan_item_end(s, pos);
            if e < s.len() && s[e] == '{' {
                let header = trimmed_range(s, pos, e);
                if at_rule_kind(header) == AtRuleKind::Opaque {
                    lemma_parse_rule_contents_progress(s, e + 1, Seq::empty(), Seq::empty(), e + 1);
                    match parse_rule_contents(s, e + 1, Seq::empty(), Seq::empty(), e + 1) {
                        Ok(r) => {
                            lemma_parse_scope_contents_progress(
                                s,
                                r.1,
                                flush_attrs(cur, attrs).push(
                                    ScopeContentView::Rule(
                                        RuleView { condition: header, content: r.0 },
                                    ),
                                ),
                                Seq::empty(),
                            );
                        },
                        Err(_) => {},
                    }
                }
            }
        } else {
            let e = scan_item_end(s, pos);
            lemma_scan_item_end(s, pos);
            if !is_item_delim(s[pos]) {
                lemma_scan_item_end(s, pos + 1);
            }
            if e < s.len() && s[e] == '{' {
                let selector = trimmed_range(s, pos, e);
                if selector.len() > 0 {
                    lemma_parse_attrs_progress(s, e + 1, Seq::empty());
                    match parse_attrs(s, e + 1, Seq::empty()) {
                        Ok(r) => {
                            lemma_parse_scope_contents_progress(
                                s,
                                r.1,
                                flush_attrs(cur, attrs).push(
                                    ScopeContentView::Block(
                                        BlockView {
                                            condition: Some(selector),
                                            style_attributes: r.0,
                                        },
                                    ),
                                ),
                                Seq::empty(),
                            );
                        },
                        Err(_) => {},
                    }
                }
            } else if e < s.len() {
                let c = find_char_to(s, pos, e, ':');
                let key = trimmed_range(s, pos, c);
                let value = trimmed_range(s, c + 1, e);
                if c < e && key.len() > 0 {
                    let attrs2 = attrs.push(StyleAttributeView { key, value });
                    if s[e] == ';' {
                        lemma_parse_scope_contents_progress(s, e + 1, cur, attrs2);
                    } else {
                        lemma_parse_scope_contents_progress(s, e, cur, attrs2);
                    }
                }
            }
        }
    }
}

/// Closes the current default scope; nothing is added when it is empty.
pub open spec fn close_default(
    scopes: Seq<ScopeView>,
    contents: Seq<ScopeContentView>,
) -> Seq<ScopeView> {
    if contents.len() == 0 {
        scopes
    } else {
        scopes.push(ScopeView { condition: None, stylesets: contents })
    }
}

/// Consumes a whole document.  `scopes` holds the finished scopes, `cur` the
/// contents of the current default scope, and `attrs` the pending run of
/// flat declarations.
pub open spec fn parse_document(
    s: Seq<char>,
    pos: int,
    scopes: Seq<ScopeView>,
    cur: Seq<ScopeContentView>,
    attrs: Seq<StyleAttributeView>,
) -> Result<Seq<ScopeView>, ParseError>
    decreases s.len() - pos,
    when 0 <= pos <= s.len()
{
    if pos >= s.len() {
        Ok(close_default(scopes, flush_attrs(cur, attrs)))
    } else if is_space(s[pos]) || s[pos] == ';' {
        parse_document(s, pos + 1, scopes, cur, attrs)
    } else if s[pos] == '}' {
        Err(ParseError::UnbalancedBrace { pos: pos as usize })
    } else if s[pos] == '@' {
        let e = scan_item_end(s, pos);
        proof {
            lemma_scan_item_end(s, pos);
        }
        if e >= s.len() || s[e] != '{' {
            Err(ParseError::ExpectedBlock { pos: pos as usize })
        } else {
            let header = trimmed_range(s, pos, e);
            let kind = at_rule_kind(header);
            if kind == AtRuleKind::Opaque {
                match parse_rule_contents(s, e + 1, Seq::empty(), Seq::empty(), e + 1) {
                    Ok(r) => {
                        proof {
                            lemma_parse_rule_contents_progress(
                                s,
                                e + 1,
                                Seq::empty(),
                                Seq::empty(),
                                e + 1,
                            );
                        }
                        parse_document(
                            s,
                            r.1,
                            scopes,
                            flush_attrs(cur, attrs).push(
                                ScopeContentView::Rule(
                                    RuleView { condition: header, content: r.0 },
                                ),
                            ),
                            Seq::empty(),
                        )
                    },
                    Err(err) => Err(err),
                }
            } else if kind == AtRuleKind::Scoped {
                match parse_scope_contents(s, e + 1, Seq::empty(), Seq::empty()) {
                    Ok(r) => {
                        proof {
                            lemma_parse_scope_contents_progress(s, e + 1, Seq::empty(), Seq::empty());
                        }
                        parse_document(
                            s,
                            r.1,
                            close_default(scopes, flush_attrs(cur, attrs)).push(
                                ScopeView { condition: Some(header), stylesets: r.0 },
                            ),
                            Seq::empty(),
                            Seq::empty(),
                        )
                    },
                    Err(err) => Err(err),
                }
            } else {
                Err(ParseError::UnrecognizedAtRule { pos: pos as usize })
            }
        }
    } else {
        let e = scan_item_end(s, pos);
        proof {
            lemma_scan_item_end(s, pos);
            if !is_item_delim(s[pos]) {
                lemma_scan_item_end(s, pos + 1);
            }
        }
        if e < s.len() && s[e] == '{' {
            let selector = trimmed_range(s, pos, e);
            if selector.len() == 0 {
                Err(ParseError::MalformedSelector { pos: pos as usize })
            } else {
                match parse_attrs(s, e + 1, Seq::empty()) {
                    Ok(r) => {
                        proof {
                            lemma_parse_attrs_progress(s, e + 1, Seq::empty());
                        }
                        parse_document(
                            s,
                            r.1,
                            scopes,
                            flush_attrs(cur, attrs).push(
                                ScopeContentView::Block(
                                    BlockView {
                                        condition: Some(selector),
                                        style_attributes: r.0,
                                    },
                                ),
                            ),
                            Seq::empty(),
                        )
                    },
                    Err(err) => Err(err),
                }
            }
        } else if e < s.len() && s[e] == '}' {
            Err(ParseError::UnbalancedBrace { pos: e as usize })
        } else {
            // A flat declaration ended by `;` or by the end of the input.
            let c = find_char_to(s, pos, e, ':');
            let key = trimmed_range(s, pos, c);
            let value = trimmed_range(s, c + 1, e);
            if c >= e || key.len() == 0 {
                Err(ParseError::MalformedDeclaration { pos: pos as usize })
            } else {
                let attrs2 = attrs.push(StyleAttributeView { key, value });
                if e < s.len() {
                    parse_document(s, e + 1, scopes, cur, attrs2)
                } else {
                    parse_document(s, e, scopes, cur, attrs2)
                }
            }
        }
    }
}

// ---------------------------------------------------------------------------
// Executable parsing
// ---------------------------------------------------------------------------

/// The groups of partially built rule fragments outside the current braces.
pub open spec fn rc_stack_view(st: Seq<Vec<RuleContent>>) -> Seq<Seq<RuleContentView>> {
    Seq::new(st.len(), |i: int| rule_contents_view(st[i]@))
}

fn flush_text_exec(cur: &mut Vec<RuleContent>, s: &str, text_start: usize, pos: usize)
    requires
        text_start <= pos <= s@.len(),
    ensures
        rule_contents_view(final(cur)@) == flush_text(
            rule_contents_view(old(cur)@),
            s@,
            text_start as int,
            pos as int,
        ),
{
    let t = trimmed_sub(s, text_start, pos);
    let ghost curv = rule_contents_view(cur@);
    let ghost tview = t@;
    if !t.as_str().is_empty() {
        let ghost before = cur@;
        cur.push(RuleContent::Text(t));
        proof {
            assert(cur@.drop_last() =~= before);
            assert(cur@.len() > 0);
            assert(rule_contents_view(cur@) == rule_contents_view(cur@.drop_last()).push(
                rule_content_view(cur@.last()),
            ));
            assert(rule_content_view(cur@.last()) == RuleContentView::Text(tview));
            assert(rule_contents_view(cur@) == curv.push(RuleContentView::Text(tview)));
        }
    }
}

fn parse_rule_contents_exec(s: &str, pos0: usize, n: usize) -> (r: Result<
    (Vec<RuleContent>, usize),
    ParseError,
>)
    requires
        pos0 <= n,
        n as nat == s@.len(),
    ensures
        match r {
            Ok(v) => parse_rule_contents(s@, pos0 as int, Seq::empty(), Seq::empty(), pos0 as int)
                == Ok::<_, ParseError>((rule_contents_view(v.0@), v.1 as int)) && pos0 < v.1 <= n,
            Err(e) => parse_rule_contents(s@, pos0 as int, Seq::empty(), Seq::empty(), pos0 as int)
                == Err::<(Seq<RuleContentView>, int), ParseError>(e),
        },
{
    let ghost target = parse_rule_contents(s@, pos0 as int, Seq::empty(), Seq::empty(), pos0 as int);
    let mut stack: Vec<Vec<RuleContent>> = Vec::new();
    let mut cur: Vec<RuleContent> = Vec::new();
    let mut text_start: usize = pos0;
    let mut pos: usize = pos0;
    proof {
        assert(rc_stack_view(stack@) =~= Seq::<Seq<RuleContentView>>::empty());
        assert(rule_contents_view(cur@) =~= Seq::<RuleContentView>::empty());
    }
    loop
        invariant
            pos0 <= text_start <= pos <= n,
            n as nat == s@.len(),
            target == parse_rule_contents(
                s@,
                pos as int,
                rc_stack_view(stack@),
                rule_contents_view(cur@),
                text_start as int,
            ),
            target == parse_rule_contents(s@, pos0 as int, Seq::empty(), Seq::empty(), pos0 as int),
        decreases n - pos,
    {
        if pos == n {
            proof {
                assert(s@.len() as usize == n);
            }
            return Err(ParseError::UnterminatedBlock { pos: n });
        }
        let ch = s.get_char(pos);
        if ch == '{' {
            let ghost curv = rule_contents_view(cur@);
            flush_text_exec(&mut cur, s, text_start, pos);
            let ghost st_before = rc_stack_view(stack@);
            stack.push(cur);
            cur = Vec::new();
            proof {
                assert(rc_stack_view(stack@) =~= st_before.push(
                    flush_text(curv, s@, text_start as int, pos as int),
                ));
                assert(rule_contents_view(cur@) =~= Seq::<RuleContentView>::empty());
            }
            pos = pos + 1;
            text_start = pos;
        } else if ch == '}' {
            flush_text_exec(&mut cur, s, text_start, pos);
            if stack.len() == 0 {
                proof {
                    assert(rc_stack_view(stack@).len() == 0);
                }
                return Ok((cur, pos + 1));
            } else {
                let ghost st_before = rc_stack_view(stack@);
                let ghost flushed = rule_contents_view(cur@);
                let popped = stack.pop();
                match popped {
                    Some(mut parent) => {
                        proof {
                            assert(st_before.last() == rule_contents_view(parent@));
                            assert(rc_stack_view(stack@) =~= st_before.drop_last());
                        }
                        let ghost parent_before = parent@;
                        parent.push(RuleContent::Braced(cur));
                        proof {
                            assert(parent@.drop_last() =~= parent_before);
                            assert(rule_content_view(parent@.last())
                                == RuleContentView::Braced(flushed));
                            assert(rule_contents_view(parent@) == st_before.last().push(
                                RuleContentView::Braced(flushed),
                            ));
                        }
                        cur = parent;
                        pos = pos + 1;
                        text_start = pos;
                    },
                    None => {
                        proof {
                            assert(false);
                        }
                    },
                }
            }
        } else {
            pos = pos + 1;
        }
    }
}

fn parse_attrs_exec(s: &str, pos0: usize, n: usize) -> (r: Result<
    (Vec<StyleAttribute>, usize),
    ParseError,
>)
    requires
        pos0 <= n,
        n as nat == s@.len(),
    ensures
        match r {
            Ok(v) => parse_attrs(s@, pos0 as int, Seq::empty()) == Ok::<_, ParseError>(
                (attrs_view(v.0@), v.1 as int),
            ) && pos0 < v.1 <= n,
            Err(e) => parse_attrs(s@, pos0 as int, Seq::empty()) == Err::<
                (Seq<StyleAttributeView>, int),
                ParseError,
            >(e),
        },
{
    let ghost target = parse_attrs(s@, pos0 as int, Seq::empty());
    let mut acc: Vec<StyleAttribute> = Vec::new();
    let mut pos: usize = pos0;
    proof {
        assert(attrs_view(acc@) =~= Seq::<StyleAttributeView>::empty());
    }
    loop
        invariant
            pos0 <= pos <= n,
            n as nat == s@.len(),
            target == parse_attrs(s@, pos as int, attrs_view(acc@)),
            target == parse_attrs(s@, pos0 as int, Seq::empty()),
        decreases n - pos,
    {
        if pos == n {
            proof {
                assert(s@.len() as usize == n);
            }
            return Err(ParseError::UnterminatedBlock { pos: n });
        }
        let ch = s.get_char(pos);
        if is_space_exec(ch) || ch == ';' {
            pos = pos + 1;
        } else if ch == '}' {
            return Ok((acc, pos + 1));
        } else if ch == '{' {
            return Err(ParseError::MalformedDeclaration { pos });
        } else {
            let e = scan_item_end_exec(s, pos, n);
            if e == n {
                proof {
                    assert(s@.len() as usize == n);
                }
                return Err(ParseError::UnterminatedBlock { pos: n });
            } else if s.get_char(e) == '{' {
                return Err(ParseError::MalformedDeclaration { pos });
            } else {
                let c = find_char_to_exec(s, pos, e, ':');
                let key = trimmed_sub(s, pos, c);
                if c == e || key.as_str().is_empty() {
                    return Err(ParseError::MalformedDeclaration { pos });
                }
                let value = trimmed_sub(s, c + 1, e);
                let ghost before = attrs_view(acc@);
                acc.push(StyleAttribute { key, value });
                proof {
                    assert(attrs_view(acc@) =~= before.push(
                        StyleAttributeView {
                            key: trimmed_range(s@, pos as int, c as int),
                            value: trimmed_range(s@, c + 1 as int, e as int),
                        },
                    ));
                }
                if s.get_char(e) == ';' {
                    pos = e + 1;
                } else {
                    return Ok((acc, e + 1));
                }
            }
        }
    }
}

/// What parsing a raw input means: strip comments, then consume a document.
pub open spec fn parse_spec(s: Seq<char>) -> Result<Seq<ScopeView>, ParseError> {
    match strip_comments(s) {
        Ok(t) => parse_document(t, 0, Seq::empty(), Seq::empty(), Seq::empty()),
        Err(e) => Err(e),
    }
}

fn flush_attrs_exec(cur: &mut Vec<ScopeContent>, attrs: Vec<StyleAttribute>)
    ensures
        scope_contents_view(final(cur)@) == flush_attrs(
            scope_contents_view(old(cur)@),
            attrs_view(attrs@),
        ),
{
    proof {
        assert(attrs_view(attrs@).len() == attrs@.len());
    }
    if attrs.len() > 0 {
        let ghost before = cur@;
        let ghost attrsv = attrs_view(attrs@);
        cur.push(ScopeContent::Block(Block { condition: None, style_attributes: attrs }));
        proof {
            assert(scope_content_view(cur@.last()) == ScopeContentView::Block(
                BlockView { condition: None, style_attributes: attrsv },
            ));
            assert(scope_contents_view(cur@) =~= scope_contents_view(before).push(
                scope_content_view(cur@.last()),
            ));
        }
    }
}

fn close_default_exec(scopes: &mut Vec<Scope>, cur: Vec<ScopeContent>)
    ensures
        scopes_view(final(scopes)@) == close_default(
            scopes_view(old(scopes)@),
            scope_contents_view(cur@),
        ),
{
    proof {
        assert(scope_contents_view(cur@).len() == cur@.len());
    }
    if cur.len() > 0 {
        let ghost before = scopes@;
        let ghost curv = scope_contents_view(cur@);
        scopes.push(Scope { condition: None, stylesets: cur });
        proof {
            assert(scope_view(scopes@.last()) == ScopeView { condition: None, stylesets: curv });
            assert(scopes_view(scopes@) =~= scopes_view(before).push(scope_view(scopes@.last())));
        }
    }
}

fn parse_scope_contents_exec(s: &str, pos0: usize, n: usize) -> (r: Result<
    (Vec<ScopeContent>, usize),
    ParseError,
>)
    requires
        pos0 <= n,
        n as nat == s@.len(),
    ensures
        match r {
            Ok(v) => parse_scope_contents(s@, pos0 as int, Seq::empty(), Seq::empty())
                == Ok::<_, ParseError>((scope_contents_view(v.0@), v.1 as int)) && pos0 < v.1 <= n,
            Err(e) => parse_scope_contents(s@, pos0 as int, Seq::empty(), Seq::empty()) == Err::<
                (Seq<ScopeContentView>, int),
                ParseError,
            >(e),
        },
{
    let ghost target = parse_scope_contents(s@, pos0 as int, Seq::empty(), Seq::empty());
    let mut cur: Vec<ScopeContent> = Vec::new();
    let mut attrs: Vec<StyleAttribute> = Vec::new();
    let mut pos: usize = pos0;
    proof {
        assert(scope_contents_view(cur@) =~= Seq::<ScopeContentView>::empty());
        assert(attrs_view(attrs@) =~= Seq::<StyleAttributeView>::empty());
    }
    loop
        invariant
            pos0 <= pos <= n,
            n as nat == s@.len(),
            target == parse_scope_contents(
                s@,
                pos as int,
                scope_contents_view(cur@),
                attrs_view(attrs@),
            ),
            target == parse_scope_contents(s@, pos0 as int, Seq::empty(), Seq::empty()),
        decreases n - pos,
    {
        if pos == n {
            proof {
                assert(s@.len() as usize == n);
            }
            return Err(ParseError::UnterminatedBlock { pos: n });
        }
        let ch = s.get_char(pos);
        if is_space_exec(ch) || ch == ';' {
            pos = pos + 1;
        } else if ch == '}' {
            flush_attrs_exec(&mut cur, attrs);
            return Ok((cur, pos + 1));
        } else if ch == '@' {
            let e = scan_item_end_exec(s, pos, n);
            if e == n || s.get_char(e) != '{' {
                return Err(ParseError::ExpectedBlock { pos });
            }
            let header = trimmed_sub(s, pos, e);
            match at_rule_kind_exec(header.as_str()) {
                AtRuleKind::Opaque => {
                    match parse_rule_contents_exec(s, e + 1, n) {
                        Ok(pair) => {
                            flush_attrs_exec(&mut cur, attrs);
                            attrs = Vec::new();
                            let ghost flushed = scope_contents_view(cur@);
                            let p = pair.1;
                            cur.push(
                                ScopeContent::Rule(Rule { condition: header, content: pair.0 }),
                            );
                            proof {
                                assert(attrs_view(attrs@) =~= Seq::<StyleAttributeView>::empty());
                                assert(scope_contents_view(cur@) =~= flushed.push(
                                    scope_content_view(cur@.last()),
                                ));
                            }
                            pos = p;
                        },
                        Err(err) => {
                            return Err(err);
                        },
                    }
                },
                AtRuleKind::Scoped => {
                    return Err(ParseError::UnrecognizedAtRule { pos });
                },
                AtRuleKind::Unknown => {
                    return Err(ParseError::UnrecognizedAtRule { pos });
                },
            }
        } else {
            let e = scan_item_end_exec(s, pos, n);
            if e < n && s.get_char(e) == '{' {
                let selector = trimmed_sub(s, pos, e);
                if selector.as_str().is_empty() {
                    return Err(ParseError::MalformedSelector { pos });
                }
                match parse_attrs_exec(s, e + 1, n) {
                    Ok(pair) => {
                        flush_attrs_exec(&mut cur, attrs);
                        attrs = Vec::new();
                        let ghost flushed = scope_contents_view(cur@);
                        let p = pair.1;
                        cur.push(
                            ScopeContent::Block(
                                Block { condition: Some(selector), style_attributes: pair.0 },
                            ),
                        );
                        proof {
                            assert(attrs_view(attrs@) =~= Seq::<StyleAttributeView>::empty());
                            assert(scope_contents_view(cur@) =~= flushed.push(
                                scope_content_view(cur@.last()),
                            ));
                        }
                        pos = p;
                    },
                    Err(err) => {
                        return Err(err);
                    },
                }
            } else if e == n {
                proof {
                    assert(s@.len() as usize == n);
                }
                return Err(ParseError::UnterminatedBlock { pos: n });
            } else {
                let c = find_char_to_exec(s, pos, e, ':');
                let key = trimmed_sub(s, pos, c);
                if c == e || key.as_str().is_empty() {
                    return Err(ParseError::MalformedDeclaration { pos });
                }
                let value = trimmed_sub(s, c + 1, e);
                let ghost before = attrs_view(attrs@);
                attrs.push(StyleAttribute { key, value });
                proof {
                    assert(attrs_view(attrs@) =~= before.push(
                        StyleAttributeView {
                            key: trimmed_range(s@, pos as int, c as int),
                            value: trimmed_range(s@, c + 1 as int, e as int),
                        },
                    ));
                }
                if s.get_char(e) == ';' {
                    pos = e + 1;
                } else {
                    pos = e;
                }
            }
        }
    }
}

fn parse_document_exec(s: &str, n: usize) -> (r: Result<Vec<Scope>, ParseError>)
    requires
        n as nat == s@.len(),
    ensures
        match r {
            Ok(v) => parse_document(s@, 0, Seq::empty(), Seq::empty(), Seq::empty())
                == Ok::<Seq<ScopeView>, ParseError>(scopes_view(v@)),
            Err(e) => parse_document(s@, 0, Seq::empty(), Seq::empty(), Seq::empty()) == Err::<
                Seq<ScopeView>,
                ParseError,
            >(e),
        },
{
    let ghost target = parse_document(s@, 0, Seq::empty(), Seq::empty(), Seq::empty());
    let mut scopes: Vec<Scope> = Vec::new();
    let mut cur: Vec<ScopeContent> = Vec::new();
    let mut attrs: Vec<StyleAttribute> = Vec::new();
    let mut pos: usize = 0;
    proof {
        assert(scopes_view(scopes@) =~= Seq::<ScopeView>::empty());
        assert(scope_contents_view(cur@) =~= Seq::<ScopeContentView>::empty());
        assert(attrs_view(attrs@) =~= Seq::<StyleAttributeView>::empty());
    }
    loop
        invariant
            0 <= pos <= n,
            n as nat == s@.len(),
            target == parse_document(
                s@,
                pos as int,
                scopes_view(scopes@),
                scope_contents_view(cur@),
                attrs_view(attrs@),
            ),
            target == parse_document(s@, 0, Seq::empty(), Seq::empty(), Seq::empty()),
        decreases n + 1 - pos,
    {
        if pos == n {
            flush_attrs_exec(&mut cur, attrs);
            close_default_exec(&mut scopes, cur);
            return Ok(scopes);
        }
        let ch = s.get_char(pos);
        if is_space_exec(ch) || ch == ';' {
            pos = pos + 1;
        } else if ch == '}' {
            return Err(ParseError::UnbalancedBrace { pos });
        } else if ch == '@' {
            let e = scan_item_end_exec(s, pos, n);
            if e == n || s.get_char(e) != '{' {
                return Err(ParseError::ExpectedBlock { pos });
            }
            let header = trimmed_sub(s, pos, e);
            match at_rule_kind_exec(header.as_str()) {
                AtRuleKind::Opaque => {
                    match parse_rule_contents_exec(s, e + 1, n) {
                        Ok(pair) => {
                            flush_attrs_exec(&mut cur, attrs);
                            attrs = Vec::new();
                            let ghost flushed = scope_contents_view(cur@);
                            let p = pair.1;
                            cur.push(
                                ScopeContent::Rule(Rule { condition: header, content: pair.0 }),
                            );
                            proof {
                                assert(attrs_view(attrs@) =~= Seq::<StyleAttributeView>::empty());
                                assert(scope_contents_view(cur@) =~= flushed.push(
                                    scope_content_view(cur@.last()),
                                ));
                            }
                            pos = p;
                        },
                        Err(err) => {
                            return Err(err);
                        },
                    }
                },
                AtRuleKind::Scoped => {
                    match parse_scope_contents_exec(s, e + 1, n) {
                        Ok(pair) => {
                            flush_attrs_exec(&mut cur, attrs);
                            attrs = Vec::new();
                            close_default_exec(&mut scopes, cur);
                            cur = Vec::new();
                            let ghost closed = scopes_view(scopes@);
                            let p = pair.1;
                            scopes.push(Scope { condition: Some(header), stylesets: pair.0 });
                            proof {
                                assert(attrs_view(attrs@) =~= Seq::<StyleAttributeView>::empty());
                                assert(scope_contents_view(cur@) =~= Seq::<
                                    ScopeContentView,
                                >::empty());
                                assert(scopes_view(scopes@) =~= closed.push(
                                    scope_view(scopes@.last()),
                                ));
                            }
                            pos = p;
                        },
                        Err(err) => {
                            return Err(err);
                        },
                    }
                },
                AtRuleKind::Unknown => {
                    return Err(ParseError::UnrecognizedAtRule { pos });
                },
            }
        } else {
            let e = scan_item_end_exec(s, pos, n);
            if e < n && s.get_char(e) == '{' {
                let selector = trimmed_sub(s, pos, e);
                if selector.as_str().is_empty() {
                    return Err(ParseError::MalformedSelector { pos });
                }
                match parse_attrs_exec(s, e + 1, n) {
                    Ok(pair) => {
                        flush_attrs_exec(&mut cur, attrs);
                        attrs = Vec::new();
                        let ghost flushed = scope_contents_view(cur@);
                        let p = pair.1;
                        cur.push(
                            ScopeContent::Block(
                                Block { condition: Some(selector), style_attributes: pair.0 },
                            ),
                        );
                        proof {
                            assert(attrs_view(attrs@) =~= Seq::<StyleAttributeView>::empty());
                            assert(scope_contents_view(cur@) =~= flushed.push(
                                scope_content_view(cur@.last()),
                            ));
                        }
                        pos = p;
                    },
                    Err(err) => {
                        return Err(err);
                    },
                }
            } else if e < n && s.get_char(e) == '}' {
                return Err(ParseError::UnbalancedBrace { pos: e });
            } else {
                let c = find_char_to_exec(s, pos, e, ':');
                let key = trimmed_sub(s, pos, c);
                if c == e || key.as_str().is_empty() {
                    return Err(ParseError::MalformedDeclaration { pos });
                }
                let value = trimmed_sub(s, c + 1, e);
                let ghost before = attrs_view(attrs@);
                attrs.push(StyleAttribute { key, value });
                proof {
                    assert(attrs_view(attrs@) =~= before.push(
                        StyleAttributeView {
                            key: trimmed_range(s@, pos as int, c as int),
                            value: trimmed_range(s@, c + 1 as int, e as int),
                        },
                    ));
                }
                if e < n {
                    pos = e + 1;
                } else {
                    pos = e;
                }
            }
        }
    }
}

// ---------------------------------------------------------------------------
// Round-trip stability on the opaque-rule fragment
// ---------------------------------------------------------------------------

/// Comment stripping leaves a text without slashes untouched.
proof fn lemma_strip_comments_absent(s: Seq<char>, pos: int, start: int, acc: Seq<char>)
    requires
        0 <= pos <= s.len(),
        forall|i: int| pos <= i < s.len() ==> s[i] != '/',
    ensures
        strip_comments_from(s, pos, false, start, acc) == Ok::<Seq<char>, ParseError>(
            acc + s.subrange(pos, s.len() as int),
        ),
    decreases s.len() - pos,
{
    if pos < s.len() {
        lemma_strip_comments_absent(s, pos + 1, start, acc.push(s[pos]));
        assert(acc.push(s[pos]) + s.subrange(pos + 1, s.len() as int) =~= acc + s.subrange(
            pos,
            s.len() as int,
        ));
    } else {
        assert(acc + s.subrange(pos, s.len() as int) =~= acc);
    }
}

/// The rule-interior machine walks over brace-free text without changing
/// state.
proof fn lemma_parse_rule_contents_skips_text(
    s: Seq<char>,
    pos: int,
    q: int,
    stack: Seq<Seq<RuleContentView>>,
    cur: Seq<RuleContentView>,
    text_start: int,
)
    requires
        0 <= pos <= q <= s.len(),
        forall|i: int| pos <= i < q ==> s[i] != '{' && s[i] != '}',
    ensures
        parse_rule_contents(s, pos, stack, cur, text_start) == parse_rule_contents(
            s,
            q,
            stack,
            cur,
            text_start,
        ),
    decreases q - pos,
{
    if pos < q {
        lemma_parse_rule_contents_skips_text(s, pos + 1, q, stack, cur, text_start);
    }
}

/// The item scan stops exactly at the first delimiter.
proof fn lemma_scan_item_end_at(s: Seq<char>, pos: int, k: int)
    requires
        0 <= pos <= k < s.len(),
        forall|i: int| pos <= i < k ==> !is_item_delim(s[i]),
        is_item_delim(s[k]),
    ensures
        scan_item_end(s, pos) == k,
{
    lemma_scan_item_end(s, pos);
    let e = scan_item_end(s, pos);
    if e < k {
        assert(is_item_delim(s[e]));
        assert(false);
    }
    if e > k {
        assert(!is_item_delim(s[k]));
        assert(false);
    }
}

/// A document of one default scope holding one opaque-bodied rule whose
/// interior is a single flat text fragment.
pub open spec fn single_rule_doc(cond: Seq<char>, t: Seq<char>) -> Seq<ScopeView> {
    seq![
        ScopeView {
            condition: None,
            stylesets: seq![
                ScopeContentView::Rule(
                    RuleView { condition: cond, content: seq![RuleContentView::Text(t)] },
                )
            ],
        }
    ]
}

/// The text such a document renders to, whatever the class name.
pub open spec fn single_rule_text(cond: Seq<char>, t: Seq<char>) -> Seq<char> {
    cond + seq![' ', '{', '\n'] + t + seq!['\n', '}']
}

proof fn lemma_single_rule_render(cond: Seq<char>, t: Seq<char>, class: Seq<char>)
    requires
        cond.len() > 0,
        !is_space(cond[0]),
        !is_space(cond[cond.len() - 1]),
    ensures
        scopes_css(single_rule_doc(cond, t), class) == single_rule_text(cond, t),
{
    let c = cond.len() as int;
    let tn = t.len() as int;
    let doc = single_rule_doc(cond, t);
    let rv = RuleView { condition: cond, content: seq![RuleContentView::Text(t)] };
    let sv = ScopeView { condition: None, stylesets: seq![ScopeContentView::Rule(rv)] };

    let rcl = seq![RuleContentView::Text(t)];
    assert(rcl.drop_last() =~= Seq::<RuleContentView>::empty());
    assert(rule_contents_css(Seq::<RuleContentView>::empty()) == Seq::<char>::empty());
    assert(rcl.last() == RuleContentView::Text(t));
    assert(rule_content_css(RuleContentView::Text(t)) == t);
    assert(rule_contents_css(rcl) =~= t);
    let rc = rule_css(rv);
    assert(rc =~= single_rule_text(cond, t));

    let scl = seq![ScopeContentView::Rule(rv)];
    assert(scl.drop_last() =~= Seq::<ScopeContentView>::empty());
    assert(scope_contents_css(Seq::<ScopeContentView>::empty(), class) == Seq::<char>::empty());
    assert(scl.last() == ScopeContentView::Rule(rv));
    assert(scope_content_css(ScopeContentView::Rule(rv), class) == rc);
    let inner = scope_contents_css(scl, class);
    assert(inner =~= rc + seq!['\n']);
    let li = inner.len() as int;
    assert(li == c + tn + 6);
    assert(inner[0] == cond[0]);
    assert(skip_ws_to(inner, 0, li) == 0);
    assert(inner[li - 1] == '\n');
    assert(inner[li - 2] == '}');
    assert(is_space('\n'));
    assert(!is_space('}'));
    assert(rskip_ws_from(inner, 0, li) == rskip_ws_from(inner, 0, li - 1));
    assert(rskip_ws_from(inner, 0, li - 1) == li - 1);
    assert(trimmed(inner) =~= rc);
    assert(scope_css(sv, class) == trimmed(inner));

    assert(doc.len() == 1);
    assert(doc[0] == sv);
    assert(scopes_css(doc, class) == scope_css(sv, class));
}

proof fn lemma_single_rule_interior(cond: Seq<char>, t: Seq<char>)
    requires
        t.len() > 0,
        !is_space(t[0]),
        !is_space(t[t.len() - 1]),
        forall|i: int| 0 <= i < t.len() ==> #[trigger] t[i] != '{' && t[i] != '}',
    ensures
        parse_rule_contents(
            single_rule_text(cond, t),
            cond.len() as int + 2,
            Seq::<Seq<RuleContentView>>::empty(),
            Seq::<RuleContentView>::empty(),
            cond.len() as int + 2,
        ) == Ok::<(Seq<RuleContentView>, int), ParseError>(
            (seq![RuleContentView::Text(t)], single_rule_text(cond, t).len() as int),
        ),
{
    let s = single_rule_text(cond, t);
    let c = cond.len() as int;
    let tn = t.len() as int;
    let ln = s.len() as int;
    assert(ln == c + tn + 5);
    assert(s[c + 2] == '\n');
    assert forall|i: int| 0 <= i < tn implies s[c + 3 + i] == t[i] by {}
    assert(s[c + 3 + tn] == '\n');
    assert(s[c + 4 + tn] == '}');

    let q = c + 4 + tn;
    assert forall|i: int| c + 2 <= i < q implies #[trigger] s[i] != '{' && s[i] != '}' by {
        if i == c + 2 || i == c + 3 + tn {
        } else {
            assert(s[i] == t[i - c - 3]);
        }
    }
    lemma_parse_rule_contents_skips_text(
        s,
        c + 2,
        q,
        Seq::<Seq<RuleContentView>>::empty(),
        Seq::<RuleContentView>::empty(),
        c + 2,
    );
    assert(is_space('\n'));
    assert(skip_ws_to(s, c + 2, q) == skip_ws_to(s, c + 3, q));
    assert(s[c + 3] == t[0]);
    assert(skip_ws_to(s, c + 3, q) == c + 3);
    assert(s[q - 1] == '\n');
    assert(rskip_ws_from(s, c + 3, q) == rskip_ws_from(s, c + 3, q - 1));
    assert(s[q - 2] == t[tn - 1]);
    assert(rskip_ws_from(s, c + 3, q - 1) == q - 1);
    let frag = trimmed_range(s, c + 2, q);
    assert(frag =~= s.subrange(c + 3, q - 1));
    assert(frag =~= t);
    let flushed = flush_text(Seq::<RuleContentView>::empty(), s, c + 2, q);
    assert(flushed =~= seq![RuleContentView::Text(t)]);
    assert(parse_rule_contents(
        s,
        q,
        Seq::<Seq<RuleContentView>>::empty(),
        Seq::<RuleContentView>::empty(),
        c + 2,
    ) == Ok::<(Seq<RuleContentView>, int), ParseError>((flushed, q + 1)));
}

/// Round-trip stability on the opaque-rule fragment: for a document of one
/// opaque-bodied rule whose interior is one flat fragment (header and
/// fragment trimmed, free of braces, semicolons and slashes), parsing the
/// rendered output reproduces the tree exactly, so its re-render is
/// byte-identical to the original render.  Block selectors do not round-trip
/// this way: rendering attaches the class name to them, so re-parsing reads
/// the widened selector.
pub proof fn lemma_opaque_rule_round_trip(cond: Seq<char>, t: Seq<char>, class: Seq<char>)
    requires
        at_rule_kind(cond) == AtRuleKind::Opaque,
        forall|i: int| 0 <= i < cond.len() ==> !is_item_delim(#[trigger] cond[i]) && cond[i] != '/',
        !is_space(cond[cond.len() - 1]),
        t.len() > 0,
        !is_space(t[0]),
        !is_space(t[t.len() - 1]),
        forall|i: int| 0 <= i < t.len() ==> #[trigger] t[i] != '{' && t[i] != '}' && t[i] != '/',
    ensures
        parse_spec(scopes_css(single_rule_doc(cond, t), class)) == Ok::<Seq<ScopeView>, ParseError>(
            single_rule_doc(cond, t),
        ),
{
    let c = cond.len() as int;
    let tn = t.len() as int;
    let doc = single_rule_doc(cond, t);
    let rv = RuleView { condition: cond, content: seq![RuleContentView::Text(t)] };
    let sv = ScopeView { condition: None, stylesets: seq![ScopeContentView::Rule(rv)] };

    // The recognized keyword pins the first character to '@'.
    reveal_strlit("@keyframes");
    reveal_strlit("@font-face");
    lemma_find_space_to(cond, 0, c);
    let fs = find_space_to(cond, 0, c);
    let kw = cond.subrange(0, fs);
    assert(kw == "@keyframes"@ || kw == "@font-face"@);
    assert(kw.len() == 10);
    assert(c >= 10);
    assert(cond[0] == kw[0]);
    assert(cond[0] == '@');
    assert(!is_space('@'));

    lemma_single_rule_render(cond, t, class);
    let rendered = single_rule_text(cond, t);
    let ln = rendered.len() as int;
    assert(ln == c + tn + 5);

    // Where each character of the rendering comes from.
    assert forall|i: int| 0 <= i < c implies rendered[i] == cond[i] by {}
    assert(rendered[c] == ' ');
    assert(rendered[c + 1] == '{');
    assert forall|i: int| 0 <= i < tn implies rendered[c + 3 + i] == t[i] by {}

    // No slashes anywhere, so comment stripping is the identity.
    assert forall|i: int| 0 <= i < ln implies rendered[i] != '/' by {
        if i < c {
        } else if c + 3 <= i < c + 3 + tn {
            assert(rendered[i] == t[i - c - 3]);
        } else {
            assert(i == c || i == c + 1 || i == c + 2 || i == c + 3 + tn || i == c + 4 + tn);
        }
    }
    lemma_strip_comments_absent(rendered, 0, 0, Seq::<char>::empty());
    assert(Seq::<char>::empty() + rendered.subrange(0, ln) =~= rendered);
    assert(strip_comments(rendered) == Ok::<Seq<char>, ParseError>(rendered));

    // The document parser reads one at-rule item.
    assert(rendered[0] == '@');
    assert forall|i: int| 0 <= i < c + 1 implies !is_item_delim(#[trigger] rendered[i]) by {
        if i < c {
            assert(rendered[i] == cond[i]);
        } else {
            assert(rendered[i] == ' ');
        }
    }
    lemma_scan_item_end_at(rendered, 0, c + 1);
    assert(scan_item_end(rendered, 0) == c + 1);
    assert(skip_ws_to(rendered, 0, c + 1) == 0);
    assert(rendered[c - 1] == cond[c - 1]);
    assert(is_space(' '));
    assert(rskip_ws_from(rendered, 0, c + 1) == rskip_ws_from(rendered, 0, c));
    assert(rskip_ws_from(rendered, 0, c) == c);
    let header = trimmed_range(rendered, 0, c + 1);
    assert(header =~= cond);
    assert(at_rule_kind(header) == AtRuleKind::Opaque);

    lemma_single_rule_interior(cond, t);
    assert(parse_rule_contents(
        rendered,
        c + 2,
        Seq::<Seq<RuleContentView>>::empty(),
        Seq::<RuleContentView>::empty(),
        c + 2,
    ) == Ok::<(Seq<RuleContentView>, int), ParseError>((seq![RuleContentView::Text(t)], ln)));

    // Assembling the document.
    let e0 = Seq::<ScopeContentView>::empty();
    let a0 = Seq::<StyleAttributeView>::empty();
    let s0 = Seq::<ScopeView>::empty();
    assert(flush_attrs(e0, a0) == e0);
    let cur1 = flush_attrs(e0, a0).push(
        ScopeContentView::Rule(
            RuleView { condition: header, content: seq![RuleContentView::Text(t)] },
        ),
    );
    assert(cur1 =~= sv.stylesets);
    assert(parse_document(rendered, 0, s0, e0, a0) == parse_document(rendered, ln, s0, cur1, a0));
    assert(flush_attrs(cur1, a0) == cur1);
    assert(close_default(s0, cur1) =~= doc);
    assert(parse_document(rendered, ln, s0, cur1, a0) == Ok::<Seq<ScopeView>, ParseError>(
        close_default(s0, cur1),
    ));
    assert(parse_document(rendered, 0, s0, e0, a0) == Ok::<Seq<ScopeView>, ParseError>(doc));
    assert(parse_spec(rendered) == Ok::<Seq<ScopeView>, ParseError>(doc));
}

/// The character scan stops exactly at the first occurrence.
proof fn lemma_find_char_to_at(s: Seq<char>, pos: int, end: int, ch: char, k: int)
    requires
        0 <= pos <= k < end <= s.len(),
        forall|i: int| pos <= i < k ==> s[i] != ch,
        s[k] == ch,
    ensures
        find_char_to(s, pos, end, ch) == k,
{
    lemma_find_char_to(s, pos, end, ch);
    let c = find_char_to(s, pos, end, ch);
    if c < k {
        assert(s[c] == ch);
        assert(false);
    }
    if c > k {
        assert(s[k] != ch);
        assert(false);
    }
}

/// The declaration rendering, unrolled from the front.
proof fn lemma_attrs_css_front(l: Seq<StyleAttributeView>)
    requires
        l.len() > 0,
    ensures
        attrs_css(l) == seq!['\n'] + attr_css(l[0]) + attrs_css(l.drop_first()),
    decreases l.len(),
{
    if l.len() == 1 {
        assert(l.drop_last() =~= Seq::<StyleAttributeView>::empty());
        assert(l.drop_first() =~= Seq::<StyleAttributeView>::empty());
        assert(attrs_css(Seq::<StyleAttributeView>::empty()) == Seq::<char>::empty());
        assert(l.last() == l[0]);
        assert(attrs_css(l) =~= seq!['\n'] + attr_css(l[0]) + attrs_css(l.drop_first()));
    } else {
        let m = l.drop_last();
        lemma_attrs_css_front(m);
        assert(m[0] == l[0]);
        assert(m.drop_first() =~= l.drop_first().drop_last());
        assert(l.drop_first().len() > 0);
        assert(l.drop_first().last() == l.last());
        assert(attrs_css(l) == attrs_css(m) + seq!['\n'] + attr_css(l.last()));
        assert(attrs_css(l.drop_first()) == attrs_css(l.drop_first().drop_last()) + seq!['\n']
            + attr_css(l.drop_first().last()));
        assert(attrs_css(l) =~= seq!['\n'] + attr_css(l[0]) + attrs_css(l.drop_first()));
    }
}

/// A declaration that survives rendering and re-parsing untouched: key and
/// value trimmed, the key non-empty and colon-free, both free of braces,
/// semicolons and slashes.
pub open spec fn attr_normalized(a: StyleAttributeView) -> bool {
    &&& a.key.len() > 0
    &&& !is_space(a.key[0])
    &&& !is_space(a.key[a.key.len() - 1])
    &&& forall|i: int|
        0 <= i < a.key.len() ==> !is_item_delim(#[trigger] a.key[i]) && a.key[i] != ':' && a.key[i]
            != '/'
    &&& (a.value.len() > 0 ==> !is_space(a.value[0]) && !is_space(a.value[a.value.len() - 1]))
    &&& forall|i: int|
        0 <= i < a.value.len() ==> !is_item_delim(#[trigger] a.value[i]) && a.value[i] != '/'
}

pub open spec fn attrs_normalized(l: Seq<StyleAttributeView>) -> bool {
    forall|i: int| 0 <= i < l.len() ==> attr_normalized(#[trigger] l[i])
}

/// The block-body parser inverts the declaration renderer: consuming the
/// rendered declarations and the closing brace yields exactly those
/// declarations back.
#[verifier::rlimit(60)]
proof fn lemma_parse_attrs_inverts(
    prefix: Seq<char>,
    l: Seq<StyleAttributeView>,
    acc: Seq<StyleAttributeView>,
    suffix: Seq<char>,
)
    requires
        attrs_normalized(l),
    ensures
        parse_attrs(
            prefix + attrs_css(l) + seq!['\n', '}'] + suffix,
            prefix.len() as int,
            acc,
        ) == Ok::<(Seq<StyleAttributeView>, int), ParseError>(
            (acc + l, prefix.len() as int + attrs_css(l).len() + 2),
        ),
    decreases l.len(),
{
    let s = prefix + attrs_css(l) + seq!['\n', '}'] + suffix;
    let p0 = prefix.len() as int;
    if l.len() == 0 {
        assert(attrs_css(l) == Seq::<char>::empty());
        assert(s[p0] == '\n');
        assert(s[p0 + 1] == '}');
        assert(is_space('\n'));
        assert(parse_attrs(s, p0, acc) == parse_attrs(s, p0 + 1, acc));
        assert(parse_attrs(s, p0 + 1, acc) == Ok::<(Seq<StyleAttributeView>, int), ParseError>(
            (acc, p0 + 2),
        ));
        assert(acc + l =~= acc);
    } else {
        lemma_attrs_css_front(l);
        let a = l[0];
        let k = a.key;
        let v = a.value;
        let kl = k.len() as int;
        let vl = v.len() as int;
        let rest = l.drop_first();
        let prefix2 = prefix + seq!['\n'] + attr_css(a) + Seq::<char>::empty();
        assert(attr_css(a) == k + seq![':', ' '] + v + seq![';']);
        assert(s =~= prefix2 + attrs_css(rest) + seq!['\n', '}'] + suffix);

        // Where each character of this declaration stands.
        let p1 = p0 + 1;
        let pc = p1 + kl;
        let pe = pc + 2 + vl;
        assert(s[p0] == '\n');
        assert forall|i: int| 0 <= i < kl implies s[p1 + i] == k[i] by {}
        assert(s[pc] == ':');
        assert(s[pc + 1] == ' ');
        assert forall|i: int| 0 <= i < vl implies s[pc + 2 + i] == v[i] by {}
        assert(s[pe] == ';');
        assert(pe < s.len());

        // One whitespace step, then the declaration is scanned off.
        assert(is_space('\n'));
        assert(parse_attrs(s, p0, acc) == parse_attrs(s, p1, acc));
        assert(s[p1] == k[0]);
        assert(!is_space(s[p1]) && s[p1] != ';' && s[p1] != '}' && s[p1] != '{');
        assert forall|i: int| p1 <= i < pe implies !is_item_delim(#[trigger] s[i]) by {
            if i < pc {
                assert(s[i] == k[i - p1]);
            } else if i == pc || i == pc + 1 {
            } else {
                assert(s[i] == v[i - pc - 2]);
            }
        }
        lemma_scan_item_end_at(s, p1, pe);
        assert forall|i: int| p1 <= i < pc implies s[i] != ':' by {
            assert(s[i] == k[i - p1]);
        }
        lemma_find_char_to_at(s, p1, pe, ':', pc);

        // The key and the value come back trimmed to themselves.
        assert(skip_ws_to(s, p1, pc) == p1);
        assert(s[pc - 1] == k[kl - 1]);
        assert(rskip_ws_from(s, p1, pc) == pc);
        assert(trimmed_range(s, p1, pc) =~= k);
        assert(is_space(' '));
        assert(skip_ws_to(s, pc + 1, pe) == skip_ws_to(s, pc + 2, pe));
        if vl == 0 {
            assert(skip_ws_to(s, pc + 2, pe) == pe);
            assert(rskip_ws_from(s, pe, pe) == pe);
            assert(trimmed_range(s, pc + 1, pe) =~= v);
        } else {
            assert(s[pc + 2] == v[0]);
            assert(skip_ws_to(s, pc + 2, pe) == pc + 2);
            assert(s[pe - 1] == v[vl - 1]);
            assert(rskip_ws_from(s, pc + 2, pe) == pe);
            assert(trimmed_range(s, pc + 1, pe) =~= v);
        }
        assert(StyleAttributeView { key: trimmed_range(s, p1, pc), value: trimmed_range(s, pc + 1, pe) }
            == a);
        assert(parse_attrs(s, p1, acc) == parse_attrs(s, pe + 1, acc.push(a)));

        // The remaining declarations by induction.
        lemma_parse_attrs_inverts(prefix2, rest, acc.push(a), suffix);
        assert(prefix2.len() == pe + 1);
        assert(acc.push(a) + rest =~= acc + l);
        assert(attrs_css(l).len() == 1 + attr_css(a).len() + attrs_css(rest).len());
    }
}

/// A document of one default scope holding one block of flat declarations.
pub open spec fn single_block_doc(
    sel: Option<Seq<char>>,
    attrs: Seq<StyleAttributeView>,
) -> Seq<ScopeView> {
    seq![
        ScopeView {
            condition: None,
            stylesets: seq![
                ScopeContentView::Block(BlockView { condition: sel, style_attributes: attrs })
            ],
        }
    ]
}

/// Round-trip of the flat-declaration subset: rendering a block of
/// declarations under `class` and parsing the output back reproduces every
/// declaration byte-for-byte; the block's selector comes back as the literal
/// rendered header `.class`.  Full byte-identity of the re-render cannot
/// hold here: rendering the re-parsed tree attaches the class name in front
/// of that literal selector.
pub proof fn lemma_flat_block_round_trip(attrs: Seq<StyleAttributeView>, class: Seq<char>)
    requires
        attrs_normalized(attrs),
        class.len() > 0,
        !is_space(class[class.len() - 1]),
        forall|i: int|
            0 <= i < class.len() ==> !is_item_delim(#[trigger] class[i]) && class[i] != '/'
                && class[i] != '@',
        !is_space(class[0]),
    ensures
        parse_spec(scopes_css(single_block_doc(None, attrs), class)) == Ok::<
            Seq<ScopeView>,
            ParseError,
        >(single_block_doc(Some(seq!['.'] + class), attrs)),
{
    let cl = class.len() as int;
    let doc0 = single_block_doc(None, attrs);
    let bv = BlockView { condition: None, style_attributes: attrs };
    let sv = ScopeView { condition: None, stylesets: seq![ScopeContentView::Block(bv)] };

    // The rendering, computed.
    assert(block_header(None, class) == seq!['.'] + class);
    let bc = block_css(bv, class);
    let acss = attrs_css(attrs);
    assert(bc =~= seq!['.'] + class + seq![' ', '{'] + acss + seq!['\n', '}']);
    let scl = seq![ScopeContentView::Block(bv)];
    assert(scl.drop_last() =~= Seq::<ScopeContentView>::empty());
    assert(scope_contents_css(Seq::<ScopeContentView>::empty(), class) == Seq::<char>::empty());
    assert(scl.last() == ScopeContentView::Block(bv));
    assert(scope_content_css(ScopeContentView::Block(bv), class) == bc);
    let inner = scope_contents_css(scl, class);
    assert(inner =~= bc + seq!['\n']);
    let li = inner.len() as int;
    assert(inner[0] == '.');
    assert(!is_space('.'));
    assert(skip_ws_to(inner, 0, li) == 0);
    assert(inner[li - 1] == '\n');
    assert(inner[li - 2] == '}');
    assert(is_space('\n'));
    assert(rskip_ws_from(inner, 0, li) == rskip_ws_from(inner, 0, li - 1));
    assert(rskip_ws_from(inner, 0, li - 1) == li - 1);
    assert(trimmed(inner) =~= bc);
    assert(scope_css(sv, class) == trimmed(inner));
    assert(doc0.len() == 1);
    assert(doc0[0] == sv);
    let rendered = scopes_css(doc0, class);
    assert(rendered == scope_css(sv, class));
    assert(rendered =~= seq!['.'] + class + seq![' ', '{'] + acss + seq!['\n', '}']);
    let ln = rendered.len() as int;
    assert(ln == cl + 5 + acss.len());

    // Where each character of the rendering comes from.
    assert(rendered[0] == '.');
    assert forall|i: int| 0 <= i < cl implies rendered[1 + i] == class[i] by {}
    assert(rendered[cl + 1] == ' ');
    assert(rendered[cl + 2] == '{');
    assert forall|i: int| 0 <= i < acss.len() implies rendered[cl + 3 + i] == acss[i] by {}
    assert(rendered[ln - 2] == '\n');
    assert(rendered[ln - 1] == '}');

    // Rendered declarations carry no slash, brace or stray delimiter beyond
    // the separators the renderer itself writes.
    assert forall|i: int| 0 <= i < ln implies rendered[i] != '/' by {
        lemma_attrs_char_classes(attrs);
        if 1 <= i < cl + 1 {
            assert(rendered[i] == class[i - 1]);
        } else if cl + 3 <= i < cl + 3 + acss.len() {
            assert(rendered[i] == acss[i - cl - 3]);
        }
    }
    lemma_strip_comments_absent(rendered, 0, 0, Seq::<char>::empty());
    assert(Seq::<char>::empty() + rendered.subrange(0, ln) =~= rendered);
    assert(strip_comments(rendered) == Ok::<Seq<char>, ParseError>(rendered));

    // The document parser reads one selector block.
    assert(!is_space(rendered[0]) && rendered[0] != ';' && rendered[0] != '}' && rendered[0]
        != '@' && rendered[0] != '{');
    assert forall|i: int| 0 <= i < cl + 2 implies !is_item_delim(#[trigger] rendered[i]) by {
        if 1 <= i < cl + 1 {
            assert(rendered[i] == class[i - 1]);
        }
    }
    lemma_scan_item_end_at(rendered, 0, cl + 2);
    let e = scan_item_end(rendered, 0);
    assert(e == cl + 2);
    assert(skip_ws_to(rendered, 0, e) == 0);
    assert(rendered[e - 1] == ' ');
    assert(rendered[cl] == class[cl - 1]);
    assert(rskip_ws_from(rendered, 0, e) == rskip_ws_from(rendered, 0, cl + 1));
    assert(rskip_ws_from(rendered, 0, cl + 1) == cl + 1);
    let selector = trimmed_range(rendered, 0, e);
    assert(selector =~= seq!['.'] + class);
    assert(selector.len() > 0);

    // The block body parser gives the declarations back.
    let prefix = seq!['.'] + class + seq![' ', '{'];
    lemma_parse_attrs_inverts(prefix, attrs, Seq::<StyleAttributeView>::empty(), Seq::<char>::empty());
    assert(prefix + attrs_css(attrs) + seq!['\n', '}'] + Seq::<char>::empty() =~= rendered);
    assert(prefix.len() == e + 1);
    assert(Seq::<StyleAttributeView>::empty() + attrs =~= attrs);
    assert(parse_attrs(rendered, e + 1, Seq::<StyleAttributeView>::empty()) == Ok::<
        (Seq<StyleAttributeView>, int),
        ParseError,
    >((attrs, ln)));

    // Assembling the document.
    let e0 = Seq::<ScopeContentView>::empty();
    let a0 = Seq::<StyleAttributeView>::empty();
    let s0 = Seq::<ScopeView>::empty();
    assert(flush_attrs(e0, a0) == e0);
    let cur1 = flush_attrs(e0, a0).push(
        ScopeContentView::Block(BlockView { condition: Some(selector), style_attributes: attrs }),
    );
    let doc1 = single_block_doc(Some(seq!['.'] + class), attrs);
    assert(cur1 =~= doc1[0].stylesets);
    assert(parse_document(rendered, 0, s0, e0, a0) == parse_document(rendered, ln, s0, cur1, a0));
    assert(flush_attrs(cur1, a0) == cur1);
    assert(close_default(s0, cur1) =~= doc1);
    assert(parse_document(rendered, ln, s0, cur1, a0) == Ok::<Seq<ScopeView>, ParseError>(
        close_default(s0, cur1),
    ));
    assert(parse_document(rendered, 0, s0, e0, a0) == Ok::<Seq<ScopeView>, ParseError>(doc1));
    assert(parse_spec(rendered) == Ok::<Seq<ScopeView>, ParseError>(doc1));
}

/// Every character a normalized declaration list renders is a key or value
/// character, a separator the renderer writes, or a newline: never a slash.
proof fn lemma_attrs_char_classes(l: Seq<StyleAttributeView>)
    requires
        attrs_normalized(l),
    ensures
        forall|i: int| 0 <= i < attrs_css(l).len() ==> #[trigger] attrs_css(l)[i] != '/',
    decreases l.len(),
{
    if l.len() > 0 {
        let m = l.drop_last();
        assert(attrs_normalized(m));
        lemma_attrs_char_classes(m);
        let a = l.last();
        assert(attr_normalized(a));
        let tailc = seq!['\n'] + attr_css(a);
        assert(attrs_css(l) == attrs_css(m) + seq!['\n'] + attr_css(a));
        assert forall|i: int| 0 <= i < attrs_css(l).len() implies #[trigger] attrs_css(l)[i]
            != '/' by {
            let ml = attrs_css(m).len() as int;
            if i < ml {
                assert(attrs_css(l)[i] == attrs_css(m)[i]);
            } else if i == ml {
                assert(attrs_css(l)[i] == '\n');
            } else {
                let j = i - ml - 1;
                assert(attrs_css(l)[i] == attr_css(a)[j]);
                let kl = a.key.len() as int;
                let vl = a.value.len() as int;
                assert(attr_css(a) == a.key + seq![':', ' '] + a.value + seq![';']);
                if j < kl {
                    assert(attr_css(a)[j] == a.key[j]);
                } else if j == kl || j == kl + 1 {
                } else if j < kl + 2 + vl {
                    assert(attr_css(a)[j] == a.value[j - kl - 2]);
                } else {
                    assert(attr_css(a)[j] == ';');
                }
            }
        }
    }
}

/// Parses a raw stylesheet text of the dialect into scopes, returning
/// exactly what [`parse_spec`] describes: the scope tree on success, and the
/// first failure otherwise.
pub fn parse(css: &str) -> (r: Result<Scopes, ParseError>)
    ensures
        match r {
            Ok(sc) => parse_spec(css@) == Ok::<Seq<ScopeView>, ParseError>(sc@),
            Err(e) => parse_spec(css@) == Err::<Seq<ScopeView>, ParseError>(e),
        },
{
    match strip_comments_exec(css) {
        Ok(t) => {
            let n = t.as_str().unicode_len();
            match parse_document_exec(t.as_str(), n) {
                Ok(v) => Ok(Scopes { scopes: v }),
                Err(e) => Err(e),
            }
        },
        Err(e) => Err(e),
    }
}

} // verus!
