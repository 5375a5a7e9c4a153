//! The scope-aware syntax tree of the dialect and its renderer.
//!
//! A document is an ordered sequence of [`Scope`]s.  Each scope holds blocks
//! (a selector with flat declarations) and opaque-bodied rules (such as
//! keyframes).  Rendering scopes the output to a caller-supplied class name:
//! a block selector containing the current-selector token `&` has every
//! occurrence replaced by `.class`, any other selector is attached as a
//! descendant of `.class`.
//!
//! The mathematical renderings are the `*_css` spec functions over the view
//! types; every executable renderer returns exactly the text those functions
//! describe.

use vstd::prelude::*;
use vstd::string::StrSliceExecFns;
use vstd::string::StringExecFns;

use crate::text::{contains_char, contains_char_exec, replace_char, replace_char_exec, trimmed,
    trimmed_string};

verus! {

// ---------------------------------------------------------------------------
// The tree
// ---------------------------------------------------------------------------

/// A single declaration, rendered verbatim as `key: value;`.
#[derive(Debug)]
pub struct StyleAttribute {
    pub key: String,
    pub value: String,
}

/// A selector plus its flat declarations.
///
/// A `condition` of `None` means the root element bearing the generated class
/// name; selector text may contain the current-selector token `&`.
#[derive(Debug)]
pub struct Block {
    pub condition: Option<String>,
    pub style_attributes: Vec<StyleAttribute>,
}

/// An at-rule whose interior is kept as opaque text fragments, preserving
/// brace structure (for example `@keyframes move { ... }`).
#[derive(Debug)]
pub struct Rule {
    pub condition: String,
    pub content: Vec<RuleContent>,
}

/// A fragment of a rule interior: verbatim text, or a brace-enclosed group of
/// further fragments.
#[derive(Debug)]
pub enum RuleContent {
    Text(String),
    Braced(Vec<RuleContent>),
}

/// Everything that can reside inside a scope.
#[derive(Debug)]
pub enum ScopeContent {
    Block(Block),
    Rule(Rule),
}

/// One top-level unit of output: the default scope (`condition` is `None`),
/// or contents guarded by an at-rule condition such as a media query.
#[derive(Debug)]
pub struct Scope {
    pub condition: Option<String>,
    pub stylesets: Vec<ScopeContent>,
}

/// A parse result: an ordered sequence of scopes.
#[derive(Debug)]
pub struct Scopes {
    pub scopes: Vec<Scope>,
}

// ---------------------------------------------------------------------------
// Views: the mathematical model of the tree
// ---------------------------------------------------------------------------

pub struct StyleAttributeView {
    pub key: Seq<char>,
    pub value: Seq<char>,
}

pub struct BlockView {
    pub condition: Option<Seq<char>>,
    pub style_attributes: Seq<StyleAttributeView>,
}

pub struct RuleView {
    pub condition: Seq<char>,
    pub content: Seq<RuleContentView>,
}

pub enum RuleContentView {
    Text(Seq<char>),
    Braced(Seq<RuleContentView>),
}

pub enum ScopeContentView {
    Block(BlockView),
    Rule(RuleView),
}

pub struct ScopeView {
    pub condition: Option<Seq<char>>,
    pub stylesets: Seq<ScopeContentView>,
}

pub open spec fn opt_str_view(o: Option<String>) -> Option<Seq<char>> {
    match o {
        Some(s) => Some(s@),
        None => None,
    }
}

pub open spec fn attr_view(a: StyleAttribute) -> StyleAttributeView {
    StyleAttributeView { key: a.key@, value: a.value@ }
}

pub open spec fn attrs_view(l: Seq<StyleAttribute>) -> Seq<StyleAttributeView> {
    Seq::new(l.len(), |i: int| attr_view(l[i]))
}

pub open spec fn block_view(b: Block) -> BlockView {
    BlockView {
        condition: opt_str_view(b.condition),
        style_attributes: attrs_view(b.style_attributes@),
    }
}

pub open spec fn rule_content_view(rc: RuleContent) -> RuleContentView
    decreases rc,
{
    match rc {
        RuleContent::Text(s) => RuleContentView::Text(s@),
        RuleContent::Braced(v) => RuleContentView::Braced(rule_contents_view(v@)),
    }
}

pub open spec fn rule_contents_view(l: Seq<RuleContent>) -> Seq<RuleContentView>
    decreases l,
{
    if l.len() == 0 {
        Seq::empty()
    } else {
        rule_contents_view(l.drop_last()).push(rule_content_view(l.last()))
    }
}

pub open spec fn rule_view(r: Rule) -> RuleView {
    RuleView { condition: r.condition@, content: rule_contents_view(r.content@) }
}

pub open spec fn scope_content_view(sc: ScopeContent) -> ScopeContentView {
    match sc {
        ScopeContent::Block(b) => ScopeContentView::Block(block_view(b)),
        ScopeContent::Rule(r) => ScopeContentView::Rule(rule_view(r)),
    }
}

pub open spec fn scope_contents_view(l: Seq<ScopeContent>) -> Seq<ScopeContentView> {
    Seq::new(l.len(), |i: int| scope_content_view(l[i]))
}

pub open spec fn scope_view(s: Scope) -> ScopeView {
    ScopeView { condition: opt_str_view(s.condition), stylesets: scope_contents_view(s.stylesets@) }
}

pub open spec fn scopes_view(l: Seq<Scope>) -> Seq<ScopeView> {
    Seq::new(l.len(), |i: int| scope_view(l[i]))
}

impl View for StyleAttribute {
    type V = StyleAttributeView;

    open spec fn view(&self) -> StyleAttributeView {
        attr_view(*self)
    }
}

impl View for Block {
    type V = BlockView;

    open spec fn view(&self) -> BlockView {
        block_view(*self)
    }
}

impl View for Rule {
    type V = RuleView;

    open spec fn view(&self) -> RuleView {
        rule_view(*self)
    }
}

impl View for RuleContent {
    type V = RuleContentView;

    open spec fn view(&self) -> RuleContentView {
        rule_content_view(*self)
    }
}

impl View for ScopeContent {
    type V = ScopeContentView;

    open spec fn view(&self) -> ScopeContentView {
        scope_content_view(*self)
    }
}

impl View for Scope {
    type V = ScopeView;

    open spec fn view(&self) -> ScopeView {
        scope_view(*self)
    }
}

impl View for Scopes {
    type V = Seq<ScopeView>;

    open spec fn view(&self) -> Seq<ScopeView> {
        scopes_view(self.scopes@)
    }
}

// ---------------------------------------------------------------------------
// The rendering, as mathematics
// ---------------------------------------------------------------------------

/// `key: value;`
pub open spec fn attr_css(a: StyleAttributeView) -> Seq<char> {
    a.key + seq![':', ' '] + a.value + seq![';']
}

/// Each declaration on its own line, preceded by a newline.
pub open spec fn attrs_css(l: Seq<StyleAttributeView>) -> Seq<char>
    decreases l.len(),
{
    if l.len() == 0 {
        Seq::empty()
    } else {
        attrs_css(l.drop_last()) + seq!['\n'] + attr_css(l.last())
    }
}

/// The rule header of a block: `&` substituted by `.class` when present,
/// otherwise the selector attached as a descendant of `.class`.
pub open spec fn block_header(cond: Option<Seq<char>>, class: Seq<char>) -> Seq<char> {
    match cond {
        Some(c) => if contains_char(c, '&') {
            replace_char(c, '&', seq!['.'] + class)
        } else {
            seq!['.'] + class + seq![' '] + c
        },
        None => seq!['.'] + class,
    }
}

/// `header {` then one declaration per line, then `}`.
pub open spec fn block_css(b: BlockView, class: Seq<char>) -> Seq<char> {
    block_header(b.condition, class) + seq![' ', '{'] + attrs_css(b.style_attributes) + seq![
        '\n',
        '}',
    ]
}

/// Text fragments verbatim; braced groups wrapped in literal braces.
pub open spec fn rule_content_css(rc: RuleContentView) -> Seq<char>
    decreases rc,
{
    match rc {
        RuleContentView::Text(s) => s,
        RuleContentView::Braced(l) => seq!['{'] + rule_contents_css(l) + seq!['}'],
    }
}

pub open spec fn rule_contents_css(l: Seq<RuleContentView>) -> Seq<char>
    decreases l,
{
    if l.len() == 0 {
        Seq::empty()
    } else {
        rule_contents_css(l.drop_last()) + rule_content_css(l.last())
    }
}

/// `condition {` newline, the interior, newline, `}`.
pub open spec fn rule_css(r: RuleView) -> Seq<char> {
    r.condition + seq![' ', '{', '\n'] + rule_contents_css(r.content) + seq!['\n', '}']
}

pub open spec fn scope_content_css(sc: ScopeContentView, class: Seq<char>) -> Seq<char> {
    match sc {
        ScopeContentView::Block(b) => block_css(b, class),
        ScopeContentView::Rule(r) => rule_css(r),
    }
}

/// Each content part followed by a newline.
pub open spec fn scope_contents_css(l: Seq<ScopeContentView>, class: Seq<char>) -> Seq<char>
    decreases l.len(),
{
    if l.len() == 0 {
        Seq::empty()
    } else {
        scope_contents_css(l.drop_last(), class) + scope_content_css(l.last(), class) + seq!['\n']
    }
}

/// A conditioned scope wraps its contents in the condition's braces; the
/// default scope is its contents, trimmed.
pub open spec fn scope_css(s: ScopeView, class: Seq<char>) -> Seq<char> {
    match s.condition {
        Some(c) => c + seq![' ', '{', '\n'] + scope_contents_css(s.stylesets, class) + seq!['}'],
        None => trimmed(scope_contents_css(s.stylesets, class)),
    }
}

/// Scopes joined by single newlines.
pub open spec fn scopes_css(l: Seq<ScopeView>, class: Seq<char>) -> Seq<char>
    decreases l.len(),
{
    if l.len() == 0 {
        Seq::empty()
    } else if l.len() == 1 {
        scope_css(l[0], class)
    } else {
        scopes_css(l.drop_last(), class) + seq!['\n'] + scope_css(l.last(), class)
    }
}

/// Rendering is a function of the tree and the class name alone: rendering
/// the same value twice yields identical text.
pub proof fn lemma_render_idempotent(
    v: Seq<ScopeView>,
    class: Seq<char>,
    r1: Seq<char>,
    r2: Seq<char>,
)
    requires
        r1 == scopes_css(v, class),
        r2 == scopes_css(v, class),
    ensures
        r1 == r2,
{
}

// ---------------------------------------------------------------------------
// The rendering, executable
// ---------------------------------------------------------------------------

/// Anything that can turn itself into a part of a stylesheet scoped to a
/// class name, returning exactly the text of its `css_spec`.
pub trait ToCss {
    spec fn css_spec(&self, class: Seq<char>) -> Seq<char>;

    fn to_css(&self, class_name: &str) -> (r: String)
        ensures
            r@ == self.css_spec(class_name@),
    ;
}

impl ToCss for StyleAttribute {
    open spec fn css_spec(&self, class: Seq<char>) -> Seq<char> {
        attr_css(self@)
    }

    fn to_css(&self, class_name: &str) -> (r: String) {
        let mut out = self.key.clone();
        out.append(": ");
        out.append(self.value.as_str());
        out.append(";");
        proof {
            reveal_strlit(": ");
            reveal_strlit(";");
            assert(out@ =~= attr_css(self@));
        }
        out
    }
}

fn attrs_to_css(v: &Vec<StyleAttribute>) -> (r: String)
    ensures
        r@ == attrs_css(attrs_view(v@)),
{
    let mut out = String::new();
    let mut i: usize = 0;
    while i < v.len()
        invariant
            0 <= i <= v@.len(),
            out@ == attrs_css(attrs_view(v@.subrange(0, i as int))),
        decreases v@.len() - i,
    {
        out.append("\n");
        let part = v[i].to_css("");
        out.append(part.as_str());
        proof {
            reveal_strlit("\n");
            let pre = attrs_view(v@.subrange(0, i as int));
            let cur = attrs_view(v@.subrange(0, i + 1 as int));
            assert(cur.drop_last() =~= pre);
            assert(cur.last() == attr_view(v@[i as int]));
            assert(out@ =~= attrs_css(cur));
        }
        i = i + 1;
    }
    proof {
        assert(v@.subrange(0, v@.len() as int) =~= v@);
    }
    out
}

impl ToCss for Block {
    open spec fn css_spec(&self, class: Seq<char>) -> Seq<char> {
        block_css(self@, class)
    }

    fn to_css(&self, class_name: &str) -> (r: String) {
        let mut out: String;
        match &self.condition {
            Some(c) => {
                if contains_char_exec(c.as_str(), '&') {
                    let mut dot = String::from_str(".");
                    dot.append(class_name);
                    proof {
                        reveal_strlit(".");
                        assert(dot@ =~= seq!['.'] + class_name@);
                    }
                    out = replace_char_exec(c.as_str(), '&', dot.as_str());
                } else {
                    out = String::from_str(".");
                    out.append(class_name);
                    out.append(" ");
                    out.append(c.as_str());
                    proof {
                        reveal_strlit(".");
                        reveal_strlit(" ");
                        assert(out@ =~= seq!['.'] + class_name@ + seq![' '] + c@);
                    }
                }
            },
            None => {
                out = String::from_str(".");
                out.append(class_name);
                proof {
                    reveal_strlit(".");
                    assert(out@ =~= seq!['.'] + class_name@);
                }
            },
        }
        assert(out@ == block_header(self@.condition, class_name@));
        let attrs = attrs_to_css(&self.style_attributes);
        out.append(" {");
        out.append(attrs.as_str());
        out.append("\n}");
        proof {
            reveal_strlit(" {");
            reveal_strlit("\n}");
            assert(out@ =~= block_css(self@, class_name@));
        }
        out
    }
}

fn rule_contents_to_css(v: &Vec<RuleContent>) -> (r: String)
    ensures
        r@ == rule_contents_css(rule_contents_view(v@)),
    decreases v@,
{
    let mut out = String::new();
    let mut i: usize = 0;
    while i < v.len()
        invariant
            0 <= i <= v@.len(),
            out@ == rule_contents_css(rule_contents_view(v@.subrange(0, i as int))),
        decreases v@.len() - i,
    {
        let ghost pre = rule_contents_view(v@.subrange(0, i as int));
        let ghost cur = rule_contents_view(v@.subrange(0, i + 1 as int));
        proof {
            assert(v@.subrange(0, i + 1 as int).drop_last() =~= v@.subrange(0, i as int));
            assert(cur.drop_last() =~= pre);
            assert(cur.last() == rule_content_view(v@[i as int]));
        }
        match &v[i] {
            RuleContent::Text(s) => {
                out.append(s.as_str());
                proof {
                    assert(rule_content_css(cur.last()) == s@);
                    assert(out@ =~= rule_contents_css(cur));
                }
            },
            RuleContent::Braced(inner) => {
                proof {
                    assert(decreases_to!(v@ => v@[i as int]));
                    assert(decreases_to!(v@[i as int] => *inner));
                    assert(decreases_to!(*inner => inner@));
                }
                out.append("{");
                let nested = rule_contents_to_css(inner);
                out.append(nested.as_str());
                out.append("}");
                proof {
                    reveal_strlit("{");
                    reveal_strlit("}");
                    assert(("{")@ =~= seq!['{']);
                    assert(("}")@ =~= seq!['}']);
                    assert(cur.last() == RuleContentView::Braced(rule_contents_view(inner@)));
                    assert(rule_content_css(cur.last()) == seq!['{'] + rule_contents_css(
                        rule_contents_view(inner@),
                    ) + seq!['}']);
                    assert(out@ =~= rule_contents_css(cur));
                }
            },
        }
        i = i + 1;
    }
    proof {
        assert(v@.subrange(0, v@.len() as int) =~= v@);
    }
    out
}

impl ToCss for RuleContent {
    open spec fn css_spec(&self, class: Seq<char>) -> Seq<char> {
        rule_content_css(self@)
    }

    fn to_css(&self, class_name: &str) -> (r: String) {
        match self {
            RuleContent::Text(s) => s.clone(),
            RuleContent::Braced(inner) => {
                let mut out = String::from_str("{");
                let nested = rule_contents_to_css(inner);
                out.append(nested.as_str());
                out.append("}");
                proof {
                    reveal_strlit("{");
                    reveal_strlit("}");
                    assert(out@ =~= rule_content_css(self@));
                }
                out
            },
        }
    }
}

impl ToCss for Rule {
    open spec fn css_spec(&self, class: Seq<char>) -> Seq<char> {
        rule_css(self@)
    }

    fn to_css(&self, class_name: &str) -> (r: String) {
        let mut out = self.condition.clone();
        out.append(" {\n");
        let body = rule_contents_to_css(&self.content);
        out.append(body.as_str());
        out.append("\n}");
        proof {
            reveal_strlit(" {\n");
            reveal_strlit("\n}");
            assert(out@ =~= rule_css(self@));
        }
        out
    }
}

fn scope_contents_to_css(v: &Vec<ScopeContent>, class_name: &str) -> (r: String)
    ensures
        r@ == scope_contents_css(scope_contents_view(v@), class_name@),
{
    let mut out = String::new();
    let mut i: usize = 0;
    while i < v.len()
        invariant
            0 <= i <= v@.len(),
            out@ == scope_contents_css(scope_contents_view(v@.subrange(0, i as int)), class_name@),
        decreases v@.len() - i,
    {
        let part: String;
        match &v[i] {
            ScopeContent::Block(b) => {
                part = b.to_css(class_name);
            },
            ScopeContent::Rule(r) => {
                part = r.to_css(class_name);
            },
        }
        out.append(part.as_str());
        out.append("\n");
        proof {
            reveal_strlit("\n");
            let pre = scope_contents_view(v@.subrange(0, i as int));
            let cur = scope_contents_view(v@.subrange(0, i + 1 as int));
            assert(cur.drop_last() =~= pre);
            assert(cur.last() == scope_content_view(v@[i as int]));
            assert(out@ =~= scope_contents_css(cur, class_name@));
        }
        i = i + 1;
    }
    proof {
        assert(v@.subrange(0, v@.len() as int) =~= v@);
    }
    out
}

impl ToCss for Scope {
    open spec fn css_spec(&self, class: Seq<char>) -> Seq<char> {
        scope_css(self@, class)
    }

    fn to_css(&self, class_name: &str) -> (r: String) {
        let body = scope_contents_to_css(&self.stylesets, class_name);
        match &self.condition {
            Some(c) => {
                let mut out = c.clone();
                out.append(" {\n");
                out.append(body.as_str());
                out.append("}");
                proof {
                    reveal_strlit(" {\n");
                    reveal_strlit("}");
                    assert(out@ =~= scope_css(self@, class_name@));
                }
                out
            },
            None => {
                let out = trimmed_string(body.as_str());
                out
            },
        }
    }
}

impl ToCss for Scopes {
    open spec fn css_spec(&self, class: Seq<char>) -> Seq<char> {
        scopes_css(self@, class)
    }

    fn to_css(&self, class_name: &str) -> (r: String) {
        let mut out = String::new();
        let mut i: usize = 0;
        while i < self.scopes.len()
            invariant
                0 <= i <= self.scopes@.len(),
                out@ == scopes_css(scopes_view(self.scopes@.subrange(0, i as int)), class_name@),
            decreases self.scopes@.len() - i,
        {
            if i > 0 {
                out.append("\n");
            }
            let part = self.scopes[i].to_css(class_name);
            out.append(part.as_str());
            proof {
                reveal_strlit("\n");
                let pre = scopes_view(self.scopes@.subrange(0, i as int));
                let cur = scopes_view(self.scopes@.subrange(0, i + 1 as int));
                assert(cur.drop_last() =~= pre);
                assert(cur.last() == scope_view(self.scopes@[i as int]));
                assert(cur[0] == scope_view(self.scopes@[0]));
                assert(out@ =~= scopes_css(cur, class_name@));
            }
            i = i + 1;
        }
        proof {
            assert(self.scopes@.subrange(0, self.scopes@.len() as int) =~= self.scopes@);
        }
        out
    }
}

impl Scopes {
    /// A document with no scopes at all.
    pub fn new() -> (r: Scopes)
        ensures
            r@ == Seq::<ScopeView>::empty(),
    {
        let r = Scopes { scopes: Vec::new() };
        proof {
            assert(r@ =~= Seq::<ScopeView>::empty());
        }
        r
    }

    /// Combines two documents by appending the scopes of `other` after the
    /// scopes of `self`.
    pub fn append(&mut self, other: Scopes)
        ensures
            final(self)@ == old(self)@ + other@,
    {
        let mut o = other;
        let ghost others = o.scopes@;
        self.scopes.append(&mut o.scopes);
        proof {
            assert(scopes_view(old(self).scopes@ + others) =~= scopes_view(old(self).scopes@)
                + scopes_view(others));
        }
    }
}

impl Default for Scopes {
    fn default() -> (r: Scopes)
        ensures
            r@ == Seq::<ScopeView>::empty(),
    {
        Scopes::new()
    }
}

// ---------------------------------------------------------------------------
// Duplication: every node can be copied without changing its view
// ---------------------------------------------------------------------------

impl Clone for StyleAttribute {
    fn clone(&self) -> (r: Self)
        ensures
            r@ == self@,
    {
        StyleAttribute { key: self.key.clone(), value: self.value.clone() }
    }
}

fn clone_opt_string(o: &Option<String>) -> (r: Option<String>)
    ensures
        opt_str_view(r) == opt_str_view(*o),
{
    match o {
        Some(s) => Some(s.clone()),
        None => None,
    }
}

impl Clone for Block {
    fn clone(&self) -> (r: Self)
        ensures
            r@ == self@,
    {
        let mut attrs: Vec<StyleAttribute> = Vec::new();
        let mut i: usize = 0;
        while i < self.style_attributes.len()
            invariant
                0 <= i <= self.style_attributes@.len(),
                attrs@.len() == i,
                forall|j: int| 0 <= j < i ==> attrs@[j]@ == self.style_attributes@[j]@,
            decreases self.style_attributes@.len() - i,
        {
            attrs.push(self.style_attributes[i].clone());
            i = i + 1;
        }
        let r = Block { condition: clone_opt_string(&self.condition), style_attributes: attrs };
        proof {
            assert(attrs_view(r.style_attributes@) =~= attrs_view(self.style_attributes@));
        }
        r
    }
}

fn clone_rule_contents(v: &Vec<RuleContent>) -> (r: Vec<RuleContent>)
    ensures
        rule_contents_view(r@) == rule_contents_view(v@),
    decreases v@,
{
    let mut out: Vec<RuleContent> = Vec::new();
    let mut i: usize = 0;
    while i < v.len()
        invariant
            0 <= i <= v@.len(),
            rule_contents_view(out@) == rule_contents_view(v@.subrange(0, i as int)),
        decreases v@.len() - i,
    {
        let ghost before = out@;
        match &v[i] {
            RuleContent::Text(s) => {
                out.push(RuleContent::Text(s.clone()));
            },
            RuleContent::Braced(inner) => {
                proof {
                    assert(decreases_to!(v@ => v@[i as int]));
                    assert(decreases_to!(v@[i as int] => *inner));
                    assert(decreases_to!(*inner => inner@));
                }
                let nested = clone_rule_contents(inner);
                out.push(RuleContent::Braced(nested));
            },
        }
        proof {
            assert(out@.drop_last() =~= before);
            assert(rule_content_view(out@.last()) == rule_content_view(v@[i as int]));
            assert(v@.subrange(0, i + 1 as int).drop_last() =~= v@.subrange(0, i as int));
            assert(rule_contents_view(out@) == rule_contents_view(v@.subrange(0, i + 1 as int)));
        }
        i = i + 1;
    }
    proof {
        assert(v@.subrange(0, v@.len() as int) =~= v@);
    }
    out
}

impl Clone for RuleContent {
    fn clone(&self) -> (r: Self)
        ensures
            r@ == self@,
    {
        match self {
            RuleContent::Text(s) => RuleContent::Text(s.clone()),
            RuleContent::Braced(inner) => RuleContent::Braced(clone_rule_contents(inner)),
        }
    }
}

impl Clone for Rule {
    fn clone(&self) -> (r: Self)
        ensures
            r@ == self@,
    {
        Rule { condition: self.condition.clone(), content: clone_rule_contents(&self.content) }
    }
}

impl Clone for ScopeContent {
    fn clone(&self) -> (r: Self)
        ensures
            r@ == self@,
    {
        match self {
            ScopeContent::Block(b) => ScopeContent::Block(b.clone()),
            ScopeContent::Rule(r) => ScopeContent::Rule(r.clone()),
        }
    }
}

impl Clone for Scope {
    fn clone(&self) -> (r: Self)
        ensures
            r@ == self@,
    {
        let mut contents: Vec<ScopeContent> = Vec::new();
        let mut i: usize = 0;
        while i < self.stylesets.len()
            invariant
                0 <= i <= self.stylesets@.len(),
                contents@.len() == i,
                forall|j: int| 0 <= j < i ==> contents@[j]@ == self.stylesets@[j]@,
            decreases self.stylesets@.len() - i,
        {
            contents.push(self.stylesets[i].clone());
            i = i + 1;
        }
        let r = Scope { condition: clone_opt_string(&self.condition), stylesets: contents };
        proof {
            assert(scope_contents_view(r.stylesets@) =~= scope_contents_view(self.stylesets@));
        }
        r
    }
}

impl Clone for Scopes {
    fn clone(&self) -> (r: Self)
        ensures
            r@ == self@,
    {
        let mut scopes: Vec<Scope> = Vec::new();
        let mut i: usize = 0;
        while i < self.scopes.len()
            invariant
                0 <= i <= self.scopes@.len(),
                scopes@.len() == i,
                forall|j: int| 0 <= j < i ==> scopes@[j]@ == self.scopes@[j]@,
            decreases self.scopes@.len() - i,
        {
            scopes.push(self.scopes[i].clone());
            i = i + 1;
        }
        let r = Scopes { scopes };
        proof {
            assert(scopes_view(r.scopes@) =~= scopes_view(self.scopes@));
        }
        r
    }
}

} // verus!
