//! Styles and the stylesheet registry.
//!
//! A [`StyleRegistry`] is the shared table of live stylesheets, keyed by
//! generated class name, with one mount count per record.  It is an explicit
//! value: callers that share it across owners wrap it in their own lock and
//! pass it by reference.  A [`Style`] is a handle: a class name plus the
//! parsed tree.  Duplicating a handle bumps the record's mount count and
//! releasing one drops it; the record leaves the registry exactly when the
//! last handle is released.
//!
//! The registry's behaviour is stated over the pure transitions `upsert`,
//! `bump`, `unbump` and `set_css` on sequences of [`RegEntryView`]; the proof
//! functions at the end state the reference-counting laws.

use vstd::prelude::*;
use vstd::string::StringExecFns;

use crate::ast::{ScopeView, Scopes, ToCss, scopes_css};
use crate::name::{counter_class_name, gen_unique_name, generated_name, make_counter_name};
use crate::parser::{ParseError, parse, parse_spec};
use crate::text::str_eq;

verus! {

/// How class names are generated: a random alphanumeric suffix, or a
/// strictly increasing counter (deterministic and reproducible).
#[derive(Debug, Clone, Copy, PartialEq, Eq, Structural)]
pub enum ClassNameStrategy {
    Random,
    Counter,
}

/// The mathematical content of one registry record.
pub struct RegEntryView {
    pub class_name: Seq<char>,
    pub css: Seq<char>,
    pub users: nat,
}

#[derive(Debug)]
struct RegEntry {
    class_name: String,
    css: String,
    users: u64,
}

impl View for RegEntry {
    type V = RegEntryView;

    closed spec fn view(&self) -> RegEntryView {
        RegEntryView { class_name: self.class_name@, css: self.css@, users: self.users as nat }
    }
}

// ---------------------------------------------------------------------------
// Pure registry transitions
// ---------------------------------------------------------------------------

/// First index at or after `i` whose record is named `name`, or `s.len()`.
pub open spec fn find_from(s: Seq<RegEntryView>, name: Seq<char>, i: int) -> int
    decreases s.len() - i,
{
    if i < s.len() && s[i].class_name != name {
        find_from(s, name, i + 1)
    } else {
        i
    }
}

/// First index of the record named `name`, or `s.len()` when there is none.
pub open spec fn find_entry(s: Seq<RegEntryView>, name: Seq<char>) -> int {
    find_from(s, name, 0)
}

pub proof fn lemma_find_from(s: Seq<RegEntryView>, name: Seq<char>, i: int)
    requires
        0 <= i <= s.len(),
    ensures
        i <= find_from(s, name, i) <= s.len(),
        forall|j: int| i <= j < find_from(s, name, i) ==> s[j].class_name != name,
        find_from(s, name, i) < s.len() ==> s[find_from(s, name, i)].class_name == name,
    decreases s.len() - i,
{
    if i < s.len() && s[i].class_name != name {
        lemma_find_from(s, name, i + 1);
    }
}

/// The scan only looks at names, so it is blind to other fields.
pub proof fn lemma_find_from_same_names(
    s: Seq<RegEntryView>,
    t: Seq<RegEntryView>,
    name: Seq<char>,
    i: int,
)
    requires
        0 <= i <= s.len(),
        s.len() == t.len(),
        forall|j: int| 0 <= j < s.len() ==> s[j].class_name == t[j].class_name,
    ensures
        find_from(s, name, i) == find_from(t, name, i),
    decreases s.len() - i,
{
    if i < s.len() && s[i].class_name != name {
        lemma_find_from_same_names(s, t, name, i + 1);
    }
}

/// Whether a record named `name` is present.
pub open spec fn has_entry(s: Seq<RegEntryView>, name: Seq<char>) -> bool {
    find_entry(s, name) < s.len()
}

/// Inserting a record: an existing record of the same name is replaced,
/// otherwise the record is appended.
pub open spec fn upsert(s: Seq<RegEntryView>, e: RegEntryView) -> Seq<RegEntryView> {
    let i = find_entry(s, e.class_name);
    if i < s.len() {
        s.update(i, e)
    } else {
        s.push(e)
    }
}

/// One more mount of `name`; absent records and a count already at the
/// machine limit are left unchanged.
pub open spec fn bump(s: Seq<RegEntryView>, name: Seq<char>) -> Seq<RegEntryView> {
    let i = find_entry(s, name);
    if i < s.len() {
        let e = s[i];
        if e.users < u64::MAX {
            s.update(
                i,
                RegEntryView { class_name: e.class_name, css: e.css, users: e.users + 1 },
            )
        } else {
            s
        }
    } else {
        s
    }
}

/// One mount of `name` released: the count drops, and the record leaves the
/// registry when the last mount goes; an absent record is left unchanged.
pub open spec fn unbump(s: Seq<RegEntryView>, name: Seq<char>) -> Seq<RegEntryView> {
    let i = find_entry(s, name);
    if i < s.len() {
        let e = s[i];
        if e.users > 1 {
            s.update(
                i,
                RegEntryView { class_name: e.class_name, css: e.css, users: (e.users - 1) as nat },
            )
        } else {
            s.remove(i)
        }
    } else {
        s
    }
}

/// The stylesheet text of `name` swapped for `css`; absent records are left
/// unchanged.
pub open spec fn set_css(
    s: Seq<RegEntryView>,
    name: Seq<char>,
    css: Seq<char>,
) -> Seq<RegEntryView> {
    let i = find_entry(s, name);
    if i < s.len() {
        s.update(i, RegEntryView { class_name: s[i].class_name, css, users: s[i].users })
    } else {
        s
    }
}

/// Well-formedness: class names are unique and every record is mounted.
pub open spec fn reg_wf(s: Seq<RegEntryView>) -> bool {
    &&& forall|i: int, j: int|
        0 <= i < j < s.len() ==> s[i].class_name != s[j].class_name
    &&& forall|i: int| 0 <= i < s.len() ==> s[i].users >= 1
}

pub proof fn lemma_upsert_wf(s: Seq<RegEntryView>, e: RegEntryView)
    requires
        reg_wf(s),
        e.users >= 1,
    ensures
        reg_wf(upsert(s, e)),
{
    lemma_find_from(s, e.class_name, 0);
}

pub proof fn lemma_bump_wf(s: Seq<RegEntryView>, name: Seq<char>)
    requires
        reg_wf(s),
    ensures
        reg_wf(bump(s, name)),
{
    lemma_find_from(s, name, 0);
}

pub proof fn lemma_unbump_wf(s: Seq<RegEntryView>, name: Seq<char>)
    requires
        reg_wf(s),
    ensures
        reg_wf(unbump(s, name)),
{
    lemma_find_from(s, name, 0);
    let i = find_entry(s, name);
    if i < s.len() && !(s[i].users > 1) {
        let t = s.remove(i);
        s.remove_ensures(i);
        assert forall|a: int, b: int| 0 <= a < b < t.len() implies t[a].class_name
            != t[b].class_name by {
            let a0: int = if a < i {
                a
            } else {
                a + 1
            };
            let b0: int = if b < i {
                b
            } else {
                b + 1
            };
            assert(t[a] == s[a0]);
            assert(t[b] == s[b0]);
        }
        assert forall|a: int| 0 <= a < t.len() implies t[a].users >= 1 by {
            let a0: int = if a < i {
                a
            } else {
                a + 1
            };
            assert(t[a] == s[a0]);
        }
    }
}

pub proof fn lemma_set_css_wf(s: Seq<RegEntryView>, name: Seq<char>, css: Seq<char>)
    requires
        reg_wf(s),
    ensures
        reg_wf(set_css(s, name, css)),
{
    lemma_find_from(s, name, 0);
}

// ---------------------------------------------------------------------------
// The reference-counting laws
// ---------------------------------------------------------------------------

/// Duplicating a handle and then releasing the duplicate leaves the registry
/// exactly as it was: the record, its text, and its count are restored.
pub proof fn lemma_clone_then_drop_neutral(s: Seq<RegEntryView>, name: Seq<char>)
    requires
        reg_wf(s),
        has_entry(s, name),
        s[find_entry(s, name)].users < u64::MAX,
    ensures
        unbump(bump(s, name), name) == s,
{
    lemma_find_from(s, name, 0);
    let i = find_entry(s, name);
    let e = s[i];
    let t = bump(s, name);
    lemma_find_from_same_names(s, t, name, 0);
    assert(find_entry(t, name) == i);
    assert(t[i].users == e.users + 1);
    assert(t[i].users > 1);
    assert(unbump(t, name) =~= s);
}

// ---------------------------------------------------------------------------
// The registry
// ---------------------------------------------------------------------------

/// The process-wide table of live stylesheets, keyed by generated class
/// name, holding the rendered text and the mount count of each.
#[derive(Debug)]
pub struct StyleRegistry {
    entries: Vec<RegEntry>,
    counter: u64,
    strategy: ClassNameStrategy,
}

impl View for StyleRegistry {
    type V = Seq<RegEntryView>;

    closed spec fn view(&self) -> Seq<RegEntryView> {
        Seq::new(self.entries@.len(), |i: int| self.entries@[i]@)
    }
}

impl StyleRegistry {
    pub closed spec fn strategy_spec(&self) -> ClassNameStrategy {
        self.strategy
    }

    pub closed spec fn counter_spec(&self) -> nat {
        self.counter as nat
    }

    pub open spec fn wf(&self) -> bool {
        reg_wf(self@)
    }

    /// An empty registry using the given class-name strategy, with its
    /// counter at zero.
    pub fn new(strategy: ClassNameStrategy) -> (r: StyleRegistry)
        ensures
            r@ == Seq::<RegEntryView>::empty(),
            r.wf(),
            r.counter_spec() == 0,
            r.strategy_spec() == strategy,
    {
        let r = StyleRegistry { entries: Vec::new(), counter: 0, strategy };
        proof {
            assert(r@ =~= Seq::<RegEntryView>::empty());
        }
        r
    }

    pub fn strategy(&self) -> (s: ClassNameStrategy)
        ensures
            s == self.strategy_spec(),
    {
        self.strategy
    }

    /// The next counter value the counter strategy will use.
    pub fn counter(&self) -> (c: u64)
        ensures
            c as nat == self.counter_spec(),
    {
        self.counter
    }

    /// How many stylesheets are registered.
    pub fn style_count(&self) -> (n: usize)
        ensures
            n == self@.len(),
    {
        self.entries.len()
    }

    fn find(&self, class_name: &str) -> (i: usize)
        ensures
            i == find_entry(self@, class_name@),
            i <= self@.len(),
    {
        proof {
            lemma_find_from(self@, class_name@, 0);
        }
        let mut i: usize = 0;
        while i < self.entries.len()
            invariant
                0 <= i <= self.entries@.len(),
                self@.len() == self.entries@.len(),
                find_entry(self@, class_name@) == find_from(self@, class_name@, i as int),
            decreases self.entries@.len() - i,
        {
            proof {
                assert(self@[i as int] == self.entries@[i as int]@);
            }
            if str_eq(self.entries[i].class_name.as_str(), class_name) {
                return i;
            }
            i = i + 1;
        }
        i
    }

    /// Whether a stylesheet named `class_name` is registered.
    pub fn contains(&self, class_name: &str) -> (r: bool)
        ensures
            r == has_entry(self@, class_name@),
    {
        let i = self.find(class_name);
        i < self.entries.len()
    }

    /// The rendered stylesheet text of `class_name`, if it is registered.
    pub fn lookup_css(&self, class_name: &str) -> (r: Option<String>)
        ensures
            match r {
                Some(css) => has_entry(self@, class_name@) && css@ == self@[find_entry(
                    self@,
                    class_name@,
                )].css,
                None => !has_entry(self@, class_name@),
            },
    {
        let i = self.find(class_name);
        if i < self.entries.len() {
            proof {
                assert(self@[i as int] == self.entries@[i as int]@);
            }
            Some(self.entries[i].css.clone())
        } else {
            None
        }
    }

    /// The mount count of `class_name`: how many live handles share its
    /// injected resource; zero when it is not registered.
    pub fn mounted_users(&self, class_name: &str) -> (r: u64)
        ensures
            has_entry(self@, class_name@) ==> r as nat == self@[find_entry(
                self@,
                class_name@,
            )].users,
            !has_entry(self@, class_name@) ==> r == 0,
    {
        let i = self.find(class_name);
        if i < self.entries.len() {
            proof {
                assert(self@[i as int] == self.entries@[i as int]@);
            }
            self.entries[i].users
        } else {
            0
        }
    }
}

// ---------------------------------------------------------------------------
// Style handles
// ---------------------------------------------------------------------------

/// What a successful mount reports.
#[derive(Debug, Clone, Copy, PartialEq, Eq, Structural)]
pub enum MountAction {
    /// The record exists; its mount count was bumped.
    Mounted,
    /// No record of that name is registered; nothing changed.
    Missing,
}

/// What releasing a handle reports.
#[derive(Debug, Clone, Copy, PartialEq, Eq, Structural)]
pub enum UnmountAction {
    /// The last mount was released: the record left the registry and the
    /// caller must remove the injected resource.
    Removed,
    /// Other mounts remain; the injected resource stays.
    StillMounted,
    /// No record of that name is registered; nothing changed.
    Missing,
}

pub open spec fn mount_action_spec(s: Seq<RegEntryView>, name: Seq<char>) -> MountAction {
    if has_entry(s, name) {
        MountAction::Mounted
    } else {
        MountAction::Missing
    }
}

pub open spec fn unmount_action_spec(s: Seq<RegEntryView>, name: Seq<char>) -> UnmountAction {
    let i = find_entry(s, name);
    if i < s.len() {
        if s[i].users > 1 {
            UnmountAction::StillMounted
        } else {
            UnmountAction::Removed
        }
    } else {
        UnmountAction::Missing
    }
}

/// The mathematical content of a style handle.
pub struct StyleView {
    pub class_name: Seq<char>,
    pub ast: Option<Seq<ScopeView>>,
}

/// A handle to one registered stylesheet: its generated class name and its
/// parsed tree.
#[derive(Debug)]
pub struct Style {
    class_name: String,
    ast: Option<Scopes>,
}

impl View for Style {
    type V = StyleView;

    closed spec fn view(&self) -> StyleView {
        StyleView {
            class_name: self.class_name@,
            ast: match self.ast {
                Some(ref sc) => Some(sc@),
                None => None,
            },
        }
    }
}

/// How a freshly generated class name relates to the strategy and the
/// counter: the counter strategy emits `prefix-counter` and advances the
/// counter; the random strategy emits `prefix-` plus a random alphanumeric
/// suffix and leaves the counter alone.
pub open spec fn fresh_name_spec(
    strategy: ClassNameStrategy,
    prefix: Seq<char>,
    counter0: nat,
    name: Seq<char>,
    counter1: nat,
) -> bool {
    match strategy {
        ClassNameStrategy::Counter => name == counter_class_name(prefix, counter0) && counter1
            == counter0 + 1,
        ClassNameStrategy::Random => generated_name(prefix, name) && counter1 == counter0,
    }
}

impl Style {
    /// Registers already-parsed scopes under a fresh class name generated
    /// from `prefix`, rendered and with its mount count at one; the caller
    /// performs the injection.  An existing record of the same name is
    /// replaced.
    pub fn from_scopes(reg: &mut StyleRegistry, prefix: &str, scopes: Scopes) -> (style: Style)
        requires
            old(reg).wf(),
            old(reg).strategy_spec() is Counter ==> old(reg).counter_spec() < u64::MAX,
        ensures
            final(reg).wf(),
            final(reg).strategy_spec() == old(reg).strategy_spec(),
            fresh_name_spec(
                old(reg).strategy_spec(),
                prefix@,
                old(reg).counter_spec(),
                style@.class_name,
                final(reg).counter_spec(),
            ),
            style@.ast == Some(scopes@),
            final(reg)@ == upsert(
                old(reg)@,
                RegEntryView {
                    class_name: style@.class_name,
                    css: scopes_css(scopes@, style@.class_name),
                    users: 1,
                },
            ),
    {
        let name: String;
        match reg.strategy {
            ClassNameStrategy::Counter => {
                let k = reg.counter;
                reg.counter = k + 1;
                name = make_counter_name(prefix, k);
            },
            ClassNameStrategy::Random => {
                name = gen_unique_name(prefix);
            },
        }
        let css = scopes.to_css(name.as_str());
        let ghost entry = RegEntryView { class_name: name@, css: css@, users: 1 };
        let i = reg.find(name.as_str());
        proof {
            lemma_upsert_wf(reg@, entry);
        }
        if i < reg.entries.len() {
            let ghost before = reg@;
            reg.entries[i] = RegEntry { class_name: name.clone(), css, users: 1 };
            proof {
                assert(reg@ =~= before.update(i as int, entry));
            }
        } else {
            let ghost before = reg@;
            reg.entries.push(RegEntry { class_name: name.clone(), css, users: 1 });
            proof {
                assert(reg@ =~= before.push(entry));
            }
        }
        Style { class_name: name, ast: Some(scopes) }
    }

    /// Parses `css_text`, registers the result under a fresh class name
    /// generated from `prefix` with its mount count at one, and returns the
    /// handle; the caller performs the injection.  A parse failure is
    /// returned as is and leaves the registry untouched.
    pub fn create(reg: &mut StyleRegistry, prefix: &str, css_text: &str) -> (r: Result<
        Style,
        ParseError,
    >)
        requires
            old(reg).wf(),
            old(reg).strategy_spec() is Counter ==> old(reg).counter_spec() < u64::MAX,
        ensures
            final(reg).wf(),
            final(reg).strategy_spec() == old(reg).strategy_spec(),
            match r {
                Ok(style) => match parse_spec(css_text@) {
                    Ok(sv) => {
                        &&& style@.ast == Some(sv)
                        &&& fresh_name_spec(
                            old(reg).strategy_spec(),
                            prefix@,
                            old(reg).counter_spec(),
                            style@.class_name,
                            final(reg).counter_spec(),
                        )
                        &&& final(reg)@ == upsert(
                            old(reg)@,
                            RegEntryView {
                                class_name: style@.class_name,
                                css: scopes_css(sv, style@.class_name),
                                users: 1,
                            },
                        )
                    },
                    Err(_) => false,
                },
                Err(e) => parse_spec(css_text@) == Err::<Seq<ScopeView>, ParseError>(e) && final(reg)@
                    == old(reg)@ && final(reg).counter_spec() == old(reg).counter_spec(),
            },
    {
        match parse(css_text) {
            Ok(scopes) => Ok(Style::from_scopes(reg, prefix, scopes)),
            Err(e) => Err(e),
        }
    }

    /// The generated class name of this style.
    pub fn get_class_name(self) -> (r: String)
        ensures
            r@ == self@.class_name,
    {
        self.class_name
    }

    /// The generated class name, without consuming the handle.
    pub fn class_name(&self) -> (r: String)
        ensures
            r@ == self@.class_name,
    {
        self.class_name.clone()
    }

    /// Duplicates the handle, bumping the record's mount count: the copy
    /// shares the injected resource instead of creating a second one.
    pub fn clone_handle(&self, reg: &mut StyleRegistry) -> (copy: Style)
        requires
            old(reg).wf(),
        ensures
            final(reg).wf(),
            final(reg)@ == bump(old(reg)@, self@.class_name),
            final(reg).strategy_spec() == old(reg).strategy_spec(),
            final(reg).counter_spec() == old(reg).counter_spec(),
            copy@ == self@,
    {
        self.mount(reg);
        let ast = match &self.ast {
            Some(sc) => Some(sc.clone()),
            None => None,
        };
        Style { class_name: self.class_name.clone(), ast }
    }

    /// One more mount of this style's record.  The count saturates at the
    /// machine limit rather than wrapping.
    pub fn mount(&self, reg: &mut StyleRegistry) -> (a: MountAction)
        requires
            old(reg).wf(),
        ensures
            final(reg).wf(),
            final(reg)@ == bump(old(reg)@, self@.class_name),
            a == mount_action_spec(old(reg)@, self@.class_name),
            final(reg).strategy_spec() == old(reg).strategy_spec(),
            final(reg).counter_spec() == old(reg).counter_spec(),
    {
        proof {
            lemma_bump_wf(reg@, self@.class_name);
        }
        let i = reg.find(self.class_name.as_str());
        if i < reg.entries.len() {
            proof {
                assert(reg@[i as int] == reg.entries@[i as int]@);
            }
            let u = reg.entries[i].users;
            if u < u64::MAX {
                let ghost before = reg@;
                let ghost e = reg@[i as int];
                reg.entries[i].users = u + 1;
                proof {
                    assert(reg@ =~= before.update(
                        i as int,
                        RegEntryView { class_name: e.class_name, css: e.css, users: e.users + 1 },
                    ));
                }
            }
            MountAction::Mounted
        } else {
            MountAction::Missing
        }
    }

    /// Releases one mount of this style's record.  When the last mount goes,
    /// the record leaves the registry and the caller must remove the
    /// injected resource.
    pub fn unmount(&self, reg: &mut StyleRegistry) -> (a: UnmountAction)
        requires
            old(reg).wf(),
        ensures
            final(reg).wf(),
            final(reg)@ == unbump(old(reg)@, self@.class_name),
            a == unmount_action_spec(old(reg)@, self@.class_name),
            final(reg).strategy_spec() == old(reg).strategy_spec(),
            final(reg).counter_spec() == old(reg).counter_spec(),
    {
        proof {
            lemma_unbump_wf(reg@, self@.class_name);
        }
        let i = reg.find(self.class_name.as_str());
        if i < reg.entries.len() {
            proof {
                assert(reg@[i as int] == reg.entries@[i as int]@);
            }
            let u = reg.entries[i].users;
            if u > 1 {
                let ghost before = reg@;
                let ghost e = reg@[i as int];
                reg.entries[i].users = u - 1;
                proof {
                    assert(reg@ =~= before.update(
                        i as int,
                        RegEntryView {
                            class_name: e.class_name,
                            css: e.css,
                            users: (e.users - 1) as nat,
                        },
                    ));
                }
                UnmountAction::StillMounted
            } else {
                let ghost before = reg@;
                let _ = reg.entries.remove(i);
                proof {
                    assert(reg@ =~= before.remove(i as int));
                }
                UnmountAction::Removed
            }
        } else {
            UnmountAction::Missing
        }
    }

    /// Swaps the stylesheet text of this style's slot for newly parsed
    /// content, keeping the class name and the mount count: the caller
    /// removes the old injected resource and injects the new text.  A parse
    /// failure is returned as is and leaves the registry untouched.
    pub fn replace(&self, reg: &mut StyleRegistry, css_text: &str) -> (r: Result<
        Style,
        ParseError,
    >)
        requires
            old(reg).wf(),
        ensures
            final(reg).wf(),
            final(reg).strategy_spec() == old(reg).strategy_spec(),
            final(reg).counter_spec() == old(reg).counter_spec(),
            match r {
                Ok(style) => match parse_spec(css_text@) {
                    Ok(sv) => {
                        &&& style@.class_name == self@.class_name
                        &&& style@.ast == Some(sv)
                        &&& final(reg)@ == set_css(
                            old(reg)@,
                            self@.class_name,
                            scopes_css(sv, self@.class_name),
                        )
                    },
                    Err(_) => false,
                },
                Err(e) => parse_spec(css_text@) == Err::<Seq<ScopeView>, ParseError>(e) && final(reg)@
                    == old(reg)@,
            },
    {
        match parse(css_text) {
            Ok(scopes) => {
                let css = scopes.to_css(self.class_name.as_str());
                proof {
                    lemma_set_css_wf(reg@, self@.class_name, css@);
                }
                let i = reg.find(self.class_name.as_str());
                if i < reg.entries.len() {
                    proof {
                        assert(reg@[i as int] == reg.entries@[i as int]@);
                    }
                    let ghost before = reg@;
                    let ghost e = reg@[i as int];
                    reg.entries[i].css = css;
                    proof {
                        assert(reg@ =~= before.update(
                            i as int,
                            RegEntryView { class_name: e.class_name, css: css@, users: e.users },
                        ));
                    }
                }
                Ok(Style { class_name: self.class_name.clone(), ast: Some(scopes) })
            },
            Err(e) => Err(e),
        }
    }
}

/// Releasing the last handle removes the record, and removes it exactly
/// once: the release that drops the count from one evicts the record, and a
/// further release finds nothing and changes nothing.
pub proof fn lemma_last_drop_evicts_once(s: Seq<RegEntryView>, name: Seq<char>)
    requires
        reg_wf(s),
        has_entry(s, name),
        s[find_entry(s, name)].users == 1,
    ensures
        !has_entry(unbump(s, name), name),
        unbump(unbump(s, name), name) == unbump(s, name),
{
    lemma_find_from(s, name, 0);
    let i = find_entry(s, name);
    let t = s.remove(i);
    s.remove_ensures(i);
    assert(unbump(s, name) == t);
    lemma_find_from(t, name, 0);
    if has_entry(t, name) {
        let j = find_entry(t, name);
        assert(t[j].class_name == name);
        let j0: int = if j < i {
            j
        } else {
            j + 1
        };
        assert(t[j] == s[j0]);
        assert(s[j0].class_name == s[i].class_name);
        assert(false);
    }
}


/// The two-handles lifecycle: with one handle mounted, duplicating it and
/// releasing the duplicate leaves the record (and so the injected resource)
/// present and restores the registry exactly; releasing the remaining handle
/// removes the record, and it is removed exactly once -- a further release
/// finds nothing and changes nothing.
pub proof fn lemma_two_handles_lifecycle(s: Seq<RegEntryView>, name: Seq<char>)
    requires
        reg_wf(s),
        has_entry(s, name),
        s[find_entry(s, name)].users == 1,
    ensures
        unbump(bump(s, name), name) == s,
        unmount_action_spec(bump(s, name), name) == UnmountAction::StillMounted,
        has_entry(unbump(bump(s, name), name), name),
        unmount_action_spec(unbump(bump(s, name), name), name) == UnmountAction::Removed,
        !has_entry(unbump(unbump(bump(s, name), name), name), name),
        unmount_action_spec(unbump(unbump(bump(s, name), name), name), name)
            == UnmountAction::Missing,
{
    lemma_clone_then_drop_neutral(s, name);
    lemma_last_drop_evicts_once(s, name);
    lemma_find_from(s, name, 0);
    let t = bump(s, name);
    lemma_find_from_same_names(s, t, name, 0);
}

} // verus!

