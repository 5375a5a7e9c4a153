//! Character-level text primitives shared by the parser and the renderer:
//! whitespace classification, scanning for delimiters, trimming, and
//! current-selector substitution, each as a spec function with its verified
//! executable counterpart.

use vstd::prelude::*;
use vstd::string::StrSliceExecFns;
use vstd::string::StringExecFns;

verus! {

/// Whitespace characters of the dialect (the ASCII whitespace set).
pub open spec fn is_space(c: char) -> bool {
    c == ' ' || c == '\t' || c == '\n' || c == '\r' || c == '\x0c'
}

pub fn is_space_exec(c: char) -> (r: bool)
    ensures
        r == is_space(c),
{
    c == ' ' || c == '\t' || c == '\n' || c == '\r' || c == '\x0c'
}

/// Index of the first non-whitespace character in `s[pos..end]`, or `end`.
pub open spec fn skip_ws_to(s: Seq<char>, pos: int, end: int) -> int
    decreases end - pos,
{
    if pos < end && is_space(s[pos]) {
        skip_ws_to(s, pos + 1, end)
    } else {
        pos
    }
}

pub proof fn lemma_skip_ws_to(s: Seq<char>, from: int, to: int)
    requires
        0 <= from <= to <= s.len(),
    ensures
        from <= skip_ws_to(s, from, to) <= to,
        forall|i: int| from <= i < skip_ws_to(s, from, to) ==> is_space(s[i]),
        skip_ws_to(s, from, to) < to ==> !is_space(s[skip_ws_to(s, from, to)]),
    decreases to - from,
{
    if from < to && is_space(s[from]) {
        lemma_skip_ws_to(s, from + 1, to);
    }
}

/// One past the last non-whitespace character in `s[from..end]`, or `from`.
pub open spec fn rskip_ws_from(s: Seq<char>, from: int, end: int) -> int
    decreases end - from,
{
    if end > from && is_space(s[end - 1]) {
        rskip_ws_from(s, from, end - 1)
    } else {
        end
    }
}

pub proof fn lemma_rskip_ws_from(s: Seq<char>, from: int, to: int)
    requires
        0 <= from <= to <= s.len(),
    ensures
        from <= rskip_ws_from(s, from, to) <= to,
        forall|i: int| rskip_ws_from(s, from, to) <= i < to ==> is_space(s[i]),
        rskip_ws_from(s, from, to) > from ==> !is_space(s[rskip_ws_from(s, from, to) - 1]),
    decreases to - from,
{
    if to > from && is_space(s[to - 1]) {
        lemma_rskip_ws_from(s, from, to - 1);
    }
}

/// The segment `s[from..to]` with leading and trailing whitespace removed.
pub open spec fn trimmed_range(s: Seq<char>, from: int, to: int) -> Seq<char> {
    let a = skip_ws_to(s, from, to);
    let b = rskip_ws_from(s, a, to);
    s.subrange(a, b)
}

/// `s` with leading and trailing whitespace removed.
pub open spec fn trimmed(s: Seq<char>) -> Seq<char> {
    trimmed_range(s, 0, s.len() as int)
}

/// Copies `s[from..to]` without its leading and trailing whitespace.
pub fn trimmed_sub(s: &str, from: usize, to: usize) -> (r: String)
    requires
        from <= to <= s@.len(),
    ensures
        r@ == trimmed_range(s@, from as int, to as int),
{
    proof {
        lemma_skip_ws_to(s@, from as int, to as int);
    }
    let mut a: usize = from;
    while a < to && is_space_exec(s.get_char(a))
        invariant
            from <= a <= to <= s@.len(),
            skip_ws_to(s@, from as int, to as int) == skip_ws_to(s@, a as int, to as int),
        decreases to - a,
    {
        a = a + 1;
    }
    proof {
        lemma_rskip_ws_from(s@, a as int, to as int);
    }
    let mut b: usize = to;
    while b > a && is_space_exec(s.get_char(b - 1))
        invariant
            a <= b <= to <= s@.len(),
            rskip_ws_from(s@, a as int, to as int) == rskip_ws_from(s@, a as int, b as int),
        decreases b,
    {
        b = b - 1;
    }
    let piece = s.substring_char(a, b);
    String::from_str(piece)
}

/// Copies `s` without its leading and trailing whitespace.
pub fn trimmed_string(s: &str) -> (r: String)
    ensures
        r@ == trimmed(s@),
{
    let n = s.unicode_len();
    trimmed_sub(s, 0, n)
}

/// First index at or after `pos` where `c` occurs in `s[..end]`, or `end`.
pub open spec fn find_char_to(s: Seq<char>, pos: int, end: int, c: char) -> int
    decreases end - pos,
{
    if pos < end && s[pos] != c {
        find_char_to(s, pos + 1, end, c)
    } else {
        pos
    }
}

pub proof fn lemma_find_char_to(s: Seq<char>, pos: int, end: int, c: char)
    requires
        0 <= pos <= end <= s.len(),
    ensures
        pos <= find_char_to(s, pos, end, c) <= end,
        forall|i: int| pos <= i < find_char_to(s, pos, end, c) ==> s[i] != c,
        find_char_to(s, pos, end, c) < end ==> s[find_char_to(s, pos, end, c)] == c,
    decreases end - pos,
{
    if pos < end && s[pos] != c {
        lemma_find_char_to(s, pos + 1, end, c);
    }
}

pub fn find_char_to_exec(s: &str, pos: usize, end: usize, c: char) -> (r: usize)
    requires
        pos <= end <= s@.len(),
    ensures
        r == find_char_to(s@, pos as int, end as int, c),
        pos <= r <= end,
{
    proof {
        lemma_find_char_to(s@, pos as int, end as int, c);
    }
    let mut i: usize = pos;
    while i < end && s.get_char(i) != c
        invariant
            pos <= i <= end <= s@.len(),
            find_char_to(s@, pos as int, end as int, c) == find_char_to(s@, i as int, end as int, c),
        decreases end - i,
    {
        i = i + 1;
    }
    i
}

/// Characters that end a flat item: a block opener, a declaration end, a block end.
pub open spec fn is_item_delim(c: char) -> bool {
    c == '{' || c == ';' || c == '}'
}

pub fn is_item_delim_exec(c: char) -> (r: bool)
    ensures
        r == is_item_delim(c),
{
    c == '{' || c == ';' || c == '}'
}

/// First index at or after `pos` holding an item delimiter, or `s.len()`.
pub open spec fn scan_item_end(s: Seq<char>, pos: int) -> int
    decreases s.len() - pos,
{
    if pos < s.len() && !is_item_delim(s[pos]) {
        scan_item_end(s, pos + 1)
    } else {
        pos
    }
}

pub proof fn lemma_scan_item_end(s: Seq<char>, pos: int)
    requires
        0 <= pos <= s.len(),
    ensures
        pos <= scan_item_end(s, pos) <= s.len(),
        forall|i: int| pos <= i < scan_item_end(s, pos) ==> !is_item_delim(s[i]),
        scan_item_end(s, pos) < s.len() ==> is_item_delim(s[scan_item_end(s, pos)]),
    decreases s.len() - pos,
{
    if pos < s.len() && !is_item_delim(s[pos]) {
        lemma_scan_item_end(s, pos + 1);
    }
}

pub fn scan_item_end_exec(s: &str, pos: usize, n: usize) -> (r: usize)
    requires
        pos <= n,
        n as nat == s@.len(),
    ensures
        r == scan_item_end(s@, pos as int),
        pos <= r <= n,
{
    proof {
        lemma_scan_item_end(s@, pos as int);
    }
    let mut i: usize = pos;
    while i < n && !is_item_delim_exec(s.get_char(i))
        invariant
            pos <= i <= n,
            n as nat == s@.len(),
            scan_item_end(s@, pos as int) == scan_item_end(s@, i as int),
        decreases n - i,
    {
        i = i + 1;
    }
    i
}

/// First index at or after `pos` holding whitespace in `s[..end]`, or `end`.
pub open spec fn find_space_to(s: Seq<char>, pos: int, end: int) -> int
    decreases end - pos,
{
    if pos < end && !is_space(s[pos]) {
        find_space_to(s, pos + 1, end)
    } else {
        pos
    }
}

pub proof fn lemma_find_space_to(s: Seq<char>, pos: int, end: int)
    requires
        0 <= pos <= end <= s.len(),
    ensures
        pos <= find_space_to(s, pos, end) <= end,
    decreases end - pos,
{
    if pos < end && !is_space(s[pos]) {
        lemma_find_space_to(s, pos + 1, end);
    }
}

pub fn find_space_to_exec(s: &str, pos: usize, end: usize) -> (r: usize)
    requires
        pos <= end <= s@.len(),
    ensures
        r == find_space_to(s@, pos as int, end as int),
        pos <= r <= end,
{
    proof {
        lemma_find_space_to(s@, pos as int, end as int);
    }
    let mut i: usize = pos;
    while i < end && !is_space_exec(s.get_char(i))
        invariant
            pos <= i <= end <= s@.len(),
            find_space_to(s@, pos as int, end as int) == find_space_to(s@, i as int, end as int),
        decreases end - i,
    {
        i = i + 1;
    }
    i
}

/// Whether `c` occurs in `s`.
pub open spec fn contains_char(s: Seq<char>, c: char) -> bool {
    exists|i: int| 0 <= i < s.len() && s[i] == c
}

pub fn contains_char_exec(s: &str, c: char) -> (r: bool)
    ensures
        r == contains_char(s@, c),
{
    let n = s.unicode_len();
    let mut i: usize = 0;
    while i < n
        invariant
            0 <= i <= n,
            n as nat == s@.len(),
            forall|j: int| 0 <= j < i ==> s@[j] != c,
        decreases n - i,
    {
        if s.get_char(i) == c {
            return true;
        }
        i = i + 1;
    }
    false
}

/// `s` with every occurrence of `c` replaced by `rep`.
pub open spec fn replace_char(s: Seq<char>, c: char, rep: Seq<char>) -> Seq<char>
    decreases s.len(),
{
    if s.len() == 0 {
        Seq::empty()
    } else {
        replace_char(s.drop_last(), c, rep) + (if s.last() == c {
            rep
        } else {
            seq![s.last()]
        })
    }
}

pub fn replace_char_exec(s: &str, c: char, rep: &str) -> (r: String)
    ensures
        r@ == replace_char(s@, c, rep@),
{
    let n = s.unicode_len();
    let mut out = String::new();
    let mut i: usize = 0;
    while i < n
        invariant
            0 <= i <= n,
            n as nat == s@.len(),
            out@ == replace_char(s@.subrange(0, i as int), c, rep@),
        decreases n - i,
    {
        let ch = s.get_char(i);
        if ch == c {
            out.append(rep);
        } else {
            out.append(s.substring_char(i, i + 1));
        }
        proof {
            let pre = s@.subrange(0, i as int);
            let cur = s@.subrange(0, i + 1 as int);
            assert(cur.drop_last() =~= pre);
            assert(cur.last() == s@[i as int]);
            if ch != c {
                assert(s@.subrange(i as int, i + 1 as int) =~= seq![s@[i as int]]);
            }
        }
        i = i + 1;
    }
    proof {
        assert(s@.subrange(0, n as int) =~= s@);
    }
    out
}

/// Whether the character sequences of two string slices are equal.
pub fn str_eq(a: &str, b: &str) -> (r: bool)
    ensures
        r == (a@ == b@),
{
    let na = a.unicode_len();
    let nb = b.unicode_len();
    if na != nb {
        proof {
            assert(a@.len() != b@.len());
        }
        return false;
    }
    let mut i: usize = 0;
    while i < na
        invariant
            0 <= i <= na,
            na as nat == a@.len(),
            na as nat == b@.len(),
            forall|j: int| 0 <= j < i ==> a@[j] == b@[j],
        decreases na - i,
    {
        if a.get_char(i) != b.get_char(i) {
            return false;
        }
        i = i + 1;
    }
    proof {
        assert(a@ =~= b@);
    }
    true
}

} // verus!
