//! The class-name generator.
//!
//! A class name is a caller-chosen prefix, a dash, and a suffix.  Two
//! strategies exist: a random suffix of [`SUFFIX_LEN`] alphanumeric
//! characters, and a deterministic decimal counter.  Counter suffixes are
//! proved injective, so one registry never produces the same counter name
//! twice; random suffixes are collision-resistant by their length.

use vstd::prelude::*;
use vstd::string::StringExecFns;

use rand::distr::SampleString;

verus! {

/// The length of a random class-name suffix.
pub const SUFFIX_LEN: usize = 30;

// ---------------------------------------------------------------------------
// Decimal rendering of counters
// ---------------------------------------------------------------------------

/// The decimal digit character for `d` in `0..10`.
pub open spec fn digit_char(d: int) -> char {
    if d == 0 {
        '0'
    } else if d == 1 {
        '1'
    } else if d == 2 {
        '2'
    } else if d == 3 {
        '3'
    } else if d == 4 {
        '4'
    } else if d == 5 {
        '5'
    } else if d == 6 {
        '6'
    } else if d == 7 {
        '7'
    } else if d == 8 {
        '8'
    } else {
        '9'
    }
}

/// The decimal rendering of `n`, most significant digit first.
pub open spec fn dec_digits(n: nat) -> Seq<char>
    decreases n,
{
    if n < 10 {
        seq![digit_char(n as int)]
    } else {
        dec_digits(n / 10) + seq![digit_char((n % 10) as int)]
    }
}

pub proof fn lemma_dec_digits_len(n: nat)
    ensures
        dec_digits(n).len() >= 1,
    decreases n,
{
    if n >= 10 {
        lemma_dec_digits_len(n / 10);
    }
}

/// Distinct numbers have distinct decimal renderings.
pub proof fn lemma_dec_digits_injective(a: nat, b: nat)
    requires
        dec_digits(a) == dec_digits(b),
    ensures
        a == b,
    decreases a + b,
{
    lemma_dec_digits_len(a);
    lemma_dec_digits_len(b);
    if a < 10 && b < 10 {
        assert(dec_digits(a)[0] == digit_char(a as int));
        assert(dec_digits(b)[0] == digit_char(b as int));
    } else if a < 10 && b >= 10 {
        lemma_dec_digits_len(b / 10);
        assert(dec_digits(b).len() >= 2);
        assert(dec_digits(a).len() == 1);
    } else if a >= 10 && b < 10 {
        lemma_dec_digits_len(a / 10);
        assert(dec_digits(a).len() >= 2);
        assert(dec_digits(b).len() == 1);
    } else {
        let da = dec_digits(a / 10);
        let db = dec_digits(b / 10);
        assert(dec_digits(a).last() == digit_char((a % 10) as int));
        assert(dec_digits(b).last() == digit_char((b % 10) as int));
        assert(a % 10 == b % 10);
        assert(dec_digits(a).drop_last() =~= da);
        assert(dec_digits(b).drop_last() =~= db);
        lemma_dec_digits_injective(a / 10, b / 10);
        assert(a == 10 * (a / 10) + a % 10);
        assert(b == 10 * (b / 10) + b % 10);
    }
}

fn digit_string(d: u64) -> (r: String)
    requires
        d < 10,
    ensures
        r@ == seq![digit_char(d as int)],
{
    if d == 0 {
        let r = String::from_str("0");
        proof {
            reveal_strlit("0");
            assert(r@ =~= seq![digit_char(d as int)]);
        }
        r
    } else if d == 1 {
        let r = String::from_str("1");
        proof {
            reveal_strlit("1");
            assert(r@ =~= seq![digit_char(d as int)]);
        }
        r
    } else if d == 2 {
        let r = String::from_str("2");
        proof {
            reveal_strlit("2");
            assert(r@ =~= seq![digit_char(d as int)]);
        }
        r
    } else if d == 3 {
        let r = String::from_str("3");
        proof {
            reveal_strlit("3");
            assert(r@ =~= seq![digit_char(d as int)]);
        }
        r
    } else if d == 4 {
        let r = String::from_str("4");
        proof {
            reveal_strlit("4");
            assert(r@ =~= seq![digit_char(d as int)]);
        }
        r
    } else if d == 5 {
        let r = String::from_str("5");
        proof {
            reveal_strlit("5");
            assert(r@ =~= seq![digit_char(d as int)]);
        }
        r
    } else if d == 6 {
        let r = String::from_str("6");
        proof {
            reveal_strlit("6");
            assert(r@ =~= seq![digit_char(d as int)]);
        }
        r
    } else if d == 7 {
        let r = String::from_str("7");
        proof {
            reveal_strlit("7");
            assert(r@ =~= seq![digit_char(d as int)]);
        }
        r
    } else if d == 8 {
        let r = String::from_str("8");
        proof {
            reveal_strlit("8");
            assert(r@ =~= seq![digit_char(d as int)]);
        }
        r
    } else {
        let r = String::from_str("9");
        proof {
            reveal_strlit("9");
            assert(r@ =~= seq![digit_char(d as int)]);
        }
        r
    }
}

/// Renders `n` in decimal.
pub fn u64_to_dec(n: u64) -> (r: String)
    ensures
        r@ == dec_digits(n as nat),
    decreases n,
{
    if n < 10 {
        digit_string(n)
    } else {
        let mut r = u64_to_dec(n / 10);
        let last = digit_string(n % 10);
        r.append(last.as_str());
        proof {
            assert(r@ =~= dec_digits(n as nat));
        }
        r
    }
}

// ---------------------------------------------------------------------------
// Class names
// ---------------------------------------------------------------------------

/// The class name of the counter strategy: `prefix-k` in decimal.
pub open spec fn counter_class_name(prefix: Seq<char>, k: nat) -> Seq<char> {
    prefix + seq!['-'] + dec_digits(k)
}

/// With one prefix, distinct counter values give distinct class names: the
/// names a counter-strategy registry generates never repeat.
pub proof fn lemma_counter_class_name_injective(prefix: Seq<char>, k1: nat, k2: nat)
    requires
        k1 != k2,
    ensures
        counter_class_name(prefix, k1) != counter_class_name(prefix, k2),
{
    let n1 = counter_class_name(prefix, k1);
    let n2 = counter_class_name(prefix, k2);
    if n1 == n2 {
        assert(dec_digits(k1) =~= n1.subrange(prefix.len() as int + 1, n1.len() as int));
        assert(dec_digits(k2) =~= n2.subrange(prefix.len() as int + 1, n2.len() as int));
        lemma_dec_digits_injective(k1, k2);
    }
}

/// Two successive creations under the counter strategy, whatever the shared
/// prefix, yield distinct class names: nothing is accidentally interned.
pub proof fn lemma_successive_counter_names_distinct(prefix: Seq<char>, k: nat)
    ensures
        counter_class_name(prefix, k) != counter_class_name(prefix, k + 1),
{
    lemma_counter_class_name_injective(prefix, k, k + 1);
}

pub fn make_counter_name(prefix: &str, k: u64) -> (r: String)
    ensures
        r@ == counter_class_name(prefix@, k as nat),
{
    let mut r = String::from_str(prefix);
    r.append("-");
    let digits = u64_to_dec(k);
    r.append(digits.as_str());
    proof {
        reveal_strlit("-");
        assert(r@ =~= counter_class_name(prefix@, k as nat));
    }
    r
}

// ---------------------------------------------------------------------------
// Random suffixes
// ---------------------------------------------------------------------------

/// An ASCII letter or digit.
pub open spec fn is_alnum(c: char) -> bool {
    ('a' <= c && c <= 'z') || ('A' <= c && c <= 'Z') || ('0' <= c && c <= '9')
}

/// Relies on rand's `Alphanumeric` distribution: every sampled character is
/// one of a-z, A-Z, 0-9, and `SampleString::sample_string` draws exactly
/// `len` of them.  Nothing is assumed about which characters come back.
#[verifier::external_body]
fn random_alnum_string(len: usize) -> (r: String)
    ensures
        r@.len() == len as nat,
        forall|i: int| 0 <= i < r@.len() ==> is_alnum(#[trigger] r@[i]),
{
    rand::distr::Alphanumeric.sample_string(&mut rand::rng(), len)
}

/// The shape of every name the random strategy generates from `prefix`.
pub open spec fn generated_name(prefix: Seq<char>, name: Seq<char>) -> bool {
    &&& name.len() == prefix.len() + 1 + SUFFIX_LEN
    &&& name.subrange(0, prefix.len() as int) == prefix
    &&& name[prefix.len() as int] == '-'
    &&& forall|i: int| prefix.len() + 1 <= i < name.len() ==> is_alnum(#[trigger] name[i])
}

/// A fresh class name for `prefix`: the prefix, a dash, and a random
/// alphanumeric suffix.
pub fn gen_unique_name(prefix: &str) -> (r: String)
    ensures
        generated_name(prefix@, r@),
{
    let mut out = String::from_str(prefix);
    out.append("-");
    let suffix = random_alnum_string(SUFFIX_LEN);
    out.append(suffix.as_str());
    proof {
        reveal_strlit("-");
        assert(out@ =~= prefix@ + seq!['-'] + suffix@);
        assert(out@.subrange(0, prefix@.len() as int) =~= prefix@);
        assert forall|i: int| prefix@.len() + 1 <= i < out@.len() implies is_alnum(
            #[trigger] out@[i],
        ) by {
            assert(out@[i] == suffix@[i - prefix@.len() - 1]);
        }
    }
    out
}

} // verus!
