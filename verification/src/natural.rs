//! The natural lexicographic order on names.
//!
//! Names are compared through the `lexical-sort` crate: characters are
//! folded to their closest ASCII letters case-insensitively, runs of ASCII
//! digits are compared by numeric value (so `file2` comes before `file10`),
//! and equal foldings fall back to plain character order.
//!
//! The outside comparison accumulates a digit run into a fixed-width
//! integer, so it must not be asked about a pair of names whose foldings
//! both carry twenty or more digits abreast: on such a pair the
//! accumulation can overflow.  [`name_le`] therefore orders such a pair by
//! plain character codes instead, through the verified [`code_cmp`]; every
//! other pair keeps the natural order.

use vstd::prelude::*;
use crate::codec::is_digit_char;

verus! {

/// How `lexical_sort::natural_lexical_cmp` orders two strings, written as
/// -1, 0 or 1.  The result is a function of the two strings alone: the
/// comparison walks fixed folding tables and compares digit runs by value.
pub uninterp spec fn natural_cmp_of(a: Seq<char>, b: Seq<char>) -> int;

/// The ASCII folding of a string: the exact character stream the natural
/// comparison walks.
pub uninterp spec fn lexical_folding(s: Seq<char>) -> Seq<char>;

/// Digits throughout `[from, to)`.
pub open spec fn all_digits(s: Seq<char>, from: int, to: int) -> bool {
    forall|j: int| from <= j < to ==> is_digit_char(#[trigger] s[j])
}

/// A run of `k` or more ASCII digits somewhere in `s`.
pub open spec fn has_digit_run(s: Seq<char>, k: int) -> bool {
    exists|i: int| 0 <= i && i + k <= s.len() && #[trigger] all_digits(s, i, i + k)
}

/// Plain character-code order: the first differing code decides, a prefix
/// comes before its extensions.
pub open spec fn code_cmp(a: Seq<char>, b: Seq<char>) -> int
    decreases a.len(),
{
    if a.len() == 0 && b.len() == 0 {
        0
    } else if a.len() == 0 {
        -1
    } else if b.len() == 0 {
        1
    } else if (a[0] as u32) < (b[0] as u32) {
        -1
    } else if (a[0] as u32) > (b[0] as u32) {
        1
    } else {
        code_cmp(a.drop_first(), b.drop_first())
    }
}

/// How two names tie-break in the ranked order: the natural lexicographic
/// order — except that a pair whose foldings both carry a twenty-digit run
/// is ordered by plain character codes, since the outside comparison may
/// not be asked about it.
pub open spec fn name_le(a: Seq<char>, b: Seq<char>) -> bool {
    if has_digit_run(lexical_folding(a), 20) && has_digit_run(lexical_folding(b), 20) {
        code_cmp(a, b) <= 0
    } else {
        natural_cmp_of(a, b) <= 0
    }
}

/// Relies on `lexical_sort::iter::iterate_lexical`: the folding of a string
/// depends on the string alone (fixed transliteration tables), and it is
/// the stream `natural_lexical_cmp` reads.
#[verifier::external_body]
fn lexical_fold(s: &str) -> (r: String)
    ensures
        r@ == lexical_folding(s@),
{
    lexical_sort::iter::iterate_lexical(s).collect()
}

/// Relies on `lexical_sort::natural_lexical_cmp`: its result depends on the
/// two strings alone; equal strings compare equal (the comparison walks
/// both strings in step and ends in `Ordering::Equal`); and swapping the
/// arguments reverses the result (every branch of the comparison — the
/// folded characters, the digit runs and the final plain fallback — is
/// symmetric in its two sides).
///
/// The comparison reads digit runs of both foldings in step into 64-bit
/// accumulators, so a pair on which both sides keep producing digits for
/// twenty steps can overflow them; the precondition keeps such pairs out
/// (one side whose folded digit runs stop short of twenty bounds the walk,
/// since the run comparison stops at the first non-digit on either side).
#[verifier::external_body]
pub(crate) fn natural_cmp(a: &str, b: &str) -> (r: i8)
    requires
        !has_digit_run(lexical_folding(a@), 20) || !has_digit_run(lexical_folding(b@), 20),
    ensures
        r as int == natural_cmp_of(a@, b@),
        -1 <= r as int <= 1,
        a@ == b@ ==> r == 0,
        natural_cmp_of(b@, a@) == -(r as int),
{
    match lexical_sort::natural_lexical_cmp(a, b) {
        core::cmp::Ordering::Less => -1,
        core::cmp::Ordering::Equal => 0,
        core::cmp::Ordering::Greater => 1,
    }
}

/// Whether the string holds twenty digits in a row.
fn has_long_digit_run(s: &str) -> (r: bool)
    ensures
        r == has_digit_run(s@, 20),
{
    let n = s.unicode_len();
    let mut i: usize = 0;
    let mut run: usize = 0;
    while i < n
        invariant
            i <= n,
            n == s@.len(),
            run <= i,
            run < 20,
            forall|j: int| i - run <= j < i ==> is_digit_char(#[trigger] s@[j]),
            run == i || !is_digit_char(s@[i - run - 1]),
            forall|w: int| 0 <= w && w + 20 <= i ==> !(#[trigger] all_digits(s@, w, w + 20)),
        decreases n - i,
    {
        let c = s.get_char(i);
        let u = c as u32;
        if 48 <= u && u <= 57 {
            run += 1;
            if run == 20 {
                assert(has_digit_run(s@, 20)) by {
                    let w = i - 19;
                    assert(all_digits(s@, w, w + 20));
                }
                return true;
            }
            assert forall|w: int|
                0 <= w && w + 20 <= i + 1 implies !(#[trigger] all_digits(s@, w, w + 20)) by {
                if w + 20 == i + 1 {
                    assert(!is_digit_char(s@[i - run]));
                }
            }
        } else {
            run = 0;
            assert forall|w: int|
                0 <= w && w + 20 <= i + 1 implies !(#[trigger] all_digits(s@, w, w + 20)) by {
                if w + 20 == i + 1 {
                    assert(!is_digit_char(s@[i as int]));
                }
            }
        }
        i += 1;
    }
    assert(!has_digit_run(s@, 20)) by {
        if has_digit_run(s@, 20) {
            let w = choose|w: int|
                0 <= w && w + 20 <= s@.len() && #[trigger] all_digits(s@, w, w + 20);
            assert(!all_digits(s@, w, w + 20));
        }
    }
    false
}

/// Swapping the arguments of the code order reverses it.
proof fn lemma_code_cmp_antisym(a: Seq<char>, b: Seq<char>)
    ensures
        code_cmp(b, a) == -code_cmp(a, b),
    decreases a.len(),
{
    if a.len() > 0 && b.len() > 0 && a[0] as u32 == b[0] as u32 {
        lemma_code_cmp_antisym(a.drop_first(), b.drop_first());
    }
}

proof fn lemma_code_cmp_at(a: Seq<char>, b: Seq<char>, i: int)
    requires
        0 <= i <= a.len(),
        i <= b.len(),
        forall|j: int| 0 <= j < i ==> (#[trigger] a[j]) as u32 == b[j] as u32,
        i == a.len() || i == b.len() || a[i] as u32 != b[i] as u32,
    ensures
        code_cmp(a, b) == if i == a.len() && i == b.len() {
            0
        } else if i == a.len() {
            -1
        } else if i == b.len() {
            1
        } else if (a[i] as u32) < (b[i] as u32) {
            -1
        } else {
            1
        },
    decreases i,
{
    if i > 0 {
        let da = a.drop_first();
        let db = b.drop_first();
        assert(forall|j: int| 0 <= j < i - 1 ==> (#[trigger] da[j]) as u32 == db[j] as u32);
        lemma_code_cmp_at(da, db, i - 1);
    }
}

/// The plain character-code comparison, by characters.
fn code_cmp_exec(a: &str, b: &str) -> (r: i8)
    ensures
        r as int == code_cmp(a@, b@),
{
    let na = a.unicode_len();
    let nb = b.unicode_len();
    let mut i: usize = 0;
    while i < na && i < nb
        invariant
            i <= na,
            i <= nb,
            na == a@.len(),
            nb == b@.len(),
            forall|j: int| 0 <= j < i ==> (#[trigger] a@[j]) as u32 == b@[j] as u32,
        decreases na - i,
    {
        let ua = a.get_char(i) as u32;
        let ub = b.get_char(i) as u32;
        if ua < ub {
            proof {
                lemma_code_cmp_at(a@, b@, i as int);
            }
            return -1;
        }
        if ua > ub {
            proof {
                lemma_code_cmp_at(a@, b@, i as int);
            }
            return 1;
        }
        i += 1;
    }
    proof {
        lemma_code_cmp_at(a@, b@, i as int);
    }
    if na == nb {
        0
    } else if na < nb {
        -1
    } else {
        1
    }
}

/// Whether `a` ties at or before `b`, by [`name_le`]; any two names are
/// comparable.
pub(crate) fn name_le_exec(a: &str, b: &str) -> (r: bool)
    ensures
        r == name_le(a@, b@),
        name_le(a@, b@) || name_le(b@, a@),
{
    let fa = lexical_fold(a);
    let fb = lexical_fold(b);
    let da = has_long_digit_run(fa.as_str());
    let db = has_long_digit_run(fb.as_str());
    if da && db {
        let c = code_cmp_exec(a, b);
        proof {
            lemma_code_cmp_antisym(a@, b@);
        }
        c <= 0
    } else {
        natural_cmp(a, b) <= 0
    }
}

} // verus!
