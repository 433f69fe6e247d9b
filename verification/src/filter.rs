//! The filter engine: the ranked catalog narrowed by the typed input.
//!
//! The filtered view is re-derived from scratch on every change of the
//! input; catalogs hold a few thousand items at most, so correctness is
//! preferred over incremental bookkeeping.

use vstd::prelude::*;
use crate::item::{Item, ItemModel, name_of};
use crate::pattern::{Matcher, regex_match};

verus! {

/// Whether `input` stands at the front of `name`.
pub open spec fn is_prefix_of(input: Seq<char>, name: Seq<char>) -> bool {
    input.len() <= name.len() && name.subrange(0, input.len() as int) == input
}

/// The pattern half of the filter state, as a value: the source of the
/// compiled pattern, if one is held.
pub open spec fn matcher_view(m: Option<Matcher>) -> Option<Seq<char>> {
    match m {
        Some(x) => Some(x@),
        None => None,
    }
}

/// Whether one item passes the filter.  Literal mode: the name starts with
/// the input, case-sensitively.  Pattern mode: the compiled pattern matches
/// anywhere in the name; where no compiled pattern is held (the input
/// failed to compile) everything passes — the fallback this library fixes
/// for malformed patterns.
pub open spec fn passes(it: ItemModel, literal: bool, input: Seq<char>, pat: Option<Seq<char>>) -> bool {
    if literal {
        is_prefix_of(input, name_of(it))
    } else {
        match pat {
            Some(p) => regex_match(p, name_of(it)),
            None => true,
        }
    }
}

/// The filtered view: the items that pass, in their ranked order.
pub open spec fn filtered_spec(
    items: Seq<ItemModel>,
    literal: bool,
    input: Seq<char>,
    pat: Option<Seq<char>>,
) -> Seq<ItemModel>
    decreases items.len(),
{
    if items.len() == 0 {
        Seq::empty()
    } else {
        let rest = filtered_spec(items.drop_last(), literal, input, pat);
        if passes(items.last(), literal, input, pat) {
            rest.push(items.last())
        } else {
            rest
        }
    }
}

/// One more item at the end passes through the filter unchanged or joins
/// the end of the view.
pub proof fn lemma_filtered_push(
    s: Seq<ItemModel>,
    x: ItemModel,
    literal: bool,
    input: Seq<char>,
    pat: Option<Seq<char>>,
)
    ensures
        filtered_spec(s.push(x), literal, input, pat) == if passes(x, literal, input, pat) {
            filtered_spec(s, literal, input, pat).push(x)
        } else {
            filtered_spec(s, literal, input, pat)
        },
{
    assert(s.push(x).drop_last() =~= s);
    assert(s.push(x).last() == x);
}

/// The filter distributes over concatenation.
pub proof fn lemma_filtered_concat(
    a: Seq<ItemModel>,
    b: Seq<ItemModel>,
    literal: bool,
    input: Seq<char>,
    pat: Option<Seq<char>>,
)
    ensures
        filtered_spec(a + b, literal, input, pat) == filtered_spec(a, literal, input, pat)
            + filtered_spec(b, literal, input, pat),
    decreases b.len(),
{
    if b.len() == 0 {
        assert(a + b =~= a);
        assert(filtered_spec(b, literal, input, pat) =~= Seq::<ItemModel>::empty());
        assert(filtered_spec(a, literal, input, pat) + filtered_spec(b, literal, input, pat)
            =~= filtered_spec(a, literal, input, pat));
    } else {
        lemma_filtered_concat(a, b.drop_last(), literal, input, pat);
        assert((a + b).drop_last() =~= a + b.drop_last());
        assert((a + b).last() == b.last());
        assert(b.drop_last().push(b.last()) =~= b);
        lemma_filtered_push(b.drop_last(), b.last(), literal, input, pat);
        if passes(b.last(), literal, input, pat) {
            assert(filtered_spec(a + b, literal, input, pat) =~= filtered_spec(
                a,
                literal,
                input,
                pat,
            ) + filtered_spec(b, literal, input, pat));
        } else {
            assert(filtered_spec(a + b, literal, input, pat) =~= filtered_spec(
                a,
                literal,
                input,
                pat,
            ) + filtered_spec(b, literal, input, pat));
        }
    }
}

/// The view is never longer than the catalog.
pub proof fn lemma_filtered_len_le(
    s: Seq<ItemModel>,
    literal: bool,
    input: Seq<char>,
    pat: Option<Seq<char>>,
)
    ensures
        filtered_spec(s, literal, input, pat).len() <= s.len(),
    decreases s.len(),
{
    if s.len() > 0 {
        lemma_filtered_len_le(s.drop_last(), literal, input, pat);
    }
}

/// Whether `name` starts with `input`, by characters.
pub fn starts_with(name: &str, input: &str) -> (r: bool)
    ensures
        r == is_prefix_of(input@, name@),
{
    let ni = input.unicode_len();
    let nn = name.unicode_len();
    if ni > nn {
        return false;
    }
    let mut i: usize = 0;
    while i < ni
        invariant
            i <= ni,
            ni == input@.len(),
            nn == name@.len(),
            ni <= nn,
            forall|j: int| 0 <= j < i ==> name@[j] == input@[j],
        decreases ni - i,
    {
        if name.get_char(i) != input.get_char(i) {
            assert(name@.subrange(0, ni as int)[i as int] == name@[i as int]);
            return false;
        }
        i += 1;
    }
    assert(name@.subrange(0, ni as int) =~= input@);
    true
}

/// Whether one item passes the current filter.
pub(crate) fn item_passes(it: &Item, literal: bool, input: &str, matcher: &Option<Matcher>) -> (r:
    bool)
    ensures
        r == passes(it@, literal, input@, matcher_view(*matcher)),
{
    if literal {
        starts_with(it.name(), input)
    } else {
        match matcher {
            Some(m) => m.is_match(it.name()),
            None => true,
        }
    }
}

/// The length of the filtered view.
pub(crate) fn filtered_len(
    items: &Vec<Item>,
    literal: bool,
    input: &str,
    matcher: &Option<Matcher>,
) -> (r: usize)
    ensures
        r == filtered_spec(items.deep_view(), literal, input@, matcher_view(*matcher)).len(),
{
    let ghost dv = items.deep_view();
    let n = items.len();
    let mut c: usize = 0;
    let mut i: usize = 0;
    proof {
        assert(dv.take(0) =~= Seq::<ItemModel>::empty());
    }
    while i < n
        invariant
            i <= n,
            n == items@.len(),
            dv == items.deep_view(),
            dv.len() == n,
            c <= i,
            c == filtered_spec(dv.take(i as int), literal, input@, matcher_view(*matcher)).len(),
        decreases n - i,
    {
        proof {
            assert(dv.take(i + 1) =~= dv.take(i as int).push(dv[i as int]));
            lemma_filtered_push(dv.take(i as int), dv[i as int], literal, input@, matcher_view(*matcher));
        }
        if item_passes(&items[i], literal, input, matcher) {
            assert(items@[i as int]@ == dv[i as int]);
            c += 1;
        }
        i += 1;
    }
    proof {
        assert(dv.take(n as int) =~= dv);
    }
    c
}

/// The catalog position of the `k`-th item of the filtered view.
pub(crate) fn nth_filtered(
    items: &Vec<Item>,
    literal: bool,
    input: &str,
    matcher: &Option<Matcher>,
    k: usize,
) -> (r: Option<usize>)
    ensures
        ({
            let f = filtered_spec(items.deep_view(), literal, input@, matcher_view(*matcher));
            match r {
                Some(i) => i < items@.len() && k < f.len() && items.deep_view()[i as int] == f[k as int],
                None => k >= f.len(),
            }
        }),
{
    let ghost dv = items.deep_view();
    let ghost pat = matcher_view(*matcher);
    let n = items.len();
    let mut c: usize = 0;
    let mut i: usize = 0;
    proof {
        assert(dv.take(0) =~= Seq::<ItemModel>::empty());
    }
    while i < n
        invariant
            i <= n,
            n == items@.len(),
            dv == items.deep_view(),
            pat == matcher_view(*matcher),
            dv.len() == n,
            c <= i,
            c == filtered_spec(dv.take(i as int), literal, input@, pat).len(),
            c <= k,
        decreases n - i,
    {
        proof {
            assert(dv.take(i + 1) =~= dv.take(i as int).push(dv[i as int]));
            lemma_filtered_push(dv.take(i as int), dv[i as int], literal, input@, pat);
        }
        if item_passes(&items[i], literal, input, matcher) {
            assert(items@[i as int]@ == dv[i as int]);
            if c == k {
                proof {
                    let pre = filtered_spec(dv.take(i + 1), literal, input@, pat);
                    assert(pre[k as int] == dv[i as int]);
                    assert(dv =~= dv.take(i + 1) + dv.skip(i + 1));
                    lemma_filtered_concat(dv.take(i + 1), dv.skip(i + 1), literal, input@, pat);
                    let f = filtered_spec(dv, literal, input@, pat);
                    assert(f[k as int] == pre[k as int]);
                }
                return Some(i);
            }
            c += 1;
        }
        i += 1;
    }
    proof {
        assert(dv.take(n as int) =~= dv);
    }
    None
}

/// How many columns the session shows: enough to show every catalog item
/// once scrolling is counted in, at least one, and never more than the
/// configured maximum.  Computed once, from the unfiltered catalog size.
pub open spec fn column_count_spec(total: int, rows: int, max_columns: int) -> int {
    let c = (total + rows - 1) / rows;
    if c < 1 {
        1
    } else if c > max_columns {
        max_columns
    } else {
        c
    }
}

/// The column count, clamped between 1 and `max_columns`.
pub fn column_count(total: usize, rows: usize, max_columns: usize) -> (r: usize)
    requires
        1 <= rows,
        1 <= max_columns,
    ensures
        r as int == column_count_spec(total as int, rows as int, max_columns as int),
        1 <= r <= max_columns,
{
    if total == 0 {
        proof {
            vstd::arithmetic::div_mod::lemma_basic_div(rows as int - 1, rows as int);
        }
        1
    } else {
        proof {
            vstd::arithmetic::div_mod::lemma_div_plus_one(total as int - 1, rows as int);
            vstd::arithmetic::div_mod::lemma_basic_div(0, rows as int);
            vstd::arithmetic::div_mod::lemma_div_is_ordered(0, total as int - 1, rows as int);
            vstd::arithmetic::div_mod::lemma_div_is_ordered_by_denominator(
                total as int - 1,
                1,
                rows as int,
            );
        }
        let c = (total - 1) / rows + 1;
        if c > max_columns {
            max_columns
        } else {
            c
        }
    }
}

} // verus!
