//! The line-oriented text format of the frecency store.
//!
//! Grammar, one record per line: `count SP+ name`, where `count` is a run of
//! ASCII digits, `SP` is a space and `name` runs to the end of the line.
//! The text is split on `'\n'`; each line is stripped of leading and
//! trailing spaces, tabs and carriage returns before it is read.  A line
//! that does not fit the grammar is skipped; a line whose name appeared on
//! an earlier line is skipped; a digit run above the representable maximum
//! reads as the maximum.  A record is written back as `count SP name`
//! followed by `'\n'`.

use vstd::prelude::*;
use vstd::string::StringExecFns;
use crate::store::{FrecencyStore, Record, RecordModel, StoreModel, has_name, wf_store};

verus! {

/// Whitespace stripped at the two ends of a line.
pub open spec fn is_line_ws(c: char) -> bool {
    c == ' ' || c == '\t' || c == '\r'
}

/// An ASCII decimal digit.
pub open spec fn is_digit_char(c: char) -> bool {
    48 <= c as u32 && c as u32 <= 57
}

/// The numeric value of one digit.
pub open spec fn digit_val(c: char) -> nat {
    (c as u32 - 48) as nat
}

/// The number a run of digits denotes.
pub open spec fn dec_val(s: Seq<char>) -> nat
    decreases s.len(),
{
    if s.len() == 0 {
        0
    } else {
        dec_val(s.drop_last()) * 10 + digit_val(s.last())
    }
}

/// The digit with value `d` (for `d < 10`).
pub open spec fn dec_digit_char(d: nat) -> char {
    if d == 0 {
        '0'
    } else if d == 1 {
        '1'
    } else if d == 2 {
        '2'
    } else if d == 3 {
        '3'
    } else if d == 4 {
        '4'
    } else if d == 5 {
        '5'
    } else if d == 6 {
        '6'
    } else if d == 7 {
        '7'
    } else if d == 8 {
        '8'
    } else {
        '9'
    }
}

/// The canonical decimal spelling of `n`.
pub open spec fn dec_rep(n: nat) -> Seq<char>
    decreases n,
{
    if n < 10 {
        seq![dec_digit_char(n)]
    } else {
        dec_rep(n / 10).push(dec_digit_char(n % 10))
    }
}

proof fn lemma_dec_digit(d: nat)
    requires
        d < 10,
    ensures
        is_digit_char(dec_digit_char(d)),
        digit_val(dec_digit_char(d)) == d,
{
}

/// The spelling of a number is made of digits and reads back as the number.
pub proof fn lemma_dec_rep_val(n: nat)
    ensures
        dec_val(dec_rep(n)) == n,
        dec_rep(n).len() >= 1,
        forall|i: int| 0 <= i < dec_rep(n).len() ==> is_digit_char(#[trigger] dec_rep(n)[i]),
    decreases n,
{
    if n < 10 {
        lemma_dec_digit(n);
        assert(dec_rep(n).drop_last() =~= Seq::<char>::empty());
        assert(dec_val(Seq::<char>::empty()) == 0);
        assert(dec_val(dec_rep(n)) == 0 * 10 + digit_val(dec_digit_char(n)));
    } else {
        lemma_dec_rep_val(n / 10);
        lemma_dec_digit(n % 10);
        let x = dec_rep(n);
        assert(x == dec_rep(n / 10).push(dec_digit_char(n % 10)));
        assert(x.drop_last() =~= dec_rep(n / 10));
        assert(x.last() == dec_digit_char(n % 10));
        assert(dec_val(x) == dec_val(x.drop_last()) * 10 + digit_val(x.last()));
        assert(dec_val(x) == (n / 10) * 10 + n % 10);
        assert((n / 10) * 10 + n % 10 == n) by {
            vstd::arithmetic::div_mod::lemma_fundamental_div_mod(n as int, 10);
        }
    }
}

fn digit_str_of(d: usize) -> (r: &'static str)
    requires
        d < 10,
    ensures
        r@ =~= seq![dec_digit_char(d as nat)],
{
    let s: &'static str = match d {
        0 => "0",
        1 => "1",
        2 => "2",
        3 => "3",
        4 => "4",
        5 => "5",
        6 => "6",
        7 => "7",
        8 => "8",
        _ => "9",
    };
    proof {
        reveal_strlit("0");
        reveal_strlit("1");
        reveal_strlit("2");
        reveal_strlit("3");
        reveal_strlit("4");
        reveal_strlit("5");
        reveal_strlit("6");
        reveal_strlit("7");
        reveal_strlit("8");
        reveal_strlit("9");
    }
    s
}

/// The decimal spelling of a count.
pub fn format_count(n: usize) -> (r: String)
    ensures
        r@ == dec_rep(n as nat),
    decreases n,
{
    if n < 10 {
        digit_str_of(n).to_owned()
    } else {
        let mut s = format_count(n / 10);
        s.append(digit_str_of(n % 10));
        proof {
            assert(s@ =~= dec_rep((n / 10) as nat).push(dec_digit_char((n % 10) as nat)));
        }
        s
    }
}



/// The line with leading whitespace stripped.
pub open spec fn trim_front(s: Seq<char>) -> Seq<char>
    decreases s.len(),
{
    if s.len() > 0 && is_line_ws(s[0]) {
        trim_front(s.drop_first())
    } else {
        s
    }
}

/// The line with trailing whitespace stripped.
pub open spec fn trim_back(s: Seq<char>) -> Seq<char>
    decreases s.len(),
{
    if s.len() > 0 && is_line_ws(s.last()) {
        trim_back(s.drop_last())
    } else {
        s
    }
}

/// The line with whitespace stripped at both ends.
pub open spec fn trim(s: Seq<char>) -> Seq<char> {
    trim_back(trim_front(s))
}

proof fn lemma_trim_front_subrange(s: Seq<char>, k: int)
    requires
        0 <= k <= s.len(),
        forall|j: int| 0 <= j < k ==> is_line_ws(#[trigger] s[j]),
        k == s.len() || !is_line_ws(s[k]),
    ensures
        trim_front(s) == s.subrange(k, s.len() as int),
    decreases k,
{
    if k == 0 {
        assert(s.subrange(0, s.len() as int) =~= s);
    } else {
        let d = s.drop_first();
        assert(forall|j: int| 0 <= j < k - 1 ==> is_line_ws(#[trigger] d[j]));
        lemma_trim_front_subrange(d, k - 1);
        assert(d.subrange(k - 1, d.len() as int) =~= s.subrange(k, s.len() as int));
    }
}

proof fn lemma_trim_back_subrange(s: Seq<char>, k: int)
    requires
        0 <= k <= s.len(),
        forall|j: int| k <= j < s.len() ==> is_line_ws(#[trigger] s[j]),
        k == 0 || !is_line_ws(s[k - 1]),
    ensures
        trim_back(s) == s.subrange(0, k),
    decreases s.len() - k,
{
    if k == s.len() {
        assert(s.subrange(0, k) =~= s);
    } else {
        let d = s.drop_last();
        assert(forall|j: int| k <= j < d.len() ==> is_line_ws(#[trigger] d[j]));
        lemma_trim_back_subrange(d, k);
        assert(d.subrange(0, k) =~= s.subrange(0, k));
    }
}

/// Trimming strips exactly the whitespace runs at the two ends.
pub(crate) proof fn lemma_trim_as_subrange(s: Seq<char>, lo: int, hi: int)
    requires
        0 <= lo <= hi <= s.len(),
        forall|j: int| 0 <= j < lo ==> is_line_ws(#[trigger] s[j]),
        forall|j: int| hi <= j < s.len() ==> is_line_ws(#[trigger] s[j]),
        lo == s.len() || !is_line_ws(s[lo]),
        hi == lo || !is_line_ws(s[hi - 1]),
    ensures
        trim(s) == s.subrange(lo, hi),
{
    lemma_trim_front_subrange(s, lo);
    let f = s.subrange(lo, s.len() as int);
    assert(forall|j: int| hi - lo <= j < f.len() ==> is_line_ws(#[trigger] f[j]));
    lemma_trim_back_subrange(f, hi - lo);
    assert(f.subrange(0, hi - lo) =~= s.subrange(lo, hi));
}

/// How many digits stand at `from`.
pub open spec fn digit_run_len(s: Seq<char>, from: int) -> int
    decreases s.len() - from,
{
    if 0 <= from && from < s.len() && is_digit_char(s[from]) {
        1 + digit_run_len(s, from + 1)
    } else {
        0
    }
}

/// How many spaces stand at `from`.
pub open spec fn space_run_len(s: Seq<char>, from: int) -> int
    decreases s.len() - from,
{
    if 0 <= from && from < s.len() && s[from] == ' ' {
        1 + space_run_len(s, from + 1)
    } else {
        0
    }
}

proof fn lemma_digit_run(s: Seq<char>, from: int, r: int)
    requires
        0 <= from <= r <= s.len(),
        forall|j: int| from <= j < r ==> is_digit_char(#[trigger] s[j]),
        r == s.len() || !is_digit_char(s[r]),
    ensures
        digit_run_len(s, from) == r - from,
    decreases r - from,
{
    if from < r {
        lemma_digit_run(s, from + 1, r);
    }
}

proof fn lemma_space_run(s: Seq<char>, from: int, r: int)
    requires
        0 <= from <= r <= s.len(),
        forall|j: int| from <= j < r ==> (#[trigger] s[j]) == ' ',
        r == s.len() || s[r] != ' ',
    ensures
        space_run_len(s, from) == r - from,
    decreases r - from,
{
    if from < r {
        lemma_space_run(s, from + 1, r);
    }
}

/// What one (untrimmed) line contributes: a record, or nothing.
pub open spec fn line_record(l: Seq<char>) -> Option<RecordModel> {
    let t = trim(l);
    let k = digit_run_len(t, 0);
    let j = k + space_run_len(t, k);
    if k == 0 || j == k || j == t.len() {
        None
    } else {
        Some(RecordModel {
            name: t.subrange(j, t.len() as int),
            count: if dec_val(t.subrange(0, k)) > usize::MAX as nat {
                usize::MAX as nat
            } else {
                dec_val(t.subrange(0, k))
            },
        })
    }
}

fn is_ws(c: char) -> (r: bool)
    ensures
        r == is_line_ws(c),
{
    c == ' ' || c == '\t' || c == '\r'
}

fn is_digit(c: char) -> (r: bool)
    ensures
        r == is_digit_char(c),
{
    let u = c as u32;
    48 <= u && u <= 57
}

proof fn lemma_sat_mul_bounds(a: nat, dv: nat)
    requires
        dv < 10,
        a <= usize::MAX as nat,
    ensures
        a <= (usize::MAX as nat - dv) / 10 ==> a * 10 + dv <= usize::MAX as nat,
        a > (usize::MAX as nat - dv) / 10 ==> a * 10 + dv > usize::MAX as nat,
{
    let m = (usize::MAX as nat - dv) as int;
    vstd::arithmetic::div_mod::lemma_fundamental_div_mod(m, 10);
    vstd::arithmetic::div_mod::lemma_mod_bound(m, 10);
    if a as int <= m / 10 {
        vstd::arithmetic::mul::lemma_mul_inequality(a as int, m / 10, 10);
    } else {
        vstd::arithmetic::mul::lemma_mul_inequality(m / 10 + 1, a as int, 10);
    }
}

/// Read one line of the store file.
pub fn parse_line(line: &str) -> (r: Option<Record>)
    ensures
        match r {
            Some(rec) => line_record(line@) == Some(rec@),
            None => line_record(line@) is None,
        },
{
    let n = line.unicode_len();
    let mut lo: usize = 0;
    while lo < n && is_ws(line.get_char(lo))
        invariant
            lo <= n,
            n == line@.len(),
            forall|j: int| 0 <= j < lo ==> is_line_ws(#[trigger] line@[j]),
        decreases n - lo,
    {
        lo += 1;
    }
    let mut hi: usize = n;
    while hi > lo && is_ws(line.get_char(hi - 1))
        invariant
            lo <= hi <= n,
            n == line@.len(),
            forall|j: int| hi <= j < n ==> is_line_ws(#[trigger] line@[j]),
        decreases hi,
    {
        hi -= 1;
    }
    proof {
        lemma_trim_front_subrange(line@, lo as int);
        let f = line@.subrange(lo as int, n as int);
        assert(forall|j: int|
            hi - lo <= j < f.len() ==> is_line_ws(#[trigger] f[j]));
        lemma_trim_back_subrange(f, hi - lo);
        assert(f.subrange(0, hi - lo) =~= line@.subrange(lo as int, hi as int));
    }
    let ghost t = trim(line@);
    assert(t == line@.subrange(lo as int, hi as int));
    let mut d = lo;
    while d < hi && is_digit(line.get_char(d))
        invariant
            lo <= d <= hi <= n,
            n == line@.len(),
            forall|j: int| lo <= j < d ==> is_digit_char(#[trigger] line@[j]),
        decreases hi - d,
    {
        d += 1;
    }
    proof {
        assert(forall|j: int| 0 <= j < d - lo ==> is_digit_char(#[trigger] t[j]));
        lemma_digit_run(t, 0, d - lo);
    }
    if d == lo {
        return None;
    }
    let mut acc: usize = 0;
    let mut p = lo;
    while p < d
        invariant
            lo <= p <= d <= hi <= n,
            n == line@.len(),
            forall|j: int| lo <= j < d ==> is_digit_char(#[trigger] line@[j]),
            dec_val(line@.subrange(lo as int, p as int)) > usize::MAX as nat ==> acc
                == usize::MAX,
            dec_val(line@.subrange(lo as int, p as int)) <= usize::MAX as nat ==> acc as nat
                == dec_val(line@.subrange(lo as int, p as int)),
        decreases d - p,
    {
        let c = line.get_char(p);
        let u = c as u32;
        let dv = (u - 48) as usize;
        let ghost prev = dec_val(line@.subrange(lo as int, p as int));
        proof {
            assert(line@.subrange(lo as int, p + 1) =~= line@.subrange(
                lo as int,
                p as int,
            ).push(line@[p as int]));
            assert(line@.subrange(lo as int, p + 1).drop_last() =~= line@.subrange(
                lo as int,
                p as int,
            ));
            assert(dec_val(line@.subrange(lo as int, p + 1)) == prev * 10 + dv);
            lemma_sat_mul_bounds(acc as nat, dv as nat);
            if prev > usize::MAX as nat {
                assert(prev * 10 >= prev) by (nonlinear_arith)
                    requires prev >= 0,
                ;
            }
        }
        if acc > (usize::MAX - dv) / 10 {
            acc = usize::MAX;
        } else {
            acc = acc * 10 + dv;
        }
        p += 1;
    }
    let mut sp = d;
    while sp < hi && line.get_char(sp) == ' '
        invariant
            d <= sp <= hi <= n,
            n == line@.len(),
            forall|j: int| d <= j < sp ==> (#[trigger] line@[j]) == ' ',
        decreases hi - sp,
    {
        sp += 1;
    }
    proof {
        assert(forall|j: int| d - lo <= j < sp - lo ==> (#[trigger] t[j]) == ' ');
        lemma_space_run(t, d - lo, sp - lo);
    }
    if sp == d {
        return None;
    }
    if sp == hi {
        return None;
    }
    let name_str = line.substring_char(sp, hi);
    let rec = Record { name: name_str.to_owned(), count: acc };
    proof {
        assert(name_str@ =~= t.subrange(sp - lo, t.len() as int));
        assert(line@.subrange(lo as int, d as int) =~= t.subrange(0, d - lo));
    }
    Some(rec)
}



/// Where the first line break stands, or the length where there is none.
pub open spec fn first_nl(t: Seq<char>) -> int
    decreases t.len(),
{
    if t.len() == 0 {
        0
    } else if t[0] == '\n' {
        0
    } else {
        1 + first_nl(t.drop_first())
    }
}

proof fn lemma_first_nl_bounds(t: Seq<char>)
    ensures
        0 <= first_nl(t) <= t.len(),
    decreases t.len(),
{
    if t.len() > 0 && t[0] != '\n' {
        lemma_first_nl_bounds(t.drop_first());
    }
}

proof fn lemma_first_nl_at(t: Seq<char>, r: int)
    requires
        0 <= r <= t.len(),
        forall|j: int| 0 <= j < r ==> (#[trigger] t[j]) != '\n',
        r == t.len() || t[r] == '\n',
    ensures
        first_nl(t) == r,
    decreases r,
{
    if r > 0 {
        lemma_first_nl_at(t.drop_first(), r - 1);
    }
}

/// The lines of a text: split on `'\n'`, with no empty line after a final
/// line break.
pub open spec fn lines_of(t: Seq<char>) -> Seq<Seq<char>>
    decreases t.len(),
    via lines_of_decreases
{
    if t.len() == 0 {
        Seq::empty()
    } else {
        let k = first_nl(t);
        if k == t.len() {
            seq![t]
        } else {
            seq![t.subrange(0, k)] + lines_of(t.subrange(k + 1, t.len() as int))
        }
    }
}

#[via_fn]
proof fn lines_of_decreases(t: Seq<char>) {
    lemma_first_nl_bounds(t);
}

pub(crate) proof fn lemma_lines_of_concat(a: Seq<char>, b: Seq<char>)
    requires
        forall|j: int| 0 <= j < a.len() ==> (#[trigger] a[j]) != '\n',
    ensures
        lines_of(a + seq!['\n'] + b) == seq![a] + lines_of(b),
{
    let t = a + seq!['\n'] + b;
    assert(t[a.len() as int] == '\n');
    assert(forall|j: int| 0 <= j < a.len() ==> (#[trigger] t[j]) == a[j]);
    lemma_first_nl_at(t, a.len() as int);
    assert(t.subrange(0, a.len() as int) =~= a);
    assert(t.subrange(a.len() as int + 1, t.len() as int) =~= b);
}

pub(crate) proof fn lemma_lines_of_single(a: Seq<char>)
    requires
        a.len() > 0,
        forall|j: int| 0 <= j < a.len() ==> (#[trigger] a[j]) != '\n',
    ensures
        lines_of(a) == seq![a],
{
    lemma_first_nl_at(a, a.len() as int);
}

/// The set of names a store holds.
pub open spec fn names_of(s: StoreModel) -> Set<Seq<char>> {
    Set::new(|n: Seq<char>| has_name(s, n))
}

proof fn lemma_names_push(s: StoreModel, r: RecordModel)
    ensures
        names_of(s.push(r)) == names_of(s).insert(r.name),
{
    let t = s.push(r);
    assert forall|n: Seq<char>| names_of(t).contains(n) implies names_of(s).insert(
        r.name,
    ).contains(n) by {
        let i = choose|i: int| 0 <= i < t.len() && (#[trigger] t[i].name) == n;
        if i < s.len() {
            assert(s[i].name == n);
        }
    }
    assert forall|n: Seq<char>| names_of(s).insert(r.name).contains(n) implies names_of(
        t,
    ).contains(n) by {
        if n == r.name {
            assert(t[s.len() as int].name == n);
        } else {
            let i = choose|i: int| 0 <= i < s.len() && (#[trigger] s[i].name) == n;
            assert(t[i].name == n);
        }
    }
    assert(names_of(t) =~= names_of(s).insert(r.name));
}

/// The records a sequence of lines contributes, oldest line first; a line
/// whose name was already taken is skipped.
pub open spec fn parse_lines(ls: Seq<Seq<char>>, taken: Set<Seq<char>>) -> StoreModel
    decreases ls.len(),
{
    if ls.len() == 0 {
        Seq::empty()
    } else {
        match line_record(ls[0]) {
            Some(r) => {
                if taken.contains(r.name) {
                    parse_lines(ls.drop_first(), taken)
                } else {
                    seq![r] + parse_lines(ls.drop_first(), taken.insert(r.name))
                }
            },
            None => parse_lines(ls.drop_first(), taken),
        }
    }
}

/// The store a whole text denotes.
pub open spec fn parse_spec(t: Seq<char>) -> StoreModel {
    parse_lines(lines_of(t), Set::empty())
}

/// One record as a line, without the closing line break.
pub open spec fn record_line(r: RecordModel) -> Seq<char> {
    dec_rep(r.count) + seq![' '] + r.name
}

/// The text a store is written as: one line per record.
pub open spec fn serialize_spec(s: StoreModel) -> Seq<char>
    decreases s.len(),
{
    if s.len() == 0 {
        Seq::empty()
    } else {
        record_line(s[0]) + seq!['\n'] + serialize_spec(s.drop_first())
    }
}

proof fn lemma_serialize_push(s: StoreModel, r: RecordModel)
    ensures
        serialize_spec(s.push(r)) == serialize_spec(s) + record_line(r) + seq!['\n'],
    decreases s.len(),
{
    if s.len() == 0 {
        assert(s.push(r)[0] == r);
        assert(s.push(r).drop_first() =~= Seq::<RecordModel>::empty());
        assert(serialize_spec(Seq::<RecordModel>::empty()) =~= Seq::<char>::empty());
        assert(serialize_spec(s.push(r)) =~= serialize_spec(s) + record_line(r) + seq!['\n']);
    } else {
        assert(s.push(r).drop_first() =~= s.drop_first().push(r));
        lemma_serialize_push(s.drop_first(), r);
        assert(s.push(r)[0] == s[0]);
        assert(serialize_spec(s.push(r)) =~= serialize_spec(s) + record_line(r) + seq!['\n']);
    }
}

fn vec_has_name(records: &Vec<Record>, name: &str) -> (r: bool)
    ensures
        r == has_name(records.deep_view(), name@),
{
    let n = records.len();
    let mut i: usize = 0;
    while i < n
        invariant
            i <= n,
            n == records@.len(),
            forall|j: int| 0 <= j < i ==> (#[trigger] records@[j])@.name != name@,
        decreases n - i,
    {
        if crate::text::str_eq(records[i].name.as_str(), name) {
            assert(records.deep_view()[i as int].name == name@);
            return true;
        }
        i += 1;
    }
    assert forall|j: int| 0 <= j < records.deep_view().len() implies (#[trigger] records.deep_view()[j]).name != name@ by {
        assert(records.deep_view()[j] == records@[j]@);
    }
    false
}

impl FrecencyStore {
    /// Load: the store a text denotes.  The caller reads the backing file
    /// and treats a missing file as empty text.
    pub fn parse(text: &str) -> (r: FrecencyStore)
        ensures
            r@ == parse_spec(text@),
            wf_store(r@),
    {
        let n = text.unicode_len();
        let mut records: Vec<Record> = Vec::new();
        let mut pos: usize = 0;
        proof {
            assert(text@.subrange(0, n as int) =~= text@);
            assert(records.deep_view() =~= Seq::<RecordModel>::empty());
            assert(names_of(records.deep_view()) =~= Set::<Seq<char>>::empty());
            assert(records.deep_view() + parse_lines(lines_of(text@), Set::empty()) =~= parse_lines(
                lines_of(text@),
                Set::empty(),
            ));
        }
        while pos < n
            invariant
                pos <= n,
                n == text@.len(),
                parse_spec(text@) == records.deep_view() + parse_lines(
                    lines_of(text@.subrange(pos as int, n as int)),
                    names_of(records.deep_view()),
                ),
                wf_store(records.deep_view()),
            decreases n - pos,
        {
            let ghost recs0 = records.deep_view();
            let ghost taken0 = names_of(recs0);
            let mut e = pos;
            while e < n && text.get_char(e) != '\n'
                invariant
                    pos <= e <= n,
                    n == text@.len(),
                    forall|j: int| pos <= j < e ==> (#[trigger] text@[j]) != '\n',
                decreases n - e,
            {
                e += 1;
            }
            let line = text.substring_char(pos, e);
            let next_pos = if e < n {
                e + 1
            } else {
                n
            };
            proof {
                let rem = text@.subrange(pos as int, n as int);
                let rest = text@.subrange(next_pos as int, n as int);
                if e < n {
                    assert(rem =~= line@ + seq!['\n'] + rest);
                    lemma_lines_of_concat(line@, rest);
                } else {
                    assert(rem =~= line@);
                    assert(rest =~= Seq::<char>::empty());
                    lemma_lines_of_single(line@);
                    assert(seq![line@] + lines_of(rest) =~= lines_of(rem));
                }
                assert(lines_of(rem) == seq![line@] + lines_of(rest));
                assert((seq![line@] + lines_of(rest))[0] == line@);
                assert((seq![line@] + lines_of(rest)).drop_first() =~= lines_of(rest));
            }
            let rec_opt = parse_line(line);
            match rec_opt {
                Some(rec) => {
                    let dup = vec_has_name(&records, rec.name.as_str());
                    if !dup {
                        proof {
                            lemma_names_push(recs0, rec@);
                            assert forall|x: int, y: int|
                                #![trigger recs0.push(rec@)[x].name, recs0.push(rec@)[y].name]
                                0 <= x < y < recs0.push(rec@).len() implies recs0.push(rec@)[x].name
                                != recs0.push(rec@)[y].name by {
                                if y == recs0.len() {
                                    assert(!has_name(recs0, rec@.name));
                                }
                            }
                        }
                        records.push(rec);
                        proof {
                            assert(records.deep_view() =~= recs0.push(rec@));
                            assert(records.deep_view() + parse_lines(
                                lines_of(text@.subrange(next_pos as int, n as int)),
                                names_of(records.deep_view()),
                            ) =~= recs0 + (seq![rec@] + parse_lines(
                                lines_of(text@.subrange(next_pos as int, n as int)),
                                taken0.insert(rec@.name),
                            )));
                        }
                    }
                },
                None => {
                },
            }
            pos = next_pos;
        }
        proof {
            assert(text@.subrange(n as int, n as int) =~= Seq::<char>::empty());
            assert(parse_spec(text@) =~= records.deep_view());
        }
        FrecencyStore::from_records(records)
    }

    /// Save: the text the store is written as.  The caller writes it over
    /// the backing file whole.
    pub fn serialize(&self) -> (r: String)
        ensures
            r@ == serialize_spec(self@),
    {
        let recs = self.records();
        let n = recs.len();
        let mut out = String::new();
        let mut i: usize = 0;
        while i < n
            invariant
                i <= n,
                n == self@.len(),
                recs.deep_view() == self@,
                n == recs@.len(),
                out@ == serialize_spec(self@.take(i as int)),
            decreases n - i,
        {
            let cnt = format_count(recs[i].count);
            out.append(cnt.as_str());
            out.append(" ");
            out.append(recs[i].name.as_str());
            out.append("\n");
            proof {
                reveal_strlit(" ");
                reveal_strlit("\n");
                assert(" "@ =~= seq![' ']);
                assert("\n"@ =~= seq!['\n']);
                assert(self@.take(i + 1) =~= self@.take(i as int).push(self@[i as int]));
                lemma_serialize_push(self@.take(i as int), self@[i as int]);
                assert(recs@[i as int]@ == self@[i as int]);
                assert(out@ =~= serialize_spec(self@.take(i + 1)));
            }
            i += 1;
        }
        proof {
            assert(self@.take(n as int) =~= self@);
        }
        out
    }
}



/// A name the format can carry and read back unchanged: nonempty, free of
/// line breaks, not opening with a space and not closing with whitespace.
pub open spec fn valid_name(n: Seq<char>) -> bool {
    &&& n.len() > 0
    &&& forall|i: int| 0 <= i < n.len() ==> (#[trigger] n[i]) != '\n'
    &&& n[0] != ' '
    &&& !is_line_ws(n[n.len() - 1])
}

proof fn lemma_line_record_of_record_line(r: RecordModel)
    requires
        valid_name(r.name),
        r.count <= usize::MAX as nat,
    ensures
        line_record(record_line(r)) == Some(r),
{
    let l = record_line(r);
    lemma_dec_rep_val(r.count);
    let dl = dec_rep(r.count).len() as int;
    assert(l.len() == dl + 1 + r.name.len());
    assert(l[dl] == ' ');
    assert(forall|j: int| 0 <= j < dl ==> is_digit_char(#[trigger] l[j]));
    assert(forall|j: int| dl + 1 <= j < l.len() ==> (#[trigger] l[j]) == r.name[j - dl - 1]);
    assert(!is_line_ws(l[0]));
    assert(!is_line_ws(l[l.len() - 1]));
    lemma_trim_front_subrange(l, 0);
    assert(trim_front(l) =~= l);
    lemma_trim_back_subrange(l, l.len() as int);
    assert(trim_back(l) =~= l);
    assert(trim(l) == l);
    assert(!is_digit_char(l[dl]));
    lemma_digit_run(l, 0, dl);
    assert(l[dl + 1] == r.name[0]);
    assert(l[dl + 1] != ' ');
    lemma_space_run(l, dl, dl + 1);
    assert(l.subrange(0, dl) =~= dec_rep(r.count));
    assert(l.subrange(dl + 1, l.len() as int) =~= r.name);
}

proof fn lemma_round_trip_rec(s: StoreModel, taken: Set<Seq<char>>)
    requires
        wf_store(s),
        forall|i: int| 0 <= i < s.len() ==> valid_name(#[trigger] s[i].name),
        forall|i: int| 0 <= i < s.len() ==> !taken.contains(#[trigger] s[i].name),
    ensures
        parse_lines(lines_of(serialize_spec(s)), taken) == s,
    decreases s.len(),
{
    if s.len() == 0 {
        assert(serialize_spec(s) =~= Seq::<char>::empty());
        assert(parse_lines(lines_of(serialize_spec(s)), taken) =~= s);
    } else {
        let r = s[0];
        let rest = s.drop_first();
        let rl = record_line(r);
        lemma_dec_rep_val(r.count);
        assert(forall|j: int| 0 <= j < rl.len() ==> (#[trigger] rl[j]) != '\n');
        lemma_lines_of_concat(rl, serialize_spec(rest));
        lemma_line_record_of_record_line(r);
        let ls = lines_of(serialize_spec(s));
        assert(ls == seq![rl] + lines_of(serialize_spec(rest)));
        assert(ls[0] == rl);
        assert(ls.drop_first() =~= lines_of(serialize_spec(rest)));
        assert(!taken.contains(r.name));
        assert(forall|i: int|
            0 <= i < rest.len() ==> (#[trigger] rest[i]) == s[i + 1]);
        assert forall|i: int| 0 <= i < rest.len() implies !taken.insert(r.name).contains(
            #[trigger] rest[i].name,
        ) by {
            assert(rest[i] == s[i + 1]);
            assert(s[0].name != s[i + 1].name);
        }
        lemma_round_trip_rec(rest, taken.insert(r.name));
        assert(parse_lines(ls, taken) == seq![r] + rest);
        assert(seq![r] + rest =~= s);
    }
}

/// Law: saving and then loading reproduces the records exactly.  For a
/// clean store whose names the format can carry, the loaded store holds the
/// same records in the same order, so in particular the same set of
/// `(name, count)` pairs.
pub proof fn lemma_save_load_round_trip(s: StoreModel)
    requires
        wf_store(s),
        forall|i: int| 0 <= i < s.len() ==> valid_name(#[trigger] s[i].name),
    ensures
        parse_spec(serialize_spec(s)) == s,
{
    lemma_round_trip_rec(s, Set::empty());
}

} // verus!
