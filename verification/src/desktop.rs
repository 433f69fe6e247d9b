//! Reading one desktop application entry from its file text.
//!
//! Only the `[Desktop Entry]` group is read: lines before it are skipped,
//! any further group ends the scan.  Inside the group a line `key=value`
//! sets the key, later lines overriding earlier ones; keys and values are
//! stripped of surrounding spaces, tabs and carriage returns.  An entry
//! without a `Name` is no entry.  The caller reads the file and keeps only
//! files with the `.desktop` extension; this module turns the text into a
//! catalog item.

use vstd::prelude::*;
use crate::codec::{is_line_ws, lines_of, trim};
use crate::item::{Item, ItemModel, opt_view};

verus! {

/// Where the first `=` stands in a line, or the length where there is none.
pub open spec fn eq_pos(l: Seq<char>) -> int
    decreases l.len(),
{
    if l.len() == 0 {
        0
    } else if l[0] == '=' {
        0
    } else {
        1 + eq_pos(l.drop_first())
    }
}

proof fn lemma_eq_pos_at(l: Seq<char>, r: int)
    requires
        0 <= r <= l.len(),
        forall|j: int| 0 <= j < r ==> (#[trigger] l[j]) != '=',
        r == l.len() || l[r] == '=',
    ensures
        eq_pos(l) == r,
    decreases r,
{
    if r > 0 {
        lemma_eq_pos_at(l.drop_first(), r - 1);
    }
}

/// What the scan has gathered so far.
pub struct DeskState {
    /// The `[Desktop Entry]` group has been entered.
    pub started: bool,
    /// Another group began: nothing more is read.
    pub done: bool,
    pub name: Option<Seq<char>>,
    pub exec_cmd: Option<Seq<char>>,
    pub icon: Option<Seq<char>>,
    pub work_dir: Option<Seq<char>>,
    pub hidden_v: Option<Seq<char>>,
    pub nodisplay_v: Option<Seq<char>>,
}

/// The scan before any line.
pub open spec fn desk_init() -> DeskState {
    DeskState {
        started: false,
        done: false,
        name: None,
        exec_cmd: None,
        icon: None,
        work_dir: None,
        hidden_v: None,
        nodisplay_v: None,
    }
}

/// One line taken against the scan state.
pub open spec fn desk_step(st: DeskState, raw: Seq<char>) -> DeskState {
    if st.done {
        st
    } else {
        let t = trim(raw);
        if t == "[Desktop Entry]"@ {
            DeskState { started: true, ..st }
        } else if t.len() > 0 && t[0] == '[' {
            DeskState { done: true, ..st }
        } else if st.started && eq_pos(raw) < raw.len() {
            let k = trim(raw.subrange(0, eq_pos(raw)));
            let v = trim(raw.subrange(eq_pos(raw) + 1, raw.len() as int));
            if k == "Name"@ {
                DeskState { name: Some(v), ..st }
            } else if k == "Exec"@ {
                DeskState { exec_cmd: Some(v), ..st }
            } else if k == "Icon"@ {
                DeskState { icon: Some(v), ..st }
            } else if k == "Path"@ {
                DeskState { work_dir: Some(v), ..st }
            } else if k == "Hidden"@ {
                DeskState { hidden_v: Some(v), ..st }
            } else if k == "NoDisplay"@ {
                DeskState { nodisplay_v: Some(v), ..st }
            } else {
                st
            }
        } else {
            st
        }
    }
}

/// The lines taken in order.
pub open spec fn desk_run(st: DeskState, ls: Seq<Seq<char>>) -> DeskState
    decreases ls.len(),
{
    if ls.len() == 0 {
        st
    } else {
        desk_run(desk_step(st, ls[0]), ls.drop_first())
    }
}

proof fn lemma_desk_run_push(st: DeskState, ls: Seq<Seq<char>>, l: Seq<char>)
    ensures
        desk_run(st, ls.push(l)) == desk_step(desk_run(st, ls), l),
    decreases ls.len(),
{
    if ls.len() == 0 {
        assert(ls.push(l)[0] == l);
        assert(ls.push(l).drop_first() =~= Seq::<Seq<char>>::empty());
        assert(desk_run(desk_step(st, l), Seq::<Seq<char>>::empty()) == desk_step(st, l));
        assert(desk_run(st, ls) == st);
    } else {
        assert(ls.push(l)[0] == ls[0]);
        assert(ls.push(l).drop_first() =~= ls.drop_first().push(l));
        lemma_desk_run_push(desk_step(st, ls[0]), ls.drop_first(), l);
        assert(desk_run(st, ls.push(l)) == desk_run(desk_step(st, ls[0]), ls.drop_first().push(l)));
        assert(desk_run(st, ls) == desk_run(desk_step(st, ls[0]), ls.drop_first()));
    }
}

/// How a gathered value reads as a flag: exactly the text `true` is true,
/// anything else (or no value) is false.
pub open spec fn bool_of(o: Option<Seq<char>>) -> bool {
    match o {
        Some(v) => v == "true"@,
        None => false,
    }
}

/// The item a desktop entry text denotes, carrying `path` as its file:
/// present exactly when the `[Desktop Entry]` group names the application.
pub open spec fn desktop_item_spec(text: Seq<char>, path: Seq<char>) -> Option<ItemModel> {
    let st = desk_run(desk_init(), lines_of(text));
    match st.name {
        Some(nm) => Some(
            ItemModel::DesktopEntry {
                name: nm,
                file: path,
                exec_cmd: st.exec_cmd,
                icon: st.icon,
                work_dir: st.work_dir,
                hidden: bool_of(st.hidden_v) || bool_of(st.nodisplay_v),
            },
        ),
        None => None,
    }
}

fn ws_char(c: char) -> (r: bool)
    ensures
        r == is_line_ws(c),
{
    c == ' ' || c == '\t' || c == '\r'
}

/// The trimmed middle of `line`, as a fresh string.
fn trim_owned(line: &str) -> (r: String)
    ensures
        r@ == trim(line@),
{
    let n = line.unicode_len();
    let mut lo: usize = 0;
    while lo < n && ws_char(line.get_char(lo))
        invariant
            lo <= n,
            n == line@.len(),
            forall|j: int| 0 <= j < lo ==> is_line_ws(#[trigger] line@[j]),
        decreases n - lo,
    {
        lo += 1;
    }
    let mut hi: usize = n;
    while hi > lo && ws_char(line.get_char(hi - 1))
        invariant
            lo <= hi <= n,
            n == line@.len(),
            forall|j: int| hi <= j < n ==> is_line_ws(#[trigger] line@[j]),
        decreases hi,
    {
        hi -= 1;
    }
    proof {
        crate::codec::lemma_trim_as_subrange(line@, lo as int, hi as int);
    }
    let mid = line.substring_char(lo, hi);
    mid.to_owned()
}

/// Read one desktop entry.  `text` is the file's contents; `path` is where
/// the file lies, kept so the selection can be launched.
pub fn parse_desktop_entry(text: &str, path: &str) -> (r: Option<Item>)
    ensures
        match r {
            Some(it) => desktop_item_spec(text@, path@) == Some(it@),
            None => desktop_item_spec(text@, path@) is None,
        },
{
    let n = text.unicode_len();
    let mut pos: usize = 0;
    let mut started = false;
    let mut done = false;
    let mut name: Option<String> = None;
    let mut exec_cmd: Option<String> = None;
    let mut icon: Option<String> = None;
    let mut work_dir: Option<String> = None;
    let mut hidden_v: Option<String> = None;
    let mut nodisplay_v: Option<String> = None;
    let mut lines_seen: Ghost<Seq<Seq<char>>> = Ghost(Seq::empty());
    proof {
        assert(text@.subrange(0, n as int) =~= text@);
    }
    while pos < n
        invariant
            pos <= n,
            n == text@.len(),
            lines_of(text@) == lines_seen@ + lines_of(text@.subrange(pos as int, n as int)),
            ({
                let st = desk_run(desk_init(), lines_seen@);
                &&& st.started == started
                &&& st.done == done
                &&& st.name == opt_view(name)
                &&& st.exec_cmd == opt_view(exec_cmd)
                &&& st.icon == opt_view(icon)
                &&& st.work_dir == opt_view(work_dir)
                &&& st.hidden_v == opt_view(hidden_v)
                &&& st.nodisplay_v == opt_view(nodisplay_v)
            }),
        decreases n - pos,
    {
        let mut e = pos;
        while e < n && text.get_char(e) != '\n'
            invariant
                pos <= e <= n,
                n == text@.len(),
                forall|j: int| pos <= j < e ==> (#[trigger] text@[j]) != '\n',
            decreases n - e,
        {
            e += 1;
        }
        let line = text.substring_char(pos, e);
        let next_pos = if e < n {
            e + 1
        } else {
            n
        };
        proof {
            let rem = text@.subrange(pos as int, n as int);
            let rest = text@.subrange(next_pos as int, n as int);
            if e < n {
                assert(rem =~= line@ + seq!['\n'] + rest);
                crate::codec::lemma_lines_of_concat(line@, rest);
            } else {
                assert(rem =~= line@);
                assert(rest =~= Seq::<char>::empty());
                crate::codec::lemma_lines_of_single(line@);
                assert(seq![line@] + lines_of(rest) =~= lines_of(rem));
            }
            assert(lines_of(rem) == seq![line@] + lines_of(rest));
            assert((seq![line@] + lines_of(rest))[0] == line@);
            assert((seq![line@] + lines_of(rest)).drop_first() =~= lines_of(rest));
            assert(lines_seen@.push(line@) + lines_of(rest) =~= lines_seen@ + lines_of(rem));
            lemma_desk_run_push(desk_init(), lines_seen@, line@);
        }
        if !done {
            let t = trim_owned(line);
            if crate::text::str_eq(t.as_str(), "[Desktop Entry]") {
                started = true;
            } else if !t.as_str().is_empty() && t.as_str().get_char(0) == '[' {
                done = true;
            } else {
                let ln = line.unicode_len();
                let mut q: usize = 0;
                while q < ln && line.get_char(q) != '='
                    invariant
                        q <= ln,
                        ln == line@.len(),
                        forall|j: int| 0 <= j < q ==> (#[trigger] line@[j]) != '=',
                    decreases ln - q,
                {
                    q += 1;
                }
                proof {
                    lemma_eq_pos_at(line@, q as int);
                }
                if started && q < ln {
                    let key = trim_owned(line.substring_char(0, q));
                    let val = trim_owned(line.substring_char(q + 1, ln));
                    if crate::text::str_eq(key.as_str(), "Name") {
                        name = Some(val);
                    } else if crate::text::str_eq(key.as_str(), "Exec") {
                        exec_cmd = Some(val);
                    } else if crate::text::str_eq(key.as_str(), "Icon") {
                        icon = Some(val);
                    } else if crate::text::str_eq(key.as_str(), "Path") {
                        work_dir = Some(val);
                    } else if crate::text::str_eq(key.as_str(), "Hidden") {
                        hidden_v = Some(val);
                    } else if crate::text::str_eq(key.as_str(), "NoDisplay") {
                        nodisplay_v = Some(val);
                    }
                }
            }
        }
        proof {
            lines_seen@ = lines_seen@.push(line@);
        }
        pos = next_pos;
    }
    proof {
        assert(text@.subrange(n as int, n as int) =~= Seq::<char>::empty());
        assert(lines_seen@ + lines_of(text@.subrange(pos as int, n as int)) =~= lines_seen@);
        assert(lines_seen@ == lines_of(text@));
    }
    match name {
        Some(nm) => {
            let hid = match &hidden_v {
                Some(v) => crate::text::str_eq(v.as_str(), "true"),
                None => false,
            };
            let nod = match &nodisplay_v {
                Some(v) => crate::text::str_eq(v.as_str(), "true"),
                None => false,
            };
            Some(Item::DesktopEntry {
                name: nm,
                file: path.to_owned(),
                exec_cmd,
                icon,
                work_dir,
                hidden: hid || nod,
            })
        },
        None => None,
    }
}

} // verus!
