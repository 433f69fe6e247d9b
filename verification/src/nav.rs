//! The navigation state machine and the selection committer.
//!
//! A [`Session`] owns the ranked catalog, the typed input with its compiled
//! pattern, and the cursor: a page-relative index plus a scroll page over
//! the filtered view, laid out in `rows * columns` cells.  One discrete
//! [`Event`] is processed at a time; a step may end the session with a
//! selection, and commit and delete feed the frecency store.
//!
//! The surrounding program runs the loop: it decodes raw input into events,
//! hands each to [`Session::step`], persists the store when told to, and
//! launches the returned item.

use vstd::prelude::*;
use vstd::string::StringExecFns;
use crate::filter::{
    column_count, column_count_spec, filtered_len, filtered_spec, matcher_view, nth_filtered,
};
use crate::item::{Item, ItemModel, name_of};
use crate::pattern::{Matcher, regex_ok};
use crate::rank::rank_spec;
use crate::store::{
    FrecencyStore, StoreModel, count_or_zero, del_spec, inc_spec, lemma_delete_removes,
    lemma_increment_saturation, saturating_inc, wf_store,
};

verus! {

/// One discrete input event, in arrival order.
pub enum Event {
    /// The typed input changed to this text.
    TextChanged(String),
    /// Tab: focus moves between the input line and the grid.
    ToggleFocus,
    /// One scroll tick down.
    ScrollDown,
    /// One scroll tick up.
    ScrollUp,
    ArrowUp,
    ArrowDown,
    ArrowLeft,
    ArrowRight,
    /// Enter, or a click on the highlighted cell.
    Commit,
    /// Escape.
    Cancel,
    /// Delete: drop the selected item's frecency record.
    Delete,
    /// The window gained focus.
    FocusGained,
    /// The window lost focus.
    FocusLost,
}

/// The mathematical value of an [`Event`].
pub enum EventModel {
    TextChanged(Seq<char>),
    ToggleFocus,
    ScrollDown,
    ScrollUp,
    ArrowUp,
    ArrowDown,
    ArrowLeft,
    ArrowRight,
    Commit,
    Cancel,
    Delete,
    FocusGained,
    FocusLost,
}

impl View for Event {
    type V = EventModel;

    open spec fn view(&self) -> EventModel {
        match self {
            Event::TextChanged(s) => EventModel::TextChanged(s@),
            Event::ToggleFocus => EventModel::ToggleFocus,
            Event::ScrollDown => EventModel::ScrollDown,
            Event::ScrollUp => EventModel::ScrollUp,
            Event::ArrowUp => EventModel::ArrowUp,
            Event::ArrowDown => EventModel::ArrowDown,
            Event::ArrowLeft => EventModel::ArrowLeft,
            Event::ArrowRight => EventModel::ArrowRight,
            Event::Commit => EventModel::Commit,
            Event::Cancel => EventModel::Cancel,
            Event::Delete => EventModel::Delete,
            Event::FocusGained => EventModel::FocusGained,
            Event::FocusLost => EventModel::FocusLost,
        }
    }
}

/// What one step reports back to the loop around the session.
pub enum StepResult {
    /// The session goes on.
    Continue,
    /// The session ended: the committed item, or none on cancel.
    Done(Option<Item>),
}

/// The mathematical value of a [`StepResult`].
pub enum StepResultModel {
    Continue,
    Done(Option<ItemModel>),
}

impl View for StepResult {
    type V = StepResultModel;

    open spec fn view(&self) -> StepResultModel {
        match self {
            StepResult::Continue => StepResultModel::Continue,
            StepResult::Done(o) => StepResultModel::Done(
                match o {
                    Some(it) => Some(it@),
                    None => None,
                },
            ),
        }
    }
}

/// The mathematical value of a [`Session`].
pub struct SessionModel {
    /// The ranked catalog.
    pub items: Seq<ItemModel>,
    /// The typed input.
    pub input: Seq<char>,
    /// The source of the held compiled pattern, if any.
    pub pattern: Option<Seq<char>>,
    /// Literal prefix matching instead of pattern matching.
    pub literal: bool,
    /// Whether free text may be committed when nothing matches.
    pub custom: bool,
    /// Whether the frecency store is in use.
    pub cache_enabled: bool,
    /// Whether losing window focus ends the session.
    pub exit_unfocus: bool,
    /// Whether the input line, rather than the grid, has focus.
    pub input_selected: bool,
    /// Whether the window has been focused.
    pub focused: bool,
    /// The cursor cell, relative to the visible page.
    pub index: int,
    /// Which page of the filtered view is visible.
    pub scroll: int,
    pub rows: int,
    pub columns: int,
}

/// The smaller of two integers.
pub open spec fn min_i(a: int, b: int) -> int {
    if a <= b {
        a
    } else {
        b
    }
}

/// Cells per page.
pub open spec fn area_of(v: SessionModel) -> int {
    v.rows * v.columns
}

/// The current filtered view.
pub open spec fn filtered_of(v: SessionModel) -> Seq<ItemModel> {
    filtered_spec(v.items, v.literal, v.input, v.pattern)
}

/// The length of the current filtered view.
pub open spec fn flen_of(v: SessionModel) -> int {
    filtered_of(v).len() as int
}

/// The absolute position of the cursor within the filtered view.
pub open spec fn absolute_index(v: SessionModel) -> int {
    v.index + v.scroll * area_of(v)
}

/// The selected item: the filtered view at the absolute cursor position,
/// where that position exists.
pub open spec fn selected_of(v: SessionModel) -> Option<ItemModel> {
    if 0 <= absolute_index(v) < flen_of(v) {
        Some(filtered_of(v)[absolute_index(v)])
    } else {
        None
    }
}

/// The navigation invariant: the cursor stays inside the page, a scrolled
/// page always still has an item, and whenever the filtered view is
/// nonempty the absolute cursor position lands inside it.
pub open spec fn nav_wf(v: SessionModel) -> bool {
    &&& 1 <= v.rows
    &&& 1 <= v.columns
    &&& v.rows * v.columns <= usize::MAX
    &&& 0 <= v.index < area_of(v)
    &&& 0 <= v.scroll
    &&& (v.scroll > 0 ==> v.scroll * area_of(v) < flen_of(v))
    &&& (flen_of(v) > 0 ==> absolute_index(v) < flen_of(v))
    &&& (flen_of(v) == 0 ==> v.scroll == 0)
}

/// The pattern the input compiles to: the input behind a case-insensitivity
/// marker.
pub open spec fn ci_pattern(input: Seq<char>) -> Seq<char> {
    "(?i)"@ + input
}

/// The pattern state after a change of input in pattern mode: the compiled
/// pattern, or none where the input does not compile.
pub open spec fn compiled_pattern(input: Seq<char>) -> Option<Seq<char>> {
    if regex_ok(ci_pattern(input)) {
        Some(ci_pattern(input))
    } else {
        None
    }
}

/// A cursor pulled back into range after the filtered view changed under
/// it: first the page, then the cell.
pub open spec fn clamp_nav(v: SessionModel) -> SessionModel {
    let n = flen_of(v);
    let a = area_of(v);
    if n == 0 {
        SessionModel { index: 0, scroll: 0, ..v }
    } else {
        let sc = min_i(v.scroll, (n - 1) / a);
        let ix = min_i(v.index, n - 1 - sc * a);
        SessionModel { index: ix, scroll: sc, ..v }
    }
}

/// What one step yields: the next session state, the store, and what the
/// loop is told.
pub struct StepModel {
    pub session: SessionModel,
    pub store: StoreModel,
    pub outcome: StepResultModel,
}

/// The transition table: one event taken against the current state.
pub open spec fn step_spec(v: SessionModel, ev: EventModel, store: StoreModel) -> StepModel {
    let a = area_of(v);
    let n = flen_of(v);
    let count = n - v.scroll * a;
    match ev {
        EventModel::TextChanged(s) => StepModel {
            session: SessionModel {
                input: s,
                pattern: if v.literal {
                    None
                } else {
                    compiled_pattern(s)
                },
                index: 0,
                scroll: 0,
                ..v
            },
            store,
            outcome: StepResultModel::Continue,
        },
        EventModel::ToggleFocus => StepModel {
            session: SessionModel { input_selected: !v.input_selected, ..v },
            store,
            outcome: StepResultModel::Continue,
        },
        EventModel::ScrollDown => StepModel {
            session: if count > a {
                SessionModel {
                    scroll: v.scroll + 1,
                    index: min_i(v.index, count - a - 1),
                    ..v
                }
            } else {
                v
            },
            store,
            outcome: StepResultModel::Continue,
        },
        EventModel::ScrollUp => StepModel {
            session: if v.scroll > 0 {
                SessionModel { scroll: v.scroll - 1, ..v }
            } else {
                v
            },
            store,
            outcome: StepResultModel::Continue,
        },
        EventModel::ArrowUp => StepModel {
            session: if !v.input_selected && v.index % v.rows != 0 {
                SessionModel { index: v.index - 1, ..v }
            } else if !v.input_selected && v.index % v.rows == 0 && v.scroll > 0 {
                SessionModel { scroll: v.scroll - 1, index: v.index + v.rows - 1, ..v }
            } else {
                v
            },
            store,
            outcome: StepResultModel::Continue,
        },
        EventModel::ArrowDown => StepModel {
            session: if !v.input_selected && v.index % v.rows < v.rows - 1 && v.index + 1
                < count {
                SessionModel { index: v.index + 1, ..v }
            } else if !v.input_selected && v.index % v.rows == v.rows - 1 && count > a {
                SessionModel {
                    scroll: v.scroll + 1,
                    index: min_i(v.index + 1 - v.rows, count - a - 1),
                    ..v
                }
            } else {
                v
            },
            store,
            outcome: StepResultModel::Continue,
        },
        EventModel::ArrowRight => StepModel {
            session: if !v.input_selected && v.index + v.rows < min_i(count, a) {
                SessionModel { index: v.index + v.rows, ..v }
            } else {
                v
            },
            store,
            outcome: StepResultModel::Continue,
        },
        EventModel::ArrowLeft => StepModel {
            session: if !v.input_selected && v.index >= v.rows {
                SessionModel { index: v.index - v.rows, ..v }
            } else {
                v
            },
            store,
            outcome: StepResultModel::Continue,
        },
        EventModel::Commit => {
            match selected_of(v) {
                Some(it) => StepModel {
                    session: v,
                    store: if v.cache_enabled {
                        inc_spec(store, name_of(it))
                    } else {
                        store
                    },
                    outcome: StepResultModel::Done(Some(it)),
                },
                None => {
                    if v.custom && v.input.len() > 0 {
                        StepModel {
                            session: v,
                            store,
                            outcome: StepResultModel::Done(
                                Some(ItemModel::FreeText { name: v.input }),
                            ),
                        }
                    } else {
                        StepModel { session: v, store, outcome: StepResultModel::Done(None) }
                    }
                },
            }
        },
        EventModel::Cancel => StepModel {
            session: v,
            store,
            outcome: StepResultModel::Done(None),
        },
        EventModel::Delete => {
            match selected_of(v) {
                Some(it) if v.cache_enabled => {
                    let store2 = del_spec(store, name_of(it));
                    let v2 = SessionModel { items: rank_spec(v.items, store2), ..v };
                    StepModel {
                        session: clamp_nav(v2),
                        store: store2,
                        outcome: StepResultModel::Continue,
                    }
                },
                _ => StepModel { session: v, store, outcome: StepResultModel::Continue },
            }
        },
        EventModel::FocusGained => StepModel {
            session: SessionModel { focused: true, ..v },
            store,
            outcome: StepResultModel::Continue,
        },
        EventModel::FocusLost => StepModel {
            session: v,
            store,
            outcome: if v.focused && v.exit_unfocus {
                StepResultModel::Done(None)
            } else {
                StepResultModel::Continue
            },
        },
    }
}



/// Every transition of the table keeps the navigation invariant.
pub proof fn lemma_step_preserves_wf(v: SessionModel, ev: EventModel, store: StoreModel)
    requires
        nav_wf(v),
    ensures
        nav_wf(step_spec(v, ev, store).session),
{
    let a = area_of(v);
    let n = flen_of(v);
    let count = n - v.scroll * a;
    assert(a >= 1) by (nonlinear_arith)
        requires
            v.rows >= 1,
            v.columns >= 1,
            a == v.rows * v.columns,
    ;
    let w = step_spec(v, ev, store).session;
    match ev {
        EventModel::TextChanged(s) => {
            assert(nav_wf(w));
        },
        EventModel::ScrollDown => {
            if count > a {
                assert(w.scroll * a == v.scroll * a + a) by (nonlinear_arith)
                    requires
                        w.scroll == v.scroll + 1,
                ;
                assert(v.scroll * a >= 0) by (nonlinear_arith)
                    requires
                        v.scroll >= 0,
                        a >= 1,
                ;
                assert(w.scroll * area_of(w) < flen_of(w));
                assert(absolute_index(w) < n);
            }
            assert(nav_wf(w));
        },
        EventModel::ScrollUp => {
            if v.scroll > 0 {
                assert(n > 0);
                if w.scroll > 0 {
                    assert(w.scroll * a < v.scroll * a) by (nonlinear_arith)
                        requires
                            w.scroll == v.scroll - 1,
                            a >= 1,
                    ;
                }
                assert(w.scroll * a >= 0) by (nonlinear_arith)
                    requires
                        w.scroll >= 0,
                        a >= 1,
                ;
                assert(absolute_index(w) < absolute_index(v)) by (nonlinear_arith)
                    requires
                        w.scroll == v.scroll - 1,
                        w.index == v.index,
                        a >= 1,
                        absolute_index(w) == w.index + w.scroll * a,
                        absolute_index(v) == v.index + v.scroll * a,
                ;
            }
            assert(nav_wf(w));
        },
        EventModel::ArrowUp => {
            if !v.input_selected && v.index % v.rows != 0 {
                assert(v.index % v.rows >= 1) by {
                    vstd::arithmetic::div_mod::lemma_mod_bound(v.index, v.rows);
                }
                vstd::arithmetic::div_mod::lemma_fundamental_div_mod(v.index, v.rows);
                assert(v.index / v.rows >= 0) by {
                    vstd::arithmetic::div_mod::lemma_div_pos_is_pos(v.index, v.rows);
                }
                assert(v.rows * (v.index / v.rows) >= 0) by (nonlinear_arith)
                    requires
                        v.index / v.rows >= 0,
                        v.rows >= 1,
                ;
                assert(v.index >= 1);
            } else if !v.input_selected && v.index % v.rows == 0 && v.scroll > 0 {
                assert(n > 0);
                let q = v.index / v.rows;
                vstd::arithmetic::div_mod::lemma_fundamental_div_mod(v.index, v.rows);
                assert(v.index == v.rows * q);
                assert(q < v.columns) by (nonlinear_arith)
                    requires
                        v.rows * q < v.rows * v.columns,
                        v.rows >= 1,
                        v.index == v.rows * q,
                        v.index < v.rows * v.columns,
                ;
                assert(q >= 0) by (nonlinear_arith)
                    requires
                        v.rows * q == v.index,
                        v.index >= 0,
                        v.rows >= 1,
                ;
                assert(v.rows * q + v.rows <= v.rows * v.columns) by (nonlinear_arith)
                    requires
                        q + 1 <= v.columns,
                        v.rows >= 1,
                ;
                assert(w.index < a);
                assert(v.rows <= a) by (nonlinear_arith)
                    requires
                        a == v.rows * v.columns,
                        v.rows >= 1,
                        v.columns >= 1,
                ;
                if w.scroll > 0 {
                    assert(w.scroll * a < v.scroll * a) by (nonlinear_arith)
                        requires
                            w.scroll == v.scroll - 1,
                            a >= 1,
                    ;
                }
                assert(w.scroll * a == v.scroll * a - a) by (nonlinear_arith)
                    requires
                        w.scroll == v.scroll - 1,
                ;
                assert(absolute_index(w) <= absolute_index(v) - 1);
            }
            assert(nav_wf(w));
        },
        EventModel::ArrowDown => {
            if !v.input_selected && v.index % v.rows < v.rows - 1 && v.index + 1 < count {
                assert(w.index < a) by {
                    if v.index + 1 == a {
                        assert((v.rows * v.columns - 1) % v.rows == v.rows - 1) by (nonlinear_arith)
                            requires
                                v.rows >= 1,
                                v.columns >= 1,
                        ;
                    }
                }
                assert(absolute_index(w) < n);
                assert(n > 0) by {
                    assert(v.scroll * a >= 0) by (nonlinear_arith)
                        requires
                            v.scroll >= 0,
                            a >= 1,
                    ;
                }
            } else if !v.input_selected && v.index % v.rows == v.rows - 1 && count > a {
                let q = v.index / v.rows;
                vstd::arithmetic::div_mod::lemma_fundamental_div_mod(v.index, v.rows);
                assert(q >= 0) by {
                    vstd::arithmetic::div_mod::lemma_div_pos_is_pos(v.index, v.rows);
                }
                assert(v.rows * q >= 0) by (nonlinear_arith)
                    requires
                        q >= 0,
                        v.rows >= 1,
                ;
                assert(v.index >= v.rows - 1);
                assert(w.index <= v.index + 1 - v.rows);
                assert(v.index + 1 - v.rows < a);
                assert(w.index >= 0);
                assert(w.scroll * a == v.scroll * a + a) by (nonlinear_arith)
                    requires
                        w.scroll == v.scroll + 1,
                ;
                assert(w.scroll * a < n);
                assert(absolute_index(w) <= count - a - 1 + v.scroll * a + a);
            }
            assert(nav_wf(w));
        },
        EventModel::ArrowRight => {
            if !v.input_selected && v.index + v.rows < min_i(count, a) {
                assert(absolute_index(w) < n);
                assert(n > 0) by {
                    assert(v.scroll * a >= 0) by (nonlinear_arith)
                        requires
                            v.scroll >= 0,
                            a >= 1,
                    ;
                }
            }
            assert(nav_wf(w));
        },
        EventModel::ArrowLeft => {
            assert(nav_wf(w));
        },
        EventModel::Delete => {
            match selected_of(v) {
                Some(it) if v.cache_enabled => {
                    let store2 = del_spec(store, name_of(it));
                    let v2 = SessionModel { items: rank_spec(v.items, store2), ..v };
                    lemma_clamp_wf(v2);
                },
                _ => {
                },
            }
            assert(nav_wf(w));
        },
        _ => {
            assert(nav_wf(w));
        },
    }
}

/// Clamping restores the invariant whatever the filtered view became.
proof fn lemma_clamp_wf(v: SessionModel)
    requires
        1 <= v.rows,
        1 <= v.columns,
        v.rows * v.columns <= usize::MAX,
        0 <= v.index < area_of(v),
        0 <= v.scroll,
    ensures
        nav_wf(clamp_nav(v)),
{
    let n = flen_of(v);
    let a = area_of(v);
    assert(a >= 1) by (nonlinear_arith)
        requires
            v.rows >= 1,
            v.columns >= 1,
            a == v.rows * v.columns,
    ;
    let w = clamp_nav(v);
    if n > 0 {
        let sc = min_i(v.scroll, (n - 1) / a);
        vstd::arithmetic::div_mod::lemma_fundamental_div_mod(n - 1, a);
        vstd::arithmetic::div_mod::lemma_mod_bound(n - 1, a);
        assert(((n - 1) / a) * a <= n - 1);
        assert((n - 1) / a >= 0) by {
            vstd::arithmetic::div_mod::lemma_div_is_ordered(0, n - 1, a);
            vstd::arithmetic::div_mod::lemma_basic_div(0, a);
        }
        assert(sc * a <= ((n - 1) / a) * a) by {
            vstd::arithmetic::mul::lemma_mul_inequality(sc, (n - 1) / a, a);
        }
        assert(sc * a >= 0) by (nonlinear_arith)
            requires
                sc >= 0,
                a >= 1,
        ;
        assert(w.index + w.scroll * a <= n - 1);
    }
}

/// The state a whole sequence of events leads to, threading the store.
pub open spec fn run_events(v: SessionModel, store: StoreModel, evs: Seq<EventModel>) -> SessionModel
    decreases evs.len(),
{
    if evs.len() == 0 {
        v
    } else {
        let m = step_spec(v, evs[0], store);
        run_events(m.session, m.store, evs.drop_first())
    }
}

/// Law: navigation stays in bounds.  After any sequence of events from a
/// well-formed state, the cursor cell never leaves the page — it stays
/// below `rows * columns` — and whenever the filtered view is nonempty the
/// absolute selection index stays below its length.
pub proof fn lemma_navigation_bounds(v: SessionModel, store: StoreModel, evs: Seq<EventModel>)
    requires
        nav_wf(v),
    ensures
        nav_wf(run_events(v, store, evs)),
        run_events(v, store, evs).index < run_events(v, store, evs).rows * run_events(
            v,
            store,
            evs,
        ).columns,
        flen_of(run_events(v, store, evs)) > 0 ==> absolute_index(run_events(v, store, evs))
            < flen_of(run_events(v, store, evs)),
    decreases evs.len(),
{
    if evs.len() > 0 {
        let m = step_spec(v, evs[0], store);
        lemma_step_preserves_wf(v, evs[0], store);
        lemma_navigation_bounds(m.session, m.store, evs.drop_first());
    }
}



proof fn lemma_area_bounds(rows: int, columns: int)
    requires
        rows >= 1,
        columns >= 1,
    ensures
        rows * columns >= rows,
        rows * columns >= columns,
        rows * columns >= 1,
    decreases columns,
{
    if columns > 1 {
        lemma_area_bounds(rows, columns - 1);
        assert(rows * columns == rows * (columns - 1) + rows) by (nonlinear_arith);
    }
}

proof fn lemma_mod_nonzero_pos(index: int, rows: int)
    requires
        rows >= 1,
        index >= 0,
        index % rows != 0,
    ensures
        index >= 1,
        index % rows >= 1,
{
    vstd::arithmetic::div_mod::lemma_mod_bound(index, rows);
    vstd::arithmetic::div_mod::lemma_fundamental_div_mod(index, rows);
    assert(index / rows >= 0) by {
        vstd::arithmetic::div_mod::lemma_div_pos_is_pos(index, rows);
    }
    assert(rows * (index / rows) >= 0) by (nonlinear_arith)
        requires
            index / rows >= 0,
            rows >= 1,
    ;
}

proof fn lemma_mod_zero_step(index: int, rows: int, columns: int)
    requires
        rows >= 1,
        columns >= 1,
        0 <= index < rows * columns,
        index % rows == 0,
    ensures
        index + rows <= rows * columns,
{
    let q = index / rows;
    vstd::arithmetic::div_mod::lemma_fundamental_div_mod(index, rows);
    assert(q < columns) by (nonlinear_arith)
        requires
            index == rows * q,
            index < rows * columns,
            rows >= 1,
    ;
    assert(rows * q + rows <= rows * columns) by (nonlinear_arith)
        requires
            q + 1 <= columns,
            rows >= 1,
    ;
}

proof fn lemma_mod_top_bound(index: int, rows: int)
    requires
        rows >= 1,
        index >= 0,
        index % rows == rows - 1,
    ensures
        index >= rows - 1,
{
    vstd::arithmetic::div_mod::lemma_fundamental_div_mod(index, rows);
    assert(index / rows >= 0) by {
        vstd::arithmetic::div_mod::lemma_div_pos_is_pos(index, rows);
    }
    assert(rows * (index / rows) >= 0) by (nonlinear_arith)
        requires
            index / rows >= 0,
            rows >= 1,
    ;
}

/// The navigation and selection state of one interactive session.
pub struct Session {
    items: Vec<Item>,
    input: String,
    matcher: Option<Matcher>,
    literal: bool,
    custom: bool,
    cache_enabled: bool,
    exit_unfocus: bool,
    input_selected: bool,
    focused: bool,
    index: usize,
    scroll: usize,
    rows: usize,
    columns: usize,
}

impl View for Session {
    type V = SessionModel;

    closed spec fn view(&self) -> SessionModel {
        SessionModel {
            items: self.items.deep_view(),
            input: self.input@,
            pattern: matcher_view(self.matcher),
            literal: self.literal,
            custom: self.custom,
            cache_enabled: self.cache_enabled,
            exit_unfocus: self.exit_unfocus,
            input_selected: self.input_selected,
            focused: self.focused,
            index: self.index as int,
            scroll: self.scroll as int,
            rows: self.rows as int,
            columns: self.columns as int,
        }
    }
}

/// The state a session starts in: the catalog ranked once (against the
/// stored counts when caching is enabled, else in pure natural order),
/// empty input, no compiled pattern, the cursor on the first cell.
pub open spec fn new_spec(
    items: Seq<ItemModel>,
    counts: StoreModel,
    cache_enabled: bool,
    custom: bool,
    literal: bool,
    exit_unfocus: bool,
    rows: int,
    max_columns: int,
) -> SessionModel {
    SessionModel {
        items: rank_spec(
            items,
            if cache_enabled {
                counts
            } else {
                Seq::empty()
            },
        ),
        input: Seq::empty(),
        pattern: None,
        literal,
        custom,
        cache_enabled,
        exit_unfocus,
        input_selected: false,
        focused: false,
        index: 0,
        scroll: 0,
        rows,
        columns: column_count_spec(items.len() as int, rows, max_columns),
    }
}

impl Session {
    /// Start a session over a catalog.  Ranking happens here, once; the
    /// column count is derived from the unfiltered catalog size and the
    /// configured maximum and stays fixed.
    pub fn new(
        items: Vec<Item>,
        store: &FrecencyStore,
        cache_enabled: bool,
        custom: bool,
        literal: bool,
        exit_unfocus: bool,
        rows: usize,
        max_columns: usize,
    ) -> (r: Session)
        requires
            1 <= rows,
            1 <= max_columns,
            rows * max_columns <= usize::MAX,
        ensures
            r@ == new_spec(
                items.deep_view(),
                store@,
                cache_enabled,
                custom,
                literal,
                exit_unfocus,
                rows as int,
                max_columns as int,
            ),
            nav_wf(r@),
    {
        let total = items.len();
        let ranked = if cache_enabled {
            store.rank(&items)
        } else {
            let blank = FrecencyStore::new();
            blank.rank(&items)
        };
        let columns = column_count(total, rows, max_columns);
        proof {
            vstd::arithmetic::mul::lemma_mul_inequality(columns as int, max_columns as int, rows as int);
            assert(columns as int * rows as int == rows as int * columns as int) by (nonlinear_arith);
            assert(max_columns as int * rows as int == rows as int * max_columns as int)
                by (nonlinear_arith);
            lemma_area_bounds(rows as int, columns as int);
        }
        let r = Session {
            items: ranked,
            input: String::new(),
            matcher: None,
            literal,
            custom,
            cache_enabled,
            exit_unfocus,
            input_selected: false,
            focused: false,
            index: 0,
            scroll: 0,
            rows,
            columns,
        };
        proof {
            vstd::arithmetic::mul::lemma_mul_basics(area_of(r@));
        }
        r
    }

    /// The page geometry: cells per page, the filtered length, and how many
    /// filtered items remain from the top of the visible page to the end.
    fn geometry(&self) -> (r: (usize, usize, usize))
        requires
            nav_wf(self@),
        ensures
            r.0 == area_of(self@),
            r.1 == flen_of(self@),
            r.2 == flen_of(self@) - self@.scroll * area_of(self@),
    {
        let a = self.rows * self.columns;
        let n = filtered_len(&self.items, self.literal, self.input.as_str(), &self.matcher);
        proof {
            vstd::arithmetic::mul::lemma_mul_basics(area_of(self@));
            if self@.scroll > 0 {
                assert(self@.scroll * area_of(self@) < flen_of(self@));
            }
        }
        let sa = self.scroll * a;
        let count = n - sa;
        (a, n, count)
    }

    /// The catalog position of the item under the cursor, if the absolute
    /// cursor position lands inside the filtered view.
    fn selected_pos(&self) -> (r: Option<usize>)
        requires
            nav_wf(self@),
        ensures
            match r {
                Some(i) => i < self@.items.len() && selected_of(self@) == Some(self@.items[i as int]),
                None => selected_of(self@) is None,
            },
    {
        let a = self.rows * self.columns;
        let nitems = self.items.len();
        proof {
            vstd::arithmetic::mul::lemma_mul_basics(area_of(self@));
            crate::filter::lemma_filtered_len_le(
                self@.items,
                self@.literal,
                self@.input,
                self@.pattern,
            );
            assert(self@.items.len() == nitems);
            if self@.scroll > 0 {
                assert(self@.scroll * area_of(self@) < flen_of(self@));
            }
        }
        let sa = self.scroll * a;
        let absolute = self.index + sa;
        let r = nth_filtered(
            &self.items,
            self.literal,
            self.input.as_str(),
            &self.matcher,
            absolute,
        );
        proof {
            match r {
                Some(i) => {
                    assert(0 <= absolute_index(self@) < flen_of(self@));
                },
                None => {
                    assert(absolute_index(self@) >= flen_of(self@));
                },
            }
        }
        r
    }

    /// Process one event against the current state: the transition table of
    /// the session, committing and deleting through the store.
    #[verifier::rlimit(100)]
    pub fn step(&mut self, ev: Event, store: &mut FrecencyStore) -> (r: StepResult)
        requires
            nav_wf(old(self)@),
        ensures
            final(self)@ == step_spec(old(self)@, ev@, old(store)@).session,
            final(store)@ == step_spec(old(self)@, ev@, old(store)@).store,
            r@ == step_spec(old(self)@, ev@, old(store)@).outcome,
            nav_wf(final(self)@),
    {
        proof {
            lemma_step_preserves_wf(old(self)@, ev@, old(store)@);
            lemma_area_bounds(old(self)@.rows, old(self)@.columns);
        }
        let ghost v = self@;
        match ev {
            Event::TextChanged(s) => {
                self.input = s;
                self.index = 0;
                self.scroll = 0;
                if self.literal {
                    self.matcher = None;
                } else {
                    let pat = String::from_str("(?i)").concat(self.input.as_str());
                    assert(pat@ == ci_pattern(self.input@));
                    self.matcher = Matcher::compile(pat.as_str());
                }
                StepResult::Continue
            },
            Event::ToggleFocus => {
                self.input_selected = !self.input_selected;
                StepResult::Continue
            },
            Event::ScrollDown => {
                let g = self.geometry();
                let a = g.0;
                let count = g.2;
                if count > a {
                    proof {
                        assert(v.scroll <= v.scroll * area_of(v)) by (nonlinear_arith)
                            requires
                                v.scroll >= 0,
                                area_of(v) >= 1,
                        ;
                    }
                    self.scroll = self.scroll + 1;
                    let lim = count - a - 1;
                    if self.index > lim {
                        self.index = lim;
                    }
                }
                StepResult::Continue
            },
            Event::ScrollUp => {
                if self.scroll > 0 {
                    self.scroll = self.scroll - 1;
                }
                StepResult::Continue
            },
            Event::ArrowUp => {
                if !self.input_selected {
                    if self.index % self.rows != 0 {
                        proof {
                            lemma_mod_nonzero_pos(v.index, v.rows);
                        }
                        self.index = self.index - 1;
                    } else if self.scroll > 0 {
                        proof {
                            lemma_mod_zero_step(v.index, v.rows, v.columns);
                        }
                        self.scroll = self.scroll - 1;
                        self.index = self.index + self.rows - 1;
                    }
                }
                StepResult::Continue
            },
            Event::ArrowDown => {
                if !self.input_selected {
                    let g = self.geometry();
                    let a = g.0;
                    let count = g.2;
                    let m = self.index % self.rows;
                    if m < self.rows - 1 && self.index + 1 < count {
                        self.index = self.index + 1;
                    } else if m + 1 == self.rows && count > a {
                        proof {
                            lemma_mod_top_bound(v.index, v.rows);
                            assert(v.scroll <= v.scroll * area_of(v)) by (nonlinear_arith)
                                requires
                                    v.scroll >= 0,
                                    area_of(v) >= 1,
                            ;
                        }
                        self.scroll = self.scroll + 1;
                        let cand = self.index + 1 - self.rows;
                        let lim = count - a - 1;
                        self.index = if cand > lim {
                            lim
                        } else {
                            cand
                        };
                    }
                }
                StepResult::Continue
            },
            Event::ArrowRight => {
                if !self.input_selected {
                    let g = self.geometry();
                    let a = g.0;
                    let count = g.2;
                    let m = if count < a {
                        count
                    } else {
                        a
                    };
                    if self.index < m && m - self.index > self.rows {
                        self.index = self.index + self.rows;
                    }
                }
                StepResult::Continue
            },
            Event::ArrowLeft => {
                if !self.input_selected && self.index >= self.rows {
                    self.index = self.index - self.rows;
                }
                StepResult::Continue
            },
            Event::Commit => {
                let sel = self.selected_pos();
                match sel {
                    Some(i) => {
                        let it = self.items[i].duplicate();
                        if self.cache_enabled {
                            store.increment(it.name());
                        }
                        StepResult::Done(Some(it))
                    },
                    None => {
                        if self.custom && !self.input.as_str().is_empty() {
                            let it = Item::FreeText { name: self.input.clone() };
                            StepResult::Done(Some(it))
                        } else {
                            StepResult::Done(None)
                        }
                    },
                }
            },
            Event::Cancel => {
                StepResult::Done(None)
            },
            Event::Delete => {
                if self.cache_enabled {
                    let sel = self.selected_pos();
                    match sel {
                        Some(i) => {
                            store.delete(self.items[i].name());
                            let ranked = store.rank(&self.items);
                            self.items = ranked;
                            let n2 = filtered_len(
                                &self.items,
                                self.literal,
                                self.input.as_str(),
                                &self.matcher,
                            );
                            let a = self.rows * self.columns;
                            if n2 == 0 {
                                self.index = 0;
                                self.scroll = 0;
                            } else {
                                let smax = (n2 - 1) / a;
                                if self.scroll > smax {
                                    self.scroll = smax;
                                }
                                proof {
                                    vstd::arithmetic::div_mod::lemma_fundamental_div_mod(
                                        n2 as int - 1,
                                        a as int,
                                    );
                                    vstd::arithmetic::div_mod::lemma_mod_bound(
                                        n2 as int - 1,
                                        a as int,
                                    );
                                    vstd::arithmetic::mul::lemma_mul_inequality(
                                        self@.scroll,
                                        (n2 as int - 1) / (a as int),
                                        a as int,
                                    );
                                    assert(self@.scroll * (a as int) <= n2 as int - 1);
                                }
                                let sa = self.scroll * a;
                                let imax = n2 - 1 - sa;
                                if self.index > imax {
                                    self.index = imax;
                                }
                            }
                            StepResult::Continue
                        },
                        None => StepResult::Continue,
                    }
                } else {
                    StepResult::Continue
                }
            },
            Event::FocusGained => {
                self.focused = true;
                StepResult::Continue
            },
            Event::FocusLost => {
                if self.focused && self.exit_unfocus {
                    StepResult::Done(None)
                } else {
                    StepResult::Continue
                }
            },
        }
    }
}



impl Session {
    /// The cursor cell, relative to the visible page.
    pub fn cursor_index(&self) -> (r: usize)
        ensures
            r == self@.index,
    {
        self.index
    }

    /// Which page of the filtered view is visible.
    pub fn scroll_page(&self) -> (r: usize)
        ensures
            r == self@.scroll,
    {
        self.scroll
    }

    /// Rows per page.
    pub fn rows(&self) -> (r: usize)
        ensures
            r == self@.rows,
    {
        self.rows
    }

    /// Columns per page, as derived at session start.
    pub fn columns(&self) -> (r: usize)
        ensures
            r == self@.columns,
    {
        self.columns
    }

    /// The typed input.
    pub fn input_text(&self) -> (r: &str)
        ensures
            r@ == self@.input,
    {
        self.input.as_str()
    }

    /// How many items the current filter lets through.
    pub fn filtered_count(&self) -> (r: usize)
        ensures
            r == flen_of(self@),
    {
        filtered_len(&self.items, self.literal, self.input.as_str(), &self.matcher)
    }

    /// The catalog item at position `i` of the ranked catalog.
    pub fn item_at(&self, i: usize) -> (r: Option<&Item>)
        ensures
            match r {
                Some(it) => i < self@.items.len() && it@ == self@.items[i as int],
                None => i >= self@.items.len(),
            },
    {
        if i < self.items.len() {
            Some(&self.items[i])
        } else {
            None
        }
    }

    /// The catalog position of the `k`-th item of the filtered view.
    pub fn filtered_pos(&self, k: usize) -> (r: Option<usize>)
        ensures
            match r {
                Some(i) => i < self@.items.len() && k < flen_of(self@) && self@.items[i as int]
                    == filtered_of(self@)[k as int],
                None => k >= flen_of(self@),
            },
    {
        nth_filtered(&self.items, self.literal, self.input.as_str(), &self.matcher, k)
    }

    /// The item under the cursor, if the cursor lands inside the filtered
    /// view.
    pub fn selected(&self) -> (r: Option<&Item>)
        requires
            nav_wf(self@),
        ensures
            match r {
                Some(it) => selected_of(self@) == Some(it@),
                None => selected_of(self@) is None,
            },
    {
        let pos = self.selected_pos();
        match pos {
            Some(i) => Some(&self.items[i]),
            None => None,
        }
    }
}



/// Law: committing a selection records it once.  With caching enabled the
/// chosen name's count rises by one, saturating at the representable
/// maximum; the session itself does not change, and the step ends the
/// session with exactly that item.
pub proof fn lemma_commit_records(v: SessionModel, store: StoreModel, it: ItemModel)
    requires
        wf_store(store),
        v.cache_enabled,
        selected_of(v) == Some(it),
    ensures
        step_spec(v, EventModel::Commit, store).session == v,
        step_spec(v, EventModel::Commit, store).outcome == StepResultModel::Done(Some(it)),
        count_or_zero(step_spec(v, EventModel::Commit, store).store, name_of(it))
            == saturating_inc(count_or_zero(store, name_of(it))),
        wf_store(step_spec(v, EventModel::Commit, store).store),
{
    lemma_increment_saturation(store, name_of(it));
}

/// Law: deleting the selection unrecords it.  With caching enabled the
/// selected name's count reads as zero afterwards, and the session goes
/// on.
pub proof fn lemma_delete_unrecords(v: SessionModel, store: StoreModel, it: ItemModel)
    requires
        v.cache_enabled,
        selected_of(v) == Some(it),
    ensures
        count_or_zero(step_spec(v, EventModel::Delete, store).store, name_of(it)) == 0,
        step_spec(v, EventModel::Delete, store).outcome == StepResultModel::Continue,
{
    lemma_delete_removes(store, name_of(it));
}

} // verus!
