//! The frecency store: a mapping from item name to a usage count.
//!
//! The store lives in memory as a sequence of records with pairwise distinct
//! names.  Reading and writing the backing file belongs to the surrounding
//! program; the text format itself is defined and verified in [`crate::codec`].

use vstd::prelude::*;

verus! {

/// One usage record: a name was selected `count` times.
pub struct Record {
    pub name: String,
    pub count: usize,
}

/// The mathematical value of a [`Record`].
pub struct RecordModel {
    pub name: Seq<char>,
    pub count: nat,
}

impl View for Record {
    type V = RecordModel;

    open spec fn view(&self) -> RecordModel {
        RecordModel { name: self.name@, count: self.count as nat }
    }
}

impl DeepView for Record {
    type V = RecordModel;

    open spec fn deep_view(&self) -> RecordModel {
        self.view()
    }
}

/// The mathematical value of a whole store: the records in their stored order.
pub type StoreModel = Seq<RecordModel>;

/// At most one record per name, and every count representable.
pub open spec fn wf_store(s: StoreModel) -> bool {
    &&& forall|i: int, j: int|
        #![trigger s[i].name, s[j].name]
        0 <= i < j < s.len() ==> s[i].name != s[j].name
    &&& forall|i: int| 0 <= i < s.len() ==> (#[trigger] s[i].count) <= usize::MAX as nat
}

/// The count recorded for `name`: the first record that carries it, if any.
pub open spec fn count_of(s: StoreModel, name: Seq<char>) -> Option<nat>
    decreases s.len(),
{
    if s.len() == 0 {
        None
    } else if s[0].name == name {
        Some(s[0].count)
    } else {
        count_of(s.drop_first(), name)
    }
}

/// Whether some record carries `name`.
pub open spec fn has_name(s: StoreModel, name: Seq<char>) -> bool {
    exists|i: int| 0 <= i < s.len() && (#[trigger] s[i].name) == name
}

/// The count for `name`, with absence read as zero.
pub open spec fn count_or_zero(s: StoreModel, name: Seq<char>) -> nat {
    match count_of(s, name) {
        Some(c) => c,
        None => 0,
    }
}

/// A count one higher, capped at the representable maximum.
pub open spec fn saturating_inc(c: nat) -> nat {
    if c + 1 > usize::MAX as nat {
        usize::MAX as nat
    } else {
        c + 1
    }
}

/// What one record becomes when `name` is selected once more.
pub open spec fn inc_record(r: RecordModel, name: Seq<char>) -> RecordModel {
    if r.name == name {
        RecordModel { name: r.name, count: saturating_inc(r.count) }
    } else {
        r
    }
}

/// The store after recording one more selection of `name`: the existing
/// record is bumped with saturation, or a fresh record with count 1 appears
/// at the end.
pub open spec fn inc_spec(s: StoreModel, name: Seq<char>) -> StoreModel {
    if has_name(s, name) {
        s.map_values(|r: RecordModel| inc_record(r, name))
    } else {
        s.push(RecordModel { name: name, count: 1 })
    }
}

/// The store after deleting `name`: every record carrying it is removed.
pub open spec fn del_spec(s: StoreModel, name: Seq<char>) -> StoreModel {
    s.filter(|r: RecordModel| r.name != name)
}

/// The first record carrying `name` decides `count_of`.
proof fn lemma_count_of_at(s: StoreModel, name: Seq<char>, i: int)
    requires
        0 <= i < s.len(),
        s[i].name == name,
        forall|j: int| 0 <= j < i ==> (#[trigger] s[j].name) != name,
    ensures
        count_of(s, name) == Some(s[i].count),
    decreases i,
{
    if i > 0 {
        lemma_count_of_at(s.drop_first(), name, i - 1);
    }
}

/// Where no record carries `name`, `count_of` finds nothing.
proof fn lemma_count_of_absent(s: StoreModel, name: Seq<char>)
    requires
        forall|j: int| 0 <= j < s.len() ==> (#[trigger] s[j].name) != name,
    ensures
        count_of(s, name) is None,
    decreases s.len(),
{
    if s.len() > 0 {
        lemma_count_of_absent(s.drop_first(), name);
    }
}

/// In a store with distinct names, the record carrying `name` is alone, so
/// its index decides `count_of`.
proof fn lemma_count_of_unique(s: StoreModel, name: Seq<char>, i: int)
    requires
        forall|x: int, y: int|
            #![trigger s[x].name, s[y].name]
            0 <= x < y < s.len() ==> s[x].name != s[y].name,
        0 <= i < s.len(),
        s[i].name == name,
    ensures
        count_of(s, name) == Some(s[i].count),
        forall|j: int| 0 <= j < s.len() && j != i ==> (#[trigger] s[j].name) != name,
{
    assert forall|j: int| 0 <= j < s.len() && j != i implies (#[trigger] s[j].name) != name by {
        if j < i {
            assert(s[j].name != s[i].name);
        } else {
            assert(s[i].name != s[j].name);
        }
    }
    lemma_count_of_at(s, name, i);
}

/// Law: repeated increments never overflow.  The count for a name caps at
/// the representable maximum, and once there a further increment leaves the
/// whole store unchanged.
pub proof fn lemma_increment_saturation(s: StoreModel, name: Seq<char>)
    requires
        wf_store(s),
    ensures
        count_or_zero(inc_spec(s, name), name) == saturating_inc(count_or_zero(s, name)),
        wf_store(inc_spec(s, name)),
        count_or_zero(s, name) == usize::MAX as nat ==> inc_spec(s, name) == s,
{
    if has_name(s, name) {
        let i = choose|i: int| 0 <= i < s.len() && (#[trigger] s[i].name) == name;
        let t = s.map_values(|r: RecordModel| inc_record(r, name));
        lemma_count_of_unique(s, name, i);
        lemma_count_of_unique(t, name, i);
        if s[i].count == usize::MAX as nat {
            assert(t =~= s);
        }
    } else {
        let t = s.push(RecordModel { name: name, count: 1 });
        assert(forall|j: int| 0 <= j < s.len() ==> (#[trigger] s[j].name) != name);
        lemma_count_of_unique(t, name, s.len() as int);
        lemma_count_of_absent(s, name);
    }
}

/// Keeping only the elements of an already clean sequence changes nothing.
proof fn lemma_filter_all<A>(s: Seq<A>, pred: spec_fn(A) -> bool)
    requires
        forall|i: int| 0 <= i < s.len() ==> pred(#[trigger] s[i]),
    ensures
        s.filter(pred) == s,
    decreases s.len(),
{
    reveal(Seq::filter);
    if s.len() == 0 {
        assert(s.filter(pred) =~= s);
    } else {
        lemma_filter_all(s.drop_last(), pred);
        assert(s.filter(pred) =~= s);
    }
}

/// Law: deleting a name not present leaves the store unchanged.
pub proof fn lemma_delete_absent(s: StoreModel, name: Seq<char>)
    requires
        !has_name(s, name),
    ensures
        del_spec(s, name) == s,
{
    lemma_filter_all(s, |r: RecordModel| r.name != name);
}

/// Law: deleting twice is the same as deleting once.
pub proof fn lemma_delete_idempotent(s: StoreModel, name: Seq<char>)
    ensures
        del_spec(del_spec(s, name), name) == del_spec(s, name),
{
    let pred = |r: RecordModel| r.name != name;
    broadcast use vstd::seq_lib::group_filter_ensures;

    lemma_filter_all(s.filter(pred), pred);
}

/// Law: after a deletion the name is gone — no record carries it and its
/// count reads as zero.
pub proof fn lemma_delete_removes(s: StoreModel, name: Seq<char>)
    ensures
        !has_name(del_spec(s, name), name),
        count_or_zero(del_spec(s, name), name) == 0,
{
    broadcast use vstd::seq_lib::group_filter_ensures;

    let t = del_spec(s, name);
    assert forall|j: int| 0 <= j < t.len() implies (#[trigger] t[j].name) != name by {
        assert(t[j] == s.filter(|r: RecordModel| r.name != name)[j]);
    }
    lemma_count_of_absent(t, name);
}

/// The persistent usage-frequency store, in memory.
pub struct FrecencyStore {
    records: Vec<Record>,
}

impl View for FrecencyStore {
    type V = StoreModel;

    closed spec fn view(&self) -> StoreModel {
        self.records.deep_view()
    }
}

impl FrecencyStore {
    /// An empty store.
    pub fn new() -> (r: FrecencyStore)
        ensures
            r@ == Seq::<RecordModel>::empty(),
    {
        FrecencyStore { records: Vec::new() }
    }

    /// How many records the store holds.
    pub fn len(&self) -> (r: usize)
        ensures
            r == self@.len(),
    {
        self.records.len()
    }

    /// The count recorded for `name`, zero if absent.
    pub fn get_count(&self, name: &str) -> (r: usize)
        ensures
            r as nat == count_or_zero(self@, name@),
    {
        let n = self.records.len();
        let mut i: usize = 0;
        while i < n
            invariant
                n == self@.len(),
                i <= n,
                self@ == self.records.deep_view(),
                forall|j: int| 0 <= j < i ==> (#[trigger] self@[j].name) != name@,
            decreases n - i,
        {
            if crate::text::str_eq(self.records[i].name.as_str(), name) {
                proof {
                    lemma_count_of_at(self@, name@, i as int);
                }
                return self.records[i].count;
            }
            i += 1;
        }
        proof {
            lemma_count_of_absent(self@, name@);
        }
        0
    }

    /// Record one more selection of `name`: bump its count with saturation,
    /// or append a fresh record with count 1.
    pub fn increment(&mut self, name: &str)
        ensures
            final(self)@ == inc_spec(old(self)@, name@),
    {
        let ghost r0 = self.records@;
        let n = self.records.len();
        let mut i: usize = 0;
        let mut found = false;
        while i < n
            invariant
                n == r0.len(),
                i <= n,
                self.records@.len() == n,
                forall|j: int|
                    0 <= j < i ==> (#[trigger] self.records@[j])@ == inc_record(r0[j]@, name@),
                forall|j: int| i <= j < n ==> (#[trigger] self.records@[j]) == r0[j],
                found == exists|j: int| 0 <= j < i && (#[trigger] r0[j])@.name == name@,
            decreases n - i,
        {
            let same = crate::text::str_eq(self.records[i].name.as_str(), name);
            if same {
                let c = self.records[i].count;
                let bumped = if c == usize::MAX {
                    c
                } else {
                    c + 1
                };
                self.records[i].count = bumped;
                found = true;
                assert(self.records@[i as int]@ == inc_record(r0[i as int]@, name@));
            }
            i += 1;
        }
        proof {
            assert(self@ == self.records.deep_view());
            assert(old(self)@ == r0.map_values(|r: Record| r@)) by {
                assert forall|j: int| 0 <= j < r0.len() implies old(self)@[j] == r0[j]@ by {}
                assert(old(self)@ =~= r0.map_values(|r: Record| r@));
            }
            if found {
                assert(has_name(old(self)@, name@)) by {
                    let j = choose|j: int| 0 <= j < n && (#[trigger] r0[j])@.name == name@;
                    assert(old(self)@[j].name == name@);
                }
                assert(self@ =~= old(self)@.map_values(|r: RecordModel| inc_record(r, name@)));
            } else {
                assert(!has_name(old(self)@, name@)) by {
                    if has_name(old(self)@, name@) {
                        let j = choose|j: int|
                            0 <= j < old(self)@.len() && (#[trigger] old(self)@[j].name) == name@;
                        assert(r0[j]@.name == name@);
                    }
                }
            }
        }
        if !found {
            self.records.push(Record { name: name.to_owned(), count: 1 });
            assert(self@ =~= old(self)@.push(RecordModel { name: name@, count: 1 }));
        }
    }

    /// A store from already clean records; `codec` builds it when loading.
    pub(crate) fn from_records(records: Vec<Record>) -> (r: FrecencyStore)
        ensures
            r@ == records.deep_view(),
    {
        FrecencyStore { records }
    }

    /// The records, for writing out.
    pub(crate) fn records(&self) -> (r: &Vec<Record>)
        ensures
            r.deep_view() == self@,
    {
        &self.records
    }

    /// Remove every record carrying `name`.
    pub fn delete(&mut self, name: &str)
        ensures
            final(self)@ == del_spec(old(self)@, name@),
    {
        let ghost s0 = self@;
        let ghost pred = |r: RecordModel| r.name != name@;
        let n = self.records.len();
        let mut kept: Vec<Record> = Vec::new();
        let mut i: usize = 0;
        while i < n
            invariant
                n == s0.len(),
                i <= n,
                self@ == s0,
                self@ == self.records.deep_view(),
                pred == (|r: RecordModel| r.name != name@),
                kept.deep_view() == s0.take(i as int).filter(pred),
            decreases n - i,
        {
            proof {
                assert(s0.take(i + 1) =~= s0.take(i as int).push(s0[i as int]));
                lemma_filter_push(s0.take(i as int), pred, s0[i as int]);
            }
            if !crate::text::str_eq(self.records[i].name.as_str(), name) {
                let rec = Record {
                    name: self.records[i].name.clone(),
                    count: self.records[i].count,
                };
                assert(rec@ == s0[i as int]);
                kept.push(rec);
                assert(kept.deep_view() =~= s0.take(i + 1).filter(pred));
            } else {
                assert(kept.deep_view() =~= s0.take(i + 1).filter(pred));
            }
            i += 1;
        }
        assert(s0.take(n as int) =~= s0);
        self.records = kept;
    }
}

/// Filtering a sequence extended by one element keeps the element exactly
/// when it satisfies the predicate.
proof fn lemma_filter_push<A>(s: Seq<A>, pred: spec_fn(A) -> bool, e: A)
    ensures
        s.push(e).filter(pred) == if pred(e) {
            s.filter(pred).push(e)
        } else {
            s.filter(pred)
        },
{
    reveal(Seq::filter);
    assert(s.push(e).drop_last() =~= s);
    assert(s.push(e).last() == e);
}

} // verus!
