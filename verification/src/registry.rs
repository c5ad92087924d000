//! Device records, specification sources, and the scan that builds a
//! registry generation from them.
use vstd::prelude::*;
use crate::fragment::{views, lemma_views_push, duplicate_all, Duplicate, Content, InjectionFragment};
use crate::ledger::{
    distinct_classes, ledger_holds, lemma_record_holds, lemma_record_keeps, record_error, CacheError,
    CacheErrorView, ErrorKind, ErrorLedger, LedgerEntryView,
};
use crate::naming::{class_key, class_key_of, is_well_formed, well_formed_name};

verus! {

/// A device and the fragment that realises it.
#[derive(Clone, Debug, PartialEq, Eq)]
pub struct DeviceRecord {
    pub name: String,
    pub fragment: InjectionFragment,
}

pub ghost struct DeviceRecordView {
    pub name: Seq<char>,
    pub fragment: Content,
}

impl View for DeviceRecord {
    type V = DeviceRecordView;

    open spec fn view(&self) -> DeviceRecordView {
        DeviceRecordView { name: self.name@, fragment: self.fragment@ }
    }
}

impl DeviceRecord {
    /// The class key of the record: the class prefix of its name.
    pub fn class_key(&self) -> (key: String)
        ensures
            key@ == class_key_of(self.name@),
    {
        class_key(self.name.as_str())
    }
}

impl Duplicate for DeviceRecord {
    fn duplicate(&self) -> (r: Self) {
        DeviceRecord { name: self.name.clone(), fragment: self.fragment.duplicate() }
    }
}

/// What a source yielded when it was read: its records, or the reason it
/// could not be read.
#[derive(Clone, Debug, PartialEq, Eq)]
pub enum SourceContent {
    Records(Vec<DeviceRecord>),
    Unreadable(String),
}

pub ghost enum SourceContentView {
    Records(Seq<DeviceRecordView>),
    Unreadable(Seq<char>),
}

impl View for SourceContent {
    type V = SourceContentView;

    open spec fn view(&self) -> SourceContentView {
        match self {
            SourceContent::Records(records) => SourceContentView::Records(views(records@)),
            SourceContent::Unreadable(reason) => SourceContentView::Unreadable(reason@),
        }
    }
}

impl Duplicate for SourceContent {
    fn duplicate(&self) -> (r: Self) {
        match self {
            SourceContent::Records(records) => SourceContent::Records(duplicate_all(records)),
            SourceContent::Unreadable(reason) => SourceContent::Unreadable(reason.clone()),
        }
    }
}

/// A configured specification source: its identifier, the class key under
/// which its own failures are recorded, and what reading it yielded.
#[derive(Clone, Debug, PartialEq, Eq)]
pub struct SpecSource {
    pub id: String,
    pub class_key: String,
    pub content: SourceContent,
}

pub ghost struct SpecSourceView {
    pub id: Seq<char>,
    pub class_key: Seq<char>,
    pub content: SourceContentView,
}

impl View for SpecSource {
    type V = SpecSourceView;

    open spec fn view(&self) -> SpecSourceView {
        SpecSourceView { id: self.id@, class_key: self.class_key@, content: self.content@ }
    }
}

impl Duplicate for SpecSource {
    fn duplicate(&self) -> (r: Self) {
        SpecSource {
            id: self.id.clone(),
            class_key: self.class_key.clone(),
            content: self.content.duplicate(),
        }
    }
}

/// `i` is the first record of `records` named `name`.
pub open spec fn record_at(records: Seq<DeviceRecordView>, name: Seq<char>, i: int) -> bool {
    &&& 0 <= i < records.len()
    &&& records[i].name == name
    &&& forall|j: int| 0 <= j < i ==> (#[trigger] records[j]).name != name
}

pub open spec fn has_name(records: Seq<DeviceRecordView>, name: Seq<char>) -> bool {
    exists|i: int| record_at(records, name, i)
}

/// The record that `name` resolves to.
pub open spec fn resolve(records: Seq<DeviceRecordView>, name: Seq<char>) -> Option<
    DeviceRecordView,
> {
    if has_name(records, name) {
        Some(records[choose|i: int| record_at(records, name, i)])
    } else {
        None
    }
}

/// No two records share a name.
pub open spec fn distinct_names(records: Seq<DeviceRecordView>) -> bool {
    forall|i: int, j: int|
        0 <= i < j < records.len() ==> (#[trigger] records[i]).name != (#[trigger] records[j]).name
}

/// The first record of a name is unique.
pub proof fn lemma_record_at_unique(records: Seq<DeviceRecordView>, name: Seq<char>, i: int)
    requires
        record_at(records, name, i),
    ensures
        has_name(records, name),
        (choose|k: int| record_at(records, name, k)) == i,
        resolve(records, name) == Some(records[i]),
{
    let k = choose|k: int| record_at(records, name, k);
    assert(record_at(records, name, k));
    if k < i {
        assert(records[k].name != name);
    }
    if i < k {
        assert(records[i].name != name);
    }
}

/// The state of a scan: the records accepted so far, the sources they came
/// from, and the load errors met.
pub ghost struct ScanView {
    pub records: Seq<DeviceRecordView>,
    pub built_from: Seq<Seq<char>>,
    pub ledger: Seq<LedgerEntryView>,
}

pub open spec fn empty_scan() -> ScanView {
    ScanView { records: Seq::empty(), built_from: Seq::empty(), ledger: Seq::empty() }
}

pub open spec fn load_error(kind: ErrorKind, subject: Seq<char>, detail: Seq<char>) -> CacheErrorView {
    CacheErrorView { kind, subject, detail }
}

/// One record of a source is taken in: a malformed name is recorded under
/// the source's class key, a name already present under the name's own
/// class key, and the record is accepted otherwise.
pub open spec fn add_record(st: ScanView, source_class: Seq<char>, record: DeviceRecordView) -> ScanView {
    if !well_formed_name(record.name) {
        ScanView {
            ledger: record_error(
                st.ledger,
                source_class,
                load_error(ErrorKind::MalformedRecord, record.name, Seq::empty()),
            ),
            ..st
        }
    } else if has_name(st.records, record.name) {
        ScanView {
            ledger: record_error(
                st.ledger,
                class_key_of(record.name),
                load_error(ErrorKind::NameCollision, record.name, Seq::empty()),
            ),
            ..st
        }
    } else {
        ScanView { records: st.records.push(record), ..st }
    }
}

pub open spec fn add_records(st: ScanView, source_class: Seq<char>, records: Seq<DeviceRecordView>) -> ScanView
    decreases records.len(),
{
    if records.len() == 0 {
        st
    } else {
        add_record(add_records(st, source_class, records.drop_last()), source_class, records.last())
    }
}

/// One source is taken in: an unreadable one is recorded under its class
/// key and skipped, a readable one is noted and its records taken in order.
pub open spec fn add_source(st: ScanView, source: SpecSourceView) -> ScanView {
    match source.content {
        SourceContentView::Unreadable(reason) => ScanView {
            ledger: record_error(
                st.ledger,
                source.class_key,
                load_error(ErrorKind::SourceUnreadable, source.id, reason),
            ),
            ..st
        },
        SourceContentView::Records(records) => add_records(
            ScanView { built_from: st.built_from.push(source.id), ..st },
            source.class_key,
            records,
        ),
    }
}

pub open spec fn add_sources(st: ScanView, sources: Seq<SpecSourceView>) -> ScanView
    decreases sources.len(),
{
    if sources.len() == 0 {
        st
    } else {
        add_source(add_sources(st, sources.drop_last()), sources.last())
    }
}

/// The outcome of scanning `sources` in their configured order.
pub open spec fn scan(sources: Seq<SpecSourceView>) -> ScanView {
    add_sources(empty_scan(), sources)
}

/// One immutable snapshot of the registry.
#[derive(Clone, Debug, PartialEq, Eq)]
pub struct Generation {
    pub records: Vec<DeviceRecord>,
    pub built_from: Vec<String>,
}

impl Generation {
    /// A generation with no records, built from no source.
    pub fn empty() -> (r: Self)
        ensures
            views(r.records@) == Seq::<DeviceRecordView>::empty(),
            views(r.built_from@) == Seq::<Seq<char>>::empty(),
    {
        let r = Generation { records: Vec::new(), built_from: Vec::new() };
        assert(views(r.records@) =~= Seq::<DeviceRecordView>::empty());
        assert(views(r.built_from@) =~= Seq::<Seq<char>>::empty());
        r
    }

    /// The position of the record named `name`.
    pub fn find(&self, name: &String) -> (r: Option<usize>)
        ensures
            match r {
                Some(i) => record_at(views(self.records@), name@, i as int),
                None => !has_name(views(self.records@), name@),
            },
    {
        let mut i: usize = 0;
        while i < self.records.len()
            invariant
                i <= self.records.len(),
                forall|j: int| 0 <= j < i ==> (#[trigger] views(self.records@)[j]).name != name@,
            decreases self.records.len() - i,
        {
            if self.records[i].name == *name {
                assert(views(self.records@)[i as int].name == name@);
                return Some(i);
            }
            i += 1;
        }
        None
    }
}

/// A scan in progress.
pub struct Scan {
    pub generation: Generation,
    pub ledger: ErrorLedger,
}

impl View for Scan {
    type V = ScanView;

    open spec fn view(&self) -> ScanView {
        ScanView {
            records: views(self.generation.records@),
            built_from: views(self.generation.built_from@),
            ledger: self.ledger@,
        }
    }
}

/// Names and class keys are distinct.
pub open spec fn scan_wf(st: ScanView) -> bool {
    distinct_names(st.records) && distinct_classes(st.ledger)
}

fn new_error(kind: ErrorKind, subject: &String, detail: String) -> (e: CacheError)
    ensures
        e@ == load_error(kind, subject@, detail@),
{
    CacheError { kind, subject: subject.clone(), detail }
}

fn take_record(scan: &mut Scan, source_class: &String, record: &DeviceRecord)
    ensures
        final(scan)@ == add_record(old(scan)@, source_class@, record@),
        scan_wf(old(scan)@) ==> scan_wf(final(scan)@),
{
    if !is_well_formed(record.name.as_str()) {
        scan.ledger.record(
            source_class.clone(),
            new_error(ErrorKind::MalformedRecord, &record.name, String::new()),
        );
    } else if scan.generation.find(&record.name).is_some() {
        scan.ledger.record(
            class_key(record.name.as_str()),
            new_error(ErrorKind::NameCollision, &record.name, String::new()),
        );
    } else {
        let copy = record.duplicate();
        proof {
            lemma_views_push(scan.generation.records@, copy);
            if distinct_names(old(scan)@.records) {
                let after = old(scan)@.records.push(record@);
                assert forall|i: int, j: int| 0 <= i < j < after.len() implies (#[trigger] after[i]).name
                    != (#[trigger] after[j]).name by {
                    if j == after.len() - 1 && after[i].name == record@.name {
                        lemma_first_name(old(scan)@.records, record@.name, i);
                    }
                }
            }
        }
        scan.generation.records.push(copy);
    }
}

/// Where some record has the name, a first one has it.
pub proof fn lemma_first_name(records: Seq<DeviceRecordView>, name: Seq<char>, j: int)
    requires
        0 <= j < records.len(),
        records[j].name == name,
    ensures
        has_name(records, name),
    decreases j,
{
    if exists|k: int| 0 <= k < j && (#[trigger] records[k]).name == name {
        let k = choose|k: int| 0 <= k < j && (#[trigger] records[k]).name == name;
        lemma_first_name(records, name, k);
    } else {
        assert(record_at(records, name, j));
    }
}

fn take_source(scan: &mut Scan, source: &SpecSource)
    ensures
        final(scan)@ == add_source(old(scan)@, source@),
        scan_wf(old(scan)@) ==> scan_wf(final(scan)@),
{
    match &source.content {
        SourceContent::Unreadable(reason) => {
            scan.ledger.record(
                source.class_key.clone(),
                new_error(ErrorKind::SourceUnreadable, &source.id, reason.clone()),
            );
        },
        SourceContent::Records(records) => {
            let id = source.id.clone();
            proof {
                lemma_views_push(scan.generation.built_from@, id);
            }
            scan.generation.built_from.push(id);
            let ghost start = scan@;
            let mut i: usize = 0;
            while i < records.len()
                invariant
                    i <= records.len(),
                    scan@ == add_records(start, source.class_key@, views(records@).take(i as int)),
                    scan_wf(old(scan)@) ==> scan_wf(scan@),
                decreases records.len() - i,
            {
                proof {
                    assert(views(records@).take(i + 1).drop_last() =~= views(records@).take(i as int));
                    assert(views(records@).take(i + 1).last() == records@[i as int]@);
                }
                take_record(scan, &source.class_key, &records[i]);
                i += 1;
            }
            proof {
                assert(views(records@).take(records.len() as int) =~= views(records@));
            }
        },
    }
}

/// Scans `sources` in order and builds a generation and the ledger of the
/// load errors met.
pub fn scan_sources(sources: &Vec<SpecSource>) -> (r: Scan)
    ensures
        r@ == scan(views(sources@)),
        scan_wf(r@),
{
    let mut out = Scan { generation: Generation::empty(), ledger: ErrorLedger::new() };
    let mut i: usize = 0;
    while i < sources.len()
        invariant
            i <= sources.len(),
            out@ == add_sources(empty_scan(), views(sources@).take(i as int)),
            scan_wf(out@),
        decreases sources.len() - i,
    {
        proof {
            assert(views(sources@).take(i + 1).drop_last() =~= views(sources@).take(i as int));
            assert(views(sources@).take(i + 1).last() == sources@[i as int]@);
        }
        take_source(&mut out, &sources[i]);
        i += 1;
    }
    proof {
        assert(views(sources@).take(sources.len() as int) =~= views(sources@));
    }
    out
}

/// The records of a readable source; none for an unreadable one.
pub open spec fn records_of(source: SpecSourceView) -> Seq<DeviceRecordView> {
    match source.content {
        SourceContentView::Records(records) => records,
        SourceContentView::Unreadable(_) => Seq::empty(),
    }
}

/// The load error that a second definition of `name` leaves in the ledger.
pub open spec fn collision_error(name: Seq<char>) -> CacheErrorView {
    load_error(ErrorKind::NameCollision, name, Seq::empty())
}

/// A later state of a scan keeps the records of an earlier one at their
/// positions, is built from no fewer sources, and keeps the error `e` under
/// `key` where the earlier one holds it.
pub open spec fn grows(a: ScanView, b: ScanView, key: Seq<char>, e: CacheErrorView) -> bool {
    &&& a.records.len() <= b.records.len()
    &&& forall|j: int| 0 <= j < a.records.len() ==> #[trigger] b.records[j] == a.records[j]
    &&& a.built_from.len() <= b.built_from.len()
    &&& ledger_holds(a.ledger, key, e) ==> ledger_holds(b.ledger, key, e)
}

proof fn lemma_add_record_grows(
    st: ScanView,
    source_class: Seq<char>,
    record: DeviceRecordView,
    key: Seq<char>,
    e: CacheErrorView,
)
    ensures
        grows(st, add_record(st, source_class, record), key, e),
{
    if ledger_holds(st.ledger, key, e) {
        lemma_record_keeps(
            st.ledger,
            source_class,
            load_error(ErrorKind::MalformedRecord, record.name, Seq::empty()),
            key,
            e,
        );
        lemma_record_keeps(st.ledger, class_key_of(record.name), collision_error(record.name), key, e);
    }
}

proof fn lemma_add_records_grow(
    st: ScanView,
    source_class: Seq<char>,
    records: Seq<DeviceRecordView>,
    from: int,
    to: int,
    key: Seq<char>,
    e: CacheErrorView,
)
    requires
        0 <= from <= to <= records.len(),
    ensures
        grows(
            add_records(st, source_class, records.take(from)),
            add_records(st, source_class, records.take(to)),
            key,
            e,
        ),
    decreases to - from,
{
    if from < to {
        lemma_add_records_grow(st, source_class, records, from, to - 1, key, e);
        assert(records.take(to).drop_last() =~= records.take(to - 1));
        assert(records.take(to).last() == records[to - 1]);
        let first = add_records(st, source_class, records.take(from));
        let prev = add_records(st, source_class, records.take(to - 1));
        let next = add_records(st, source_class, records.take(to));
        lemma_add_record_grows(prev, source_class, records[to - 1], key, e);
        assert(next == add_record(prev, source_class, records[to - 1]));
        assert forall|j: int| 0 <= j < first.records.len() implies #[trigger] next.records[j]
            == first.records[j] by {
            assert(prev.records[j] == first.records[j]);
        }
    }
}

proof fn lemma_add_source_grows(st: ScanView, source: SpecSourceView, key: Seq<char>, e: CacheErrorView)
    ensures
        grows(st, add_source(st, source), key, e),
{
    match source.content {
        SourceContentView::Unreadable(reason) => {
            if ledger_holds(st.ledger, key, e) {
                lemma_record_keeps(
                    st.ledger,
                    source.class_key,
                    load_error(ErrorKind::SourceUnreadable, source.id, reason),
                    key,
                    e,
                );
            }
        },
        SourceContentView::Records(records) => {
            let noted = ScanView { built_from: st.built_from.push(source.id), ..st };
            lemma_add_records_grow(noted, source.class_key, records, 0, records.len() as int, key, e);
            assert(records.take(0) =~= Seq::<DeviceRecordView>::empty());
            assert(records.take(records.len() as int) =~= records);
            assert(add_records(noted, source.class_key, records.take(0)) == noted);
        },
    }
}

proof fn lemma_scan_grows(
    sources: Seq<SpecSourceView>,
    from: int,
    to: int,
    key: Seq<char>,
    e: CacheErrorView,
)
    requires
        0 <= from <= to <= sources.len(),
    ensures
        grows(scan(sources.take(from)), scan(sources.take(to)), key, e),
    decreases to - from,
{
    if from < to {
        lemma_scan_grows(sources, from, to - 1, key, e);
        assert(sources.take(to).drop_last() =~= sources.take(to - 1));
        assert(sources.take(to).last() == sources[to - 1]);
        let first = scan(sources.take(from));
        let prev = scan(sources.take(to - 1));
        let next = scan(sources.take(to));
        lemma_add_source_grows(prev, sources[to - 1], key, e);
        assert(next == add_source(prev, sources[to - 1]));
        assert forall|j: int| 0 <= j < first.records.len() implies #[trigger] next.records[j]
            == first.records[j] by {
            assert(prev.records[j] == first.records[j]);
        }
    }
}

proof fn lemma_first_record_stays(
    a: ScanView,
    b: ScanView,
    key: Seq<char>,
    e: CacheErrorView,
    name: Seq<char>,
    n: int,
)
    requires
        grows(a, b, key, e),
        record_at(a.records, name, n),
    ensures
        record_at(b.records, name, n),
        b.records[n] == a.records[n],
{
    assert(b.records[n] == a.records[n]);
    assert forall|j: int| 0 <= j < n implies (#[trigger] b.records[j]).name != name by {
        assert(b.records[j] == a.records[j]);
    }
}

proof fn lemma_absent_stays(
    st: ScanView,
    source_class: Seq<char>,
    records: Seq<DeviceRecordView>,
    name: Seq<char>,
    n: int,
)
    requires
        !has_name(st.records, name),
        0 <= n <= records.len(),
        forall|k: int| 0 <= k < n ==> (#[trigger] records[k]).name != name,
    ensures
        !has_name(add_records(st, source_class, records.take(n)).records, name),
    decreases n,
{
    if n == 0 {
        assert(records.take(0) =~= Seq::<DeviceRecordView>::empty());
    } else {
        lemma_absent_stays(st, source_class, records, name, n - 1);
        assert(records.take(n).drop_last() =~= records.take(n - 1));
        assert(records.take(n).last() == records[n - 1]);
        let prev = add_records(st, source_class, records.take(n - 1));
        let next = add_record(prev, source_class, records[n - 1]);
        if has_name(next.records, name) {
            let i = choose|i: int| record_at(next.records, name, i);
            assert(record_at(next.records, name, i));
            if i < prev.records.len() {
                assert(next.records[i] == prev.records[i]);
                lemma_first_name(prev.records, name, i);
            } else {
                assert(next.records[i] == records[n - 1]);
            }
        }
    }
}

/// Where two readable sources both define a well-formed device name, and
/// the record at `(p, i)` is its first definition in configured order, the
/// name resolves to that record after the scan, whatever the later source at
/// `(q, j)` says of it, and the ledger holds a collision error for the name
/// under the name's class key. The scan has read at least one source.
pub proof fn first_definition_wins(sources: Seq<SpecSourceView>, p: int, i: int, q: int, j: int)
    requires
        0 <= p < q < sources.len(),
        sources[p].content is Records,
        sources[q].content is Records,
        0 <= i < records_of(sources[p]).len(),
        0 <= j < records_of(sources[q]).len(),
        records_of(sources[q])[j].name == records_of(sources[p])[i].name,
        well_formed_name(records_of(sources[p])[i].name),
        !has_name(scan(sources.take(p)).records, records_of(sources[p])[i].name),
        forall|k: int|
            0 <= k < i ==> (#[trigger] records_of(sources[p])[k]).name != records_of(
                sources[p],
            )[i].name,
    ensures
        resolve(scan(sources).records, records_of(sources[p])[i].name) == Some(
            records_of(sources[p])[i],
        ),
        ledger_holds(
            scan(sources).ledger,
            class_key_of(records_of(sources[p])[i].name),
            collision_error(records_of(sources[p])[i].name),
        ),
        scan(sources).built_from.len() > 0,
{
    let first = records_of(sources[p]);
    let second = records_of(sources[q]);
    let winner = first[i];
    let name = winner.name;
    let key = class_key_of(name);
    let e = collision_error(name);

    // The first source: the name is absent up to record i, which is accepted.
    let before_p = scan(sources.take(p));
    let noted_p = ScanView { built_from: before_p.built_from.push(sources[p].id), ..before_p };
    let class_p = sources[p].class_key;
    assert(sources.take(p + 1).drop_last() =~= sources.take(p));
    assert(sources.take(p + 1).last() == sources[p]);
    let after_p = scan(sources.take(p + 1));
    assert(after_p == add_records(noted_p, class_p, first));
    lemma_absent_stays(noted_p, class_p, first, name, i);
    let reached = add_records(noted_p, class_p, first.take(i));
    assert(first.take(i + 1).drop_last() =~= first.take(i));
    assert(first.take(i + 1).last() == winner);
    let accepted = add_records(noted_p, class_p, first.take(i + 1));
    assert(accepted == add_record(reached, class_p, winner));
    let n = reached.records.len() as int;
    assert forall|k: int| 0 <= k < n implies (#[trigger] accepted.records[k]).name != name by {
        if reached.records[k].name == name {
            lemma_first_name(reached.records, name, k);
        }
    }
    assert(record_at(accepted.records, name, n));
    lemma_add_records_grow(noted_p, class_p, first, i + 1, first.len() as int, key, e);
    assert(first.take(first.len() as int) =~= first);
    lemma_first_record_stays(accepted, after_p, key, e, name, n);
    lemma_add_records_grow(noted_p, class_p, first, 0, first.len() as int, key, e);
    assert(first.take(0) =~= Seq::<DeviceRecordView>::empty());
    assert(add_records(noted_p, class_p, first.take(0)) == noted_p);
    lemma_scan_grows(sources, p + 1, sources.len() as int, key, e);

    // Up to the second source the record stays where it is.
    let before_q = scan(sources.take(q));
    lemma_scan_grows(sources, p + 1, q, key, e);
    lemma_first_record_stays(after_p, before_q, key, e, name, n);
    let noted_q = ScanView { built_from: before_q.built_from.push(sources[q].id), ..before_q };
    let class_q = sources[q].class_key;
    assert(sources.take(q + 1).drop_last() =~= sources.take(q));
    assert(sources.take(q + 1).last() == sources[q]);
    let after_q = scan(sources.take(q + 1));
    assert(after_q == add_records(noted_q, class_q, second));
    assert(record_at(noted_q.records, name, n));

    // The second source: its record j collides and is recorded.
    lemma_add_records_grow(noted_q, class_q, second, 0, j, key, e);
    assert(second.take(0) =~= Seq::<DeviceRecordView>::empty());
    assert(add_records(noted_q, class_q, second.take(0)) == noted_q);
    let met = add_records(noted_q, class_q, second.take(j));
    lemma_first_record_stays(noted_q, met, key, e, name, n);
    lemma_record_at_unique(met.records, name, n);
    assert(second.take(j + 1).drop_last() =~= second.take(j));
    assert(second.take(j + 1).last() == second[j]);
    let collided = add_records(noted_q, class_q, second.take(j + 1));
    assert(collided == add_record(met, class_q, second[j]));
    lemma_record_holds(met.ledger, key, e);
    assert(ledger_holds(collided.ledger, key, e));
    lemma_add_record_grows(met, class_q, second[j], key, e);
    lemma_first_record_stays(met, collided, key, e, name, n);
    lemma_add_records_grow(noted_q, class_q, second, j + 1, second.len() as int, key, e);
    assert(second.take(second.len() as int) =~= second);
    lemma_first_record_stays(collided, after_q, key, e, name, n);

    // The rest of the scan keeps both.
    lemma_scan_grows(sources, q + 1, sources.len() as int, key, e);
    assert(sources.take(sources.len() as int) =~= sources);
    lemma_first_record_stays(after_q, scan(sources), key, e, name, n);
    lemma_record_at_unique(scan(sources).records, name, n);
}

/// Where two readable sources both define a well-formed device name, and
/// no source configured before the earlier of the two defines it, the name
/// resolves after the scan to what it resolves to in the earlier source
/// alone, and the ledger holds a collision error for the name under the
/// name's class key. The scan has read at least one source.
pub proof fn first_source_wins(sources: Seq<SpecSourceView>, p: int, q: int, name: Seq<char>)
    requires
        0 <= p < q < sources.len(),
        sources[p].content is Records,
        sources[q].content is Records,
        has_name(records_of(sources[p]), name),
        has_name(records_of(sources[q]), name),
        well_formed_name(name),
        !has_name(scan(sources.take(p)).records, name),
    ensures
        resolve(scan(sources).records, name) == resolve(records_of(sources[p]), name),
        ledger_holds(scan(sources).ledger, class_key_of(name), collision_error(name)),
        scan(sources).built_from.len() > 0,
{
    let i = choose|i: int| record_at(records_of(sources[p]), name, i);
    let j = choose|j: int| record_at(records_of(sources[q]), name, j);
    assert(record_at(records_of(sources[p]), name, i));
    assert(record_at(records_of(sources[q]), name, j));
    first_definition_wins(sources, p, i, q, j);
}

/// No error of the ledger is a resolution error.
pub open spec fn only_load_errors(ledger: Seq<LedgerEntryView>) -> bool {
    forall|i: int, k: int|
        0 <= i < ledger.len() && 0 <= k < ledger[i].errors.len() ==> (
        #[trigger] ledger[i].errors[k]).kind != ErrorKind::UnresolvedDevice
}

proof fn lemma_record_load_error(ledger: Seq<LedgerEntryView>, key: Seq<char>, e: CacheErrorView)
    requires
        only_load_errors(ledger),
        e.kind != ErrorKind::UnresolvedDevice,
    ensures
        only_load_errors(record_error(ledger, key, e)),
{
    let after = record_error(ledger, key, e);
    assert forall|i: int, k: int| 0 <= i < after.len() && 0 <= k < after[i].errors.len() implies (
    #[trigger] after[i].errors[k]).kind != ErrorKind::UnresolvedDevice by {
        if i < ledger.len() && k < ledger[i].errors.len() {
            assert(after[i].errors[k] == ledger[i].errors[k]);
        } else {
            assert(after[i].errors[k] == e);
        }
    }
}

proof fn lemma_add_records_load_errors(
    st: ScanView,
    source_class: Seq<char>,
    records: Seq<DeviceRecordView>,
)
    requires
        only_load_errors(st.ledger),
    ensures
        only_load_errors(add_records(st, source_class, records).ledger),
    decreases records.len(),
{
    if records.len() > 0 {
        lemma_add_records_load_errors(st, source_class, records.drop_last());
        let prev = add_records(st, source_class, records.drop_last());
        let name = records.last().name;
        lemma_record_load_error(
            prev.ledger,
            source_class,
            load_error(ErrorKind::MalformedRecord, name, Seq::empty()),
        );
        lemma_record_load_error(prev.ledger, class_key_of(name), collision_error(name));
    }
}

proof fn lemma_add_sources_load_errors(st: ScanView, sources: Seq<SpecSourceView>)
    requires
        only_load_errors(st.ledger),
    ensures
        only_load_errors(add_sources(st, sources).ledger),
    decreases sources.len(),
{
    if sources.len() > 0 {
        lemma_add_sources_load_errors(st, sources.drop_last());
        let prev = add_sources(st, sources.drop_last());
        let source = sources.last();
        match source.content {
            SourceContentView::Unreadable(reason) => {
                lemma_record_load_error(
                    prev.ledger,
                    source.class_key,
                    load_error(ErrorKind::SourceUnreadable, source.id, reason),
                );
            },
            SourceContentView::Records(records) => {
                lemma_add_records_load_errors(
                    ScanView { built_from: prev.built_from.push(source.id), ..prev },
                    source.class_key,
                    records,
                );
            },
        }
    }
}

/// The ledger of a scan holds load errors only.
pub proof fn scan_records_load_errors_only(sources: Seq<SpecSourceView>)
    ensures
        only_load_errors(scan(sources).ledger),
{
    lemma_add_sources_load_errors(empty_scan(), sources);
}

} // verus!
