//! The error ledger: load and resolution errors, grouped by class key.
use vstd::prelude::*;
use crate::fragment::{views, lemma_views_push, lemma_views_update, duplicate_all, Duplicate};

verus! {

/// What went wrong.
#[derive(Clone, Copy, Debug, PartialEq, Eq, Structural)]
pub enum ErrorKind {
    /// A specification source could not be read or parsed.
    SourceUnreadable,
    /// A record of a source has a malformed device name.
    MalformedRecord,
    /// A record names a device that an earlier record already defines.
    NameCollision,
    /// A requested device has no record in the registry.
    UnresolvedDevice,
}

/// One recorded error: its kind, the source or device it is about, and a
/// detail message where the source loader gave one.
#[derive(Clone, Debug, PartialEq, Eq)]
pub struct CacheError {
    pub kind: ErrorKind,
    pub subject: String,
    pub detail: String,
}

pub ghost struct CacheErrorView {
    pub kind: ErrorKind,
    pub subject: Seq<char>,
    pub detail: Seq<char>,
}

impl View for CacheError {
    type V = CacheErrorView;

    open spec fn view(&self) -> CacheErrorView {
        CacheErrorView { kind: self.kind, subject: self.subject@, detail: self.detail@ }
    }
}

impl Duplicate for CacheError {
    fn duplicate(&self) -> (r: Self) {
        CacheError { kind: self.kind, subject: self.subject.clone(), detail: self.detail.clone() }
    }
}

/// The errors recorded under one class key, in the order they were recorded.
#[derive(Clone, Debug, PartialEq, Eq)]
pub struct LedgerEntry {
    pub class_key: String,
    pub errors: Vec<CacheError>,
}

pub ghost struct LedgerEntryView {
    pub class_key: Seq<char>,
    pub errors: Seq<CacheErrorView>,
}

impl View for LedgerEntry {
    type V = LedgerEntryView;

    open spec fn view(&self) -> LedgerEntryView {
        LedgerEntryView { class_key: self.class_key@, errors: views(self.errors@) }
    }
}

impl Duplicate for LedgerEntry {
    fn duplicate(&self) -> (r: Self) {
        LedgerEntry { class_key: self.class_key.clone(), errors: duplicate_all(&self.errors) }
    }
}

/// `i` is the first entry of `ledger` for `key`.
pub open spec fn entry_at(ledger: Seq<LedgerEntryView>, key: Seq<char>, i: int) -> bool {
    &&& 0 <= i < ledger.len()
    &&& ledger[i].class_key == key
    &&& forall|j: int| 0 <= j < i ==> (#[trigger] ledger[j]).class_key != key
}

pub open spec fn has_class(ledger: Seq<LedgerEntryView>, key: Seq<char>) -> bool {
    exists|i: int| entry_at(ledger, key, i)
}

/// The errors recorded under `key`, empty where there are none.
pub open spec fn errors_for(ledger: Seq<LedgerEntryView>, key: Seq<char>) -> Seq<CacheErrorView> {
    if has_class(ledger, key) {
        ledger[choose|i: int| entry_at(ledger, key, i)].errors
    } else {
        Seq::empty()
    }
}

/// The ledger after `e` has been recorded under `key`: appended to the
/// entry of that key, or alone in a new last entry.
pub open spec fn record_error(ledger: Seq<LedgerEntryView>, key: Seq<char>, e: CacheErrorView) -> Seq<
    LedgerEntryView,
> {
    if has_class(ledger, key) {
        let i = choose|i: int| entry_at(ledger, key, i);
        ledger.update(i, LedgerEntryView { class_key: key, errors: ledger[i].errors.push(e) })
    } else {
        ledger.push(LedgerEntryView { class_key: key, errors: seq![e] })
    }
}

/// No two entries share a class key.
pub open spec fn distinct_classes(ledger: Seq<LedgerEntryView>) -> bool {
    forall|i: int, j: int|
        0 <= i < j < ledger.len() ==> (#[trigger] ledger[i]).class_key != (
        #[trigger] ledger[j]).class_key
}

/// The first entry of a key is unique.
pub proof fn lemma_entry_at_unique(ledger: Seq<LedgerEntryView>, key: Seq<char>, i: int)
    requires
        entry_at(ledger, key, i),
    ensures
        has_class(ledger, key),
        (choose|k: int| entry_at(ledger, key, k)) == i,
{
    let k = choose|k: int| entry_at(ledger, key, k);
    assert(entry_at(ledger, key, k));
    if k < i {
        assert(ledger[k].class_key != key);
    }
    if i < k {
        assert(ledger[i].class_key != key);
    }
}

/// Recording an error keeps the class keys distinct, and the recorded error
/// is the last one under its key.
pub proof fn lemma_record_error(ledger: Seq<LedgerEntryView>, key: Seq<char>, e: CacheErrorView)
    requires
        distinct_classes(ledger),
    ensures
        distinct_classes(record_error(ledger, key, e)),
        errors_for(record_error(ledger, key, e), key) == errors_for(ledger, key).push(e),
{
    let after = record_error(ledger, key, e);
    if has_class(ledger, key) {
        let i = choose|i: int| entry_at(ledger, key, i);
        assert(entry_at(ledger, key, i));
        assert(entry_at(after, key, i));
        lemma_entry_at_unique(after, key, i);
    } else {
        assert forall|j: int| 0 <= j < ledger.len() implies (#[trigger] ledger[j]).class_key
            != key by {
            if ledger[j].class_key == key {
                lemma_first_entry(ledger, key, j);
            }
        }
        assert(entry_at(after, key, ledger.len() as int));
        lemma_entry_at_unique(after, key, ledger.len() as int);
    }
}

/// Where some entry has the key, a first one has it.
pub proof fn lemma_first_entry(ledger: Seq<LedgerEntryView>, key: Seq<char>, j: int)
    requires
        0 <= j < ledger.len(),
        ledger[j].class_key == key,
    ensures
        has_class(ledger, key),
    decreases j,
{
    if exists|k: int| 0 <= k < j && (#[trigger] ledger[k]).class_key == key {
        let k = choose|k: int| 0 <= k < j && (#[trigger] ledger[k]).class_key == key;
        lemma_first_entry(ledger, key, k);
    } else {
        assert(entry_at(ledger, key, j));
    }
}

/// The ledger holds `e` in an entry of class `key`.
pub open spec fn ledger_holds(ledger: Seq<LedgerEntryView>, key: Seq<char>, e: CacheErrorView) -> bool {
    exists|i: int, k: int|
        0 <= i < ledger.len() && ledger[i].class_key == key && 0 <= k < ledger[i].errors.len()
            && #[trigger] ledger[i].errors[k] == e
}

/// An error that has been recorded is held under its key.
pub proof fn lemma_record_holds(ledger: Seq<LedgerEntryView>, key: Seq<char>, e: CacheErrorView)
    ensures
        ledger_holds(record_error(ledger, key, e), key, e),
{
    let after = record_error(ledger, key, e);
    if has_class(ledger, key) {
        let i = choose|i: int| entry_at(ledger, key, i);
        assert(after[i].errors[ledger[i].errors.len() as int] == e);
    } else {
        assert(after[ledger.len() as int].errors[0] == e);
    }
}

/// Recording an error removes none.
pub proof fn lemma_record_keeps(
    ledger: Seq<LedgerEntryView>,
    key: Seq<char>,
    e: CacheErrorView,
    other_key: Seq<char>,
    other: CacheErrorView,
)
    requires
        ledger_holds(ledger, other_key, other),
    ensures
        ledger_holds(record_error(ledger, key, e), other_key, other),
{
    let after = record_error(ledger, key, e);
    let (i, k) = choose|i: int, k: int|
        0 <= i < ledger.len() && ledger[i].class_key == other_key && 0 <= k < ledger[i].errors.len()
            && #[trigger] ledger[i].errors[k] == other;
    if has_class(ledger, key) {
        let at = choose|at: int| entry_at(ledger, key, at);
        assert(entry_at(ledger, key, at));
    }
    assert(after[i].errors[k] == other);
}

/// Errors accumulated by the cache, grouped by class key.
#[derive(Clone, Debug, PartialEq, Eq)]
pub struct ErrorLedger {
    pub entries: Vec<LedgerEntry>,
}

impl View for ErrorLedger {
    type V = Seq<LedgerEntryView>;

    open spec fn view(&self) -> Seq<LedgerEntryView> {
        views(self.entries@)
    }
}

impl ErrorLedger {
    /// An empty ledger.
    pub fn new() -> (r: Self)
        ensures
            r@ == Seq::<LedgerEntryView>::empty(),
    {
        let r = ErrorLedger { entries: Vec::new() };
        assert(r@ =~= Seq::<LedgerEntryView>::empty());
        r
    }

    fn find(&self, key: &String) -> (r: Option<usize>)
        ensures
            match r {
                Some(i) => entry_at(self@, key@, i as int),
                None => !has_class(self@, key@),
            },
    {
        let mut i: usize = 0;
        while i < self.entries.len()
            invariant
                i <= self.entries.len(),
                forall|j: int| 0 <= j < i ==> (#[trigger] self@[j]).class_key != key@,
            decreases self.entries.len() - i,
        {
            if self.entries[i].class_key == *key {
                assert(self@[i as int].class_key == key@);
                return Some(i);
            }
            i += 1;
        }
        None
    }

    /// Records `error` under `key`.
    pub fn record(&mut self, key: String, error: CacheError)
        ensures
            final(self)@ == record_error(old(self)@, key@, error@),
            distinct_classes(old(self)@) ==> distinct_classes(final(self)@),
    {
        proof {
            if distinct_classes(self@) {
                lemma_record_error(self@, key@, error@);
            }
        }
        match self.find(&key) {
            Some(k) => {
                let mut entry = self.entries.remove(k);
                proof {
                    lemma_entry_at_unique(old(self)@, key@, k as int);
                    lemma_views_push(entry.errors@, error);
                }
                entry.errors.push(error);
                self.entries.insert(k, entry);
                proof {
                    assert(self.entries@ =~= old(self).entries@.update(k as int, entry));
                    lemma_views_update(old(self).entries@, k as int, entry);
                }
            },
            None => {
                let entry = LedgerEntry { class_key: key, errors: vec![error] };
                proof {
                    lemma_views_push(self.entries@, entry);
                    assert(views(entry.errors@) =~= seq![error@]);
                }
                self.entries.push(entry);
            },
        }
    }

    /// The whole ledger: each class key with its errors in recorded order.
    pub fn snapshot(&self) -> (r: Vec<LedgerEntry>)
        ensures
            views(r@) == self@,
    {
        duplicate_all(&self.entries)
    }
}

} // verus!
