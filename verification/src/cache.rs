//! The cache: configuration, refresh, device injection and the queries.
use vstd::prelude::*;
use crate::fragment::{
    content_is_new, duplicate_all, lemma_views_push, lemma_views_update, merge_content,
    merge_fragment, merge_mounts_idempotent, merge_nodes_idempotent, merge_of_new_content_appends,
    views, Content, Duplicate, RuntimeSpec,
};
use crate::ledger::{
    distinct_classes, ledger_holds, record_error, CacheError, CacheErrorView, ErrorKind, ErrorLedger,
    LedgerEntry, LedgerEntryView,
};
use crate::naming::{class_key, class_key_of, well_formed_name};
use crate::registry::{
    collision_error, distinct_names, first_source_wins, has_name, lemma_record_at_unique,
    only_load_errors, records_of, resolve, scan, scan_records_load_errors_only, scan_sources,
    DeviceRecordView, Generation, Scan, SourceContent, SourceContentView, SpecSource,
    SpecSourceView,
};

verus! {

/// How a name defined by two sources is settled.
#[derive(Clone, Copy, Debug, PartialEq, Eq, Structural)]
pub enum ConflictPolicy {
    /// The record seen first stays; the later one is recorded as a load error.
    FirstWins,
}

/// A configuration directive.
#[derive(Clone, Debug, PartialEq, Eq)]
pub enum CacheOption {
    /// Refresh at once whenever the cache is configured.
    AutoRefresh(bool),
    /// Add a specification source after those already configured.
    AddSource(SpecSource),
    /// Choose how name collisions are settled.
    SetConflictPolicy(ConflictPolicy),
}

pub ghost enum CacheOptionView {
    AutoRefresh(bool),
    AddSource(SpecSourceView),
    SetConflictPolicy(ConflictPolicy),
}

impl View for CacheOption {
    type V = CacheOptionView;

    open spec fn view(&self) -> CacheOptionView {
        match self {
            CacheOption::AutoRefresh(on) => CacheOptionView::AutoRefresh(*on),
            CacheOption::AddSource(source) => CacheOptionView::AddSource(source@),
            CacheOption::SetConflictPolicy(policy) => CacheOptionView::SetConflictPolicy(*policy),
        }
    }
}

/// Why a list of options was refused. `position` is the index of the
/// offending option in the list.
#[derive(Clone, Copy, Debug, PartialEq, Eq, Structural)]
pub enum ConfigError {
    /// A source to add has an empty identifier.
    EmptySourceId { position: usize },
    /// A source to add has the identifier of a source configured already,
    /// before the call or by an earlier option of it.
    DuplicateSource { position: usize },
}

/// Why a refresh failed as a whole.
#[derive(Clone, Copy, Debug, PartialEq, Eq, Structural)]
pub enum RefreshError {
    /// No source is configured, or none of them could be read.
    NoUsableSource,
}

/// The requested names that resolved to no record, in request order.
#[derive(Clone, Debug, PartialEq, Eq)]
pub struct InjectionError {
    pub unresolved: Vec<String>,
}

/// The cache as a mathematical value.
pub ghost struct CacheView {
    pub records: Seq<DeviceRecordView>,
    pub built_from: Seq<Seq<char>>,
    pub ledger: Seq<LedgerEntryView>,
    pub sources: Seq<SpecSourceView>,
    pub auto_refresh: bool,
    pub policy: ConflictPolicy,
}

/// A cache that was never configured: nothing loaded, no source, no
/// automatic refresh.
pub open spec fn blank_cache() -> CacheView {
    CacheView {
        records: Seq::empty(),
        built_from: Seq::empty(),
        ledger: Seq::empty(),
        sources: Seq::empty(),
        auto_refresh: false,
        policy: ConflictPolicy::FirstWins,
    }
}

/// The invariant of a cache: device names are unique within the generation,
/// and the ledger has one entry for each class key.
pub open spec fn cache_wf(c: CacheView) -> bool {
    distinct_names(c.records) && distinct_classes(c.ledger)
}

pub open spec fn has_source(sources: Seq<SpecSourceView>, id: Seq<char>) -> bool {
    exists|i: int| 0 <= i < sources.len() && (#[trigger] sources[i]).id == id
}

/// The effect of one option, which stands at `position` in its list.
pub open spec fn apply_option(c: CacheView, option: CacheOptionView, position: usize) -> Result<
    CacheView,
    ConfigError,
> {
    match option {
        CacheOptionView::AutoRefresh(on) => Ok(CacheView { auto_refresh: on, ..c }),
        CacheOptionView::SetConflictPolicy(policy) => Ok(CacheView { policy, ..c }),
        CacheOptionView::AddSource(source) => if source.id.len() == 0 {
            Err(ConfigError::EmptySourceId { position })
        } else if has_source(c.sources, source.id) {
            Err(ConfigError::DuplicateSource { position })
        } else {
            Ok(CacheView { sources: c.sources.push(source), ..c })
        },
    }
}

/// The effect of a list of options applied in order, up to the first one
/// that is refused.
pub open spec fn apply_options(c: CacheView, options: Seq<CacheOptionView>) -> Result<
    CacheView,
    ConfigError,
>
    decreases options.len(),
{
    if options.len() == 0 {
        Ok(c)
    } else {
        match apply_options(c, options.drop_last()) {
            Err(e) => Err(e),
            Ok(next) => apply_option(next, options.last(), (options.len() - 1) as usize),
        }
    }
}

/// `i` is the first configured source with identifier `id`.
pub open spec fn source_at(sources: Seq<SpecSourceView>, id: Seq<char>, i: int) -> bool {
    &&& 0 <= i < sources.len()
    &&& sources[i].id == id
    &&& forall|j: int| 0 <= j < i ==> (#[trigger] sources[j]).id != id
}

/// The sources after the first one with identifier `id` has been read
/// again and yielded `content`; unchanged where no source has that identifier.
pub open spec fn reload(
    sources: Seq<SpecSourceView>,
    id: Seq<char>,
    content: SourceContentView,
) -> Seq<SpecSourceView> {
    if has_source(sources, id) {
        let i = choose|i: int| source_at(sources, id, i);
        sources.update(i, SpecSourceView { content, ..sources[i] })
    } else {
        sources
    }
}

/// The cache after `reload_source`: the source list is reloaded, and the
/// generation, the ledger and the options stay until the next refresh.
pub open spec fn reloaded(c: CacheView, id: Seq<char>, content: SourceContentView) -> CacheView {
    CacheView { sources: reload(c.sources, id, content), ..c }
}

/// The first source with an identifier is unique.
pub proof fn lemma_source_at_unique(sources: Seq<SpecSourceView>, id: Seq<char>, i: int)
    requires
        source_at(sources, id, i),
    ensures
        has_source(sources, id),
        (choose|k: int| source_at(sources, id, k)) == i,
{
    let k = choose|k: int| source_at(sources, id, k);
    assert(source_at(sources, id, k));
    if k < i {
        assert(sources[k].id != id);
    }
    if i < k {
        assert(sources[i].id != id);
    }
}

/// Whether a refresh of `c` installs a new generation: some configured
/// source is readable.
pub open spec fn refresh_succeeds(c: CacheView) -> bool {
    scan(c.sources).built_from.len() > 0
}

/// The cache after a refresh. The ledger holds the load errors of this scan
/// and nothing else; the generation is replaced where the refresh succeeds.
pub open spec fn refreshed(c: CacheView) -> CacheView {
    let outcome = scan(c.sources);
    if refresh_succeeds(c) {
        CacheView { records: outcome.records, built_from: outcome.built_from, ledger: outcome.ledger, ..c }
    } else {
        CacheView { ledger: outcome.ledger, ..c }
    }
}

/// The cache after `configure`: unchanged by an empty or a refused list;
/// else the options applied, and then refreshed where automatic refresh is on.
pub open spec fn configured(c: CacheView, options: Seq<CacheOptionView>) -> CacheView {
    if options.len() == 0 {
        c
    } else {
        match apply_options(c, options) {
            Err(_) => c,
            Ok(next) => if next.auto_refresh {
                refreshed(next)
            } else {
                next
            },
        }
    }
}

/// What `configure` returns.
pub open spec fn configure_result(c: CacheView, options: Seq<CacheOptionView>) -> Result<
    (),
    ConfigError,
> {
    match apply_options(c, options) {
        Err(e) => Err(e),
        Ok(_) => Ok(()),
    }
}

/// The state of an injection: the runtime specification, the ledger, the
/// names injected and the names that did not resolve.
pub ghost struct InjectionView {
    pub spec: Content,
    pub ledger: Seq<LedgerEntryView>,
    pub injected: Seq<Seq<char>>,
    pub unresolved: Seq<Seq<char>>,
}

pub open spec fn unresolved_error(name: Seq<char>) -> CacheErrorView {
    CacheErrorView { kind: ErrorKind::UnresolvedDevice, subject: name, detail: Seq::empty() }
}

/// One requested name: the fragment of its record is merged and the name
/// noted as injected, or an error is recorded under the name's class key.
pub open spec fn inject_one(records: Seq<DeviceRecordView>, st: InjectionView, name: Seq<char>) -> InjectionView {
    match resolve(records, name) {
        Some(record) => InjectionView {
            spec: merge_content(st.spec, record.fragment),
            injected: st.injected.push(name),
            ..st
        },
        None => InjectionView {
            ledger: record_error(st.ledger, class_key_of(name), unresolved_error(name)),
            unresolved: st.unresolved.push(name),
            ..st
        },
    }
}

pub open spec fn inject_all(records: Seq<DeviceRecordView>, st: InjectionView, names: Seq<Seq<char>>) -> InjectionView
    decreases names.len(),
{
    if names.len() == 0 {
        st
    } else {
        inject_one(records, inject_all(records, st, names.drop_last()), names.last())
    }
}

/// The outcome of injecting `names`, in order, into `spec`.
pub open spec fn injection(c: CacheView, spec: Content, names: Seq<Seq<char>>) -> InjectionView {
    inject_all(
        c.records,
        InjectionView { spec, ledger: c.ledger, injected: Seq::empty(), unresolved: Seq::empty() },
        names,
    )
}

/// The identifiers of the sources, in configured order.
pub open spec fn source_ids_of(sources: Seq<SpecSourceView>) -> Seq<Seq<char>> {
    sources.map_values(|s: SpecSourceView| s.id)
}

/// The names of the records, in registry order.
pub open spec fn names_of(records: Seq<DeviceRecordView>) -> Seq<Seq<char>> {
    records.map_values(|r: DeviceRecordView| r.name)
}

/// A source identifier occurs in a concatenation where it occurs in a part.
pub proof fn lemma_has_source_concat(a: Seq<SpecSourceView>, b: Seq<SpecSourceView>, id: Seq<char>)
    ensures
        has_source(a + b, id) == (has_source(a, id) || has_source(b, id)),
{
    if has_source(a, id) {
        let i = choose|i: int| 0 <= i < a.len() && (#[trigger] a[i]).id == id;
        assert((a + b)[i].id == id);
    }
    if has_source(b, id) {
        let i = choose|i: int| 0 <= i < b.len() && (#[trigger] b[i]).id == id;
        assert((a + b)[a.len() + i].id == id);
    }
    if has_source(a + b, id) {
        let i = choose|i: int| 0 <= i < (a + b).len() && (#[trigger] (a + b)[i]).id == id;
        if i < a.len() {
            assert(a[i].id == id);
        } else {
            assert(b[i - a.len()].id == id);
        }
    }
}

fn find_source(sources: &Vec<SpecSource>, id: &String) -> (r: Option<usize>)
    ensures
        match r {
            Some(i) => source_at(views(sources@), id@, i as int),
            None => !has_source(views(sources@), id@),
        },
{
    let mut i: usize = 0;
    while i < sources.len()
        invariant
            i <= sources.len(),
            forall|j: int| 0 <= j < i ==> (#[trigger] views(sources@)[j]).id != id@,
        decreases sources.len() - i,
    {
        if sources[i].id == *id {
            assert(views(sources@)[i as int].id == id@);
            return Some(i);
        }
        i += 1;
    }
    None
}

fn contains_source(sources: &Vec<SpecSource>, id: &String) -> (found: bool)
    ensures
        found == has_source(views(sources@), id@),
{
    let mut i: usize = 0;
    while i < sources.len()
        invariant
            i <= sources.len(),
            forall|j: int| 0 <= j < i ==> (#[trigger] views(sources@)[j]).id != id@,
        decreases sources.len() - i,
    {
        if sources[i].id == *id {
            assert(views(sources@)[i as int].id == id@);
            return true;
        }
        i += 1;
    }
    false
}

/// The device-specification cache: the current registry generation, the
/// error ledger and the configuration.
pub struct Cache {
    generation: Generation,
    ledger: ErrorLedger,
    sources: Vec<SpecSource>,
    auto_refresh: bool,
    policy: ConflictPolicy,
}

impl View for Cache {
    type V = CacheView;

    closed spec fn view(&self) -> CacheView {
        CacheView {
            records: views(self.generation.records@),
            built_from: views(self.generation.built_from@),
            ledger: self.ledger@,
            sources: views(self.sources@),
            auto_refresh: self.auto_refresh,
            policy: self.policy,
        }
    }
}

impl Cache {
    /// A cache that was never configured.
    pub fn new() -> (r: Self)
        ensures
            r@ == blank_cache(),
            cache_wf(r@),
    {
        let r = Cache {
            generation: Generation::empty(),
            ledger: ErrorLedger::new(),
            sources: Vec::new(),
            auto_refresh: false,
            policy: ConflictPolicy::FirstWins,
        };
        assert(views(r.sources@) =~= Seq::<SpecSourceView>::empty());
        r
    }

    /// Applies `options` in order. An empty list changes nothing. A list
    /// with a refused option changes nothing either and returns the first
    /// refusal. Otherwise the options take effect, and where automatic
    /// refresh is then on, the cache is refreshed once.
    pub fn configure(&mut self, options: Vec<CacheOption>) -> (r: Result<(), ConfigError>)
        ensures
            r == configure_result(old(self)@, views(options@)),
            final(self)@ == configured(old(self)@, views(options@)),
            options@.len() == 0 ==> *final(self) == *old(self),
            cache_wf(old(self)@) ==> cache_wf(final(self)@),
    {
        if options.len() == 0 {
            return Ok(());
        }
        let ghost start = self@;
        let ghost opts = views(options@);
        let mut pending: Vec<SpecSource> = Vec::new();
        let mut auto_refresh: bool = self.auto_refresh;
        let mut policy: ConflictPolicy = self.policy;
        let mut i: usize = 0;
        assert(start.sources + views(pending@) =~= start.sources);
        while i < options.len()
            invariant
                i <= options.len(),
                opts == views(options@),
                start == self@,
                *self == *old(self),
                apply_options(start, opts.take(i as int)) == Ok::<CacheView, ConfigError>(
                    CacheView {
                        sources: start.sources + views(pending@),
                        auto_refresh,
                        policy,
                        ..start
                    },
                ),
            decreases options.len() - i,
        {
            proof {
                assert(opts.take(i + 1).drop_last() =~= opts.take(i as int));
                assert(opts.take(i + 1).last() == options@[i as int]@);
            }
            let mut refused: Option<ConfigError> = None;
            match &options[i] {
                CacheOption::AutoRefresh(on) => {
                    auto_refresh = *on;
                },
                CacheOption::SetConflictPolicy(chosen) => {
                    policy = *chosen;
                },
                CacheOption::AddSource(source) => {
                    proof {
                        lemma_has_source_concat(start.sources, views(pending@), source.id@);
                    }
                    if source.id.as_str().is_empty() {
                        refused = Some(ConfigError::EmptySourceId { position: i });
                    } else if contains_source(&self.sources, &source.id) || contains_source(
                        &pending,
                        &source.id,
                    ) {
                        refused = Some(ConfigError::DuplicateSource { position: i });
                    } else {
                        let copy = source.duplicate();
                        proof {
                            lemma_views_push(pending@, copy);
                            assert(start.sources + views(pending@).push(copy@) =~= (start.sources
                                + views(pending@)).push(copy@));
                        }
                        pending.push(copy);
                    }
                },
            }
            if let Some(e) = refused {
                proof {
                    lemma_refusal_stays(start, opts, i + 1);
                }
                return Err(e);
            }
            i += 1;
        }
        proof {
            assert(opts.take(options.len() as int) =~= opts);
            assert(views(self.sources@ + pending@) =~= views(self.sources@) + views(pending@));
        }
        self.sources.append(&mut pending);
        self.auto_refresh = auto_refresh;
        self.policy = policy;
        if self.auto_refresh {
            let _ = self.refresh();
        }
        Ok(())
    }

    /// Replaces what the first configured source with identifier `id`
    /// yielded by `content`, as read anew; the next refresh scans it. Returns
    /// whether a source has that identifier; where none has, nothing changes.
    pub fn reload_source(&mut self, id: &String, content: SourceContent) -> (found: bool)
        ensures
            found == has_source(old(self)@.sources, id@),
            final(self)@ == reloaded(old(self)@, id@, content@),
            cache_wf(old(self)@) ==> cache_wf(final(self)@),
    {
        match find_source(&self.sources, id) {
            Some(k) => {
                proof {
                    lemma_source_at_unique(self@.sources, id@, k as int);
                }
                let mut source = self.sources.remove(k);
                source.content = content;
                self.sources.insert(k, source);
                proof {
                    assert(self.sources@ =~= old(self).sources@.update(k as int, source));
                    lemma_views_update(old(self).sources@, k as int, source);
                }
                true
            },
            None => false,
        }
    }

    /// The identifiers of the configured sources, in configured order.
    pub fn source_ids(&self) -> (r: Vec<String>)
        ensures
            views(r@) == source_ids_of(self@.sources),
    {
        let mut out: Vec<String> = Vec::new();
        let mut i: usize = 0;
        while i < self.sources.len()
            invariant
                i <= self.sources.len(),
                views(out@) == source_ids_of(self@.sources).take(i as int),
            decreases self.sources.len() - i,
        {
            let id = self.sources[i].id.clone();
            proof {
                lemma_views_push(out@, id);
                assert(source_ids_of(self@.sources).take(i + 1) =~= source_ids_of(
                    self@.sources,
                ).take(i as int).push(id@));
            }
            out.push(id);
            i += 1;
        }
        proof {
            assert(source_ids_of(self@.sources).take(self.sources.len() as int)
                =~= source_ids_of(self@.sources));
        }
        out
    }

    /// Scans the configured sources again. The ledger is reset to the load
    /// errors of this scan. Where at least one source is readable, the
    /// generation built by the scan replaces the current one; otherwise the
    /// refresh fails and the current generation stays.
    pub fn refresh(&mut self) -> (r: Result<(), RefreshError>)
        ensures
            final(self)@ == refreshed(old(self)@),
            r == (if refresh_succeeds(old(self)@) {
                Ok::<(), RefreshError>(())
            } else {
                Err::<(), RefreshError>(RefreshError::NoUsableSource)
            }),
            cache_wf(old(self)@) ==> cache_wf(final(self)@),
    {
        let outcome = scan_sources(&self.sources);
        let Scan { generation, ledger } = outcome;
        self.ledger = ledger;
        if generation.built_from.len() > 0 {
            self.generation = generation;
            Ok(())
        } else {
            Err(RefreshError::NoUsableSource)
        }
    }

    /// Resolves each requested name in order and merges the fragments of
    /// those that resolve into `spec`. A name that does not resolve is
    /// recorded in the ledger under its class key and skipped. Returns the
    /// injected names in request order, and the unresolved ones, if any, as
    /// an error that the caller may ignore.
    pub fn inject_devices(&mut self, spec: &mut RuntimeSpec, devices: Vec<String>) -> (r: (
        Vec<String>,
        Option<InjectionError>,
    ))
        ensures
            final(spec)@ == injection(old(self)@, old(spec)@, views(devices@)).spec,
            final(self)@ == (CacheView {
                ledger: injection(old(self)@, old(spec)@, views(devices@)).ledger,
                ..old(self)@
            }),
            views(r.0@) == injection(old(self)@, old(spec)@, views(devices@)).injected,
            match r.1 {
                None => injection(old(self)@, old(spec)@, views(devices@)).unresolved.len() == 0,
                Some(e) => e.unresolved@.len() > 0 && views(e.unresolved@) == injection(
                    old(self)@,
                    old(spec)@,
                    views(devices@),
                ).unresolved,
            },
            cache_wf(old(self)@) ==> cache_wf(final(self)@),
    {
        let ghost start = InjectionView {
            spec: spec@,
            ledger: self@.ledger,
            injected: Seq::empty(),
            unresolved: Seq::empty(),
        };
        let ghost names = views(devices@);
        let ghost records = self@.records;
        let mut injected: Vec<String> = Vec::new();
        let mut unresolved: Vec<String> = Vec::new();
        let mut i: usize = 0;
        assert(views(injected@) =~= Seq::<Seq<char>>::empty());
        assert(views(unresolved@) =~= Seq::<Seq<char>>::empty());
        while i < devices.len()
            invariant
                i <= devices.len(),
                names == views(devices@),
                records == self@.records,
                self@ == (CacheView { ledger: self@.ledger, ..old(self)@ }),
                cache_wf(old(self)@) ==> cache_wf(self@),
                inject_all(records, start, names.take(i as int)) == (InjectionView {
                    spec: spec@,
                    ledger: self@.ledger,
                    injected: views(injected@),
                    unresolved: views(unresolved@),
                }),
            decreases devices.len() - i,
        {
            proof {
                assert(names.take(i + 1).drop_last() =~= names.take(i as int));
                assert(names.take(i + 1).last() == devices@[i as int]@);
            }
            let name = devices[i].clone();
            match self.generation.find(&name) {
                Some(k) => {
                    proof {
                        lemma_record_at_unique(records, name@, k as int);
                        lemma_views_push(injected@, name);
                    }
                    merge_fragment(spec, &self.generation.records[k].fragment);
                    injected.push(name);
                },
                None => {
                    proof {
                        lemma_views_push(unresolved@, name);
                    }
                    let error = CacheError {
                        kind: ErrorKind::UnresolvedDevice,
                        subject: name.clone(),
                        detail: String::new(),
                    };
                    self.ledger.record(class_key(name.as_str()), error);
                    unresolved.push(name);
                },
            }
            i += 1;
        }
        proof {
            assert(names.take(devices.len() as int) =~= names);
        }
        let error = if unresolved.len() > 0 {
            Some(InjectionError { unresolved })
        } else {
            None
        };
        (injected, error)
    }

    /// The names of the devices of the current generation, in registry order.
    pub fn list_devices(&self) -> (r: Vec<String>)
        ensures
            views(r@) == names_of(self@.records),
    {
        let mut out: Vec<String> = Vec::new();
        let mut i: usize = 0;
        while i < self.generation.records.len()
            invariant
                i <= self.generation.records.len(),
                views(out@) == names_of(self@.records).take(i as int),
            decreases self.generation.records.len() - i,
        {
            let name = self.generation.records[i].name.clone();
            proof {
                lemma_views_push(out@, name);
                assert(names_of(self@.records).take(i + 1) =~= names_of(self@.records).take(
                    i as int,
                ).push(name@));
            }
            out.push(name);
            i += 1;
        }
        proof {
            assert(names_of(self@.records).take(self.generation.records.len() as int)
                =~= names_of(self@.records));
        }
        out
    }

    /// The ledger: each class key with the errors recorded under it since
    /// the last refresh, in recorded order.
    pub fn get_errors(&self) -> (r: Vec<LedgerEntry>)
        ensures
            views(r@) == self@.ledger,
    {
        self.ledger.snapshot()
    }

    /// Whether automatic refresh is on.
    pub fn auto_refresh(&self) -> (on: bool)
        ensures
            on == self@.auto_refresh,
    {
        self.auto_refresh
    }

    /// The identifiers of the sources that the current generation was built from.
    pub fn built_from(&self) -> (r: Vec<String>)
        ensures
            views(r@) == self@.built_from,
    {
        duplicate_all(&self.generation.built_from)
    }
}

/// Once a prefix of the options is refused, the whole list is refused with
/// the same error.
pub proof fn lemma_refusal_stays(c: CacheView, options: Seq<CacheOptionView>, n: int)
    requires
        0 <= n <= options.len(),
        apply_options(c, options.take(n)) is Err,
    ensures
        apply_options(c, options) == apply_options(c, options.take(n)),
    decreases options.len() - n,
{
    if n == options.len() {
        assert(options.take(n) =~= options);
    } else {
        assert(options.take(n + 1).drop_last() =~= options.take(n));
        lemma_refusal_stays(c, options, n + 1);
    }
}

/// Requesting a device twice in one call leaves its device nodes and mounts
/// in the runtime specification once: the second request adds none.
pub proof fn injecting_twice_adds_nothing(c: CacheView, spec: Content, name: Seq<char>)
    ensures
        injection(c, spec, seq![name, name]).spec.device_nodes == injection(
            c,
            spec,
            seq![name],
        ).spec.device_nodes,
        injection(c, spec, seq![name, name]).spec.mounts == injection(c, spec, seq![name]).spec.mounts,
{
    let start = InjectionView { spec, ledger: c.ledger, injected: Seq::empty(), unresolved: Seq::empty() };
    let once = seq![name];
    let twice = seq![name, name];
    assert(once.drop_last() =~= Seq::<Seq<char>>::empty());
    assert(twice.drop_last() =~= once);
    assert(inject_all(c.records, start, once.drop_last()) == start);
    assert(inject_all(c.records, start, once) == inject_one(c.records, start, name));
    assert(inject_all(c.records, start, twice) == inject_one(
        c.records,
        inject_all(c.records, start, once),
        name,
    ));
    match resolve(c.records, name) {
        Some(record) => {
            merge_nodes_idempotent(spec.device_nodes, record.fragment.device_nodes);
            merge_mounts_idempotent(spec.mounts, record.fragment.mounts);
        },
        None => {},
    }
}

/// The injected names are the requested names that resolve, and the
/// unresolved ones are the others, both in request order; the records and
/// the configuration play no part beyond that.
pub proof fn injected_names_are_those_that_resolve(c: CacheView, spec: Content, names: Seq<Seq<char>>)
    ensures
        injection(c, spec, names).injected == names.filter(|n: Seq<char>| has_name(c.records, n)),
        injection(c, spec, names).unresolved == names.filter(|n: Seq<char>| !has_name(c.records, n)),
    decreases names.len(),
{
    reveal(Seq::filter);
    if names.len() > 0 {
        injected_names_are_those_that_resolve(c, spec, names.drop_last());
    }
}

/// After a refresh the generation is wholly the one built by the scan or
/// wholly the one held before, never a mix of the two.
pub proof fn refresh_swaps_whole_generation(c: CacheView)
    ensures
        refresh_succeeds(c) ==> refreshed(c).records == scan(c.sources).records && refreshed(
            c,
        ).built_from == scan(c.sources).built_from,
        !refresh_succeeds(c) ==> refreshed(c).records == c.records && refreshed(c).built_from
            == c.built_from,
        refreshed(c).sources == c.sources,
        refreshed(c).auto_refresh == c.auto_refresh,
{
}

/// An empty list of options is accepted and changes nothing.
pub proof fn empty_configure_is_identity(c: CacheView)
    ensures
        configured(c, Seq::empty()) == c,
        configure_result(c, Seq::empty()) == Ok::<(), ConfigError>(()),
{
}

/// What the ledger holds after a refresh depends on the configured sources
/// alone: nothing recorded before the refresh is left in it, and it holds
/// the load errors of the scan and no resolution error.
pub proof fn refresh_resets_ledger(c: CacheView, earlier: Seq<LedgerEntryView>)
    ensures
        refreshed(CacheView { ledger: earlier, ..c }) == refreshed(c),
        refreshed(c).ledger == scan(c.sources).ledger,
        only_load_errors(refreshed(c).ledger),
{
    scan_records_load_errors_only(c.sources);
}

/// Where two configured sources both define a well-formed device name, and
/// no source configured before the earlier of the two defines it, a refresh
/// succeeds, the name then resolves to what it resolves to in the earlier
/// source alone, and the ledger holds a collision error for the name under
/// the name's class key.
pub proof fn refresh_keeps_first_definition(c: CacheView, p: int, q: int, name: Seq<char>)
    requires
        0 <= p < q < c.sources.len(),
        c.sources[p].content is Records,
        c.sources[q].content is Records,
        has_name(records_of(c.sources[p]), name),
        has_name(records_of(c.sources[q]), name),
        well_formed_name(name),
        !has_name(scan(c.sources.take(p)).records, name),
    ensures
        refresh_succeeds(c),
        resolve(refreshed(c).records, name) == resolve(records_of(c.sources[p]), name),
        ledger_holds(refreshed(c).ledger, class_key_of(name), collision_error(name)),
{
    first_source_wins(c.sources, p, q, name);
}

/// Where the first configured source and a later one both define a
/// well-formed device name, a refresh succeeds, the name then resolves to
/// what it resolves to in the first source, and the ledger holds a
/// collision error for the name under the name's class key.
pub proof fn first_configured_source_wins(c: CacheView, q: int, name: Seq<char>)
    requires
        0 < q < c.sources.len(),
        c.sources[0].content is Records,
        c.sources[q].content is Records,
        has_name(records_of(c.sources[0]), name),
        has_name(records_of(c.sources[q]), name),
        well_formed_name(name),
    ensures
        refresh_succeeds(c),
        resolve(refreshed(c).records, name) == resolve(records_of(c.sources[0]), name),
        ledger_holds(refreshed(c).ledger, class_key_of(name), collision_error(name)),
{
    assert(c.sources.take(0) =~= Seq::<SpecSourceView>::empty());
    assert(scan(c.sources.take(0)).records =~= Seq::<DeviceRecordView>::empty());
    first_source_wins(c.sources, 0, q, name);
}

/// Injecting one name that resolves merges the fragment of its record, and
/// no other, and leaves the ledger as it was.
pub proof fn injecting_resolved_name(c: CacheView, spec: Content, name: Seq<char>)
    requires
        resolve(c.records, name) is Some,
    ensures
        injection(c, spec, seq![name]).spec == merge_content(
            spec,
            resolve(c.records, name).unwrap().fragment,
        ),
        injection(c, spec, seq![name]).injected == seq![name],
        injection(c, spec, seq![name]).unresolved == Seq::<Seq<char>>::empty(),
        injection(c, spec, seq![name]).ledger == c.ledger,
{
    let start = InjectionView { spec, ledger: c.ledger, injected: Seq::empty(), unresolved: Seq::empty() };
    let once = seq![name];
    assert(once.drop_last() =~= Seq::<Seq<char>>::empty());
    assert(inject_all(c.records, start, once.drop_last()) == start);
    assert(inject_all(c.records, start, once) == inject_one(c.records, start, name));
    assert(start.injected.push(name) =~= seq![name]);
}

/// Of three requested names of which the first and the last resolve and
/// the middle one does not, the two that resolve are returned in request
/// order, their fragments are merged in that order and nothing else is, and
/// one resolution error is recorded under the class key of the middle one.
/// Where the two fragments share nothing with each other or with the
/// runtime specification, their entries are appended in that order.
pub proof fn partial_injection(
    c: CacheView,
    spec: Content,
    first: Seq<char>,
    missing: Seq<char>,
    last: Seq<char>,
)
    requires
        resolve(c.records, first) is Some,
        resolve(c.records, missing) is None,
        resolve(c.records, last) is Some,
    ensures
        injection(c, spec, seq![first, missing, last]).injected == seq![first, last],
        injection(c, spec, seq![first, missing, last]).unresolved == seq![missing],
        injection(c, spec, seq![first, missing, last]).ledger == record_error(
            c.ledger,
            class_key_of(missing),
            unresolved_error(missing),
        ),
        injection(c, spec, seq![first, missing, last]).spec == merge_content(
            merge_content(spec, resolve(c.records, first).unwrap().fragment),
            resolve(c.records, last).unwrap().fragment,
        ),
        ({
            let a = resolve(c.records, first).unwrap().fragment;
            let b = resolve(c.records, last).unwrap().fragment;
            content_is_new(spec, a) && content_is_new(merge_content(spec, a), b) ==> injection(
                c,
                spec,
                seq![first, missing, last],
            ).spec == (Content {
                device_nodes: spec.device_nodes + a.device_nodes + b.device_nodes,
                mounts: spec.mounts + a.mounts + b.mounts,
                env: spec.env + a.env + b.env,
                hooks: spec.hooks + a.hooks + b.hooks,
            })
        }),
{
    let start = InjectionView { spec, ledger: c.ledger, injected: Seq::empty(), unresolved: Seq::empty() };
    let one = seq![first];
    let two = seq![first, missing];
    let three = seq![first, missing, last];
    assert(one.drop_last() =~= Seq::<Seq<char>>::empty());
    assert(two.drop_last() =~= one);
    assert(three.drop_last() =~= two);
    assert(inject_all(c.records, start, one.drop_last()) == start);
    let after_one = inject_all(c.records, start, one);
    assert(after_one == inject_one(c.records, start, first));
    let after_two = inject_all(c.records, start, two);
    assert(after_two == inject_one(c.records, after_one, missing));
    let after_three = inject_all(c.records, start, three);
    assert(after_three == inject_one(c.records, after_two, last));
    assert(start.injected.push(first).push(last) =~= seq![first, last]);
    assert(start.unresolved.push(missing) =~= seq![missing]);
    let a = resolve(c.records, first).unwrap().fragment;
    let b = resolve(c.records, last).unwrap().fragment;
    if content_is_new(spec, a) && content_is_new(merge_content(spec, a), b) {
        merge_of_new_content_appends(spec, a);
        merge_of_new_content_appends(merge_content(spec, a), b);
    }
}

/// With the cache invariant, no name is listed twice.
pub proof fn listed_names_are_distinct(c: CacheView)
    requires
        cache_wf(c),
    ensures
        names_of(c.records).no_duplicates(),
{
}

/// A cache made from `options`: a blank cache, configured with them.
pub fn new_cache(options: Vec<CacheOption>) -> (r: Cache)
    ensures
        r@ == configured(blank_cache(), views(options@)),
        cache_wf(r@),
{
    let mut cache = Cache::new();
    let _ = cache.configure(options);
    cache
}

} // verus!
