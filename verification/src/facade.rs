//! The shared default cache and the operations on it.
//!
//! A `DefaultCache` is the cell that holds the one shared instance. The
//! embedding program keeps a single cell for the whole process, behind its
//! lock, and passes it to each operation; the instance is created on first
//! use and never replaced afterwards.
use vstd::prelude::*;
use crate::cache::{
    apply_options, blank_cache, cache_wf, configure_result, configured, has_source, injection,
    names_of, new_cache, refresh_succeeds, refreshed, reloaded, Cache, CacheOption, CacheOptionView, CacheView, ConfigError,
    InjectionError, RefreshError,
};
use crate::fragment::{views, RuntimeSpec};
use crate::ledger::LedgerEntry;
use crate::registry::{empty_scan, scan, SourceContent};

verus! {

/// The cache that is created on first use: a blank cache with automatic
/// refresh switched on.
pub open spec fn default_cache() -> CacheView {
    CacheView { auto_refresh: true, ..blank_cache() }
}

/// Configuring a blank cache with automatic refresh alone gives the default
/// cache: with no source to scan, the refresh it triggers installs nothing
/// and records nothing.
pub proof fn lemma_default_cache()
    ensures
        configured(blank_cache(), seq![CacheOptionView::AutoRefresh(true)]) == default_cache(),
        cache_wf(default_cache()),
{
    let options = seq![CacheOptionView::AutoRefresh(true)];
    assert(options.drop_last() =~= Seq::<CacheOptionView>::empty());
    assert(options.last() == CacheOptionView::AutoRefresh(true));
    assert(apply_options(blank_cache(), options.drop_last()) == Ok::<CacheView, ConfigError>(
        blank_cache(),
    ));
    assert(apply_options(blank_cache(), options) == Ok::<CacheView, ConfigError>(default_cache()));
    assert(scan(default_cache().sources) == empty_scan());
    assert(refreshed(default_cache()) == default_cache());
}

/// The cell of the shared instance.
pub struct DefaultCache {
    slot: Option<Cache>,
}

impl DefaultCache {
    /// Whether the instance has been created.
    pub closed spec fn created(&self) -> bool {
        self.slot is Some
    }

    /// Whether the cell holds exactly `cache`.
    pub closed spec fn holds(&self, cache: Cache) -> bool {
        self.slot == Some(cache)
    }

    /// The instance that an operation on this cell works on: the one it
    /// holds, or the default cache where none was created yet.
    pub closed spec fn instance(&self) -> CacheView {
        match self.slot {
            Some(cache) => cache@,
            None => default_cache(),
        }
    }

    /// The instance satisfies the cache invariant.
    pub open spec fn wf(&self) -> bool {
        cache_wf(self.instance())
    }

    /// A cell that holds a cache is created, and that cache is its instance.
    pub proof fn holding_cell_is_created(&self, cache: Cache)
        requires
            self.holds(cache),
        ensures
            self.created(),
            self.instance() == cache@,
    {
    }

    /// An empty cell.
    pub fn new() -> (r: Self)
        ensures
            !r.created(),
            r.instance() == default_cache(),
            r.wf(),
    {
        proof {
            lemma_default_cache();
        }
        DefaultCache { slot: None }
    }

    /// Whether the instance has been created.
    pub fn is_created(&self) -> (r: bool)
        ensures
            r == self.created(),
    {
        self.slot.is_some()
    }
}

/// The shared instance, created on first use with automatic refresh on.
/// A cell that holds an instance is left as it is, and that same instance
/// is returned. After the call the cell is created, and its instance is
/// the returned cache as the caller leaves it.
pub fn get_default_cache(cell: &mut DefaultCache) -> (cache: &mut Cache)
    ensures
        cache@ == old(cell).instance(),
        old(cell).created() ==> old(cell).holds(*cache),
        final(cell).holds(*final(cache)),
        final(cell).created(),
        final(cell).instance() == final(cache)@,
{
    if cell.slot.is_none() {
        proof {
            lemma_default_cache();
        }
        let options: Vec<CacheOption> = vec![CacheOption::AutoRefresh(true)];
        assert(views(options@) =~= seq![CacheOptionView::AutoRefresh(true)]);
        cell.slot = Some(new_cache(options));
    }
    match &mut cell.slot {
        Some(cache) => cache,
        None => vstd::pervasive::unreached(),
    }
}

/// Applies `options` to the shared instance, creating it first if need be.
pub fn configure(cell: &mut DefaultCache, options: Vec<CacheOption>) -> (r: Result<(), ConfigError>)
    ensures
        final(cell).created(),
        r == configure_result(old(cell).instance(), views(options@)),
        final(cell).instance() == configured(old(cell).instance(), views(options@)),
        options@.len() == 0 ==> r is Ok && final(cell).instance() == old(cell).instance(),
        old(cell).wf() ==> final(cell).wf(),
{
    let cache = get_default_cache(cell);
    cache.configure(options)
}

/// Replaces what the configured source `id` of the shared instance yielded,
/// for the next refresh to scan.
pub fn reload_source(cell: &mut DefaultCache, id: &String, content: SourceContent) -> (found: bool)
    ensures
        final(cell).created(),
        found == has_source(old(cell).instance().sources, id@),
        final(cell).instance() == reloaded(old(cell).instance(), id@, content@),
        old(cell).wf() ==> final(cell).wf(),
{
    let cache = get_default_cache(cell);
    cache.reload_source(id, content)
}

/// Refreshes the shared instance.
pub fn refresh(cell: &mut DefaultCache) -> (r: Result<(), RefreshError>)
    ensures
        final(cell).created(),
        final(cell).instance() == refreshed(old(cell).instance()),
        r == (if refresh_succeeds(old(cell).instance()) {
            Ok::<(), RefreshError>(())
        } else {
            Err::<(), RefreshError>(RefreshError::NoUsableSource)
        }),
        old(cell).wf() ==> final(cell).wf(),
{
    let cache = get_default_cache(cell);
    cache.refresh()
}

/// Injects `devices` into `spec` from the shared instance.
pub fn inject_devices(cell: &mut DefaultCache, spec: &mut RuntimeSpec, devices: Vec<String>) -> (r: (
    Vec<String>,
    Option<InjectionError>,
))
    ensures
        final(cell).created(),
        final(spec)@ == injection(old(cell).instance(), old(spec)@, views(devices@)).spec,
        final(cell).instance() == (CacheView {
            ledger: injection(old(cell).instance(), old(spec)@, views(devices@)).ledger,
            ..old(cell).instance()
        }),
        views(r.0@) == injection(old(cell).instance(), old(spec)@, views(devices@)).injected,
        match r.1 {
            None => injection(old(cell).instance(), old(spec)@, views(devices@)).unresolved.len()
                == 0,
            Some(e) => e.unresolved@.len() > 0 && views(e.unresolved@) == injection(
                old(cell).instance(),
                old(spec)@,
                views(devices@),
            ).unresolved,
        },
        old(cell).wf() ==> final(cell).wf(),
{
    let cache = get_default_cache(cell);
    cache.inject_devices(spec, devices)
}

/// The device names of the shared instance's current generation.
pub fn list_devices(cell: &mut DefaultCache) -> (r: Vec<String>)
    ensures
        final(cell).created(),
        final(cell).instance() == old(cell).instance(),
        views(r@) == names_of(old(cell).instance().records),
        old(cell).wf() ==> final(cell).wf(),
{
    let cache = get_default_cache(cell);
    cache.list_devices()
}

/// The ledger of the shared instance.
pub fn get_errors(cell: &mut DefaultCache) -> (r: Vec<LedgerEntry>)
    ensures
        final(cell).created(),
        final(cell).instance() == old(cell).instance(),
        views(r@) == old(cell).instance().ledger,
        old(cell).wf() ==> final(cell).wf(),
{
    let cache = get_default_cache(cell);
    cache.get_errors()
}

} // verus!
