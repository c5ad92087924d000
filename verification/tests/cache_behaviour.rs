use device_cache::cache::{new_cache, Cache, CacheOption, ConfigError, ConflictPolicy, RefreshError};
use device_cache::facade::{
    configure, get_default_cache, get_errors, inject_devices, list_devices, refresh, reload_source,
    DefaultCache,
};
use device_cache::fragment::{
    duplicate_all, merge_fragment, DeviceNode, Duplicate, EnvVar, Hook, InjectionFragment, Mount,
    RuntimeSpec,
};
use device_cache::ledger::{CacheError, ErrorKind, ErrorLedger, LedgerEntry};
use device_cache::naming::{class_key, find_separator, is_well_formed};
use device_cache::registry::{scan_sources, DeviceRecord, Generation, SourceContent, SpecSource};

fn node(host: &str, container: &str) -> DeviceNode {
    DeviceNode {
        host_path: host.to_string(),
        container_path: container.to_string(),
        permissions: "rw".to_string(),
        node_type: "c".to_string(),
    }
}

fn mount(host: &str, container: &str) -> Mount {
    Mount { host_path: host.to_string(), container_path: container.to_string() }
}

fn env(key: &str, value: &str) -> EnvVar {
    EnvVar { key: key.to_string(), value: value.to_string() }
}

fn hook(name: &str, args: &[&str]) -> Hook {
    Hook { name: name.to_string(), args: args.iter().map(|a| a.to_string()).collect() }
}

fn record(name: &str, tag: &str) -> DeviceRecord {
    DeviceRecord {
        name: name.to_string(),
        fragment: InjectionFragment {
            device_nodes: vec![node(&format!("/dev/{}", tag), &format!("/dev/{}", tag))],
            mounts: vec![mount(&format!("/host/{}", tag), &format!("/mnt/{}", tag))],
            env: vec![env("DEVICE", tag)],
            hooks: vec![hook(&format!("hook-{}", tag), &["start", tag])],
        },
    }
}

fn readable(id: &str, class: &str, records: Vec<DeviceRecord>) -> SpecSource {
    SpecSource {
        id: id.to_string(),
        class_key: class.to_string(),
        content: SourceContent::Records(records),
    }
}

fn unreadable(id: &str, class: &str, reason: &str) -> SpecSource {
    SpecSource {
        id: id.to_string(),
        class_key: class.to_string(),
        content: SourceContent::Unreadable(reason.to_string()),
    }
}

fn names(list: &[&str]) -> Vec<String> {
    list.iter().map(|s| s.to_string()).collect()
}

fn error(kind: ErrorKind, subject: &str, detail: &str) -> CacheError {
    CacheError { kind, subject: subject.to_string(), detail: detail.to_string() }
}

fn entry(class: &str, errors: Vec<CacheError>) -> LedgerEntry {
    LedgerEntry { class_key: class.to_string(), errors }
}

fn cache_with(sources: Vec<SpecSource>) -> Cache {
    let mut options = vec![CacheOption::AutoRefresh(true)];
    for s in sources {
        options.push(CacheOption::AddSource(s));
    }
    new_cache(options)
}

#[test]
fn class_key_is_the_part_before_the_first_equals_sign() {
    assert_eq!(class_key("vendor.com/class=device0"), "vendor.com/class");
    assert_eq!(class_key("vendor.com/class=a=b"), "vendor.com/class");
    assert_eq!(class_key("no-separator"), "no-separator");
    assert_eq!(class_key("=x"), "");
    assert_eq!(class_key(""), "");
}

#[test]
fn separator_is_found_by_character_position() {
    assert_eq!(find_separator("ab=c"), Some(2));
    assert_eq!(find_separator("\u{e9}\u{e9}=c"), Some(2));
    assert_eq!(find_separator("abc"), None);
    assert_eq!(class_key("\u{e9}\u{e9}=c"), "\u{e9}\u{e9}");
}

#[test]
fn well_formed_names_have_both_parts() {
    assert!(is_well_formed("vendor.com/class=device0"));
    assert!(is_well_formed("a=b"));
    assert!(!is_well_formed("=b"));
    assert!(!is_well_formed("a="));
    assert!(!is_well_formed("a"));
    assert!(!is_well_formed(""));
    assert!(!is_well_formed("="));
}

#[test]
fn merge_skips_duplicate_nodes_and_mounts() {
    let mut spec = RuntimeSpec::new();
    spec.device_nodes.push(node("/dev/a", "/dev/a"));
    spec.mounts.push(mount("/host/x", "/mnt/x"));
    let fragment = InjectionFragment {
        device_nodes: vec![node("/dev/a", "/dev/a"), node("/dev/a", "/dev/b"), node("/dev/a", "/dev/b")],
        mounts: vec![mount("/other", "/mnt/x"), mount("/host/x", "/mnt/y")],
        env: vec![],
        hooks: vec![],
    };
    merge_fragment(&mut spec, &fragment);
    assert_eq!(spec.device_nodes, vec![node("/dev/a", "/dev/a"), node("/dev/a", "/dev/b")]);
    assert_eq!(spec.mounts, vec![mount("/host/x", "/mnt/x"), mount("/host/x", "/mnt/y")]);
}

#[test]
fn merge_overwrites_env_in_place_and_appends_hooks() {
    let mut spec = RuntimeSpec::new();
    spec.env.push(env("PATH", "/bin"));
    spec.env.push(env("DEVICE", "old"));
    spec.hooks.push(hook("first", &[]));
    let fragment = InjectionFragment {
        device_nodes: vec![],
        mounts: vec![],
        env: vec![env("DEVICE", "new"), env("EXTRA", "1"), env("EXTRA", "2")],
        hooks: vec![hook("second", &["a"]), hook("first", &[])],
    };
    merge_fragment(&mut spec, &fragment);
    assert_eq!(spec.env, vec![env("PATH", "/bin"), env("DEVICE", "new"), env("EXTRA", "2")]);
    assert_eq!(spec.hooks, vec![hook("first", &[]), hook("second", &["a"]), hook("first", &[])]);
}

#[test]
fn ledger_groups_errors_by_class_in_recorded_order() {
    let mut ledger = ErrorLedger::new();
    ledger.record("a".to_string(), error(ErrorKind::UnresolvedDevice, "a=1", ""));
    ledger.record("b".to_string(), error(ErrorKind::UnresolvedDevice, "b=1", ""));
    ledger.record("a".to_string(), error(ErrorKind::NameCollision, "a=2", ""));
    assert_eq!(
        ledger.snapshot(),
        vec![
            entry(
                "a",
                vec![
                    error(ErrorKind::UnresolvedDevice, "a=1", ""),
                    error(ErrorKind::NameCollision, "a=2", ""),
                ]
            ),
            entry("b", vec![error(ErrorKind::UnresolvedDevice, "b=1", "")]),
        ]
    );
}

#[test]
fn scan_skips_unreadable_sources_and_malformed_records() {
    let sources = vec![
        unreadable("s0", "vendor.com/net", "permission denied"),
        readable("s1", "vendor.com/gpu", vec![record("vendor.com/gpu=0", "g0"), record("broken", "x")]),
    ];
    let scan = scan_sources(&sources);
    assert_eq!(scan.generation.records, vec![record("vendor.com/gpu=0", "g0")]);
    assert_eq!(scan.generation.built_from, names(&["s1"]));
    assert_eq!(
        scan.ledger.snapshot(),
        vec![
            entry("vendor.com/net", vec![error(ErrorKind::SourceUnreadable, "s0", "permission denied")]),
            entry("vendor.com/gpu", vec![error(ErrorKind::MalformedRecord, "broken", "")]),
        ]
    );
}

#[test]
fn first_configured_source_wins_a_name_collision() {
    let x = "vendor.com/gpu=0";
    let mut cache = cache_with(vec![
        readable("first", "vendor.com/gpu", vec![record(x, "one")]),
        readable("second", "vendor.com/gpu", vec![record(x, "two")]),
    ]);
    assert_eq!(cache.refresh(), Ok(()));
    assert_eq!(cache.list_devices(), names(&[x]));
    assert_eq!(cache.built_from(), names(&["first", "second"]));
    assert_eq!(
        cache.get_errors(),
        vec![entry("vendor.com/gpu", vec![error(ErrorKind::NameCollision, x, "")])]
    );
    let mut spec = RuntimeSpec::new();
    let (injected, failure) = cache.inject_devices(&mut spec, names(&[x]));
    assert_eq!(injected, names(&[x]));
    assert_eq!(failure, None);
    assert_eq!(spec.device_nodes, record(x, "one").fragment.device_nodes);
    assert_eq!(spec.env, vec![env("DEVICE", "one")]);
}

#[test]
fn partial_injection_keeps_order_and_records_the_missing_name() {
    let a = "vendor.com/gpu=a";
    let b = "vendor.com/net=b";
    let c = "vendor.com/gpu=c";
    let mut cache =
        cache_with(vec![readable("s", "vendor.com/gpu", vec![record(a, "a"), record(c, "c")])]);
    let mut spec = RuntimeSpec::new();
    let (injected, failure) = cache.inject_devices(&mut spec, names(&[a, b, c]));
    assert_eq!(injected, names(&[a, c]));
    assert_eq!(failure.map(|e| e.unresolved), Some(names(&[b])));
    assert_eq!(spec.device_nodes, vec![node("/dev/a", "/dev/a"), node("/dev/c", "/dev/c")]);
    assert_eq!(spec.mounts, vec![mount("/host/a", "/mnt/a"), mount("/host/c", "/mnt/c")]);
    assert_eq!(spec.env, vec![env("DEVICE", "c")]);
    assert_eq!(spec.hooks, vec![hook("hook-a", &["start", "a"]), hook("hook-c", &["start", "c"])]);
    assert_eq!(
        cache.get_errors(),
        vec![entry("vendor.com/net", vec![error(ErrorKind::UnresolvedDevice, b, "")])]
    );
}

#[test]
fn injecting_a_device_twice_adds_its_nodes_and_mounts_once() {
    let a = "vendor.com/gpu=a";
    let mut cache = cache_with(vec![readable("s", "vendor.com/gpu", vec![record(a, "a")])]);
    let mut spec = RuntimeSpec::new();
    let (injected, failure) = cache.inject_devices(&mut spec, names(&[a, a]));
    assert_eq!(injected, names(&[a, a]));
    assert_eq!(failure, None);
    assert_eq!(spec.device_nodes, vec![node("/dev/a", "/dev/a")]);
    assert_eq!(spec.mounts, vec![mount("/host/a", "/mnt/a")]);
    assert_eq!(spec.env, vec![env("DEVICE", "a")]);
    assert_eq!(spec.hooks.len(), 2);
}

#[test]
fn empty_configure_changes_nothing_and_does_not_refresh() {
    let a = "vendor.com/gpu=a";
    let mut cache = Cache::new();
    assert_eq!(
        cache.configure(vec![
            CacheOption::AddSource(readable("s", "vendor.com/gpu", vec![record(a, "a")])),
            CacheOption::AutoRefresh(true),
            CacheOption::AutoRefresh(false),
        ]),
        Ok(())
    );
    assert!(!cache.auto_refresh());
    assert_eq!(cache.list_devices(), names(&[]));
    let mut spec = RuntimeSpec::new();
    cache.inject_devices(&mut spec, names(&["vendor.com/gpu=zz"]));
    let before = cache.get_errors();
    assert_eq!(before.len(), 1);
    assert_eq!(cache.configure(vec![]), Ok(()));
    assert!(!cache.auto_refresh());
    assert_eq!(cache.list_devices(), names(&[]));
    assert_eq!(cache.get_errors(), before);
    assert_eq!(cache.refresh(), Ok(()));
    assert_eq!(cache.list_devices(), names(&[a]));
}

#[test]
fn configure_with_auto_refresh_loads_at_once() {
    let a = "vendor.com/gpu=a";
    let mut cache = Cache::new();
    assert_eq!(
        cache.configure(vec![
            CacheOption::SetConflictPolicy(ConflictPolicy::FirstWins),
            CacheOption::AutoRefresh(true),
            CacheOption::AddSource(readable("s", "vendor.com/gpu", vec![record(a, "a")])),
        ]),
        Ok(())
    );
    assert!(cache.auto_refresh());
    assert_eq!(cache.list_devices(), names(&[a]));
}

#[test]
fn refused_options_leave_the_cache_unchanged() {
    let mut cache = cache_with(vec![readable("s", "k", vec![record("k=a", "a")])]);
    assert_eq!(
        cache.configure(vec![
            CacheOption::AutoRefresh(false),
            CacheOption::AddSource(readable("t", "k", vec![record("k=b", "b")])),
            CacheOption::AddSource(readable("s", "k", vec![])),
        ]),
        Err(ConfigError::DuplicateSource { position: 2 })
    );
    assert!(cache.auto_refresh());
    assert_eq!(cache.refresh(), Ok(()));
    assert_eq!(cache.list_devices(), names(&["k=a"]));
    assert_eq!(
        cache.configure(vec![
            CacheOption::AddSource(readable("u", "k", vec![])),
            CacheOption::AddSource(readable("u", "k", vec![])),
        ]),
        Err(ConfigError::DuplicateSource { position: 1 })
    );
    assert_eq!(
        cache.configure(vec![CacheOption::AddSource(readable("", "k", vec![]))]),
        Err(ConfigError::EmptySourceId { position: 0 })
    );
    assert_eq!(cache.built_from(), names(&["s"]));
}

#[test]
fn refresh_fails_without_a_readable_source_and_keeps_the_generation() {
    let mut cache = Cache::new();
    assert_eq!(cache.refresh(), Err(RefreshError::NoUsableSource));
    assert_eq!(cache.get_errors(), vec![]);

    let mut cache = cache_with(vec![readable("s", "k", vec![record("k=a", "a")])]);
    assert_eq!(cache.list_devices(), names(&["k=a"]));
    let mut other = new_cache(vec![CacheOption::AddSource(unreadable("bad", "k", "gone"))]);
    assert_eq!(other.refresh(), Err(RefreshError::NoUsableSource));
    assert_eq!(other.list_devices(), names(&[]));
    assert_eq!(
        other.get_errors(),
        vec![entry("k", vec![error(ErrorKind::SourceUnreadable, "bad", "gone")])]
    );
    assert_eq!(cache.refresh(), Ok(()));
    assert_eq!(cache.list_devices(), names(&["k=a"]));
}

#[test]
fn refresh_discards_injection_errors() {
    let mut cache = cache_with(vec![
        readable("s", "k", vec![record("k=a", "a"), record("k=a", "again")]),
        unreadable("t", "other", "bad file"),
    ]);
    let mut spec = RuntimeSpec::new();
    let (injected, failure) = cache.inject_devices(&mut spec, names(&["k=zz", "m=1"]));
    assert_eq!(injected, names(&[]));
    assert_eq!(failure.map(|e| e.unresolved), Some(names(&["k=zz", "m=1"])));
    assert_eq!(
        cache.get_errors(),
        vec![
            entry(
                "k",
                vec![
                    error(ErrorKind::NameCollision, "k=a", ""),
                    error(ErrorKind::UnresolvedDevice, "k=zz", ""),
                ]
            ),
            entry("other", vec![error(ErrorKind::SourceUnreadable, "t", "bad file")]),
            entry("m", vec![error(ErrorKind::UnresolvedDevice, "m=1", "")]),
        ]
    );
    assert_eq!(cache.list_devices(), names(&["k=a"]));
    assert_eq!(cache.refresh(), Ok(()));
    assert_eq!(
        cache.get_errors(),
        vec![
            entry("k", vec![error(ErrorKind::NameCollision, "k=a", "")]),
            entry("other", vec![error(ErrorKind::SourceUnreadable, "t", "bad file")]),
        ]
    );
}

#[test]
fn default_cache_is_created_once() {
    let mut cell = DefaultCache::new();
    assert!(!cell.is_created());
    {
        let cache = get_default_cache(&mut cell);
        assert!(cache.auto_refresh());
        assert_eq!(cache.list_devices(), names(&[]));
        assert_eq!(
            cache.configure(vec![CacheOption::AddSource(readable("s", "k", vec![record("k=a", "a")]))]),
            Ok(())
        );
    }
    assert!(cell.is_created());
    let again = get_default_cache(&mut cell);
    assert_eq!(again.list_devices(), names(&["k=a"]));
    assert_eq!(again.built_from(), names(&["s"]));
}

#[test]
fn facade_operations_work_on_the_shared_instance() {
    let mut cell = DefaultCache::new();
    assert_eq!(list_devices(&mut cell), names(&[]));
    assert!(cell.is_created());
    assert_eq!(refresh(&mut cell), Err(RefreshError::NoUsableSource));
    assert_eq!(configure(&mut cell, vec![]), Ok(()));
    assert_eq!(
        configure(
            &mut cell,
            vec![CacheOption::AddSource(readable("s", "k", vec![record("k=a", "a")]))]
        ),
        Ok(())
    );
    assert_eq!(list_devices(&mut cell), names(&["k=a"]));
    let mut spec = RuntimeSpec::new();
    let (injected, failure) = inject_devices(&mut cell, &mut spec, names(&["k=b", "k=a"]));
    assert_eq!(injected, names(&["k=a"]));
    assert_eq!(failure.map(|e| e.unresolved), Some(names(&["k=b"])));
    assert_eq!(spec.device_nodes, vec![node("/dev/a", "/dev/a")]);
    assert_eq!(
        get_errors(&mut cell),
        vec![entry("k", vec![error(ErrorKind::UnresolvedDevice, "k=b", "")])]
    );
    assert_eq!(refresh(&mut cell), Ok(()));
    assert_eq!(get_errors(&mut cell), vec![]);
}

#[test]
fn duplicates_are_equal_to_what_they_copy() {
    let r = record("vendor.com/gpu=0", "g0");
    assert_eq!(r.duplicate(), r);
    assert_eq!(r.class_key(), "vendor.com/gpu");
    let s = readable("s", "vendor.com/gpu", vec![r.duplicate(), record("vendor.com/gpu=1", "g1")]);
    assert_eq!(s.duplicate(), s);
    let u = unreadable("u", "vendor.com/gpu", "why");
    assert_eq!(u.duplicate(), u);
    let hooks = vec![hook("a", &["1", "2"]), hook("b", &[])];
    assert_eq!(duplicate_all(&hooks), hooks);
    let e = entry("k", vec![error(ErrorKind::NameCollision, "k=a", "")]);
    assert_eq!(e.duplicate(), e);
}

#[test]
fn generation_finds_records_by_name() {
    let empty = Generation::empty();
    assert_eq!(empty.find(&"k=a".to_string()), None);
    let generation = Generation {
        records: vec![record("k=a", "a"), record("k=b", "b")],
        built_from: names(&["s"]),
    };
    assert_eq!(generation.find(&"k=a".to_string()), Some(0));
    assert_eq!(generation.find(&"k=b".to_string()), Some(1));
    assert_eq!(generation.find(&"k=c".to_string()), None);
}

#[test]
fn unresolved_names_without_a_separator_are_keyed_by_the_whole_name() {
    let mut cache = Cache::new();
    let mut spec = RuntimeSpec::new();
    spec.env.push(env("KEEP", "1"));
    let (injected, failure) = cache.inject_devices(&mut spec, names(&["plain", "plain"]));
    assert_eq!(injected, names(&[]));
    assert_eq!(failure.map(|e| e.unresolved), Some(names(&["plain", "plain"])));
    assert_eq!(spec.env, vec![env("KEEP", "1")]);
    assert_eq!(
        cache.get_errors(),
        vec![entry(
            "plain",
            vec![
                error(ErrorKind::UnresolvedDevice, "plain", ""),
                error(ErrorKind::UnresolvedDevice, "plain", ""),
            ]
        )]
    );
}

#[test]
fn later_devices_overwrite_env_of_earlier_ones() {
    let mut cache = cache_with(vec![readable(
        "s",
        "k",
        vec![record("k=a", "a"), record("k=b", "b")],
    )]);
    let mut spec = RuntimeSpec::new();
    let (injected, failure) = cache.inject_devices(&mut spec, names(&["k=b", "k=a"]));
    assert_eq!(injected, names(&["k=b", "k=a"]));
    assert_eq!(failure, None);
    assert_eq!(spec.env, vec![env("DEVICE", "a")]);
    assert_eq!(spec.device_nodes, vec![node("/dev/b", "/dev/b"), node("/dev/a", "/dev/a")]);
    assert_eq!(spec.hooks, vec![hook("hook-b", &["start", "b"]), hook("hook-a", &["start", "a"])]);
    assert_eq!(cache.get_errors(), vec![]);
}

#[test]
fn reloaded_source_is_seen_by_the_next_refresh() {
    let mut cache = cache_with(vec![
        readable("s", "k", vec![record("k=a", "a")]),
        unreadable("t", "k", "not yet"),
    ]);
    assert_eq!(cache.source_ids(), names(&["s", "t"]));
    assert_eq!(cache.list_devices(), names(&["k=a"]));
    let id = "t".to_string();
    assert!(cache.reload_source(&id, SourceContent::Records(vec![record("k=b", "b")])));
    assert_eq!(cache.list_devices(), names(&["k=a"]));
    assert_eq!(cache.get_errors().len(), 1);
    assert_eq!(cache.refresh(), Ok(()));
    assert_eq!(cache.list_devices(), names(&["k=a", "k=b"]));
    assert_eq!(cache.built_from(), names(&["s", "t"]));
    assert_eq!(cache.get_errors(), vec![]);
    assert!(cache.reload_source(&"s".to_string(), SourceContent::Unreadable("gone".to_string())));
    assert_eq!(cache.refresh(), Ok(()));
    assert_eq!(cache.list_devices(), names(&["k=b"]));
    assert_eq!(cache.source_ids(), names(&["s", "t"]));
    assert_eq!(
        cache.get_errors(),
        vec![entry("k", vec![error(ErrorKind::SourceUnreadable, "s", "gone")])]
    );
}

#[test]
fn reloading_an_unknown_source_changes_nothing() {
    let mut cache = cache_with(vec![readable("s", "k", vec![record("k=a", "a")])]);
    assert!(!cache.reload_source(&"zz".to_string(), SourceContent::Records(vec![])));
    assert_eq!(cache.source_ids(), names(&["s"]));
    assert_eq!(cache.refresh(), Ok(()));
    assert_eq!(cache.list_devices(), names(&["k=a"]));
}

#[test]
fn facade_reload_works_on_the_shared_instance() {
    let mut cell = DefaultCache::new();
    assert!(!reload_source(&mut cell, &"s".to_string(), SourceContent::Records(vec![])));
    assert!(cell.is_created());
    assert_eq!(
        configure(&mut cell, vec![CacheOption::AddSource(unreadable("s", "k", "later"))]),
        Ok(())
    );
    assert_eq!(list_devices(&mut cell), names(&[]));
    assert!(reload_source(
        &mut cell,
        &"s".to_string(),
        SourceContent::Records(vec![record("k=a", "a")])
    ));
    assert_eq!(refresh(&mut cell), Ok(()));
    assert_eq!(list_devices(&mut cell), names(&["k=a"]));
}

#[test]
fn first_occurrence_of_a_shared_node_wins_across_devices() {
    let mut a = record("k=a", "a");
    let mut b = record("k=b", "b");
    a.fragment.device_nodes = vec![DeviceNode {
        host_path: "/dev/shared".to_string(),
        container_path: "/dev/shared".to_string(),
        permissions: "r".to_string(),
        node_type: "c".to_string(),
    }];
    b.fragment.device_nodes = vec![DeviceNode {
        host_path: "/dev/shared".to_string(),
        container_path: "/dev/shared".to_string(),
        permissions: "rwm".to_string(),
        node_type: "b".to_string(),
    }];
    a.fragment.mounts = vec![mount("/host/a", "/mnt/shared")];
    b.fragment.mounts = vec![mount("/host/b", "/mnt/shared")];
    let mut cache = cache_with(vec![readable("s", "k", vec![a.duplicate(), b])]);
    let mut spec = RuntimeSpec::new();
    let (injected, failure) = cache.inject_devices(&mut spec, names(&["k=a", "k=b"]));
    assert_eq!(injected, names(&["k=a", "k=b"]));
    assert_eq!(failure, None);
    assert_eq!(spec.device_nodes, a.fragment.device_nodes);
    assert_eq!(spec.mounts, vec![mount("/host/a", "/mnt/shared")]);
    assert_eq!(spec.env, vec![env("DEVICE", "b")]);
}
