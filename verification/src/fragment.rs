//! Injection fragments, the runtime specification they are merged into, and
//! the merge rules.
use vstd::prelude::*;

verus! {

/// Types that can be copied with their view kept.
pub trait Duplicate: View + Sized {
    fn duplicate(&self) -> (r: Self)
        ensures
            r@ == self@,
    ;
}

/// The views of the items of a sequence, in order.
pub open spec fn views<T: View>(s: Seq<T>) -> Seq<T::V> {
    s.map_values(|x: T| x@)
}

/// Pushing an item pushes its view.
pub proof fn lemma_views_push<T: View>(s: Seq<T>, x: T)
    ensures
        views(s.push(x)) == views(s).push(x@),
{
    assert(views(s.push(x)) =~= views(s).push(x@));
}

/// Replacing an item replaces its view.
pub proof fn lemma_views_update<T: View>(s: Seq<T>, i: int, x: T)
    requires
        0 <= i < s.len(),
    ensures
        views(s.update(i, x)) == views(s).update(i, x@),
{
    assert(views(s.update(i, x)) =~= views(s).update(i, x@));
}

impl Duplicate for String {
    fn duplicate(&self) -> (r: Self) {
        self.clone()
    }
}

/// Copies a vector item by item.
pub fn duplicate_all<T: Duplicate>(items: &Vec<T>) -> (r: Vec<T>)
    ensures
        views(r@) == views(items@),
{
    let mut out: Vec<T> = Vec::new();
    let mut i: usize = 0;
    while i < items.len()
        invariant
            i <= items.len(),
            views(out@) == views(items@.take(i as int)),
        decreases items.len() - i,
    {
        let copy = items[i].duplicate();
        proof {
            lemma_views_push(out@, copy);
            assert(views(items@.take(i + 1)) =~= views(items@.take(i as int)).push(items@[i as int]@));
        }
        out.push(copy);
        i += 1;
    }
    proof {
        assert(items@.take(items.len() as int) =~= items@);
    }
    out
}

/// A device node made available inside the container.
#[derive(Clone, Debug, PartialEq, Eq)]
pub struct DeviceNode {
    pub host_path: String,
    pub container_path: String,
    pub permissions: String,
    pub node_type: String,
}

pub ghost struct DeviceNodeView {
    pub host_path: Seq<char>,
    pub container_path: Seq<char>,
    pub permissions: Seq<char>,
    pub node_type: Seq<char>,
}

impl View for DeviceNode {
    type V = DeviceNodeView;

    open spec fn view(&self) -> DeviceNodeView {
        DeviceNodeView {
            host_path: self.host_path@,
            container_path: self.container_path@,
            permissions: self.permissions@,
            node_type: self.node_type@,
        }
    }
}

impl Duplicate for DeviceNode {
    fn duplicate(&self) -> (r: Self) {
        DeviceNode {
            host_path: self.host_path.clone(),
            container_path: self.container_path.clone(),
            permissions: self.permissions.clone(),
            node_type: self.node_type.clone(),
        }
    }
}

/// A mount of a host path into the container.
#[derive(Clone, Debug, PartialEq, Eq)]
pub struct Mount {
    pub host_path: String,
    pub container_path: String,
}

pub ghost struct MountView {
    pub host_path: Seq<char>,
    pub container_path: Seq<char>,
}

impl View for Mount {
    type V = MountView;

    open spec fn view(&self) -> MountView {
        MountView { host_path: self.host_path@, container_path: self.container_path@ }
    }
}

impl Duplicate for Mount {
    fn duplicate(&self) -> (r: Self) {
        Mount { host_path: self.host_path.clone(), container_path: self.container_path.clone() }
    }
}

/// An environment variable assignment.
#[derive(Clone, Debug, PartialEq, Eq)]
pub struct EnvVar {
    pub key: String,
    pub value: String,
}

pub ghost struct EnvVarView {
    pub key: Seq<char>,
    pub value: Seq<char>,
}

impl View for EnvVar {
    type V = EnvVarView;

    open spec fn view(&self) -> EnvVarView {
        EnvVarView { key: self.key@, value: self.value@ }
    }
}

impl Duplicate for EnvVar {
    fn duplicate(&self) -> (r: Self) {
        EnvVar { key: self.key.clone(), value: self.value.clone() }
    }
}

/// A hook: a name and its arguments.
#[derive(Clone, Debug, PartialEq, Eq)]
pub struct Hook {
    pub name: String,
    pub args: Vec<String>,
}

pub ghost struct HookView {
    pub name: Seq<char>,
    pub args: Seq<Seq<char>>,
}

impl View for Hook {
    type V = HookView;

    open spec fn view(&self) -> HookView {
        HookView { name: self.name@, args: views(self.args@) }
    }
}

impl Duplicate for Hook {
    fn duplicate(&self) -> (r: Self) {
        Hook { name: self.name.clone(), args: duplicate_all(&self.args) }
    }
}

/// What a fragment or a runtime specification holds, as mathematical values.
pub ghost struct Content {
    pub device_nodes: Seq<DeviceNodeView>,
    pub mounts: Seq<MountView>,
    pub env: Seq<EnvVarView>,
    pub hooks: Seq<HookView>,
}

/// The modifications of a runtime specification that realise one device.
#[derive(Clone, Debug, PartialEq, Eq)]
pub struct InjectionFragment {
    pub device_nodes: Vec<DeviceNode>,
    pub mounts: Vec<Mount>,
    pub env: Vec<EnvVar>,
    pub hooks: Vec<Hook>,
}

impl View for InjectionFragment {
    type V = Content;

    open spec fn view(&self) -> Content {
        Content {
            device_nodes: views(self.device_nodes@),
            mounts: views(self.mounts@),
            env: views(self.env@),
            hooks: views(self.hooks@),
        }
    }
}

impl Duplicate for InjectionFragment {
    fn duplicate(&self) -> (r: Self) {
        InjectionFragment {
            device_nodes: duplicate_all(&self.device_nodes),
            mounts: duplicate_all(&self.mounts),
            env: duplicate_all(&self.env),
            hooks: duplicate_all(&self.hooks),
        }
    }
}

/// The part of a container runtime specification that device injection
/// reads and changes.
#[derive(Clone, Debug, PartialEq, Eq)]
pub struct RuntimeSpec {
    pub device_nodes: Vec<DeviceNode>,
    pub mounts: Vec<Mount>,
    pub env: Vec<EnvVar>,
    pub hooks: Vec<Hook>,
}

impl View for RuntimeSpec {
    type V = Content;

    open spec fn view(&self) -> Content {
        Content {
            device_nodes: views(self.device_nodes@),
            mounts: views(self.mounts@),
            env: views(self.env@),
            hooks: views(self.hooks@),
        }
    }
}

impl RuntimeSpec {
    /// A runtime specification with no devices, mounts, variables or hooks.
    pub fn new() -> (r: Self)
        ensures
            r@.device_nodes.len() == 0,
            r@.mounts.len() == 0,
            r@.env.len() == 0,
            r@.hooks.len() == 0,
    {
        RuntimeSpec { device_nodes: Vec::new(), mounts: Vec::new(), env: Vec::new(), hooks: Vec::new() }
    }
}

/// Two device nodes coincide when host path and container path agree.
pub open spec fn same_node(a: DeviceNodeView, b: DeviceNodeView) -> bool {
    a.host_path == b.host_path && a.container_path == b.container_path
}

pub open spec fn has_node(nodes: Seq<DeviceNodeView>, n: DeviceNodeView) -> bool {
    exists|i: int| 0 <= i < nodes.len() && same_node(#[trigger] nodes[i], n)
}

/// Appends a device node unless one with the same paths is present.
pub open spec fn add_node(nodes: Seq<DeviceNodeView>, n: DeviceNodeView) -> Seq<DeviceNodeView> {
    if has_node(nodes, n) {
        nodes
    } else {
        nodes.push(n)
    }
}

/// Appends the nodes of `add` in order, the first occurrence of a pair of
/// paths winning.
pub open spec fn merge_nodes(base: Seq<DeviceNodeView>, add: Seq<DeviceNodeView>) -> Seq<
    DeviceNodeView,
>
    decreases add.len(),
{
    if add.len() == 0 {
        base
    } else {
        add_node(merge_nodes(base, add.drop_last()), add.last())
    }
}

pub open spec fn has_mount(mounts: Seq<MountView>, m: MountView) -> bool {
    exists|i: int| 0 <= i < mounts.len() && (#[trigger] mounts[i]).container_path == m.container_path
}

/// Appends a mount unless one with the same container path is present.
pub open spec fn add_mount(mounts: Seq<MountView>, m: MountView) -> Seq<MountView> {
    if has_mount(mounts, m) {
        mounts
    } else {
        mounts.push(m)
    }
}

/// Appends the mounts of `add` in order, the first occurrence of a
/// container path winning.
pub open spec fn merge_mounts(base: Seq<MountView>, add: Seq<MountView>) -> Seq<MountView>
    decreases add.len(),
{
    if add.len() == 0 {
        base
    } else {
        add_mount(merge_mounts(base, add.drop_last()), add.last())
    }
}

/// `i` is the first position of `env` that assigns `key`.
pub open spec fn env_at(env: Seq<EnvVarView>, key: Seq<char>, i: int) -> bool {
    &&& 0 <= i < env.len()
    &&& env[i].key == key
    &&& forall|j: int| 0 <= j < i ==> (#[trigger] env[j]).key != key
}

pub open spec fn has_key(env: Seq<EnvVarView>, key: Seq<char>) -> bool {
    exists|i: int| env_at(env, key, i)
}

/// Sets a variable: the first assignment of its key is overwritten in
/// place, and a new key is appended.
pub open spec fn set_env(env: Seq<EnvVarView>, e: EnvVarView) -> Seq<EnvVarView> {
    if has_key(env, e.key) {
        env.update(choose|i: int| env_at(env, e.key, i), e)
    } else {
        env.push(e)
    }
}

/// Sets the variables of `add` in order, so that the last assignment of a
/// key wins.
pub open spec fn merge_env(base: Seq<EnvVarView>, add: Seq<EnvVarView>) -> Seq<EnvVarView>
    decreases add.len(),
{
    if add.len() == 0 {
        base
    } else {
        set_env(merge_env(base, add.drop_last()), add.last())
    }
}

/// The runtime specification after a fragment has been merged into it.
pub open spec fn merge_content(spec: Content, fragment: Content) -> Content {
    Content {
        device_nodes: merge_nodes(spec.device_nodes, fragment.device_nodes),
        mounts: merge_mounts(spec.mounts, fragment.mounts),
        env: merge_env(spec.env, fragment.env),
        hooks: spec.hooks + fragment.hooks,
    }
}

/// After a merge, every merged node is present.
pub proof fn lemma_merge_nodes_covers(base: Seq<DeviceNodeView>, add: Seq<DeviceNodeView>, k: int)
    requires
        0 <= k < add.len(),
    ensures
        has_node(merge_nodes(base, add), add[k]),
    decreases add.len(),
{
    let prev = merge_nodes(base, add.drop_last());
    let after = add_node(prev, add.last());
    if k == add.len() - 1 {
        if !has_node(prev, add.last()) {
            assert(same_node(after[prev.len() as int], add.last()));
        }
    } else {
        lemma_merge_nodes_covers(base, add.drop_last(), k);
        let i = choose|i: int| 0 <= i < prev.len() && same_node(#[trigger] prev[i], add[k]);
        assert(same_node(after[i], add[k]));
    }
}

/// Merging nodes that are all present changes nothing.
pub proof fn lemma_merge_nodes_absorbs(base: Seq<DeviceNodeView>, add: Seq<DeviceNodeView>)
    requires
        forall|k: int| 0 <= k < add.len() ==> has_node(base, #[trigger] add[k]),
    ensures
        merge_nodes(base, add) == base,
    decreases add.len(),
{
    if add.len() > 0 {
        assert forall|k: int| 0 <= k < add.drop_last().len() implies has_node(
            base,
            #[trigger] add.drop_last()[k],
        ) by {
            assert(add.drop_last()[k] == add[k]);
        }
        lemma_merge_nodes_absorbs(base, add.drop_last());
        assert(has_node(base, add[add.len() - 1]));
    }
}

/// Merging the same device nodes a second time changes nothing.
pub proof fn merge_nodes_idempotent(base: Seq<DeviceNodeView>, add: Seq<DeviceNodeView>)
    ensures
        merge_nodes(merge_nodes(base, add), add) == merge_nodes(base, add),
{
    assert forall|k: int| 0 <= k < add.len() implies has_node(
        merge_nodes(base, add),
        #[trigger] add[k],
    ) by {
        lemma_merge_nodes_covers(base, add, k);
    }
    lemma_merge_nodes_absorbs(merge_nodes(base, add), add);
}

/// After a merge, every merged mount is present.
pub proof fn lemma_merge_mounts_covers(base: Seq<MountView>, add: Seq<MountView>, k: int)
    requires
        0 <= k < add.len(),
    ensures
        has_mount(merge_mounts(base, add), add[k]),
    decreases add.len(),
{
    let prev = merge_mounts(base, add.drop_last());
    let after = add_mount(prev, add.last());
    if k == add.len() - 1 {
        if !has_mount(prev, add.last()) {
            assert(after[prev.len() as int].container_path == add.last().container_path);
        }
    } else {
        lemma_merge_mounts_covers(base, add.drop_last(), k);
        let i = choose|i: int|
            0 <= i < prev.len() && (#[trigger] prev[i]).container_path == add[k].container_path;
        assert(after[i].container_path == add[k].container_path);
    }
}

/// Merging mounts that are all present changes nothing.
pub proof fn lemma_merge_mounts_absorbs(base: Seq<MountView>, add: Seq<MountView>)
    requires
        forall|k: int| 0 <= k < add.len() ==> has_mount(base, #[trigger] add[k]),
    ensures
        merge_mounts(base, add) == base,
    decreases add.len(),
{
    if add.len() > 0 {
        assert forall|k: int| 0 <= k < add.drop_last().len() implies has_mount(
            base,
            #[trigger] add.drop_last()[k],
        ) by {
            assert(add.drop_last()[k] == add[k]);
        }
        lemma_merge_mounts_absorbs(base, add.drop_last());
        assert(has_mount(base, add[add.len() - 1]));
    }
}

/// Merging the same mounts a second time changes nothing.
pub proof fn merge_mounts_idempotent(base: Seq<MountView>, add: Seq<MountView>)
    ensures
        merge_mounts(merge_mounts(base, add), add) == merge_mounts(base, add),
{
    assert forall|k: int| 0 <= k < add.len() implies has_mount(
        merge_mounts(base, add),
        #[trigger] add[k],
    ) by {
        lemma_merge_mounts_covers(base, add, k);
    }
    lemma_merge_mounts_absorbs(merge_mounts(base, add), add);
}

/// No two nodes have the same pair of paths.
pub open spec fn nodes_apart(nodes: Seq<DeviceNodeView>) -> bool {
    forall|k: int, l: int|
        0 <= k < l < nodes.len() ==> !same_node(#[trigger] nodes[k], #[trigger] nodes[l])
}

/// No two mounts have the same container path.
pub open spec fn mounts_apart(mounts: Seq<MountView>) -> bool {
    forall|k: int, l: int|
        0 <= k < l < mounts.len() ==> (#[trigger] mounts[k]).container_path != (
        #[trigger] mounts[l]).container_path
}

/// No two assignments have the same key.
pub open spec fn keys_apart(env: Seq<EnvVarView>) -> bool {
    forall|k: int, l: int|
        0 <= k < l < env.len() ==> (#[trigger] env[k]).key != (#[trigger] env[l]).key
}

/// The first occurrence of a pair of paths wins: a merge leaves the nodes
/// that were there in place and unchanged, and where they were pairwise
/// apart, so are the nodes after the merge.
pub proof fn merge_nodes_extends(base: Seq<DeviceNodeView>, add: Seq<DeviceNodeView>)
    ensures
        base.len() <= merge_nodes(base, add).len(),
        merge_nodes(base, add).take(base.len() as int) == base,
        nodes_apart(base) ==> nodes_apart(merge_nodes(base, add)),
    decreases add.len(),
{
    if add.len() == 0 {
        assert(base.take(base.len() as int) =~= base);
    } else {
        merge_nodes_extends(base, add.drop_last());
        let prev = merge_nodes(base, add.drop_last());
        let next = add_node(prev, add.last());
        assert(next.take(base.len() as int) =~= prev.take(base.len() as int));
        if nodes_apart(base) && !has_node(prev, add.last()) {
            assert forall|k: int, l: int| 0 <= k < l < next.len() implies !same_node(
                #[trigger] next[k],
                #[trigger] next[l],
            ) by {
                assert(next[k] == prev[k]);
                if l < prev.len() {
                    assert(next[l] == prev[l]);
                } else if same_node(prev[k], add.last()) {
                    assert(has_node(prev, add.last()));
                }
            }
        }
    }
}

/// The first occurrence of a container path wins: a merge leaves the mounts
/// that were there in place and unchanged, and where they were pairwise
/// apart, so are the mounts after the merge.
pub proof fn merge_mounts_extends(base: Seq<MountView>, add: Seq<MountView>)
    ensures
        base.len() <= merge_mounts(base, add).len(),
        merge_mounts(base, add).take(base.len() as int) == base,
        mounts_apart(base) ==> mounts_apart(merge_mounts(base, add)),
    decreases add.len(),
{
    if add.len() == 0 {
        assert(base.take(base.len() as int) =~= base);
    } else {
        merge_mounts_extends(base, add.drop_last());
        let prev = merge_mounts(base, add.drop_last());
        let next = add_mount(prev, add.last());
        assert(next.take(base.len() as int) =~= prev.take(base.len() as int));
        if mounts_apart(base) && !has_mount(prev, add.last()) {
            assert forall|k: int, l: int| 0 <= k < l < next.len() implies (
            #[trigger] next[k]).container_path != (#[trigger] next[l]).container_path by {
                assert(next[k] == prev[k]);
                if l < prev.len() {
                    assert(next[l] == prev[l]);
                } else if prev[k].container_path == add.last().container_path {
                    assert(has_mount(prev, add.last()));
                }
            }
        }
    }
}

/// Nodes that are new and pairwise apart are appended as they stand.
pub proof fn merge_new_nodes_appends(base: Seq<DeviceNodeView>, add: Seq<DeviceNodeView>)
    requires
        forall|k: int| 0 <= k < add.len() ==> !has_node(base, #[trigger] add[k]),
        nodes_apart(add),
    ensures
        merge_nodes(base, add) == base + add,
    decreases add.len(),
{
    if add.len() == 0 {
        assert(base + add =~= base);
    } else {
        let front = add.drop_last();
        assert forall|k: int| 0 <= k < front.len() implies !has_node(base, #[trigger] front[k]) by {
            assert(front[k] == add[k]);
        }
        assert forall|k: int, l: int| 0 <= k < l < front.len() implies !same_node(
            #[trigger] front[k],
            #[trigger] front[l],
        ) by {
            assert(front[k] == add[k] && front[l] == add[l]);
        }
        merge_new_nodes_appends(base, front);
        let prev = base + front;
        if has_node(prev, add.last()) {
            let i = choose|i: int| 0 <= i < prev.len() && same_node(#[trigger] prev[i], add.last());
            if i < base.len() {
                assert(same_node(base[i], add[add.len() - 1]));
                assert(has_node(base, add[add.len() - 1]));
            } else {
                assert(same_node(add[i - base.len()], add[add.len() - 1]));
            }
            assert(false);
        }
        assert(prev.push(add.last()) =~= base + add);
    }
}

/// Mounts that are new and pairwise apart are appended as they stand.
pub proof fn merge_new_mounts_appends(base: Seq<MountView>, add: Seq<MountView>)
    requires
        forall|k: int| 0 <= k < add.len() ==> !has_mount(base, #[trigger] add[k]),
        mounts_apart(add),
    ensures
        merge_mounts(base, add) == base + add,
    decreases add.len(),
{
    if add.len() == 0 {
        assert(base + add =~= base);
    } else {
        let front = add.drop_last();
        assert forall|k: int| 0 <= k < front.len() implies !has_mount(base, #[trigger] front[k]) by {
            assert(front[k] == add[k]);
        }
        assert forall|k: int, l: int| 0 <= k < l < front.len() implies (
        #[trigger] front[k]).container_path != (#[trigger] front[l]).container_path by {
            assert(front[k] == add[k] && front[l] == add[l]);
        }
        merge_new_mounts_appends(base, front);
        let prev = base + front;
        if has_mount(prev, add.last()) {
            let i = choose|i: int|
                0 <= i < prev.len() && (#[trigger] prev[i]).container_path
                    == add.last().container_path;
            if i < base.len() {
                assert(base[i].container_path == add[add.len() - 1].container_path);
                assert(has_mount(base, add[add.len() - 1]));
            } else {
                assert(add[i - base.len()].container_path == add[add.len() - 1].container_path);
            }
            assert(false);
        }
        assert(prev.push(add.last()) =~= base + add);
    }
}

/// Where some assignment has the key, a first one has it.
pub proof fn lemma_first_key(env: Seq<EnvVarView>, key: Seq<char>, j: int)
    requires
        0 <= j < env.len(),
        env[j].key == key,
    ensures
        has_key(env, key),
    decreases j,
{
    if exists|k: int| 0 <= k < j && (#[trigger] env[k]).key == key {
        let k = choose|k: int| 0 <= k < j && (#[trigger] env[k]).key == key;
        lemma_first_key(env, key, k);
    } else {
        assert(env_at(env, key, j));
    }
}

/// The value that `env` gives `key`: that of its first assignment.
pub open spec fn env_value(env: Seq<EnvVarView>, key: Seq<char>) -> Option<Seq<char>> {
    if has_key(env, key) {
        Some(env[choose|i: int| env_at(env, key, i)].value)
    } else {
        None
    }
}

/// Setting a variable gives its key the new value and leaves the value of
/// every other key as it was.
pub proof fn lemma_set_env_value(env: Seq<EnvVarView>, e: EnvVarView, key: Seq<char>)
    ensures
        env_value(set_env(env, e), key) == (if key == e.key {
            Some(e.value)
        } else {
            env_value(env, key)
        }),
{
    let after = set_env(env, e);
    if has_key(env, e.key) {
        let at = choose|i: int| env_at(env, e.key, i);
        assert(env_at(env, e.key, at));
        assert forall|j: int| 0 <= j < env.len() implies (#[trigger] after[j]).key == env[j].key by {}
        if key == e.key {
            assert(env_at(after, key, at));
            lemma_env_at_unique(after, key, at);
        } else if has_key(env, key) {
            let i = choose|i: int| env_at(env, key, i);
            assert(env_at(env, key, i));
            assert(env_at(after, key, i));
            lemma_env_at_unique(after, key, i);
        } else if has_key(after, key) {
            let i = choose|i: int| env_at(after, key, i);
            assert(env_at(after, key, i));
            assert(env[i].key == key);
            lemma_first_key(env, key, i);
        }
    } else {
        assert forall|j: int| 0 <= j < env.len() implies (#[trigger] env[j]).key != e.key by {
            if env[j].key == e.key {
                lemma_first_key(env, e.key, j);
            }
        }
        if key == e.key {
            assert(env_at(after, key, env.len() as int));
            lemma_env_at_unique(after, key, env.len() as int);
        } else if has_key(env, key) {
            let i = choose|i: int| env_at(env, key, i);
            assert(env_at(env, key, i));
            assert(env_at(after, key, i));
            lemma_env_at_unique(after, key, i);
        } else if has_key(after, key) {
            let i = choose|i: int| env_at(after, key, i);
            assert(env_at(after, key, i));
            assert(env[i].key == key);
            lemma_first_key(env, key, i);
        }
    }
}

/// The last assignment of a key wins: after a merge the key has the value
/// of the last merged assignment of it, whatever stood before.
pub proof fn merge_env_last_wins(base: Seq<EnvVarView>, add: Seq<EnvVarView>, k: int)
    requires
        0 <= k < add.len(),
        forall|l: int| k < l < add.len() ==> (#[trigger] add[l]).key != add[k].key,
    ensures
        env_value(merge_env(base, add), add[k].key) == Some(add[k].value),
    decreases add.len(),
{
    let prev = merge_env(base, add.drop_last());
    lemma_set_env_value(prev, add.last(), add[k].key);
    if k < add.len() - 1 {
        assert(add[add.len() - 1].key != add[k].key);
        assert(add.drop_last()[k] == add[k]);
        assert forall|l: int| k < l < add.drop_last().len() implies (
        #[trigger] add.drop_last()[l]).key != add.drop_last()[k].key by {
            assert(add.drop_last()[l] == add[l]);
        }
        merge_env_last_wins(base, add.drop_last(), k);
    }
}

/// A key that no merged assignment sets keeps the value it had.
pub proof fn merge_env_keeps_other_keys(base: Seq<EnvVarView>, add: Seq<EnvVarView>, key: Seq<char>)
    requires
        forall|l: int| 0 <= l < add.len() ==> (#[trigger] add[l]).key != key,
    ensures
        env_value(merge_env(base, add), key) == env_value(base, key),
    decreases add.len(),
{
    if add.len() > 0 {
        assert forall|l: int| 0 <= l < add.drop_last().len() implies (
        #[trigger] add.drop_last()[l]).key != key by {
            assert(add.drop_last()[l] == add[l]);
        }
        merge_env_keeps_other_keys(base, add.drop_last(), key);
        assert(add[add.len() - 1].key != key);
        lemma_set_env_value(merge_env(base, add.drop_last()), add.last(), key);
    }
}

/// Assignments of new, pairwise different keys are appended as they stand.
pub proof fn merge_new_env_appends(base: Seq<EnvVarView>, add: Seq<EnvVarView>)
    requires
        forall|k: int| 0 <= k < add.len() ==> !has_key(base, (#[trigger] add[k]).key),
        keys_apart(add),
    ensures
        merge_env(base, add) == base + add,
    decreases add.len(),
{
    if add.len() == 0 {
        assert(base + add =~= base);
    } else {
        let front = add.drop_last();
        assert forall|k: int| 0 <= k < front.len() implies !has_key(
            base,
            (#[trigger] front[k]).key,
        ) by {
            assert(front[k] == add[k]);
        }
        assert forall|k: int, l: int| 0 <= k < l < front.len() implies (#[trigger] front[k]).key
            != (#[trigger] front[l]).key by {
            assert(front[k] == add[k] && front[l] == add[l]);
        }
        merge_new_env_appends(base, front);
        let prev = base + front;
        let key = add.last().key;
        if has_key(prev, key) {
            let i = choose|i: int| env_at(prev, key, i);
            assert(env_at(prev, key, i));
            if i < base.len() {
                assert(base[i].key == key);
                lemma_first_key(base, key, i);
                assert(!has_key(base, add[add.len() - 1].key));
            } else {
                assert(add[i - base.len()].key == add[add.len() - 1].key);
            }
            assert(false);
        }
        assert(prev.push(add.last()) =~= base + add);
    }
}

/// A fragment shares nothing with a runtime specification, nor with itself:
/// none of its nodes, mounts or keys is present, and they are pairwise apart.
pub open spec fn content_is_new(spec: Content, fragment: Content) -> bool {
    &&& forall|k: int|
        0 <= k < fragment.device_nodes.len() ==> !has_node(
            spec.device_nodes,
            #[trigger] fragment.device_nodes[k],
        )
    &&& forall|k: int|
        0 <= k < fragment.mounts.len() ==> !has_mount(spec.mounts, #[trigger] fragment.mounts[k])
    &&& forall|k: int|
        0 <= k < fragment.env.len() ==> !has_key(spec.env, (#[trigger] fragment.env[k]).key)
    &&& nodes_apart(fragment.device_nodes)
    &&& mounts_apart(fragment.mounts)
    &&& keys_apart(fragment.env)
}

/// Merging a fragment that shares nothing with the runtime specification
/// appends its nodes, mounts, assignments and hooks, each list in order.
pub proof fn merge_of_new_content_appends(spec: Content, fragment: Content)
    requires
        content_is_new(spec, fragment),
    ensures
        merge_content(spec, fragment) == (Content {
            device_nodes: spec.device_nodes + fragment.device_nodes,
            mounts: spec.mounts + fragment.mounts,
            env: spec.env + fragment.env,
            hooks: spec.hooks + fragment.hooks,
        }),
{
    merge_new_nodes_appends(spec.device_nodes, fragment.device_nodes);
    merge_new_mounts_appends(spec.mounts, fragment.mounts);
    merge_new_env_appends(spec.env, fragment.env);
}

fn contains_node(nodes: &Vec<DeviceNode>, n: &DeviceNode) -> (found: bool)
    ensures
        found == has_node(views(nodes@), n@),
{
    let mut i: usize = 0;
    while i < nodes.len()
        invariant
            i <= nodes.len(),
            forall|j: int| 0 <= j < i ==> !same_node(#[trigger] views(nodes@)[j], n@),
        decreases nodes.len() - i,
    {
        if nodes[i].host_path == n.host_path && nodes[i].container_path == n.container_path {
            assert(same_node(views(nodes@)[i as int], n@));
            return true;
        }
        i += 1;
    }
    false
}

fn contains_mount(mounts: &Vec<Mount>, m: &Mount) -> (found: bool)
    ensures
        found == has_mount(views(mounts@), m@),
{
    let mut i: usize = 0;
    while i < mounts.len()
        invariant
            i <= mounts.len(),
            forall|j: int|
                0 <= j < i ==> (#[trigger] views(mounts@)[j]).container_path != m@.container_path,
        decreases mounts.len() - i,
    {
        if mounts[i].container_path == m.container_path {
            assert(views(mounts@)[i as int].container_path == m@.container_path);
            return true;
        }
        i += 1;
    }
    false
}

fn find_env(env: &Vec<EnvVar>, key: &String) -> (r: Option<usize>)
    ensures
        match r {
            Some(i) => env_at(views(env@), key@, i as int),
            None => !has_key(views(env@), key@),
        },
{
    let mut i: usize = 0;
    while i < env.len()
        invariant
            i <= env.len(),
            forall|j: int| 0 <= j < i ==> (#[trigger] views(env@)[j]).key != key@,
        decreases env.len() - i,
    {
        if env[i].key == *key {
            assert(views(env@)[i as int].key == key@);
            return Some(i);
        }
        i += 1;
    }
    None
}

/// Merges device nodes into `target`, skipping those whose paths are present.
pub fn merge_device_nodes(target: &mut Vec<DeviceNode>, add: &Vec<DeviceNode>)
    ensures
        views(final(target)@) == merge_nodes(views(old(target)@), views(add@)),
{
    let ghost base = views(target@);
    let mut i: usize = 0;
    while i < add.len()
        invariant
            i <= add.len(),
            views(target@) == merge_nodes(base, views(add@).take(i as int)),
        decreases add.len() - i,
    {
        proof {
            assert(views(add@).take(i + 1).drop_last() =~= views(add@).take(i as int));
            assert(views(add@).take(i + 1).last() == add@[i as int]@);
        }
        if !contains_node(target, &add[i]) {
            let copy = add[i].duplicate();
            proof {
                lemma_views_push(target@, copy);
            }
            target.push(copy);
        }
        i += 1;
    }
    proof {
        assert(views(add@).take(add.len() as int) =~= views(add@));
    }
}

/// Merges mounts into `target`, skipping those whose container path is present.
pub fn merge_mount_list(target: &mut Vec<Mount>, add: &Vec<Mount>)
    ensures
        views(final(target)@) == merge_mounts(views(old(target)@), views(add@)),
{
    let ghost base = views(target@);
    let mut i: usize = 0;
    while i < add.len()
        invariant
            i <= add.len(),
            views(target@) == merge_mounts(base, views(add@).take(i as int)),
        decreases add.len() - i,
    {
        proof {
            assert(views(add@).take(i + 1).drop_last() =~= views(add@).take(i as int));
            assert(views(add@).take(i + 1).last() == add@[i as int]@);
        }
        if !contains_mount(target, &add[i]) {
            let copy = add[i].duplicate();
            proof {
                lemma_views_push(target@, copy);
            }
            target.push(copy);
        }
        i += 1;
    }
    proof {
        assert(views(add@).take(add.len() as int) =~= views(add@));
    }
}

/// The first position that assigns a key is unique.
pub proof fn lemma_env_at_unique(env: Seq<EnvVarView>, key: Seq<char>, i: int)
    requires
        env_at(env, key, i),
    ensures
        has_key(env, key),
        (choose|k: int| env_at(env, key, k)) == i,
{
    let k = choose|k: int| env_at(env, key, k);
    assert(env_at(env, key, k));
    if k < i {
        assert(env[k].key != key);
    }
    if i < k {
        assert(env[i].key != key);
    }
}

/// Sets environment variables in `target`, overwriting assignments of the same key.
pub fn merge_env_list(target: &mut Vec<EnvVar>, add: &Vec<EnvVar>)
    ensures
        views(final(target)@) == merge_env(views(old(target)@), views(add@)),
{
    let ghost base = views(target@);
    let mut i: usize = 0;
    while i < add.len()
        invariant
            i <= add.len(),
            views(target@) == merge_env(base, views(add@).take(i as int)),
        decreases add.len() - i,
    {
        proof {
            assert(views(add@).take(i + 1).drop_last() =~= views(add@).take(i as int));
            assert(views(add@).take(i + 1).last() == add@[i as int]@);
        }
        let copy = add[i].duplicate();
        match find_env(target, &add[i].key) {
            Some(k) => {
                proof {
                    lemma_env_at_unique(views(target@), add@[i as int]@.key, k as int);
                    lemma_views_update(target@, k as int, copy);
                }
                target.set(k, copy);
            },
            None => {
                proof {
                    lemma_views_push(target@, copy);
                }
                target.push(copy);
            },
        }
        i += 1;
    }
    proof {
        assert(views(add@).take(add.len() as int) =~= views(add@));
    }
}

/// Appends hooks to `target` in order.
pub fn append_hooks(target: &mut Vec<Hook>, add: &Vec<Hook>)
    ensures
        views(final(target)@) == views(old(target)@) + views(add@),
{
    let ghost base = views(target@);
    let mut i: usize = 0;
    while i < add.len()
        invariant
            i <= add.len(),
            views(target@) == base + views(add@).take(i as int),
        decreases add.len() - i,
    {
        let copy = add[i].duplicate();
        proof {
            lemma_views_push(target@, copy);
            assert(base + views(add@).take(i + 1) =~= (base + views(add@).take(i as int)).push(
                add@[i as int]@,
            ));
        }
        target.push(copy);
        i += 1;
    }
    proof {
        assert(views(add@).take(add.len() as int) =~= views(add@));
    }
}

/// Merges a fragment into a runtime specification.
pub fn merge_fragment(spec: &mut RuntimeSpec, fragment: &InjectionFragment)
    ensures
        final(spec)@ == merge_content(old(spec)@, fragment@),
{
    merge_device_nodes(&mut spec.device_nodes, &fragment.device_nodes);
    merge_mount_list(&mut spec.mounts, &fragment.mounts);
    merge_env_list(&mut spec.env, &fragment.env);
    append_hooks(&mut spec.hooks, &fragment.hooks);
}

} // verus!
