//! Ordering and enabling plugins of a group before they are built.
use vstd::prelude::*;
use std::collections::HashMap;

verus! {

/// Why a pipe could not be spawned.
pub enum PipeSpawnError {
    /// No pipe of this name is registered.
    UnregisteredPipe(String),
    /// Building the pipe failed.
    PipeConstructionFailed { source: anyhow::Error, pipe_name: String, pipeline: String },
}

/// Why a topic could not be spawned.
pub enum TopicSpawnError {
    /// No topic of this name is registered.
    UnregisteredTopic(String),
    /// The pipeline's configuration has no configuration for this topic.
    MissingTopicConfig(String),
}

/// Registers the topic of pipeline states.
pub struct StatePlugin;

/// Identifies a plugin by its type.
pub type PluginId = u64;

/// A plugin of a group and whether it will be built.
pub struct PluginEntry<P> {
    pub plugin: P,
    pub enabled: bool,
}

/// Collects the plugins of a group in the order in which they must be built.
pub struct PluginGroupBuilder<P> {
    plugins: HashMap<PluginId, PluginEntry<P>>,
    order: Vec<PluginId>,
}

/// Position of the first occurrence of `x` in `s`.
pub open spec fn first_position(s: Seq<PluginId>, x: PluginId) -> int {
    choose|i: int| 0 <= i < s.len() && s[i] == x && forall|j: int| 0 <= j < i ==> s[j] != x
}

proof fn lemma_first_position(s: Seq<PluginId>, x: PluginId, i: int)
    requires
        0 <= i < s.len(),
        s[i] == x,
        forall|j: int| 0 <= j < i ==> s[j] != x,
    ensures
        first_position(s, x) == i,
{
    let p = first_position(s, x);
    assert(0 <= p < s.len() && s[p] == x && forall|j: int| 0 <= j < p ==> s[j] != x);
    if p < i {
        assert(s[p] != x);
    }
    if i < p {
        assert(s[i] != x);
    }
}

/// The ids of the plugins that finishing builds: each id of `order` the first
/// time it comes, when its plugin is registered and enabled.
pub open spec fn built_ids<P>(order: Seq<PluginId>, plugins: Map<PluginId, PluginEntry<P>>) -> Seq<PluginId>
    decreases order.len(),
{
    if order.len() == 0 {
        Seq::empty()
    } else {
        let id = order[0];
        if plugins.contains_key(id) {
            let rest = built_ids(order.drop_first(), plugins.remove(id));
            if plugins[id].enabled {
                seq![id] + rest
            } else {
                rest
            }
        } else {
            built_ids(order.drop_first(), plugins)
        }
    }
}

/// The plugins that finishing builds, in the order in which it builds them.
pub open spec fn built_plugins<P>(order: Seq<PluginId>, plugins: Map<PluginId, PluginEntry<P>>) -> Seq<P>
    decreases order.len(),
{
    if order.len() == 0 {
        Seq::empty()
    } else {
        let id = order[0];
        if plugins.contains_key(id) {
            let rest = built_plugins(order.drop_first(), plugins.remove(id));
            if plugins[id].enabled {
                seq![plugins[id].plugin] + rest
            } else {
                rest
            }
        } else {
            built_plugins(order.drop_first(), plugins)
        }
    }
}

/// The plugins built are those of the built ids.
pub proof fn lemma_built_plugins_of_ids<P>(order: Seq<PluginId>, plugins: Map<PluginId, PluginEntry<P>>)
    ensures
        built_plugins(order, plugins).len() == built_ids(order, plugins).len(),
        forall|k: int|
            0 <= k < built_ids(order, plugins).len() ==> {
                &&& plugins.contains_key(#[trigger] built_ids(order, plugins)[k])
                &&& built_plugins(order, plugins)[k] == plugins[built_ids(order, plugins)[k]].plugin
                &&& plugins[built_ids(order, plugins)[k]].enabled
            },
    decreases order.len(),
{
    if order.len() > 0 {
        let id = order[0];
        if plugins.contains_key(id) {
            lemma_built_plugins_of_ids(order.drop_first(), plugins.remove(id));
        } else {
            lemma_built_plugins_of_ids(order.drop_first(), plugins);
        }
    }
}

impl<P> PluginGroupBuilder<P> {
    /// The registered plugins by id.
    pub closed spec fn entries(&self) -> Map<PluginId, PluginEntry<P>> {
        self.plugins@
    }

    /// The ids in build order; an id added twice occurs twice.
    pub closed spec fn order(&self) -> Seq<PluginId> {
        self.order@
    }

    pub fn new() -> (b: Self)
        ensures
            b.entries() == Map::<PluginId, PluginEntry<P>>::empty(),
            b.order() == Seq::<PluginId>::empty(),
    {
        PluginGroupBuilder { plugins: HashMap::new(), order: Vec::new() }
    }

    /// Appends a plugin, enabled; a plugin with the same id is replaced.
    pub fn add(&mut self, id: PluginId, plugin: P)
        ensures
            final(self).order() == old(self).order().push(id),
            final(self).entries() == old(self).entries().insert(id, PluginEntry { plugin, enabled: true }),
    {
        self.order.push(id);
        self.plugins.insert(id, PluginEntry { plugin, enabled: true });
    }

    /// Position of the first occurrence of `target` in the build order.
    fn position_of(&self, target: PluginId) -> (pos: usize)
        requires
            self.order().contains(target),
        ensures
            pos < self.order().len(),
            self.order()[pos as int] == target,
            forall|j: int| 0 <= j < pos ==> self.order()[j] != target,
    {
        let mut i: usize = 0;
        while i < self.order.len() && self.order[i] != target
            invariant
                i <= self.order@.len(),
                self.order().contains(target),
                forall|j: int| 0 <= j < i ==> self.order@[j] != target,
            decreases self.order@.len() - i,
        {
            i = i + 1;
        }
        proof {
            if i == self.order@.len() {
                let k: int = choose|k: int| 0 <= k < self.order@.len() && self.order@[k] == target;
                assert(self.order@[k] != target);
            }
        }
        i
    }

    /// Puts a plugin, enabled, just before the first occurrence of `target`.
    pub fn add_before(&mut self, target: PluginId, id: PluginId, plugin: P)
        requires
            old(self).order().contains(target),
        ensures
            ({
                let pos = first_position(old(self).order(), target);
                final(self).order() == old(self).order().insert(pos, id)
            }),
            final(self).entries() == old(self).entries().insert(id, PluginEntry { plugin, enabled: true }),
    {
        let target_index: usize = self.position_of(target);
        proof {
            lemma_first_position(self.order@, target, target_index as int);
            assert(self.order.len() == self.order@.len());
        }
        self.order.insert(target_index, id);
        self.plugins.insert(id, PluginEntry { plugin, enabled: true });
    }

    /// Puts a plugin, enabled, just after the first occurrence of `target`.
    pub fn add_after(&mut self, target: PluginId, id: PluginId, plugin: P)
        requires
            old(self).order().contains(target),
        ensures
            ({
                let pos = first_position(old(self).order(), target);
                final(self).order() == old(self).order().insert(pos + 1, id)
            }),
            final(self).entries() == old(self).entries().insert(id, PluginEntry { plugin, enabled: true }),
    {
        let target_index: usize = self.position_of(target);
        proof {
            lemma_first_position(self.order@, target, target_index as int);
            assert(self.order.len() == self.order@.len());
        }
        self.order.insert(target_index + 1, id);
        self.plugins.insert(id, PluginEntry { plugin, enabled: true });
    }

    /// Marks a registered plugin to be built.
    pub fn enable(&mut self, id: PluginId)
        requires
            old(self).entries().contains_key(id),
        ensures
            final(self).order() == old(self).order(),
            final(self).entries() == old(self).entries().insert(
                id,
                PluginEntry { plugin: old(self).entries()[id].plugin, enabled: true },
            ),
    {
        self.set_enabled(id, true);
    }

    /// Marks a registered plugin not to be built.
    pub fn disable(&mut self, id: PluginId)
        requires
            old(self).entries().contains_key(id),
        ensures
            final(self).order() == old(self).order(),
            final(self).entries() == old(self).entries().insert(
                id,
                PluginEntry { plugin: old(self).entries()[id].plugin, enabled: false },
            ),
    {
        self.set_enabled(id, false);
    }

    fn set_enabled(&mut self, id: PluginId, enabled: bool)
        requires
            old(self).entries().contains_key(id),
        ensures
            final(self).order() == old(self).order(),
            final(self).entries() == old(self).entries().insert(
                id,
                PluginEntry { plugin: old(self).entries()[id].plugin, enabled },
            ),
    {
        let ghost before = self.plugins@;
        match self.plugins.remove(&id) {
            Some(entry) => {
                self.plugins.insert(id, PluginEntry { plugin: entry.plugin, enabled });
                proof {
                    assert(self.plugins@ =~= before.insert(id, PluginEntry { plugin: before[id].plugin, enabled }));
                }
            },
            None => {},
        }
    }

    /// The enabled plugins, each once, in build order, as they are to be built.
    pub fn finish(self) -> (plugins: Vec<P>)
        ensures
            plugins@ == built_plugins(self.order(), self.entries()),
    {
        let PluginGroupBuilder { plugins: mut entries, order } = self;
        let ghost order0 = order@;
        let ghost m0 = entries@;
        let mut built: Vec<P> = Vec::new();
        let mut i: usize = 0;
        proof {
            assert(order0.skip(0) =~= order0);
            assert(built@ + built_plugins(order0, m0) =~= built_plugins(order0, m0));
        }
        while i < order.len()
            invariant
                order@ == order0,
                i <= order0.len(),
                built@ + built_plugins(order0.skip(i as int), entries@) == built_plugins(order0, m0),
            decreases order0.len() - i,
        {
            let ghost rest = order0.skip(i as int);
            proof {
                assert(rest.drop_first() =~= order0.skip(i + 1));
            }
            let id: PluginId = order[i];
            let ghost m = entries@;
            proof {
                assert(rest[0] == id);
                if !m.contains_key(id) {
                    assert(m.remove(id) =~= m);
                }
            }
            match entries.remove(&id) {
                Some(entry) => {
                    if entry.enabled {
                        proof {
                            assert(built@.push(entry.plugin) + built_plugins(order0.skip(i + 1), entries@)
                                =~= built@ + (seq![entry.plugin] + built_plugins(order0.skip(i + 1), entries@)));
                        }
                        built.push(entry.plugin);
                    }
                },
                None => {},
            }
            i = i + 1;
        }
        proof {
            assert(order0.skip(i as int) =~= Seq::<PluginId>::empty());
            assert(built@ =~= built_plugins(order0, m0));
        }
        built
    }
}

/// Enabling a plugin that was enabled and then disabled gives the builder
/// back as it was: the same order and the same entries.
pub proof fn law_enable_undoes_disable<P>(
    a: PluginGroupBuilder<P>,
    b: PluginGroupBuilder<P>,
    c: PluginGroupBuilder<P>,
    id: PluginId,
)
    requires
        a.entries().contains_key(id),
        a.entries()[id].enabled,
        b.order() == a.order(),
        b.entries() == a.entries().insert(id, PluginEntry { plugin: a.entries()[id].plugin, enabled: false }),
        c.order() == b.order(),
        c.entries() == b.entries().insert(id, PluginEntry { plugin: b.entries()[id].plugin, enabled: true }),
    ensures
        c.order() == a.order(),
        c.entries() == a.entries(),
{
    assert(c.entries() =~= a.entries());
}

/// A disabled plugin is not built.
pub proof fn law_disabled_plugin_not_built<P>(
    order: Seq<PluginId>,
    plugins: Map<PluginId, PluginEntry<P>>,
    id: PluginId,
)
    requires
        plugins.contains_key(id),
        !plugins[id].enabled,
    ensures
        !built_ids(order, plugins).contains(id),
    decreases order.len(),
{
    if order.len() > 0 {
        let first = order[0];
        if plugins.contains_key(first) {
            if first == id {
                lemma_built_ids_in_map(order.drop_first(), plugins.remove(id));
                if built_ids(order, plugins).contains(id) {
                    let k: int = choose|k: int|
                        0 <= k < built_ids(order, plugins).len() && built_ids(order, plugins)[k] == id;
                    assert(built_ids(order.drop_first(), plugins.remove(id))[k] == id);
                }
            } else {
                law_disabled_plugin_not_built(order.drop_first(), plugins.remove(first), id);
                if built_ids(order, plugins).contains(id) {
                    let k: int = choose|k: int|
                        0 <= k < built_ids(order, plugins).len() && built_ids(order, plugins)[k] == id;
                    if plugins[first].enabled {
                        assert(k > 0);
                        assert(built_ids(order.drop_first(), plugins.remove(first))[k - 1] == id);
                    } else {
                        assert(built_ids(order.drop_first(), plugins.remove(first))[k] == id);
                    }
                }
            }
        } else {
            law_disabled_plugin_not_built(order.drop_first(), plugins, id);
        }
    }
}

/// Every built id is registered and enabled.
pub proof fn lemma_built_ids_in_map<P>(order: Seq<PluginId>, plugins: Map<PluginId, PluginEntry<P>>)
    ensures
        forall|k: int|
            0 <= k < built_ids(order, plugins).len() ==> plugins.contains_key(
                #[trigger] built_ids(order, plugins)[k],
            ) && plugins[built_ids(order, plugins)[k]].enabled,
{
    lemma_built_plugins_of_ids(order, plugins);
}

/// Every plugin whose id is in the order, and that is registered and enabled,
/// is built: its id is among the built ids and its plugin among the built
/// plugins, however often its id or others were added.
pub proof fn law_every_enabled_plugin_built<P>(order: Seq<PluginId>, plugins: Map<PluginId, PluginEntry<P>>)
    ensures
        forall|k: int|
            0 <= k < order.len() && plugins.contains_key(order[k]) && plugins[order[k]].enabled
                ==> built_ids(order, plugins).contains(#[trigger] order[k]),
        forall|k: int|
            0 <= k < order.len() && plugins.contains_key(order[k]) && plugins[order[k]].enabled
                ==> built_plugins(order, plugins).contains(plugins[#[trigger] order[k]].plugin),
    decreases order.len(),
{
    if order.len() > 0 {
        let id = order[0];
        let m2 = if plugins.contains_key(id) {
            plugins.remove(id)
        } else {
            plugins
        };
        let t = order.drop_first();
        law_every_enabled_plugin_built(t, m2);
        let all = built_ids(order, plugins);
        let rest = built_ids(t, m2);
        assert forall|k: int|
            0 <= k < order.len() && plugins.contains_key(order[k]) && plugins[order[k]].enabled implies all.contains(
            #[trigger] order[k],
        ) by {
            if order[k] == id {
                assert(all[0] == id);
            } else {
                assert(t[k - 1] == order[k]);
                assert(m2.contains_key(order[k]));
                assert(m2[order[k]] == plugins[order[k]]);
                assert(rest.contains(t[k - 1]));
                let j: int = choose|j: int| 0 <= j < rest.len() && rest[j] == order[k];
                if plugins.contains_key(id) && plugins[id].enabled {
                    assert(all[j + 1] == rest[j]);
                } else {
                    assert(all[j] == rest[j]);
                }
            }
        }
        lemma_built_plugins_of_ids(order, plugins);
        assert forall|k: int|
            0 <= k < order.len() && plugins.contains_key(order[k]) && plugins[order[k]].enabled implies built_plugins(
            order,
            plugins,
        ).contains(plugins[#[trigger] order[k]].plugin) by {
            assert(all.contains(order[k]));
            let j: int = choose|j: int| 0 <= j < all.len() && all[j] == order[k];
            assert(built_plugins(order, plugins)[j] == plugins[all[j]].plugin);
        }
    }
}

/// Each plugin is built at most once, however often its id was added.
pub proof fn law_each_plugin_built_once<P>(order: Seq<PluginId>, plugins: Map<PluginId, PluginEntry<P>>)
    ensures
        forall|a: int, b: int|
            0 <= a < b < built_ids(order, plugins).len() ==> built_ids(order, plugins)[a] != built_ids(
                order,
                plugins,
            )[b],
    decreases order.len(),
{
    if order.len() > 0 {
        let id = order[0];
        let all = built_ids(order, plugins);
        if plugins.contains_key(id) {
            let m2 = plugins.remove(id);
            law_each_plugin_built_once(order.drop_first(), m2);
            lemma_built_ids_in_map(order.drop_first(), m2);
            let rest = built_ids(order.drop_first(), m2);
            if plugins[id].enabled {
                assert(all == seq![id] + rest);
                assert forall|a: int, b: int| 0 <= a < b < all.len() implies all[a] != all[b] by {
                    assert(all[b] == rest[b - 1]);
                    assert(m2.contains_key(rest[b - 1]));
                    if a > 0 {
                        assert(all[a] == rest[a - 1]);
                    }
                }
            } else {
                assert(all == rest);
            }
        } else {
            law_each_plugin_built_once(order.drop_first(), plugins);
            assert(all == built_ids(order.drop_first(), plugins));
        }
    }
}

} // verus!
