//! Two views of one world (what the host holds, what the remote side has
//! acknowledged) and the actions that would bring the remote view in line.

use std::collections::{HashMap, HashSet};
use std::hash::Hash;

use vstd::prelude::*;
use vstd::std_specs::hash::obeys_key_model;

use crate::keys::ComponentKind;

verus! {

broadcast use vstd::std_specs::hash::group_hash_axioms;

/// What to do about one component to bring the remote view in line.
#[derive(Clone, Copy, PartialEq, Eq, Debug, Structural)]
pub enum ComponentDiffAction {
    Insert,
    Remove,
}

/// How one entity differs between the two views.
#[derive(Clone, Copy, PartialEq, Eq, Debug, Structural)]
pub enum EntityDiffResult {
    /// Only the host has it.
    Spawn,
    /// Only the remote side has it.
    Despawn,
    /// Both have it.
    EqualAndExists,
    /// Neither has it.
    EqualAndEmpty,
}

/// How one component of one entity differs between the two views.
#[derive(Clone, Copy, PartialEq, Eq, Debug, Structural)]
pub enum ComponentDiffResult {
    /// Only the host has it.
    Insert,
    /// Only the remote side has it.
    Remove,
    /// Both or neither have it.
    Equal,
    /// The entity is not in both views.
    Invalid,
}

/// Whether an update changed anything.
#[derive(Clone, Copy, PartialEq, Eq, Debug, Structural)]
pub enum UpdateResult {
    Changed,
    Unchanged,
}

/// The entity-level difference of `e` between worlds `a` and `b`.
pub open spec fn spec_entity_diff<E>(a: Map<E, Set<u16>>, b: Map<E, Set<u16>>, e: E) -> EntityDiffResult {
    if a.contains_key(e) {
        if b.contains_key(e) { EntityDiffResult::EqualAndExists } else { EntityDiffResult::Spawn }
    } else {
        if b.contains_key(e) { EntityDiffResult::Despawn } else { EntityDiffResult::EqualAndEmpty }
    }
}

/// The component-level difference of `(e, c)` between worlds `a` and `b`.
pub open spec fn spec_component_diff<E>(a: Map<E, Set<u16>>, b: Map<E, Set<u16>>, e: E, c: u16) -> ComponentDiffResult {
    if !(a.contains_key(e) && b.contains_key(e)) {
        ComponentDiffResult::Invalid
    } else if a[e].contains(c) == b[e].contains(c) {
        ComponentDiffResult::Equal
    } else if a[e].contains(c) {
        ComponentDiffResult::Insert
    } else {
        ComponentDiffResult::Remove
    }
}

/// A world reduced to which entities exist and which component kinds each has.
pub struct MiniWorld<E: Copy + Eq + Hash> {
    world: HashMap<E, HashSet<u16>>,
}

impl<E: Copy + Eq + Hash> MiniWorld<E> {
    /// Each entity with the numbers of its component kinds.
    pub closed spec fn entities(&self) -> Map<E, Set<u16>> {
        self.world@.map_values(|s: HashSet<u16>| s@)
    }

    /// An empty world. The entity type must hash and compare deterministically.
    pub fn new() -> (r: Self)
        requires
            obeys_key_model::<E>(),
        ensures
            r.entities() == Map::<E, Set<u16>>::empty(),
    {
        let r = MiniWorld { world: HashMap::new() };
        proof {
            assert(r.entities() =~= Map::<E, Set<u16>>::empty());
        }
        r
    }

    /// Adds `entity` without components; `Unchanged` if it exists.
    pub fn spawn_entity(&mut self, entity: &E) -> (r: UpdateResult)
        requires
            obeys_key_model::<E>(),
        ensures
            old(self).entities().contains_key(*entity) ==> r == UpdateResult::Unchanged && final(self).entities() == old(self).entities(),
            !old(self).entities().contains_key(*entity) ==> r == UpdateResult::Changed && final(self).entities()
                == old(self).entities().insert(*entity, Set::empty()),
    {
        if self.world.contains_key(entity) {
            return UpdateResult::Unchanged;
        }
        self.world.insert(*entity, HashSet::new());
        proof {
            assert(self.entities() =~= old(self).entities().insert(*entity, Set::empty()));
        }
        UpdateResult::Changed
    }

    /// Removes `entity`; `Unchanged` if it does not exist.
    pub fn despawn_entity(&mut self, entity: &E) -> (r: UpdateResult)
        requires
            obeys_key_model::<E>(),
        ensures
            !old(self).entities().contains_key(*entity) ==> r == UpdateResult::Unchanged && final(self).entities() == old(self).entities(),
            old(self).entities().contains_key(*entity) ==> r == UpdateResult::Changed && final(self).entities()
                == old(self).entities().remove(*entity),
    {
        if !self.world.contains_key(entity) {
            return UpdateResult::Unchanged;
        }
        self.world.remove(entity);
        proof {
            assert(self.entities() =~= old(self).entities().remove(*entity));
        }
        UpdateResult::Changed
    }

    /// Adds component kind `component` to the existing `entity`;
    /// `Unchanged` if it has it.
    pub fn insert_component(&mut self, entity: &E, component: &ComponentKind) -> (r: UpdateResult)
        requires
            obeys_key_model::<E>(),
            old(self).entities().contains_key(*entity),
        ensures
            old(self).entities()[*entity].contains(component.0) ==> r == UpdateResult::Unchanged && final(self).entities()
                == old(self).entities(),
            !old(self).entities()[*entity].contains(component.0) ==> r == UpdateResult::Changed && final(self).entities()
                == old(self).entities().insert(*entity, old(self).entities()[*entity].insert(component.0)),
    {
        let mut components = self.world.remove(entity).unwrap();
        if components.contains(&component.0) {
            self.world.insert(*entity, components);
            proof {
                assert(self.entities() =~= old(self).entities());
            }
            return UpdateResult::Unchanged;
        }
        components.insert(component.0);
        self.world.insert(*entity, components);
        proof {
            assert(self.entities() =~= old(self).entities().insert(*entity, old(self).entities()[*entity].insert(component.0)));
        }
        UpdateResult::Changed
    }

    /// Removes component kind `component` from the existing `entity`;
    /// `Unchanged` if it does not have it.
    pub fn remove_component(&mut self, entity: &E, component: &ComponentKind) -> (r: UpdateResult)
        requires
            obeys_key_model::<E>(),
            old(self).entities().contains_key(*entity),
        ensures
            !old(self).entities()[*entity].contains(component.0) ==> r == UpdateResult::Unchanged && final(self).entities()
                == old(self).entities(),
            old(self).entities()[*entity].contains(component.0) ==> r == UpdateResult::Changed && final(self).entities()
                == old(self).entities().insert(*entity, old(self).entities()[*entity].remove(component.0)),
    {
        let mut components = self.world.remove(entity).unwrap();
        if !components.contains(&component.0) {
            self.world.insert(*entity, components);
            proof {
                assert(self.entities() =~= old(self).entities());
            }
            return UpdateResult::Unchanged;
        }
        components.remove(&component.0);
        self.world.insert(*entity, components);
        proof {
            assert(self.entities() =~= old(self).entities().insert(*entity, old(self).entities()[*entity].remove(component.0)));
        }
        UpdateResult::Changed
    }

    /// Whether `entity` exists.
    pub fn has_entity(&self, entity: &E) -> (r: bool)
        requires
            obeys_key_model::<E>(),
        ensures
            r == self.entities().contains_key(*entity),
    {
        self.world.contains_key(entity)
    }

    /// Whether `entity` exists and has component kind `component`.
    pub fn has_component(&self, entity: &E, component: &ComponentKind) -> (r: bool)
        requires
            obeys_key_model::<E>(),
        ensures
            r == (self.entities().contains_key(*entity) && self.entities()[*entity].contains(component.0)),
    {
        match self.world.get(entity) {
            None => false,
            Some(components) => components.contains(&component.0),
        }
    }

    /// How `entity` differs between this world and `other`.
    pub fn entity_diff(&self, other: &Self, entity: &E) -> (r: EntityDiffResult)
        requires
            obeys_key_model::<E>(),
        ensures
            r == spec_entity_diff(self.entities(), other.entities(), *entity),
    {
        let self_has_entity = self.has_entity(entity);
        let other_has_entity = other.has_entity(entity);
        if self_has_entity {
            if other_has_entity { EntityDiffResult::EqualAndExists } else { EntityDiffResult::Spawn }
        } else {
            if other_has_entity { EntityDiffResult::Despawn } else { EntityDiffResult::EqualAndEmpty }
        }
    }

    /// How component kind `component` of `entity` differs between this
    /// world and `other`.
    pub fn component_diff(&self, other: &Self, entity: &E, component: &ComponentKind) -> (r: ComponentDiffResult)
        requires
            obeys_key_model::<E>(),
        ensures
            r == spec_component_diff(self.entities(), other.entities(), *entity, component.0),
    {
        match self.entity_diff(other, entity) {
            EntityDiffResult::Spawn | EntityDiffResult::Despawn | EntityDiffResult::EqualAndEmpty => ComponentDiffResult::Invalid,
            EntityDiffResult::EqualAndExists => {
                let self_has_component = self.has_component(entity, component);
                let other_has_component = other.has_component(entity, component);
                if self_has_component == other_has_component {
                    ComponentDiffResult::Equal
                } else if self_has_component {
                    ComponentDiffResult::Insert
                } else {
                    ComponentDiffResult::Remove
                }
            },
        }
    }
}

/// What would bring one entity of the remote view in line with the host.
pub enum EntityDiffAction {
    Spawn,
    Despawn,
    SyncComponents(HashMap<u16, ComponentDiffAction>),
}

/// The mathematical value of an [`EntityDiffAction`].
pub enum DiffActionView {
    Spawn,
    Despawn,
    SyncComponents(Map<u16, ComponentDiffAction>),
}

impl View for EntityDiffAction {
    type V = DiffActionView;

    open spec fn view(&self) -> DiffActionView {
        match self {
            EntityDiffAction::Spawn => DiffActionView::Spawn,
            EntityDiffAction::Despawn => DiffActionView::Despawn,
            EntityDiffAction::SyncComponents(m) => DiffActionView::SyncComponents(m@),
        }
    }
}

/// The actions after `e` was spawned or despawned in one of the views.
pub open spec fn entity_update<E>(actions: Map<E, DiffActionView>, d: EntityDiffResult, e: E) -> Map<E, DiffActionView> {
    match d {
        EntityDiffResult::Spawn => actions.insert(e, DiffActionView::Spawn),
        EntityDiffResult::Despawn => actions.insert(e, DiffActionView::Despawn),
        EntityDiffResult::EqualAndEmpty => actions.remove(e),
        EntityDiffResult::EqualAndExists => if actions.contains_key(e) && (actions[e] is Spawn || actions[e] is Despawn) {
            actions.remove(e)
        } else {
            actions
        },
    }
}

/// The actions after component kind `c` of `e` changed in one of the views.
pub open spec fn component_update<E>(actions: Map<E, DiffActionView>, d: ComponentDiffResult, e: E, c: u16) -> Map<E, DiffActionView> {
    if actions.contains_key(e) && (actions[e] is Spawn || actions[e] is Despawn) {
        actions
    } else if actions.contains_key(e) {
        let m = actions[e]->SyncComponents_0;
        match d {
            ComponentDiffResult::Equal => if m.remove(c).dom().len() == 0 {
                actions.remove(e)
            } else {
                actions.insert(e, DiffActionView::SyncComponents(m.remove(c)))
            },
            ComponentDiffResult::Insert => actions.insert(e, DiffActionView::SyncComponents(m.insert(c, ComponentDiffAction::Insert))),
            ComponentDiffResult::Remove => actions.insert(e, DiffActionView::SyncComponents(m.insert(c, ComponentDiffAction::Remove))),
            ComponentDiffResult::Invalid => actions,
        }
    } else {
        match d {
            ComponentDiffResult::Insert => actions.insert(
                e,
                DiffActionView::SyncComponents(Map::empty().insert(c, ComponentDiffAction::Insert)),
            ),
            ComponentDiffResult::Remove => actions.insert(
                e,
                DiffActionView::SyncComponents(Map::empty().insert(c, ComponentDiffAction::Remove)),
            ),
            _ => actions,
        }
    }
}

/// The pending actions agree with the two views: an entity only the host has
/// is to be spawned, one only the remote side has is to be despawned, and a
/// component action exists only for an entity both have, never empty, and
/// names only components on which the views differ in its direction.
pub open spec fn actions_agree<E>(host: Map<E, Set<u16>>, remote: Map<E, Set<u16>>, actions: Map<E, DiffActionView>) -> bool {
    &&& forall|e: E| #[trigger] actions.contains_key(e) ==> (actions[e] is Spawn <==> (host.contains_key(e) && !remote.contains_key(e)))
    &&& forall|e: E| #[trigger] actions.contains_key(e) ==> (actions[e] is Despawn <==> (!host.contains_key(e) && remote.contains_key(e)))
    &&& forall|e: E| #[trigger] host.contains_key(e) != remote.contains_key(e) ==> actions.contains_key(e)
    &&& forall|e: E| #[trigger] actions.contains_key(e) && actions[e] is SyncComponents ==> {
        let m = actions[e]->SyncComponents_0;
        &&& host.contains_key(e) && remote.contains_key(e)
        &&& m.dom().finite() && m.dom().len() > 0
        &&& forall|c: u16| #[trigger] m.contains_key(c) ==> (m[c] == ComponentDiffAction::Insert ==> host[e].contains(c) && !remote[e].contains(c))
            && (m[c] == ComponentDiffAction::Remove ==> !host[e].contains(c) && remote[e].contains(c))
    }
}

/// A host view, a remote view, and the actions that reconcile them.
pub struct SyncWorld<E: Copy + Eq + Hash> {
    host_world: MiniWorld<E>,
    remote_world: MiniWorld<E>,
    diff_actions: HashMap<E, EntityDiffAction>,
}

impl<E: Copy + Eq + Hash> SyncWorld<E> {
    pub closed spec fn host(&self) -> Map<E, Set<u16>> {
        self.host_world.entities()
    }

    pub closed spec fn remote(&self) -> Map<E, Set<u16>> {
        self.remote_world.entities()
    }

    pub closed spec fn actions(&self) -> Map<E, DiffActionView> {
        self.diff_actions@.map_values(|a: EntityDiffAction| a@)
    }

    /// The actions agree with the views.
    pub open spec fn wf(&self) -> bool {
        &&& obeys_key_model::<E>()
        &&& actions_agree(self.host(), self.remote(), self.actions())
    }

    /// Both views empty, nothing to do.
    pub fn new() -> (r: Self)
        requires
            obeys_key_model::<E>(),
        ensures
            r.wf(),
            r.host() == Map::<E, Set<u16>>::empty(),
            r.remote() == Map::<E, Set<u16>>::empty(),
            r.actions() == Map::<E, DiffActionView>::empty(),
    {
        let r = SyncWorld { host_world: MiniWorld::new(), remote_world: MiniWorld::new(), diff_actions: HashMap::new() };
        proof {
            assert(r.actions() =~= Map::<E, DiffActionView>::empty());
        }
        r
    }

    /// The action pending for `entity`, if any, by kind: `Spawn`,
    /// `Despawn`, or `EqualAndExists` for a component action.
    pub fn pending_action(&self, entity: &E) -> (r: Option<EntityDiffResult>)
        requires
            self.wf(),
        ensures
            !self.actions().contains_key(*entity) ==> r is None,
            self.actions().contains_key(*entity) ==> r == Some(match self.actions()[*entity] {
                DiffActionView::Spawn => EntityDiffResult::Spawn,
                DiffActionView::Despawn => EntityDiffResult::Despawn,
                DiffActionView::SyncComponents(_) => EntityDiffResult::EqualAndExists,
            }),
    {
        match self.diff_actions.get(entity) {
            None => None,
            Some(EntityDiffAction::Spawn) => Some(EntityDiffResult::Spawn),
            Some(EntityDiffAction::Despawn) => Some(EntityDiffResult::Despawn),
            Some(EntityDiffAction::SyncComponents(_)) => Some(EntityDiffResult::EqualAndExists),
        }
    }

    /// The component action pending for kind `component` of `entity`, if any.
    pub fn pending_component_action(&self, entity: &E, component: &ComponentKind) -> (r: Option<ComponentDiffAction>)
        requires
            self.wf(),
        ensures
            (self.actions().contains_key(*entity) && self.actions()[*entity] is SyncComponents
                && self.actions()[*entity]->SyncComponents_0.contains_key(component.0)) ==> r == Some(
                self.actions()[*entity]->SyncComponents_0[component.0],
            ),
            !(self.actions().contains_key(*entity) && self.actions()[*entity] is SyncComponents
                && self.actions()[*entity]->SyncComponents_0.contains_key(component.0)) ==> r is None,
    {
        match self.diff_actions.get(entity) {
            Some(EntityDiffAction::SyncComponents(m)) => match m.get(&component.0) {
                Some(a) => Some(*a),
                None => None,
            },
            _ => None,
        }
    }

    fn update_diff_entity(&mut self, entity: &E)
        requires
            obeys_key_model::<E>(),
        ensures
            final(self).host() == old(self).host(),
            final(self).remote() == old(self).remote(),
            final(self).actions() == entity_update(
                old(self).actions(),
                spec_entity_diff(old(self).host(), old(self).remote(), *entity),
                *entity,
            ),
    {
        match self.host_world.entity_diff(&self.remote_world, entity) {
            EntityDiffResult::Spawn => {
                self.diff_actions.insert(*entity, EntityDiffAction::Spawn);
            },
            EntityDiffResult::Despawn => {
                self.diff_actions.insert(*entity, EntityDiffAction::Despawn);
            },
            EntityDiffResult::EqualAndEmpty => {
                self.diff_actions.remove(entity);
            },
            EntityDiffResult::EqualAndExists => {
                let clear = match self.diff_actions.get(entity) {
                    Some(EntityDiffAction::Spawn) | Some(EntityDiffAction::Despawn) => true,
                    _ => false,
                };
                if clear {
                    self.diff_actions.remove(entity);
                }
            },
        }
        proof {
            assert(self.actions() =~= entity_update(
                old(self).actions(),
                spec_entity_diff(old(self).host(), old(self).remote(), *entity),
                *entity,
            ));
        }
    }

    fn update_diff_component(&mut self, entity: &E, component: &ComponentKind)
        requires
            obeys_key_model::<E>(),
            !(old(self).actions().contains_key(*entity) && (old(self).actions()[*entity] is Spawn
                || old(self).actions()[*entity] is Despawn)) ==> spec_component_diff(
                old(self).host(),
                old(self).remote(),
                *entity,
                component.0,
            ) != ComponentDiffResult::Invalid,
        ensures
            final(self).host() == old(self).host(),
            final(self).remote() == old(self).remote(),
            final(self).actions() == component_update(
                old(self).actions(),
                spec_component_diff(old(self).host(), old(self).remote(), *entity, component.0),
                *entity,
                component.0,
            ),
    {
        match self.diff_actions.remove(entity) {
            Some(EntityDiffAction::SyncComponents(mut components)) => {
                let diff = self.host_world.component_diff(&self.remote_world, entity, component);
                match diff {
                    ComponentDiffResult::Equal => {
                        components.remove(&component.0);
                        if components.len() > 0 {
                            self.diff_actions.insert(*entity, EntityDiffAction::SyncComponents(components));
                        }
                    },
                    ComponentDiffResult::Insert => {
                        components.insert(component.0, ComponentDiffAction::Insert);
                        self.diff_actions.insert(*entity, EntityDiffAction::SyncComponents(components));
                    },
                    ComponentDiffResult::Remove => {
                        components.insert(component.0, ComponentDiffAction::Remove);
                        self.diff_actions.insert(*entity, EntityDiffAction::SyncComponents(components));
                    },
                    ComponentDiffResult::Invalid => {
                        self.diff_actions.insert(*entity, EntityDiffAction::SyncComponents(components));
                    },
                }
            },
            Some(action) => {
                self.diff_actions.insert(*entity, action);
            },
            None => {
                let diff = self.host_world.component_diff(&self.remote_world, entity, component);
                match diff {
                    ComponentDiffResult::Insert => {
                        let mut components = HashMap::new();
                        components.insert(component.0, ComponentDiffAction::Insert);
                        self.diff_actions.insert(*entity, EntityDiffAction::SyncComponents(components));
                    },
                    ComponentDiffResult::Remove => {
                        let mut components = HashMap::new();
                        components.insert(component.0, ComponentDiffAction::Remove);
                        self.diff_actions.insert(*entity, EntityDiffAction::SyncComponents(components));
                    },
                    _ => {},
                }
            },
        }
        proof {
            assert(self.actions() =~= component_update(
                old(self).actions(),
                spec_component_diff(old(self).host(), old(self).remote(), *entity, component.0),
                *entity,
                component.0,
            ));
        }
    }

    // Host updates

    /// The host spawns `entity`; nothing changes if it has it.
    pub fn host_spawn_entity(&mut self, entity: &E)
        requires
            old(self).wf(),
        ensures
            final(self).wf(),
            final(self).remote() == old(self).remote(),
            old(self).host().contains_key(*entity) ==> final(self).host() == old(self).host() && final(self).actions() == old(self).actions(),
            !old(self).host().contains_key(*entity) ==> {
                &&& final(self).host() == old(self).host().insert(*entity, Set::empty())
                &&& final(self).actions() == entity_update(old(self).actions(), spec_entity_diff(final(self).host(), final(self).remote(), *entity), *entity)
            },
    {
        if self.host_world.spawn_entity(entity) == UpdateResult::Unchanged {
            return;
        }
        self.update_diff_entity(entity);
        proof {
            lemma_entity_step(old(self).host(), old(self).remote(), old(self).actions(), self.host(), self.remote(), *entity);
        }
    }

    /// The host despawns `entity`; nothing changes if it lacks it.
    pub fn host_despawn_entity(&mut self, entity: &E)
        requires
            old(self).wf(),
        ensures
            final(self).wf(),
            final(self).remote() == old(self).remote(),
            !old(self).host().contains_key(*entity) ==> final(self).host() == old(self).host() && final(self).actions() == old(self).actions(),
            old(self).host().contains_key(*entity) ==> {
                &&& final(self).host() == old(self).host().remove(*entity)
                &&& final(self).actions() == entity_update(old(self).actions(), spec_entity_diff(final(self).host(), final(self).remote(), *entity), *entity)
            },
    {
        if self.host_world.despawn_entity(entity) == UpdateResult::Unchanged {
            return;
        }
        self.update_diff_entity(entity);
        proof {
            lemma_entity_step(old(self).host(), old(self).remote(), old(self).actions(), self.host(), self.remote(), *entity);
        }
    }

    /// The host adds `component` to its `entity`, which it must have.
    pub fn host_insert_component(&mut self, entity: &E, component: &ComponentKind)
        requires
            old(self).wf(),
            old(self).host().contains_key(*entity),
        ensures
            final(self).wf(),
            final(self).remote() == old(self).remote(),
            final(self).host() == old(self).host().insert(*entity, old(self).host()[*entity].insert(component.0)),
            old(self).host()[*entity].contains(component.0) ==> final(self).actions() == old(self).actions(),
            !old(self).host()[*entity].contains(component.0) ==> final(self).actions() == component_update(
                old(self).actions(),
                spec_component_diff(final(self).host(), final(self).remote(), *entity, component.0),
                *entity,
                component.0,
            ),
    {
        if self.host_world.insert_component(entity, component) == UpdateResult::Unchanged {
            proof {
                assert(old(self).host()[*entity].insert(component.0) =~= old(self).host()[*entity]);
                assert(old(self).host().insert(*entity, old(self).host()[*entity]) =~= old(self).host());
            }
            return;
        }
        self.update_diff_component(entity, component);
        proof {
            lemma_component_step(old(self).host(), old(self).remote(), old(self).actions(), self.host(), self.remote(), *entity, component.0);
        }
    }

    /// The host removes `component` from its `entity`, which it must have.
    pub fn host_remove_component(&mut self, entity: &E, component: &ComponentKind)
        requires
            old(self).wf(),
            old(self).host().contains_key(*entity),
        ensures
            final(self).wf(),
            final(self).remote() == old(self).remote(),
            final(self).host() == old(self).host().insert(*entity, old(self).host()[*entity].remove(component.0)),
            !old(self).host()[*entity].contains(component.0) ==> final(self).actions() == old(self).actions(),
            old(self).host()[*entity].contains(component.0) ==> final(self).actions() == component_update(
                old(self).actions(),
                spec_component_diff(final(self).host(), final(self).remote(), *entity, component.0),
                *entity,
                component.0,
            ),
    {
        if self.host_world.remove_component(entity, component) == UpdateResult::Unchanged {
            proof {
                assert(old(self).host()[*entity].remove(component.0) =~= old(self).host()[*entity]);
                assert(old(self).host().insert(*entity, old(self).host()[*entity]) =~= old(self).host());
            }
            return;
        }
        self.update_diff_component(entity, component);
        proof {
            lemma_component_step(old(self).host(), old(self).remote(), old(self).actions(), self.host(), self.remote(), *entity, component.0);
        }
    }

    // Remote updates

    /// The remote side acknowledges a spawn of `entity`; nothing changes if
    /// it already has it.
    pub fn remote_spawn_entity(&mut self, entity: &E)
        requires
            old(self).wf(),
        ensures
            final(self).wf(),
            final(self).host() == old(self).host(),
            old(self).remote().contains_key(*entity) ==> final(self).remote() == old(self).remote() && final(self).actions() == old(self).actions(),
            !old(self).remote().contains_key(*entity) ==> {
                &&& final(self).remote() == old(self).remote().insert(*entity, Set::empty())
                &&& final(self).actions() == entity_update(old(self).actions(), spec_entity_diff(final(self).host(), final(self).remote(), *entity), *entity)
            },
    {
        if self.remote_world.spawn_entity(entity) == UpdateResult::Unchanged {
            return;
        }
        self.update_diff_entity(entity);
        proof {
            lemma_entity_step(old(self).host(), old(self).remote(), old(self).actions(), self.host(), self.remote(), *entity);
        }
    }

    /// The remote side acknowledges a despawn of `entity`; nothing changes if
    /// it lacks it.
    pub fn remote_despawn_entity(&mut self, entity: &E)
        requires
            old(self).wf(),
        ensures
            final(self).wf(),
            final(self).host() == old(self).host(),
            !old(self).remote().contains_key(*entity) ==> final(self).remote() == old(self).remote() && final(self).actions() == old(self).actions(),
            old(self).remote().contains_key(*entity) ==> {
                &&& final(self).remote() == old(self).remote().remove(*entity)
                &&& final(self).actions() == entity_update(old(self).actions(), spec_entity_diff(final(self).host(), final(self).remote(), *entity), *entity)
            },
    {
        if self.remote_world.despawn_entity(entity) == UpdateResult::Unchanged {
            return;
        }
        self.update_diff_entity(entity);
        proof {
            lemma_entity_step(old(self).host(), old(self).remote(), old(self).actions(), self.host(), self.remote(), *entity);
        }
    }

    /// The remote side acknowledges `component` on its `entity`, which it must have.
    pub fn remote_insert_component(&mut self, entity: &E, component: &ComponentKind)
        requires
            old(self).wf(),
            old(self).remote().contains_key(*entity),
        ensures
            final(self).wf(),
            final(self).host() == old(self).host(),
            final(self).remote() == old(self).remote().insert(*entity, old(self).remote()[*entity].insert(component.0)),
            old(self).remote()[*entity].contains(component.0) ==> final(self).actions() == old(self).actions(),
            !old(self).remote()[*entity].contains(component.0) ==> final(self).actions() == component_update(
                old(self).actions(),
                spec_component_diff(final(self).host(), final(self).remote(), *entity, component.0),
                *entity,
                component.0,
            ),
    {
        if self.remote_world.insert_component(entity, component) == UpdateResult::Unchanged {
            proof {
                assert(old(self).remote()[*entity].insert(component.0) =~= old(self).remote()[*entity]);
                assert(old(self).remote().insert(*entity, old(self).remote()[*entity]) =~= old(self).remote());
            }
            return;
        }
        self.update_diff_component(entity, component);
        proof {
            lemma_component_step(old(self).host(), old(self).remote(), old(self).actions(), self.host(), self.remote(), *entity, component.0);
        }
    }

    /// The remote side acknowledges removing `component` from its `entity`,
    /// which it must have.
    pub fn remote_remove_component(&mut self, entity: &E, component: &ComponentKind)
        requires
            old(self).wf(),
            old(self).remote().contains_key(*entity),
        ensures
            final(self).wf(),
            final(self).host() == old(self).host(),
            final(self).remote() == old(self).remote().insert(*entity, old(self).remote()[*entity].remove(component.0)),
            !old(self).remote()[*entity].contains(component.0) ==> final(self).actions() == old(self).actions(),
            old(self).remote()[*entity].contains(component.0) ==> final(self).actions() == component_update(
                old(self).actions(),
                spec_component_diff(final(self).host(), final(self).remote(), *entity, component.0),
                *entity,
                component.0,
            ),
    {
        if self.remote_world.remove_component(entity, component) == UpdateResult::Unchanged {
            proof {
                assert(old(self).remote()[*entity].remove(component.0) =~= old(self).remote()[*entity]);
                assert(old(self).remote().insert(*entity, old(self).remote()[*entity]) =~= old(self).remote());
            }
            return;
        }
        self.update_diff_component(entity, component);
        proof {
            lemma_component_step(old(self).host(), old(self).remote(), old(self).actions(), self.host(), self.remote(), *entity, component.0);
        }
    }
}

/// Spawning or despawning one entity in one view keeps the actions in
/// agreement with the views.
proof fn lemma_entity_step<E>(
    host: Map<E, Set<u16>>,
    remote: Map<E, Set<u16>>,
    actions: Map<E, DiffActionView>,
    host2: Map<E, Set<u16>>,
    remote2: Map<E, Set<u16>>,
    e: E,
)
    requires
        actions_agree(host, remote, actions),
        forall|x: E| x != e ==> (#[trigger] host2.contains_key(x) == host.contains_key(x) && remote2.contains_key(x) == remote.contains_key(x)),
        forall|x: E| x != e && #[trigger] host2.contains_key(x) ==> host2[x] == host[x],
        forall|x: E| x != e && #[trigger] remote2.contains_key(x) ==> remote2[x] == remote[x],
        (host2.contains_key(e) != host.contains_key(e)) != (remote2.contains_key(e) != remote.contains_key(e)),
    ensures
        actions_agree(host2, remote2, entity_update(actions, spec_entity_diff(host2, remote2, e), e)),
{
    let a2 = entity_update(actions, spec_entity_diff(host2, remote2, e), e);
    assert forall|x: E| #[trigger] a2.contains_key(x) && a2[x] is SyncComponents implies {
        let m = a2[x]->SyncComponents_0;
        &&& host2.contains_key(x) && remote2.contains_key(x)
        &&& m.dom().finite() && m.dom().len() > 0
        &&& forall|c: u16| #[trigger] m.contains_key(c) ==> (m[c] == ComponentDiffAction::Insert ==> host2[x].contains(c) && !remote2[x].contains(c))
            && (m[c] == ComponentDiffAction::Remove ==> !host2[x].contains(c) && remote2[x].contains(c))
    } by {
        if x == e {
            // the membership of e changed in one view: if both views have it
            // now, exactly one had it before, so a spawn or despawn was pending
            if spec_entity_diff(host2, remote2, e) == EntityDiffResult::EqualAndExists {
                assert(host.contains_key(e) != remote.contains_key(e));
                assert(actions.contains_key(e));
                assert(actions[e] is Spawn || actions[e] is Despawn);
                assert(!a2.contains_key(e));
            }
        } else {
            assert(a2[x] == actions[x]);
            assert(actions.contains_key(x) && actions[x] is SyncComponents);
            assert(host2.contains_key(x) && remote2.contains_key(x));
            assert(host2[x] == host[x]);
            assert(remote2[x] == remote[x]);
        }
    }
    assert forall|x: E| #[trigger] host2.contains_key(x) != remote2.contains_key(x) implies a2.contains_key(x) by {
        if x != e {
            assert(host.contains_key(x) != remote.contains_key(x));
        }
    }
}

/// Adding or removing one component of an entity both views have keeps the
/// actions in agreement with the views.
proof fn lemma_component_step<E>(
    host: Map<E, Set<u16>>,
    remote: Map<E, Set<u16>>,
    actions: Map<E, DiffActionView>,
    host2: Map<E, Set<u16>>,
    remote2: Map<E, Set<u16>>,
    e: E,
    c: u16,
)
    requires
        actions_agree(host, remote, actions),
        forall|x: E| #[trigger] host2.contains_key(x) == host.contains_key(x),
        forall|x: E| #[trigger] remote2.contains_key(x) == remote.contains_key(x),
        forall|x: E| x != e && #[trigger] host2.contains_key(x) ==> host2[x] == host[x],
        forall|x: E| x != e && #[trigger] remote2.contains_key(x) ==> remote2[x] == remote[x],
        host.contains_key(e) || remote.contains_key(e),
        host.contains_key(e) ==> forall|k: u16| k != c ==> (#[trigger] host2[e].contains(k) == host[e].contains(k)),
        remote.contains_key(e) ==> forall|k: u16| k != c ==> (#[trigger] remote2[e].contains(k) == remote[e].contains(k)),
    ensures
        actions_agree(host2, remote2, component_update(actions, spec_component_diff(host2, remote2, e, c), e, c)),
{
    let d = spec_component_diff(host2, remote2, e, c);
    let a2 = component_update(actions, d, e, c);
    assert forall|x: E| #[trigger] a2.contains_key(x) && a2[x] is SyncComponents implies {
        let m = a2[x]->SyncComponents_0;
        &&& host2.contains_key(x) && remote2.contains_key(x)
        &&& m.dom().finite() && m.dom().len() > 0
        &&& forall|k: u16| #[trigger] m.contains_key(k) ==> (m[k] == ComponentDiffAction::Insert ==> host2[x].contains(k) && !remote2[x].contains(k))
            && (m[k] == ComponentDiffAction::Remove ==> !host2[x].contains(k) && remote2[x].contains(k))
    } by {
        if x == e {
            if actions.contains_key(e) && actions[e] is SyncComponents {
                let m0 = actions[e]->SyncComponents_0;
                let m = a2[x]->SyncComponents_0;
                assert(host.contains_key(e) && remote.contains_key(e));
                assert(host2.contains_key(e) && remote2.contains_key(e));
                assert(m0.dom().finite());
                if d == ComponentDiffResult::Equal {
                    assert(m == m0.remove(c));
                } else if d == ComponentDiffResult::Insert {
                    assert(m == m0.insert(c, ComponentDiffAction::Insert));
                    assert(m.dom() =~= m0.dom().insert(c));
                } else if d == ComponentDiffResult::Remove {
                    assert(m == m0.insert(c, ComponentDiffAction::Remove));
                    assert(m.dom() =~= m0.dom().insert(c));
                }
                assert forall|k: u16| #[trigger] m.contains_key(k) implies (m[k] == ComponentDiffAction::Insert ==> host2[x].contains(k) && !remote2[x].contains(k))
                    && (m[k] == ComponentDiffAction::Remove ==> !host2[x].contains(k) && remote2[x].contains(k)) by {
                    if k != c {
                        assert(m0.contains_key(k) && m[k] == m0[k]);
                        assert(host2[e].contains(k) == host[e].contains(k));
                        assert(remote2[e].contains(k) == remote[e].contains(k));
                    }
                }
            } else if !actions.contains_key(e) {
                assert(host.contains_key(e) == remote.contains_key(e));
                assert(host2.contains_key(e) && remote2.contains_key(e));
                let m = a2[x]->SyncComponents_0;
                assert(m.dom() =~= Set::empty().insert(c));
            }
        } else {
            assert(a2[x] == actions[x]);
            assert(actions.contains_key(x) && actions[x] is SyncComponents);
            assert(host2.contains_key(x) && remote2.contains_key(x));
            assert(host2[x] == host[x]);
            assert(remote2[x] == remote[x]);
        }
    }
    assert forall|x: E| #[trigger] host2.contains_key(x) != remote2.contains_key(x) implies a2.contains_key(x) by {
        assert(host.contains_key(x) != remote.contains_key(x));
        assert(actions.contains_key(x));
        if x == e {
            assert(actions[e] is Spawn || actions[e] is Despawn);
        }
    }
}

} // verus!