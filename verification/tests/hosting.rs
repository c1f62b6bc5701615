use std::collections::HashMap;
use std::time::Instant;

use libp2p::identity::Keypair;
use qaul_router::identity::Multikey;
use qaul_router::index::RESERVED_INDEX;
use qaul_router::indexes::Indexes;
use qaul_router::propagation::pending_introductions;
use qaul_router::records::{register_hosted_user, Records, UserRecord};
use qaul_router::sphere::{
    desired_propagation_form, plan_form_transition, PropagationForm, Space,
};
use qaul_router::table::RoutingTable;

/// A host as the router keeps it: its indexes and table, the user and node
/// records with their versions, and the users it hosts in the order they
/// were registered.
struct Host {
    indexes: Indexes,
    table: RoutingTable<u32>,
    records: Records,
    nodes: HashMap<[u8; 8], u32>,
    hosted: Vec<[u8; 8]>,
    form: PropagationForm,
    internet: bool,
    host_node_id: [u8; 8],
}

fn fresh_state() -> Host {
    Host {
        indexes: Indexes::new(),
        table: RoutingTable::new(),
        records: Records::new(),
        nodes: HashMap::new(),
        hosted: Vec::new(),
        form: PropagationForm::User,
        internet: false,
        host_node_id: [0xAB; 8],
    }
}

impl Host {
    fn desired_propagation_form(&self) -> PropagationForm {
        desired_propagation_form(&self.records.hosted_user_ids(), self.internet, &[])
    }

    fn hosted_user_ids(&self) -> Vec<[u8; 8]> {
        self.records.hosted_user_ids()
    }

    fn user(&self, id: &[u8; 8]) -> Option<(u32, bool)> {
        self.records.users.get(id).map(|u| (u.profile_version, u.is_hosted))
    }

    fn user_count(&self) -> usize {
        self.records.users.len()
    }

    fn install_user(&mut self, id: [u8; 8], version: u32) {
        self.records.users.insert(id, UserRecord { profile_version: version, public_key: None, is_hosted: false });
    }

    fn register_hosted_user(&mut self, user_id: [u8; 8], profile_version: u32) {
        let key = Multikey::from(Keypair::generate_ed25519().public());
        if !self.hosted.contains(&user_id) {
            self.hosted.push(user_id);
        }
        register_hosted_user(&mut self.records, &mut self.indexes, user_id, profile_version, key, self.internet, &[]);
    }

    fn register_neighbour_node(&mut self, node_id: [u8; 8]) {
        self.nodes.entry(node_id).or_insert(0);
        let _ = self.indexes.own_index(Space::Node, node_id);
    }

    fn sync_propagation_form(&mut self) -> PropagationForm {
        let desired = self.desired_propagation_form();
        let transition = plan_form_transition(self.form, desired, self.hosted.clone(), self.host_node_id);
        if desired == PropagationForm::Node {
            self.nodes.entry(self.host_node_id).or_insert(0);
        }
        self.indexes.apply_form_transition(&mut self.table, &transition, Instant::now());
        self.form = desired;
        desired
    }

    fn unregister_hosted_user(&mut self, user_id: [u8; 8]) {
        self.records.users.remove(&user_id);
        self.hosted.retain(|u| *u != user_id);
        let next = self.hosted.first().copied();
        self.indexes.release_hosted_user(&mut self.table, &user_id, next, Instant::now());
    }

    fn take_marks(&mut self, space: Space) -> Vec<u16> {
        self.indexes.tracker.take_pending(space)
    }

    fn pending_introductions(&mut self, space: Space) -> Vec<(u16, [u8; 8], u32)> {
        let pending = self.indexes.tracker.take_pending(space);
        let targets: Vec<Option<([u8; 8], u32)>> = pending
            .iter()
            .map(|idx| {
                let id = match space {
                    Space::User => self.indexes.user_dict.id_of(*idx),
                    Space::Node => self.indexes.node_dict.id_of(*idx),
                }?;
                let version = match space {
                    Space::User => self.records.users.get(&id).map(|u| u.profile_version),
                    Space::Node => self.nodes.get(&id).copied(),
                }?;
                Some((id, version))
            })
            .collect();
        pending_introductions(&pending, &targets)
            .into_iter()
            .map(|m| (m.abs_idx, m.target_id, m.version))
            .collect()
    }
}

#[test]
fn register_hosted_user_binds_record_and_marks() {
    let mut state = fresh_state();
    let user_id = [42; 8];

    state.register_hosted_user(user_id, 7);

    assert_eq!(
        state.indexes.user_dict.id_of(RESERVED_INDEX),
        Some(user_id),
        "hosted user must occupy RESERVED_INDEX in the user space"
    );
    assert_eq!(state.user(&user_id).expect("User record created").0, 7);
    assert!(
        state.take_marks(Space::User).contains(&RESERVED_INDEX),
        "the binding must be queued for introduction"
    );
}

#[test]
fn register_hosted_user_produces_a_resolvable_introduction() {
    let mut state = fresh_state();
    let user_id = [42; 8];

    state.register_hosted_user(user_id, 7);

    let intros = state.pending_introductions(Space::User);
    assert_eq!(intros, vec![(RESERVED_INDEX, user_id, 7)]);
}

#[test]
fn register_hosted_user_is_idempotent() {
    let mut state = fresh_state();
    let user_id = [42; 8];

    state.register_hosted_user(user_id, 1);
    state.register_hosted_user(user_id, 1);

    assert_eq!(state.indexes.user_dict.id_of(RESERVED_INDEX), Some(user_id));
    assert_eq!(state.user_count(), 1, "no duplicate record");
}

#[test]
fn register_hosted_user_updates_profile_version_on_existing_record() {
    let mut state = fresh_state();
    let user_id = [42; 8];

    state.register_hosted_user(user_id, 1);
    state.register_hosted_user(user_id, 9);

    assert_eq!(state.user(&user_id).unwrap().0, 9);
    assert_eq!(state.user_count(), 1);
}

#[test]
fn second_hosted_user_does_not_evict_the_first() {
    let mut state = fresh_state();
    let first = [1; 8];
    let second = [2; 8];

    state.register_hosted_user(first, 1);
    state.register_hosted_user(second, 1);

    assert_eq!(state.indexes.user_dict.id_of(RESERVED_INDEX), Some(first));
    assert!(state.indexes.user_dict.idx_of(&second).is_none());
    assert_eq!(state.hosted_user_ids().len(), 2);
    assert_eq!(state.desired_propagation_form(), PropagationForm::Node);
}

#[test]
fn only_the_indexed_hosted_user_is_introduced() {
    let mut state = fresh_state();
    let first = [1; 8];
    let second = [2; 8];

    state.register_hosted_user(first, 3);
    state.register_hosted_user(second, 4);

    assert_eq!(state.pending_introductions(Space::User), vec![(RESERVED_INDEX, first, 3)]);
}

#[test]
fn repeat_registration_is_stable_across_the_form_boundary() {
    let mut state = fresh_state();
    let first = [1; 8];
    let second = [2; 8];

    state.register_hosted_user(first, 1);
    state.register_hosted_user(second, 1);

    state.register_hosted_user(first, 2);
    state.register_hosted_user(second, 2);

    assert_eq!(state.indexes.user_dict.id_of(RESERVED_INDEX), Some(first));
    assert!(state.indexes.user_dict.idx_of(&second).is_none());
    assert_eq!(state.user_count(), 2);
    assert_eq!(state.hosted_user_ids().len(), 2);
}

#[test]
fn register_neighbour_node_is_idempotent() {
    let mut state = fresh_state();
    state.register_neighbour_node([77; 8]);
    let first = state.indexes.node_dict.idx_of(&[77; 8]).unwrap();
    let _ = state.take_marks(Space::Node);

    for _ in 0..5 {
        state.register_neighbour_node([77; 8]);
    }
    assert_eq!(state.indexes.node_dict.idx_of(&[77; 8]), Some(first));
    assert!(state.take_marks(Space::Node).is_empty(), "a repeat registration marks nothing");
    assert_eq!(state.nodes.len(), 1);
}

#[test]
fn distinct_neighbours_get_distinct_indexes() {
    let mut state = fresh_state();

    state.register_neighbour_node([10; 8]);
    state.register_neighbour_node([20; 8]);

    let a = state.indexes.node_dict.idx_of(&[10; 8]).unwrap();
    let b = state.indexes.node_dict.idx_of(&[20; 8]).unwrap();
    assert_ne!(a, b);
    assert_ne!(a, RESERVED_INDEX);
    assert_ne!(b, RESERVED_INDEX);
}

#[test]
fn only_the_active_form_holds_a_reserved_binding() {
    let mut state = fresh_state();
    let user_id = [42; 8];

    state.register_hosted_user(user_id, 1);
    state.register_neighbour_node([77; 8]);

    assert_eq!(state.indexes.user_dict.id_of(RESERVED_INDEX), Some(user_id));
    assert!(
        state.indexes.node_dict.id_of(RESERVED_INDEX).is_none(),
        "node-space reserved index stays unbound while in user form"
    );
}

#[test]
fn neighbour_registration_never_touches_the_reserved_slot() {
    let mut state = fresh_state();

    state.register_neighbour_node([77; 8]);
    state.register_neighbour_node([88; 8]);

    let dict = &state.indexes.node_dict;
    assert!(dict.id_of(RESERVED_INDEX).is_none());
    assert_ne!(dict.idx_of(&[77; 8]).unwrap(), RESERVED_INDEX);
    assert_ne!(dict.idx_of(&[88; 8]).unwrap(), RESERVED_INDEX);
}

#[test]
fn single_user_no_internet_is_user_form() {
    let mut state = fresh_state();
    state.register_hosted_user([1; 8], 0);
    state.internet = false;

    assert_eq!(state.desired_propagation_form(), PropagationForm::User);
}

#[test]
fn remote_users_do_not_trigger_node_form() {
    let mut state = fresh_state();
    state.register_hosted_user([1; 8], 0);
    state.install_user([2; 8], 0);
    state.install_user([3; 8], 0);

    assert_eq!(state.user_count(), 3);
    assert_eq!(state.hosted_user_ids().len(), 1);
    assert_eq!(state.desired_propagation_form(), PropagationForm::User);
}

#[test]
fn registering_an_existing_remote_stub_marks_it_hosted() {
    let mut state = fresh_state();
    state.install_user([1; 8], 5);

    state.register_hosted_user([1; 8], 6);

    assert_eq!(state.hosted_user_ids(), vec![[1; 8]]);
    assert_eq!(state.user_count(), 1, "no duplicate record");
    assert_eq!(state.user(&[1; 8]), Some((6, true)));
}

#[test]
fn second_hosted_user_triggers_node_form() {
    let mut state = fresh_state();
    state.register_hosted_user([1; 8], 0);
    assert_eq!(state.desired_propagation_form(), PropagationForm::User);

    state.register_hosted_user([2; 8], 0);
    assert_eq!(state.desired_propagation_form(), PropagationForm::Node);
}

#[test]
fn internet_neighbour_triggers_node_form() {
    let mut state = fresh_state();
    state.register_hosted_user([1; 8], 0);
    state.internet = true;

    assert_eq!(state.desired_propagation_form(), PropagationForm::Node);
}

#[test]
fn switching_to_node_form_releases_hosted_user_indexes() {
    let mut state = fresh_state();
    state.register_hosted_user([1; 8], 0);
    assert_eq!(state.indexes.user_dict.id_of(RESERVED_INDEX), Some([1; 8]));

    state.register_hosted_user([2; 8], 0);
    assert_eq!(state.sync_propagation_form(), PropagationForm::Node);

    let dict = &state.indexes.user_dict;
    assert!(dict.id_of(RESERVED_INDEX).is_none());
    assert!(dict.idx_of(&[1; 8]).is_none());
    assert!(dict.idx_of(&[2; 8]).is_none());

    assert!(
        state.take_marks(Space::Node).contains(&RESERVED_INDEX),
        "the node self-binding must be introduced on entering node form"
    );
}

#[test]
fn entering_node_form_binds_the_node_reserved_index() {
    let mut state = fresh_state();
    let host_node_id = state.host_node_id;
    state.register_hosted_user([1; 8], 0);
    state.register_hosted_user([2; 8], 0);

    assert_eq!(state.sync_propagation_form(), PropagationForm::Node);

    assert_eq!(state.indexes.node_dict.id_of(RESERVED_INDEX), Some(host_node_id));
    assert!(state.nodes.get(&host_node_id).is_some());

    let intros = state.pending_introductions(Space::Node);
    assert!(intros.iter().any(|(idx, id, _)| *idx == RESERVED_INDEX && *id == host_node_id));
}

#[test]
fn leaving_node_form_releases_the_node_reserved_index() {
    let mut state = fresh_state();
    state.register_hosted_user([1; 8], 0);
    state.register_hosted_user([2; 8], 0);
    assert_eq!(state.sync_propagation_form(), PropagationForm::Node);

    state.unregister_hosted_user([2; 8]);
    assert_eq!(state.sync_propagation_form(), PropagationForm::User);

    assert!(state.indexes.node_dict.id_of(RESERVED_INDEX).is_none());
    assert_eq!(state.indexes.user_dict.id_of(RESERVED_INDEX), Some([1; 8]));
}

#[test]
fn switching_back_to_user_form_rebinds_reserved_index() {
    let mut state = fresh_state();
    state.register_hosted_user([1; 8], 0);
    state.register_hosted_user([2; 8], 0);
    assert_eq!(state.sync_propagation_form(), PropagationForm::Node);

    state.unregister_hosted_user([2; 8]);
    assert_eq!(state.sync_propagation_form(), PropagationForm::User);

    assert_eq!(state.indexes.user_dict.id_of(RESERVED_INDEX), Some([1; 8]));
}

#[test]
fn sync_is_a_noop_when_the_form_has_not_changed() {
    let mut state = fresh_state();
    state.register_hosted_user([1; 8], 0);
    assert_eq!(state.sync_propagation_form(), PropagationForm::User);

    let _ = state.pending_introductions(Space::User);

    assert_eq!(state.sync_propagation_form(), PropagationForm::User);
    assert_eq!(state.indexes.user_dict.id_of(RESERVED_INDEX), Some([1; 8]));
    assert!(state.pending_introductions(Space::User).is_empty());
}

#[test]
fn releasing_an_index_clears_its_pending_mark() {
    let mut state = fresh_state();
    state.register_hosted_user([1; 8], 0);
    state.register_hosted_user([2; 8], 0);

    assert_eq!(state.sync_propagation_form(), PropagationForm::Node);

    let pending = state.take_marks(Space::User);
    assert!(!pending.contains(&RESERVED_INDEX));
    assert!(pending.is_empty(), "no user-space marks should survive");
}

#[test]
fn unregister_releases_index_and_record() {
    let mut state = fresh_state();
    state.register_hosted_user([1; 8], 0);

    state.unregister_hosted_user([1; 8]);

    assert!(state.indexes.user_dict.id_of(RESERVED_INDEX).is_none());
    assert!(state.user(&[1; 8]).is_none());
    assert_eq!(state.hosted_user_ids().len(), 0);
}

#[test]
fn unregister_promotes_a_survivor_into_the_reserved_slot() {
    let mut state = fresh_state();
    state.register_hosted_user([1; 8], 0);
    state.register_hosted_user([2; 8], 0);
    assert_eq!(state.indexes.user_dict.id_of(RESERVED_INDEX), Some([1; 8]));

    state.unregister_hosted_user([1; 8]);

    assert_eq!(state.indexes.user_dict.id_of(RESERVED_INDEX), Some([2; 8]));
}

#[test]
fn unregister_unindexed_user_leaves_reserved_slot_intact() {
    let mut state = fresh_state();
    state.register_hosted_user([1; 8], 0);
    state.register_hosted_user([2; 8], 0);
    assert!(state.indexes.user_dict.idx_of(&[2; 8]).is_none());

    state.unregister_hosted_user([2; 8]);

    assert_eq!(state.indexes.user_dict.id_of(RESERVED_INDEX), Some([1; 8]));
    assert_eq!(state.hosted_user_ids(), vec![[1; 8]]);
}

#[test]
fn unregister_unknown_user_is_a_noop() {
    let mut state = fresh_state();
    state.register_hosted_user([1; 8], 0);

    state.unregister_hosted_user([9; 8]);

    assert_eq!(state.indexes.user_dict.id_of(RESERVED_INDEX), Some([1; 8]));
    assert_eq!(state.hosted_user_ids().len(), 1);
}

#[test]
fn retiring_expired_indexes_frees_them() {
    let mut state = fresh_state();
    let a = state.indexes.own_index(Space::Node, [7; 8]).unwrap();
    let b = state.indexes.own_index(Space::Node, [8; 8]).unwrap();
    state.table.set(Space::Node, a, 1);
    state.table.set(Space::Node, b, 2);

    state.indexes.retire_expired(&mut state.table, Space::Node, &vec![a], Instant::now());

    assert!(state.table.get(Space::Node, a).is_none());
    assert_eq!(state.table.get(Space::Node, b), Some(&2));
    assert_eq!(state.indexes.node_dict.idx_of(&[7; 8]), None);
    assert_eq!(state.indexes.node_dict.idx_of(&[8; 8]), Some(b));
    assert_eq!(state.take_marks(Space::Node), vec![b]);
}

#[test]
fn register_neighbour_node_allocates_index_record_and_mark() {
    let mut state = fresh_state();
    let node_id = [77; 8];

    state.register_neighbour_node(node_id);

    let idx = state.indexes.node_dict.idx_of(&node_id).expect("neighbour allocated a node index");
    assert_ne!(idx, RESERVED_INDEX, "the allocator must never hand out the reserved self index");
    assert!(state.nodes.get(&node_id).is_some(), "Node record created");
    assert!(state.take_marks(Space::Node).contains(&idx), "binding must be queued for introduction");
}
