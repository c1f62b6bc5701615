use qaul_router::sphere::{
    binds_reserved_user_index, hosted_profile_version, plan_form_transition, FormTransition,
    PropagationForm,
};

#[test]
fn same_form_needs_no_work() {
    let t = plan_form_transition(PropagationForm::User, PropagationForm::User, vec![[1; 8]], [9; 8]);
    assert!(matches!(t, FormTransition::Stay));
}

#[test]
fn into_node_form_releases_hosted_users_and_binds_host() {
    match plan_form_transition(PropagationForm::User, PropagationForm::Node, vec![[1; 8], [2; 8]], [9; 8]) {
        FormTransition::ToNode { release_users, bind_node } => {
            assert_eq!(release_users, vec![[1; 8], [2; 8]]);
            assert_eq!(bind_node, [9; 8]);
        }
        other => panic!("unexpected {other:?}"),
    }
}

#[test]
fn into_user_form_reclaims_reserved_index_for_first_hosted_user() {
    match plan_form_transition(PropagationForm::Node, PropagationForm::User, vec![[1; 8], [2; 8]], [9; 8]) {
        FormTransition::ToUser { release_node, reclaim_user } => {
            assert_eq!(release_node, [9; 8]);
            assert_eq!(reclaim_user, Some([1; 8]));
        }
        other => panic!("unexpected {other:?}"),
    }
    match plan_form_transition(PropagationForm::Node, PropagationForm::User, vec![], [9; 8]) {
        FormTransition::ToUser { reclaim_user, .. } => assert_eq!(reclaim_user, None),
        other => panic!("unexpected {other:?}"),
    }
}

#[test]
fn hosted_profile_version_only_moves_forward() {
    assert_eq!(hosted_profile_version(None, 4), 4);
    assert_eq!(hosted_profile_version(Some(3), 4), 4);
    assert_eq!(hosted_profile_version(Some(5), 4), 5);
    assert_eq!(hosted_profile_version(Some(u32::MAX), 0), 0);
}

#[test]
fn reserved_user_index_binding() {
    assert!(!binds_reserved_user_index(PropagationForm::Node, None, [1; 8]));
    assert!(binds_reserved_user_index(PropagationForm::User, None, [1; 8]));
    assert!(!binds_reserved_user_index(PropagationForm::User, Some([1; 8]), [1; 8]));
    assert!(binds_reserved_user_index(PropagationForm::User, Some([2; 8]), [1; 8]));
}
