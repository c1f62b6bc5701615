use qaul_router::sphere::DumpStaleIndexes;
use std::collections::HashSet;

fn set(v: &[u16]) -> HashSet<u16> {
    v.iter().copied().collect()
}

#[test]
fn a_whole_dump_leaves_the_bindings_it_did_not_announce() {
    let mut d = DumpStaleIndexes::default();
    let bound_users = vec![1, 2, 3, 4];
    let bound_nodes = vec![7, 8];
    assert!(!d.track_chunk(0, 2, &bound_users, &bound_nodes, &vec![1, 3], &vec![8]));
    assert_eq!(d.users, set(&[2, 4]));
    assert_eq!(d.nodes, set(&[7]));
    assert!(d.track_chunk(1, 2, &vec![], &vec![], &vec![4], &vec![]));
    let (users, nodes) = d.take_stale();
    assert_eq!(users, set(&[2]));
    assert_eq!(nodes, set(&[7]));
    assert!(d.users.is_empty() && d.nodes.is_empty());
}

#[test]
fn a_fresh_first_chunk_supersedes_a_dump_in_flight() {
    let mut d = DumpStaleIndexes::default();
    d.track_chunk(0, 3, &vec![1, 2], &vec![], &vec![], &vec![]);
    assert!(!d.track_chunk(0, 2, &vec![5, 6], &vec![], &vec![6], &vec![]));
    assert_eq!(d.users, set(&[5]));
    assert!(d.track_chunk(255, 255, &vec![], &vec![], &vec![], &vec![]));
}
