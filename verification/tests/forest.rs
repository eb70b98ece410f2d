use qualetize_gui::forest::{find, linked_groups};

#[test]
fn find_returns_the_root_and_halves_the_path() {
    // A chain 4 -> 3 -> 2 -> 1 -> 0, with 0 the root.
    let mut parent = vec![0, 0, 1, 2, 3];
    assert_eq!(find(&mut parent, 4), 0);
    // Every other node on the way now links to its grandparent.
    assert_eq!(parent, vec![0, 0, 0, 2, 2]);
    assert_eq!(find(&mut parent, 4), 0);
    assert_eq!(find(&mut parent, 3), 0);
}

#[test]
fn a_root_is_its_own_answer() {
    let mut parent = vec![0, 1, 1];
    assert_eq!(find(&mut parent, 1), 1);
    assert_eq!(find(&mut parent, 2), 1);
    assert_eq!(find(&mut parent, 0), 0);
    assert_eq!(parent, vec![0, 1, 1]);
}

#[test]
fn linked_positions_form_groups_in_order_of_their_first_member() {
    let members = [10, 11, 12, 13, 14, 15];
    // 0-3, 3-5 and 1-4 join {0, 3, 5} and {1, 4}; 2 stands alone.
    let groups = linked_groups(&members, &[(3, 5), (1, 4), (0, 3)]);
    assert_eq!(groups, vec![vec![10, 13, 15], vec![11, 14], vec![12]]);
}

#[test]
fn without_links_every_member_is_its_own_group() {
    assert_eq!(linked_groups(&[7, 8, 9], &[]), vec![vec![7], vec![8], vec![9]]);
    assert!(linked_groups(&[], &[]).is_empty());
}

#[test]
fn repeated_and_self_links_change_nothing() {
    let groups = linked_groups(&[1, 2, 3], &[(0, 2), (2, 0), (1, 1), (0, 2)]);
    assert_eq!(groups, vec![vec![1, 3], vec![2]]);
}

#[test]
fn a_chain_of_links_joins_its_whole_length() {
    let members: Vec<usize> = (0..8).collect();
    let links: Vec<(usize, usize)> = (0..7).map(|i| (i + 1, i)).collect();
    assert_eq!(linked_groups(&members, &links), vec![members.clone()]);
}
