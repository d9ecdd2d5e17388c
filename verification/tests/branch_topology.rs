use knot::branch_topology::{
    build_boundary_matching, connect_at_boundary, extract_chains, generate_disjoint_adjacent_pair_sets,
    insert_pair, mode_root_count, new_partner_table, pair_all_adjacent, select_gap_pairs, walk_chain, EndpointId,
    MatchPair, Side,
};

fn start(segment: usize) -> EndpointId {
    EndpointId { segment, side: Side::Start }
}

fn end(segment: usize) -> EndpointId {
    EndpointId { segment, side: Side::End }
}

#[test]
fn enumerate_pair_sets_n4_k2() {
    let sets = generate_disjoint_adjacent_pair_sets(4, 2);
    assert_eq!(sets.len(), 1);
    assert_eq!(sets[0], vec![(0, 1), (2, 3)]);
}

#[test]
fn enumerate_pair_sets_n2_k1() {
    let sets = generate_disjoint_adjacent_pair_sets(2, 1);
    assert_eq!(sets, vec![vec![(0, 1)]]);
}

#[test]
fn enumerate_pair_sets_n4_k1() {
    let sets = generate_disjoint_adjacent_pair_sets(4, 1);
    assert_eq!(sets.len(), 3);
    assert!(sets.contains(&vec![(0, 1)]));
    assert!(sets.contains(&vec![(1, 2)]));
    assert!(sets.contains(&vec![(2, 3)]));
}

#[test]
fn enumerate_pair_sets_edges() {
    assert_eq!(generate_disjoint_adjacent_pair_sets(3, 0), vec![Vec::<(usize, usize)>::new()]);
    assert!(generate_disjoint_adjacent_pair_sets(3, 2).is_empty());
    assert!(generate_disjoint_adjacent_pair_sets(0, 1).is_empty());
    let sets = generate_disjoint_adjacent_pair_sets(5, 2);
    assert_eq!(
        sets,
        vec![
            vec![(0, 1), (2, 3)],
            vec![(0, 1), (3, 4)],
            vec![(1, 2), (3, 4)],
        ]
    );
}

#[test]
fn boundary_matching_pure_passthrough() {
    let m = build_boundary_matching(3, 3, &vec![]);
    assert_eq!(m.len(), 3);
    for p in m {
        match p {
            MatchPair::PassThrough { left, right } => assert_eq!(left, right),
            _ => panic!("expected pass-through"),
        }
    }
}

#[test]
fn boundary_matching_left_uturn_at_top() {
    // Four roots on the left, two on the right; the top two meet.
    let m = build_boundary_matching(4, 2, &vec![(2, 3)]);
    assert!(m.iter().any(|p| matches!(p, MatchPair::LeftUTurn { a: 2, b: 3 })));
    let pt0 = m.iter().any(|p| matches!(p, MatchPair::PassThrough { left: 0, right: 0 }));
    let pt1 = m.iter().any(|p| matches!(p, MatchPair::PassThrough { left: 1, right: 1 }));
    assert!(pt0 && pt1);
}

#[test]
fn boundary_matching_left_uturn_in_middle() {
    let m = build_boundary_matching(4, 2, &vec![(1, 2)]);
    assert!(m.iter().any(|p| matches!(p, MatchPair::LeftUTurn { a: 1, b: 2 })));
    let pt00 = m.iter().any(|p| matches!(p, MatchPair::PassThrough { left: 0, right: 0 }));
    let pt31 = m.iter().any(|p| matches!(p, MatchPair::PassThrough { left: 3, right: 1 }));
    assert!(pt00 && pt31);
}

#[test]
fn boundary_matching_right_uturn_born() {
    let m = build_boundary_matching(2, 4, &vec![(1, 2)]);
    assert!(m.iter().any(|p| matches!(p, MatchPair::RightUTurn { a: 1, b: 2 })));
    assert_eq!(
        m,
        vec![
            MatchPair::RightUTurn { a: 1, b: 2 },
            MatchPair::PassThrough { left: 0, right: 0 },
            MatchPair::PassThrough { left: 1, right: 3 },
        ]
    );
}

#[test]
fn pair_all_adjacent_values() {
    assert_eq!(pair_all_adjacent(0), vec![]);
    assert_eq!(pair_all_adjacent(1), vec![]);
    assert_eq!(pair_all_adjacent(4), vec![(0, 1), (2, 3)]);
    assert_eq!(pair_all_adjacent(5), vec![(0, 1), (2, 3)]);
}

#[test]
fn greedy_gap_selection() {
    // Gaps visited smallest first: gap 1 (slots 1,2), then gap 0, then gap 2.
    assert_eq!(select_gap_pairs(4, &vec![1, 0, 2], 2), vec![(1, 2)]);
    assert_eq!(select_gap_pairs(4, &vec![0, 2, 1], 2), vec![(0, 1), (2, 3)]);
    assert_eq!(select_gap_pairs(4, &vec![0, 2, 1], 1), vec![(0, 1)]);
    assert_eq!(select_gap_pairs(1, &vec![], 1), vec![]);
}

#[test]
fn partner_table_links_both_ways() {
    let mut partner = new_partner_table(2);
    assert_eq!(partner.len(), 4);
    assert!(partner.iter().all(|p| p.is_none()));
    insert_pair(&mut partner, end(0), start(1));
    assert_eq!(partner[1], Some(start(1)));
    assert_eq!(partner[2], Some(end(0)));
    insert_pair(&mut partner, end(1), end(1));
    assert_eq!(partner[3], None);
}

#[test]
fn walk_open_chain() {
    // Segments 0 -> 1 -> 2 joined end to start.
    let mut partner = new_partner_table(3);
    insert_pair(&mut partner, end(0), start(1));
    insert_pair(&mut partner, end(1), start(2));
    let mut visited = vec![false; 3];
    let w = walk_chain(0, true, &partner, &mut visited);
    assert_eq!(w.steps, vec![(0, true), (1, true), (2, true)]);
    assert!(!w.closed);
    assert_eq!(visited, vec![true, true, true]);
    let again = walk_chain(1, true, &partner, &mut visited);
    assert!(again.steps.is_empty());
}

#[test]
fn walk_closed_loop() {
    let mut partner = new_partner_table(2);
    insert_pair(&mut partner, end(0), start(1));
    insert_pair(&mut partner, end(1), start(0));
    let mut visited = vec![false; 2];
    let w = walk_chain(0, true, &partner, &mut visited);
    assert_eq!(w.steps, vec![(0, true), (1, true)]);
    assert!(w.closed);
}

#[test]
fn extract_chains_partitions_segments() {
    // Chain 0 -> 1, a U-turn joining the ends of 2 and 3, and a loop 4 <-> 5.
    let mut partner = new_partner_table(6);
    insert_pair(&mut partner, end(0), start(1));
    insert_pair(&mut partner, end(2), end(3));
    insert_pair(&mut partner, end(4), start(5));
    insert_pair(&mut partner, end(5), start(4));
    let chains = extract_chains(6, &partner);
    assert_eq!(chains.len(), 3);
    assert_eq!(chains[0].steps, vec![(0, true), (1, true)]);
    assert!(!chains[0].closed);
    assert_eq!(chains[1].steps, vec![(2, true), (3, false)]);
    assert!(!chains[1].closed);
    assert_eq!(chains[2].steps, vec![(4, true), (5, true)]);
    assert!(chains[2].closed);
    let mut seen: Vec<usize> = chains.iter().flat_map(|c| c.steps.iter().map(|s| s.0)).collect();
    seen.sort();
    assert_eq!(seen, vec![0, 1, 2, 3, 4, 5]);
}

#[test]
fn extract_chains_keeps_chains_whole_and_ordered() {
    // A loop 0 <-> 1 comes last; the chain 3 <- 2 (2's start joined to 3's
    // start) has open end endpoints only, so it is walked backward from 2
    // after the chain that begins at the open start of 4 and runs 4 -> 5.
    let mut partner = new_partner_table(6);
    insert_pair(&mut partner, end(0), start(1));
    insert_pair(&mut partner, end(1), start(0));
    insert_pair(&mut partner, start(2), start(3));
    insert_pair(&mut partner, end(4), start(5));
    let chains = extract_chains(6, &partner);
    assert_eq!(chains.len(), 3);
    assert_eq!(chains[0].steps, vec![(4, true), (5, true)]);
    assert_eq!(chains[1].steps, vec![(2, false), (3, true)]);
    assert!(!chains[1].closed);
    assert_eq!(chains[2].steps, vec![(0, true), (1, true)]);
    assert!(chains[2].closed);
}

#[test]
fn connect_across_a_critical_value() {
    // Left interval holds segments 0, 1, 2, 3; right interval holds 4, 5.
    // The top two left roots meet; the others continue.
    let mut partner = new_partner_table(6);
    connect_at_boundary(&vec![0, 1, 2, 3], &vec![4, 5], &vec![(2, 3)], &mut partner);
    assert_eq!(partner[2 * 2 + 1], Some(end(3)));
    assert_eq!(partner[2 * 3 + 1], Some(end(2)));
    assert_eq!(partner[1], Some(start(4)));
    assert_eq!(partner[2 * 4], Some(end(0)));
    assert_eq!(partner[2 * 1 + 1], Some(start(5)));
    assert_eq!(partner[2 * 5], Some(end(1)));
}

#[test]
fn mode_root_count_most_frequent() {
    assert_eq!(mode_root_count(&vec![2, 2, 4, 2, 4]), 2);
    assert_eq!(mode_root_count(&vec![0, 4, 4]), 4);
    assert_eq!(mode_root_count(&vec![3]), 3);
}

#[test]
fn mode_root_count_no_samples() {
    assert_eq!(mode_root_count(&Vec::new()), 0);
}
