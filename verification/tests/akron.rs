use boardgames::akron::connectivity::{Groups, Layout};

/// A board of `cells` cells with the given pieces (cell, is Black) and
/// touching edges, each with its pillar (strictly higher edges sharing its
/// footprint, lowest first).
fn layout(cells: usize, pieces: &[(usize, bool)], edges: &[(usize, usize, Vec<(usize, usize)>)]) -> Layout {
    let mut occupied = vec![false; cells];
    let mut black = vec![false; cells];
    for &(cell, is_black) in pieces {
        occupied[cell] = true;
        black[cell] = is_black;
    }
    let mut adjacency: Vec<Vec<usize>> = vec![Vec::new(); cells];
    let mut pillars: Vec<Vec<Vec<(usize, usize)>>> = vec![Vec::new(); cells];
    for (a, b, pillar) in edges {
        adjacency[*a].push(*b);
        pillars[*a].push(pillar.clone());
        adjacency[*b].push(*a);
        pillars[*b].push(pillar.clone());
    }
    Layout { occupied, black, adjacency, pillars }
}

/// A 5x5 base level, each cell touching its orthogonal neighbours.
fn grid_edges(side: usize) -> Vec<(usize, usize, Vec<(usize, usize)>)> {
    let mut edges = Vec::new();
    for row in 0..side {
        for col in 0..side {
            let i = row * side + col;
            if col + 1 < side {
                edges.push((i, i + 1, Vec::new()));
            }
            if row + 1 < side {
                edges.push((i, i + side, Vec::new()));
            }
        }
    }
    edges
}

#[test]
fn touching_same_color_pieces_are_connected() {
    let board = layout(25, &[(12, true), (13, true)], &grid_edges(5));
    let mut groups = Groups::compute(&board);
    assert!(groups.same_group(12, 13));
}

#[test]
fn opposing_higher_edge_cuts_the_connection_below_it() {
    // White base edge 0-1, cut by the Black edge 2-3 directly above it.
    let board = layout(
        4,
        &[(0, false), (1, false), (2, true), (3, true)],
        &[(0, 1, vec![(2, 3)]), (2, 3, Vec::new())],
    );
    let mut groups = Groups::compute(&board);
    assert!(!groups.same_group(0, 1), "white connection should be cut");
    assert!(groups.same_group(2, 3), "black's own cutting edge stays connected");
}

#[test]
fn cutting_the_cutter_restores_the_original_connection() {
    // White 0-1, cut by Black 2-3 above it, re-cut by White 4-5 above that.
    let board = layout(
        6,
        &[(0, false), (1, false), (2, true), (3, true), (4, false), (5, false)],
        &[(0, 1, vec![(2, 3), (4, 5)]), (2, 3, vec![(4, 5)]), (4, 5, Vec::new())],
    );
    let mut groups = Groups::compute(&board);
    assert!(
        groups.same_group(0, 1),
        "original white connection should be restored once its cutter is itself cut"
    );
    assert!(!groups.same_group(2, 3), "black's cut should itself be cut");
    assert!(groups.same_group(4, 5), "the topmost edge is never cut");
}

#[test]
fn same_color_higher_edge_does_not_cut() {
    let board = layout(
        4,
        &[(0, true), (1, true), (2, true), (3, true)],
        &[(0, 1, vec![(2, 3)]), (2, 3, Vec::new())],
    );
    let mut groups = Groups::compute(&board);
    assert!(groups.same_group(0, 1));
}

#[test]
fn isolated_pieces_are_not_connected_to_anything() {
    let board = layout(25, &[(0, true), (24, true)], &grid_edges(5));
    let mut groups = Groups::compute(&board);
    assert!(!groups.same_group(0, 24));
    assert_eq!(groups.color_of(0), Some(true));
    assert_eq!(groups.color_of(6), None);
}

#[test]
fn connection_runs_through_a_chain_of_pieces() {
    let board = layout(25, &[(0, true), (1, true), (2, true), (7, true), (12, false)], &grid_edges(5));
    let mut groups = Groups::compute(&board);
    assert!(groups.same_group(0, 7));
    assert!(groups.same_group(7, 0));
    assert!(!groups.same_group(7, 12));
    assert_eq!(groups.color_of(12), Some(false));
}

#[test]
fn opposite_colours_touching_are_not_connected() {
    let board = layout(25, &[(12, true), (13, false)], &grid_edges(5));
    let mut groups = Groups::compute(&board);
    assert!(!groups.same_group(12, 13));
    assert!(groups.same_group(12, 12));
    assert!(!groups.same_group(6, 6));
}

#[test]
fn a_mixed_edge_above_does_not_cut() {
    // The edge above joins a Black and a White piece: it connects nothing,
    // so it cuts nothing.
    let board = layout(
        4,
        &[(0, false), (1, false), (2, true), (3, false)],
        &[(0, 1, vec![(2, 3)]), (2, 3, Vec::new())],
    );
    let mut groups = Groups::compute(&board);
    assert!(groups.same_group(0, 1));
}

#[test]
fn the_nearest_uncut_connection_decides() {
    // Black 2-3 directly above White 0-1, Black 4-5 above that: both Black
    // edges stay, and the nearest one cuts the White edge.
    let board = layout(
        6,
        &[(0, false), (1, false), (2, true), (3, true), (4, true), (5, true)],
        &[(0, 1, vec![(2, 3), (4, 5)]), (2, 3, vec![(4, 5)]), (4, 5, Vec::new())],
    );
    let mut groups = Groups::compute(&board);
    assert!(!groups.same_group(0, 1));
    assert!(groups.same_group(2, 3));
    assert!(groups.same_group(4, 5));
    assert!(!groups.same_group(2, 4));
}
