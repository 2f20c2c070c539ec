//! Generated boards: parameter validation, value ranges, symmetry,
//! connectivity and determinism.

use dice_wars::board::{Board, GenerationError, Teritory, MAX_STACK};

fn board(territories: usize, players: usize, seed: u64) -> Board {
    match Board::generate(territories, players, Some(seed)) {
        Ok(b) => b,
        Err(_) => panic!("generation refused valid parameters"),
    }
}

#[test]
fn too_few_territories_is_refused() {
    assert_eq!(
        Board::generate(0, 3, Some(1)).unwrap_err(),
        GenerationError::TooFewTeritories
    );
    assert_eq!(
        Board::generate(1, 3, Some(1)).unwrap_err(),
        GenerationError::TooFewTeritories
    );
}

#[test]
fn too_few_players_is_refused() {
    assert_eq!(
        Board::generate(10, 0, Some(1)).unwrap_err(),
        GenerationError::TooFewPlayers
    );
}

#[test]
fn smallest_parameters_generate() {
    let b = board(2, 1, 5);
    assert_eq!(b.teritories.len(), 2);
}

#[test]
fn owners_and_dice_are_in_range() {
    let b = board(20, 5, 11);
    assert_eq!(b.teritories.len(), 20);
    for t in &b.teritories {
        assert!(t.owner < 5);
        assert!(1 <= t.dice && t.dice <= MAX_STACK);
    }
}

#[test]
fn connections_name_other_territories_without_repeats() {
    let b = board(16, 8, 3);
    let n = b.teritories.len();
    for (i, t) in b.teritories.iter().enumerate() {
        for (k, &c) in t.connections.iter().enumerate() {
            assert!(c < n);
            assert_ne!(c, i);
            for &later in &t.connections[k + 1..] {
                assert_ne!(c, later);
            }
        }
    }
}

#[test]
fn connections_are_symmetric() {
    let b = board(16, 8, 42);
    for (i, t) in b.teritories.iter().enumerate() {
        for &j in &t.connections {
            assert!(
                b.teritories[j].connections.contains(&i),
                "territory {} lists {} but not the other way round",
                i,
                j
            );
        }
    }
}

#[test]
fn breadth_first_traversal_visits_every_territory() {
    for seed in [0u64, 1, 2, 3, 42, 99] {
        let b = board(24, 4, seed);
        let n = b.teritories.len();
        let mut visited = vec![false; n];
        let mut queue = vec![0usize];
        visited[0] = true;
        while let Some(v) = queue.pop() {
            for &w in &b.teritories[v].connections {
                if !visited[w] {
                    visited[w] = true;
                    queue.push(w);
                }
            }
        }
        assert!(visited.iter().all(|&v| v), "seed {} left a territory unreachable", seed);
    }
}

fn same_board(a: &Board, b: &Board) -> bool {
    a.teritories.len() == b.teritories.len()
        && a.teritories.iter().zip(b.teritories.iter()).all(|(x, y): (&Teritory, &Teritory)| {
            x.owner == y.owner && x.dice == y.dice && x.connections == y.connections
        })
}

#[test]
fn same_seed_generates_the_same_board() {
    let a = board(10, 4, 42);
    let b = board(10, 4, 42);
    assert!(same_board(&a, &b));
}

#[test]
fn different_seeds_generate_different_boards() {
    let mut any_difference = false;
    for seed in 0u64..8 {
        let a = board(12, 4, seed);
        let b = board(12, 4, seed + 1000);
        if !same_board(&a, &b) {
            any_difference = true;
        }
    }
    assert!(any_difference);
}
