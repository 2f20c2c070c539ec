//! The engine's rules: legality, combat, reinforcement, turn rotation and
//! termination, on handcrafted boards whose shape is known exactly.

use dice_wars::board::{Board, Teritory};
use dice_wars::game::{GameError, GameState, Winner};

fn teritory(owner: usize, dice: u32, connections: Vec<usize>) -> Teritory {
    Teritory { owner, dice, connections }
}

/// Three territories in a line: 0 - 1 - 2.
fn line_board(owners: [usize; 3], dice: [u32; 3]) -> Board {
    Board {
        teritories: vec![
            teritory(owners[0], dice[0], vec![1]),
            teritory(owners[1], dice[1], vec![0, 2]),
            teritory(owners[2], dice[2], vec![1]),
        ],
    }
}

fn new_err(board: Board, players: usize) -> GameError {
    match GameState::new(board, players, Some(1)) {
        Ok(_) => panic!("the engine accepted an invalid board"),
        Err(e) => e,
    }
}

fn game(board: Board, players: usize, seed: u64) -> GameState {
    match GameState::new(board, players, Some(seed)) {
        Ok(g) => g,
        Err(_) => panic!("engine refused a valid board"),
    }
}

#[test]
fn new_refuses_zero_players() {
    let b = line_board([0, 0, 0], [1, 1, 1]);
    assert_eq!(new_err(b, 0), GameError::OutOfRange);
}

#[test]
fn new_refuses_an_empty_board() {
    let b = Board { teritories: Vec::new() };
    assert_eq!(new_err(b, 2), GameError::OutOfRange);
}

#[test]
fn new_refuses_an_owner_beyond_the_player_count() {
    let b = line_board([0, 5, 0], [1, 1, 1]);
    assert_eq!(new_err(b, 2), GameError::OutOfRange);
}

#[test]
fn new_refuses_a_connection_beyond_the_board() {
    let b = Board { teritories: vec![teritory(0, 1, vec![9]), teritory(0, 1, vec![0])] };
    assert_eq!(new_err(b, 1), GameError::OutOfRange);
}

#[test]
fn new_refuses_a_repeated_connection() {
    let b = Board { teritories: vec![teritory(0, 1, vec![1, 1]), teritory(0, 1, vec![0])] };
    assert_eq!(new_err(b, 1), GameError::OutOfRange);
}

#[test]
fn new_refuses_a_self_connection() {
    let b = Board { teritories: vec![teritory(0, 1, vec![0]), teritory(0, 1, vec![0])] };
    assert_eq!(new_err(b, 1), GameError::OutOfRange);
}

#[test]
fn queries_report_the_wrapped_board() {
    let g = game(line_board([0, 1, 0], [2, 5, 3]), 2, 7);
    assert_eq!(g.territory_count(), 3);
    assert_eq!(g.player_count(), 2);
    assert_eq!(g.current_player(), 0);
    assert_eq!(g.owner(1).unwrap(), 1);
    assert_eq!(g.reinforcement_count(2).unwrap(), 3);
    assert_eq!(g.neighbors(1).unwrap(), vec![0, 2]);
    assert!(!g.is_finished());
}

#[test]
fn queries_refuse_a_bad_index() {
    let g = game(line_board([0, 1, 0], [2, 5, 3]), 2, 7);
    assert_eq!(g.owner(3).unwrap_err(), GameError::OutOfRange);
    assert_eq!(g.reinforcement_count(99).unwrap_err(), GameError::OutOfRange);
    assert_eq!(g.neighbors(3).unwrap_err(), GameError::OutOfRange);
}

#[test]
fn available_moves_lists_adjacent_enemies_only() {
    let g = game(line_board([0, 1, 0], [2, 5, 3]), 2, 7);
    // territory 0: owned by the current player, 2 dice, enemy neighbor 1
    assert_eq!(g.available_moves(0), vec![1]);
    // territory 2 is also the current player's; its only neighbor is enemy
    assert_eq!(g.available_moves(2), vec![1]);
    // territory 1 belongs to player 1, not the current player
    assert_eq!(g.available_moves(1), Vec::<usize>::new());
}

#[test]
fn available_moves_never_offers_a_friendly_territory() {
    let g = game(line_board([0, 0, 1], [5, 5, 5]), 2, 7);
    // territory 1 is not the mover here; and from 0 only friendly 1 is adjacent
    assert_eq!(g.available_moves(0), Vec::<usize>::new());
    let moves = g.available_moves(1);
    assert!(!moves.contains(&1), "a territory may not attack itself");
    assert_eq!(moves, vec![2]);
}

#[test]
fn available_moves_is_empty_with_a_single_unit() {
    let g = game(line_board([0, 1, 0], [1, 5, 1]), 2, 7);
    assert_eq!(g.available_moves(0), Vec::<usize>::new());
    assert_eq!(g.available_moves(2), Vec::<usize>::new());
}

#[test]
fn available_moves_is_empty_for_a_bad_index() {
    let g = game(line_board([0, 1, 0], [2, 5, 3]), 2, 7);
    assert_eq!(g.available_moves(99), Vec::<usize>::new());
}

#[test]
fn make_move_refuses_a_bad_index() {
    let mut g = game(line_board([0, 1, 0], [2, 5, 3]), 2, 7);
    assert_eq!(g.make_move(99, 1).unwrap_err(), GameError::OutOfRange);
    assert_eq!(g.make_move(0, 99).unwrap_err(), GameError::OutOfRange);
}

#[test]
fn make_move_refuses_an_illegal_attack() {
    let mut g = game(line_board([0, 1, 0], [2, 5, 3]), 2, 7);
    // not the current player's territory
    assert_eq!(g.make_move(1, 0).unwrap_err(), GameError::IllegalMove);
    // not adjacent
    assert_eq!(g.make_move(0, 2).unwrap_err(), GameError::IllegalMove);
    // nothing changed
    assert_eq!(g.reinforcement_count(0).unwrap(), 2);
    assert_eq!(g.reinforcement_count(1).unwrap(), 5);
}

#[test]
fn make_move_refuses_a_friendly_target() {
    let mut g = game(line_board([0, 0, 1], [5, 5, 5]), 2, 7);
    assert_eq!(g.make_move(0, 1).unwrap_err(), GameError::IllegalMove);
}

#[test]
fn make_move_refuses_a_single_unit_source() {
    let mut g = game(line_board([0, 1, 0], [1, 5, 3]), 2, 7);
    assert_eq!(g.make_move(0, 1).unwrap_err(), GameError::IllegalMove);
}

#[test]
fn an_overwhelming_attack_captures_the_target() {
    // 8 attacking dice roll at least 8; 1 defending die rolls at most 6
    let mut g = game(line_board([0, 1, 1], [8, 1, 5]), 2, 7);
    let outcome = g.make_move(0, 1).unwrap();
    assert_eq!(outcome.winner, Winner::Attacker);
    assert!(outcome.attacker_roll > outcome.defender_roll);
    assert_eq!(g.owner(1).unwrap(), 0);
    assert_eq!(g.reinforcement_count(1).unwrap(), 7);
    assert_eq!(g.reinforcement_count(0).unwrap(), 1);
    // the bystander is untouched
    assert_eq!(g.owner(2).unwrap(), 1);
    assert_eq!(g.reinforcement_count(2).unwrap(), 5);
}

#[test]
fn combat_conserves_the_loser_and_transfers_on_capture() {
    for seed in 0u64..10 {
        let mut g = game(line_board([0, 1, 1], [3, 4, 5]), 2, seed);
        let outcome = g.make_move(0, 1).unwrap();
        // dice roll sums are one to six per unit
        assert!(3 <= outcome.attacker_roll && outcome.attacker_roll <= 18);
        assert!(4 <= outcome.defender_roll && outcome.defender_roll <= 24);
        // the source always keeps exactly one unit behind
        assert_eq!(g.reinforcement_count(0).unwrap(), 1);
        let captured = g.owner(1).unwrap() == 0;
        match outcome.winner {
            Winner::Attacker => {
                assert!(outcome.attacker_roll > outcome.defender_roll);
                assert!(captured, "ownership must change exactly when the attacker wins");
                assert_eq!(g.reinforcement_count(1).unwrap(), 2);
            }
            Winner::Defender => {
                assert!(outcome.attacker_roll <= outcome.defender_roll);
                assert!(!captured, "ownership may change only when the attacker wins");
                assert_eq!(g.owner(1).unwrap(), 1);
                assert_eq!(g.reinforcement_count(1).unwrap(), 4);
            }
        }
    }
}

#[test]
fn make_move_does_not_advance_the_turn() {
    let mut g = game(line_board([0, 1, 1], [8, 1, 5]), 2, 7);
    g.make_move(0, 1).unwrap();
    assert_eq!(g.current_player(), 0);
}

#[test]
fn finish_turn_reinforces_the_current_player_up_to_the_cap() {
    let mut g = game(line_board([0, 0, 1], [8, 3, 5]), 2, 7);
    g.finish_turn().unwrap();
    // territory 0 was at the cap, territory 1 gains one, the enemy none
    assert_eq!(g.reinforcement_count(0).unwrap(), 8);
    assert_eq!(g.reinforcement_count(1).unwrap(), 4);
    assert_eq!(g.reinforcement_count(2).unwrap(), 5);
    assert_eq!(g.current_player(), 1);
}

#[test]
fn finish_turn_skips_an_eliminated_player() {
    // three players, but player 1 has lost every territory to player 0
    let mut g = game(line_board([0, 0, 2], [2, 2, 2]), 3, 7);
    assert_eq!(g.current_player(), 0);
    g.finish_turn().unwrap();
    assert_eq!(g.current_player(), 2, "the turn must skip the eliminated player 1");
}

#[test]
fn turn_rotation_comes_back_around() {
    let mut g = game(line_board([0, 0, 2], [2, 2, 2]), 3, 7);
    g.finish_turn().unwrap();
    assert_eq!(g.current_player(), 2);
    g.finish_turn().unwrap();
    assert_eq!(g.current_player(), 0);
}

#[test]
fn a_won_game_refuses_every_command() {
    let mut g = game(line_board([1, 1, 1], [2, 2, 2]), 2, 7);
    assert!(g.is_finished());
    assert_eq!(g.make_move(0, 1).unwrap_err(), GameError::GameOver);
    assert_eq!(g.finish_turn().unwrap_err(), GameError::GameOver);
    // nothing changed
    assert_eq!(g.current_player(), 0);
    assert_eq!(g.reinforcement_count(0).unwrap(), 2);
}

#[test]
fn capturing_the_last_enemy_territory_finishes_the_game() {
    let mut g = game(line_board([0, 1, 0], [8, 1, 2]), 2, 7);
    assert!(!g.is_finished());
    let outcome = g.make_move(0, 1).unwrap();
    assert_eq!(outcome.winner, Winner::Attacker);
    assert!(g.is_finished());
    assert_eq!(g.finish_turn().unwrap_err(), GameError::GameOver);
}

#[test]
fn a_generated_board_plays() {
    let b = Board::generate(12, 3, Some(9)).unwrap();
    let mut g = GameState::new(b, 3, Some(9)).unwrap();
    // drive a few turns: attack whenever a move is open, then pass the turn
    for _ in 0..12 {
        if g.is_finished() {
            break;
        }
        let n = g.territory_count();
        for s in 0..n {
            let moves = g.available_moves(s);
            if let Some(&t) = moves.first() {
                let owner_before = g.owner(t).unwrap();
                let outcome = g.make_move(s, t).unwrap();
                let owner_after = g.owner(t).unwrap();
                assert_eq!(g.reinforcement_count(s).unwrap(), 1);
                assert_eq!(owner_after != owner_before, outcome.winner == Winner::Attacker);
                break;
            }
        }
        match g.finish_turn() {
            Ok(()) => {}
            Err(e) => assert_eq!(e, GameError::GameOver),
        }
    }
}

/// Two territories facing each other.
fn pair_board(owners: [usize; 2], dice: [u32; 2]) -> Board {
    Board {
        teritories: vec![
            teritory(owners[0], dice[0], vec![1]),
            teritory(owners[1], dice[1], vec![0]),
        ],
    }
}

#[test]
fn spread_dice_passes_over_a_capped_neighbor() {
    let mut g = game(pair_board([0, 1], [3, 8]), 2, 7);
    g.spread_dice();
    // territory 0 cannot give to the capped 1 and keeps its stack;
    // territory 1 then hands one die to 0 and keeps the rest
    assert_eq!(g.reinforcement_count(0).unwrap(), 4);
    assert_eq!(g.reinforcement_count(1).unwrap(), 7);
    assert_eq!(g.owner(0).unwrap(), 0);
    assert_eq!(g.owner(1).unwrap(), 1);
}

#[test]
fn spread_dice_hands_one_die_per_listed_connection() {
    let mut g = game(line_board([0, 1, 0], [5, 1, 1]), 2, 7);
    g.spread_dice();
    // 0 gives its die budget one at a time: one to 1, keeping 4; 1 gives
    // one back to 0 and one to 2, keeping none; 2 returns one to 1
    assert_eq!(g.reinforcement_count(0).unwrap(), 5);
    assert_eq!(g.reinforcement_count(1).unwrap(), 1);
    assert_eq!(g.reinforcement_count(2).unwrap(), 1);
}

#[test]
fn spread_dice_conserves_the_total() {
    let b = Board::generate(14, 3, Some(21)).unwrap();
    let mut g = GameState::new(b, 3, Some(21)).unwrap();
    let total_before: u32 = (0..g.territory_count())
        .map(|i| g.reinforcement_count(i).unwrap())
        .sum();
    g.spread_dice();
    let total_after: u32 = (0..g.territory_count())
        .map(|i| g.reinforcement_count(i).unwrap())
        .sum();
    assert_eq!(total_before, total_after);
    assert_eq!(g.current_player(), 0);
}
