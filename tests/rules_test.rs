use stackattack::block::{spawn_random_block, Block};
use stackattack::game::GameState;
use stackattack::input::{InputArbiter, Key};
use stackattack::player::Player;
use stackattack::types::{GameConfig, GameUpdateResult, InputAction};

fn resting(x: usize, y: usize) -> Block {
    Block { position: (x, y), falling: false, carried: false, carrying_direction: None }
}

fn falling(x: usize, y: usize) -> Block {
    Block { position: (x, y), falling: true, carried: false, carrying_direction: None }
}

fn empty_game(grid_size: usize, block_fall_speed: usize) -> GameState {
    let mut game = GameState::new(GameConfig {
        grid_size,
        cell_size: 30,
        refresh_rate_milliseconds: 200,
        block_fall_speed,
        block_spawn_rate: 10,
    });
    game.blocks.clear();
    game
}

#[test]
fn spawned_blocks_start_falling_on_the_top_row() {
    for grid_size in [1usize, 2, 3, 16] {
        for _ in 0..50 {
            let b = spawn_random_block(grid_size);
            assert!(b.position.0 < grid_size);
            assert_eq!(b.position.1, 0);
            assert!(b.falling);
            assert!(!b.carried);
            assert_eq!(b.carrying_direction, None);
        }
    }
}

#[test]
fn settling_leaves_no_resting_block_unsupported() {
    let mut game = empty_game(6, 1);
    game.blocks = vec![
        resting(0, 5),
        resting(0, 4),
        resting(0, 2),
        resting(0, 1),
        resting(3, 3),
        resting(4, 5),
        falling(4, 4),
        resting(4, 3),
    ];
    game.check_for_levitating_blocks();
    let flags: Vec<bool> = game.blocks.iter().map(|b| b.falling).collect();
    assert_eq!(flags, vec![false, false, true, true, true, false, true, true]);
    for b in game.blocks.iter().filter(|b| !b.falling) {
        let (x, y) = b.position;
        assert!(
            y == game.grid_size - 1
                || game.blocks.iter().any(|c| !c.falling && c.position == (x, y + 1))
        );
    }
}

#[test]
fn clearing_a_row_scores_one_and_takes_only_that_row() {
    let mut game = empty_game(3, 1);
    game.blocks = vec![resting(0, 1), resting(0, 2), resting(1, 2), resting(1, 1), resting(2, 2)];
    game.check_full_rows();
    assert_eq!(game.score, 1);
    assert_eq!(game.blocks.len(), 2);
    assert_eq!(game.blocks[0].position, (0, 1));
    assert_eq!(game.blocks[1].position, (1, 1));
    assert!(game.blocks[0].falling);
    assert!(game.blocks[1].falling);
}

#[test]
fn two_full_rows_are_cleared_one_per_call() {
    let mut game = empty_game(3, 1);
    for x in 0..3 {
        game.blocks.push(resting(x, 2));
        game.blocks.push(resting(x, 1));
    }
    game.check_full_rows();
    assert_eq!(game.score, 1);
    assert_eq!(game.blocks.len(), 3);
    assert!(game.blocks.iter().all(|b| b.position.1 == 1));
    for b in game.blocks.iter_mut() {
        b.falling = false;
        b.position.1 = 2;
    }
    game.check_full_rows();
    assert_eq!(game.score, 2);
    assert!(game.blocks.is_empty());
}

#[test]
fn a_full_row_above_the_floor_is_cleared_too() {
    let mut game = empty_game(3, 1);
    game.blocks = vec![resting(0, 1), resting(1, 1), resting(2, 1), resting(1, 0)];
    game.check_full_rows();
    assert_eq!(game.score, 1);
    assert_eq!(game.blocks.len(), 1);
    assert_eq!(game.blocks[0].position, (1, 0));
    assert!(game.blocks[0].falling);
}

#[test]
fn a_row_with_a_falling_block_is_not_full() {
    let mut game = empty_game(3, 1);
    game.blocks = vec![resting(0, 2), falling(1, 2), resting(2, 2)];
    game.check_full_rows();
    assert_eq!(game.score, 0);
    assert_eq!(game.blocks.len(), 3);
}

#[test]
fn a_blocked_push_moves_nothing() {
    let mut player = Player::new(10);
    player.position = (2, 7);
    let mut blocks = vec![resting(3, 8), resting(3, 7), resting(3, 6), resting(4, 6)];
    player.move_right(&mut blocks);
    assert_eq!(player.position, (2, 7));
    let xs: Vec<usize> = blocks.iter().map(|b| b.position.0).collect();
    assert_eq!(xs, vec![3, 3, 3, 4]);
}

#[test]
fn a_stack_above_a_gap_stays_behind() {
    let mut player = Player::new(10);
    player.position = (2, 7);
    let mut blocks = vec![resting(3, 8), resting(3, 5), resting(4, 5)];
    player.move_right(&mut blocks);
    assert_eq!(player.position, (3, 7));
    let xs: Vec<usize> = blocks.iter().map(|b| b.position.0).collect();
    assert_eq!(xs, vec![4, 3, 4]);
}

#[test]
fn a_carried_block_is_kept_only_in_its_direction() {
    let player = Player::new(10);
    let carried = Block { position: (3, 3), falling: false, carried: true, carrying_direction: Some(-1) };
    let mut blocks = vec![carried];
    player.release_carried_blocks(&mut blocks, Some(-1));
    assert!(blocks[0].carried);
    assert!(!blocks[0].falling);
    assert_eq!(blocks[0].carrying_direction, Some(-1));
    for dir in [None, Some(1), Some(2)] {
        let mut blocks = vec![carried, resting(5, 9)];
        player.release_carried_blocks(&mut blocks, dir);
        assert!(!blocks[0].carried);
        assert!(blocks[0].falling);
        assert_eq!(blocks[0].carrying_direction, None);
        assert!(!blocks[1].falling);
    }
}

#[test]
fn repeated_moves_at_the_edges_change_nothing() {
    let mut player = Player::new(6);
    player.position = (0, 4);
    let mut blocks = vec![resting(1, 3)];
    for _ in 0..5 {
        player.move_left(&mut blocks);
        assert_eq!(player.position, (0, 4));
    }
    player.position = (5, 4);
    for _ in 0..5 {
        player.move_right(&mut blocks);
        assert_eq!(player.position, (5, 4));
    }
    assert_eq!(blocks[0].position, (1, 3));
}

#[test]
fn clearing_the_bottom_row_of_a_four_grid() {
    let mut game = empty_game(4, 1);
    for x in 0..4 {
        game.blocks.push(resting(x, 3));
    }
    game.blocks.push(resting(0, 2));
    game.blocks.push(resting(2, 2));
    game.check_full_rows();
    assert_eq!(game.score, 1);
    assert_eq!(game.blocks.len(), 2);
    assert_eq!(game.blocks[0].position, (0, 2));
    assert_eq!(game.blocks[1].position, (2, 2));
}

#[test]
fn pushing_a_block_into_a_free_cell() {
    let mut player = Player::new(10);
    player.position = (2, 8);
    let mut blocks = vec![resting(3, 8)];
    player.move_right(&mut blocks);
    assert_eq!(player.position.0, 3);
    assert_eq!(blocks[0].position, (4, 8));
}

#[test]
fn pushing_a_block_against_another_block() {
    let mut player = Player::new(10);
    player.position = (2, 8);
    let mut blocks = vec![resting(3, 8), resting(4, 8)];
    player.move_right(&mut blocks);
    assert_eq!(player.position.0, 2);
    assert_eq!(blocks[0].position, (3, 8));
    assert_eq!(blocks[1].position, (4, 8));
}

#[test]
fn falling_starts_on_the_third_delay_tick() {
    let mut player = Player::new(10);
    player.position = (4, 4);
    let blocks: Vec<Block> = Vec::new();
    player.update_falling_state(&blocks, 10);
    assert!(!player.is_falling);
    player.update_fall_delay();
    assert!(!player.is_falling);
    player.update_fall_delay();
    assert!(!player.is_falling);
    player.update_fall_delay();
    assert!(player.is_falling);
}

#[test]
fn a_falling_block_met_at_body_level_moves_but_is_not_carried() {
    let mut player = Player::new(10);
    player.position = (5, 7);
    let mut blocks = vec![falling(6, 8)];
    player.move_right(&mut blocks);
    assert_eq!(player.position.0, 6);
    assert_eq!(blocks[0].position, (7, 8));
    assert!(!blocks[0].carried);
    assert_eq!(blocks[0].carrying_direction, None);
}

#[test]
fn a_carry_is_refused_when_the_block_cannot_enter_its_cell() {
    let mut player = Player::new(10);
    player.position = (5, 7);
    let mut blocks = vec![falling(6, 7), resting(7, 7)];
    player.move_right(&mut blocks);
    assert_eq!(player.position.0, 5);
    assert_eq!(blocks[0].position, (6, 7));
    assert!(!blocks[0].carried);
}

#[test]
fn a_carry_left_marks_the_block_with_direction_minus_one() {
    let mut player = Player::new(10);
    player.position = (5, 7);
    let mut blocks = vec![falling(4, 7)];
    player.move_left(&mut blocks);
    assert_eq!(player.position.0, 4);
    assert_eq!(blocks[0].position, (3, 7));
    assert!(blocks[0].carried);
    assert_eq!(blocks[0].carrying_direction, Some(-1));
}

#[test]
fn a_player_on_an_odd_grid_starts_in_the_middle() {
    let player = Player::new(7);
    assert_eq!(player.position, (3, 5));
    let player = Player::new(2);
    assert_eq!(player.position, (0, 0));
}

#[test]
fn a_jump_at_the_top_row_is_refused() {
    let mut player = Player::new(10);
    player.position = (4, 0);
    player.jump();
    assert_eq!(player.position, (4, 0));
    assert!(!player.in_air);
}

#[test]
fn a_jump_lands_after_two_ticks() {
    let mut player = Player::new(10);
    let blocks: Vec<Block> = Vec::new();
    player.jump();
    assert_eq!(player.position.1, 7);
    player.update_jump();
    player.land(&blocks, 10);
    assert!(player.in_air);
    player.update_jump();
    player.land(&blocks, 10);
    assert!(!player.in_air);
    assert!(player.is_falling);
    player.apply_gravity();
    assert_eq!(player.position.1, 8);
    player.land(&blocks, 10);
    assert!(!player.is_falling);
}

#[test]
fn a_block_falling_onto_the_player_ends_the_game() {
    let mut game = empty_game(5, 1);
    game.player.position = (2, 3);
    game.blocks = vec![falling(2, 2), falling(4, 0)];
    game.update_falling_blocks();
    assert!(game.game_over);
    assert_eq!(game.blocks[0].position, (2, 2));
    assert_eq!(game.blocks[1].position, (4, 0));
    assert!(matches!(game.update(), GameUpdateResult::GameOver));
    assert!(matches!(game.process_input(InputAction::Left), GameUpdateResult::GameOver));
    assert!(matches!(game.process_input(InputAction::Restart), GameUpdateResult::Restart));
    assert!(!game.game_over);
    assert_eq!(game.blocks.len(), 1);
}

#[test]
fn a_fast_block_stops_at_the_floor_or_above_a_resting_block() {
    let mut game = empty_game(5, 3);
    game.player.position = (0, 3);
    game.blocks = vec![falling(2, 3), falling(3, 0), resting(3, 3)];
    game.update_falling_blocks();
    assert_eq!(game.blocks[0].position, (2, 4));
    assert!(!game.blocks[0].falling);
    assert_eq!(game.blocks[1].position, (3, 0));
    assert!(!game.blocks[1].falling);
    assert!(!game.game_over);
}

#[test]
fn a_tick_spawns_when_the_counter_reaches_the_rate() {
    let mut game = empty_game(5, 1);
    game.block_spawn_rate = 2;
    game.block_spawn_counter = 1;
    assert!(matches!(game.update(), GameUpdateResult::Continue));
    assert_eq!(game.block_spawn_counter, 0);
    assert_eq!(game.blocks.len(), 1);
    assert_eq!(game.blocks[0].position.1, 0);
}

#[test]
fn a_tick_is_due_once_the_interval_has_passed() {
    let game = empty_game(5, 1);
    assert!(!game.tick_due(199));
    assert!(game.tick_due(200));
    assert!(game.tick_due(201));
}

#[test]
fn an_idle_input_lets_go_of_carried_blocks() {
    let mut game = empty_game(5, 1);
    game.blocks = vec![Block { position: (3, 2), falling: true, carried: true, carrying_direction: Some(1) }];
    game.last_move_direction = Some(1);
    assert!(matches!(game.process_input(InputAction::Idle), GameUpdateResult::Continue));
    assert!(!game.blocks[0].carried);
    assert!(game.blocks[0].falling);
    assert_eq!(game.last_move_direction, None);
}

#[test]
fn the_input_arbiter_prefers_up_then_the_latest_direction() {
    let mut arbiter = InputArbiter::new();
    assert_eq!(arbiter.take_action(), InputAction::Idle);
    arbiter.key_down(Key::Left);
    arbiter.key_down(Key::Right);
    assert_eq!(arbiter.take_action(), InputAction::Right);
    arbiter.key_down(Key::Left);
    assert_eq!(arbiter.take_action(), InputAction::Left);
    assert_eq!(arbiter.take_action(), InputAction::Left);
    arbiter.key_down(Key::Up);
    assert_eq!(arbiter.take_action(), InputAction::Up);
    assert_eq!(arbiter.take_action(), InputAction::Left);
    arbiter.key_up(Key::Left);
    assert_eq!(arbiter.take_action(), InputAction::Right);
    arbiter.key_up(Key::Right);
    assert_eq!(arbiter.take_action(), InputAction::Idle);
}

#[test]
fn releasing_up_leaves_a_held_direction_in_charge() {
    let mut arbiter = InputArbiter::new();
    arbiter.key_down(Key::Right);
    arbiter.key_down(Key::Up);
    arbiter.key_up(Key::Up);
    assert_eq!(arbiter.held_directions, vec![Key::Right]);
    assert_eq!(arbiter.determine_movement(), InputAction::Up);
    assert_eq!(arbiter.take_action(), InputAction::Up);
    assert_eq!(arbiter.take_action(), InputAction::Right);
}
