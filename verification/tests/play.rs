use std::collections::VecDeque;

use tetrust::block::block_kind::{GHOST, I, NONE, O};
use tetrust::block::BlockKind;
use tetrust::board::empty_field;
use tetrust::game::{Field, Game, Position, FIELD_WIDTH};
use tetrust::motion::turn_right;
use tetrust::play::{
    allows, allows_fall, apply, fall, fall_interval_msec, ghost_of, screen, Command, Outcome,
};

fn game_at_entry(kind: BlockKind) -> Game {
    let mut game = Game::new();
    game.field = empty_field();
    game.pos = Position::init();
    game.block = kind.shape();
    game.hold = None;
    game.holded = false;
    game.next = VecDeque::from(vec![BlockKind::O.shape(); 7]);
    game.next_buf = VecDeque::from(vec![BlockKind::O.shape(); 6]);
    game.score = 0;
    game.line = 0;
    game
}

fn fill_row_except(field: &mut Field, y: usize, gaps: &[usize]) {
    for x in 2..FIELD_WIDTH - 2 {
        if !gaps.contains(&x) {
            field[y][x] = O;
        }
    }
}

#[test]
fn commands_move_the_piece() {
    let mut game = game_at_entry(BlockKind::T);
    assert_eq!(apply(&mut game, Command::MoveLeft), Outcome::Falling);
    assert_eq!(game.pos, Position { x: 4, y: 0 });
    assert_eq!(apply(&mut game, Command::SoftDrop), Outcome::Falling);
    assert_eq!(game.pos, Position { x: 4, y: 1 });
    assert_eq!(apply(&mut game, Command::MoveRight), Outcome::Falling);
    assert_eq!(apply(&mut game, Command::MoveRight), Outcome::Falling);
    assert_eq!(game.pos, Position { x: 6, y: 1 });
    assert_eq!(game.block, BlockKind::T.shape());
    assert_eq!(game.field, empty_field());
}

#[test]
fn moves_stop_at_the_walls_and_the_floor() {
    let mut game = game_at_entry(BlockKind::O);
    for _ in 0..20 {
        assert_eq!(apply(&mut game, Command::MoveLeft), Outcome::Falling);
    }
    // the O fills columns 1 and 2 of its box
    assert_eq!(game.pos, Position { x: 1, y: 0 });
    for _ in 0..20 {
        assert_eq!(apply(&mut game, Command::MoveRight), Outcome::Falling);
    }
    assert_eq!(game.pos, Position { x: 10, y: 0 });
    for _ in 0..30 {
        assert_eq!(apply(&mut game, Command::SoftDrop), Outcome::Falling);
    }
    assert_eq!(game.pos, Position { x: 10, y: 17 });
    assert_eq!(game.field, empty_field());
}

#[test]
fn commands_turn_the_piece() {
    let mut game = game_at_entry(BlockKind::I);
    assert_eq!(apply(&mut game, Command::RotateRight), Outcome::Falling);
    assert_eq!(game.block, turn_right(&BlockKind::I.shape()));
    assert_eq!(apply(&mut game, Command::RotateLeft), Outcome::Falling);
    assert_eq!(game.block, BlockKind::I.shape());
    assert_eq!(game.pos, Position::init());
}

#[test]
fn hard_drop_fixes_the_piece_and_brings_the_next_in() {
    let mut game = game_at_entry(BlockKind::I);
    assert!(allows(&game, Command::HardDrop));
    assert_eq!(apply(&mut game, Command::HardDrop), Outcome::Falling);
    for x in 5..9 {
        assert_eq!(game.field[19][x], I);
    }
    assert_eq!(game.block, BlockKind::O.shape());
    assert_eq!(game.pos, Position::init());
    assert_eq!((game.score, game.line), (0, 0));
}

#[test]
fn hard_drop_that_fills_a_row_scores() {
    let mut game = game_at_entry(BlockKind::I);
    fill_row_except(&mut game.field, 19, &[5, 6, 7, 8]);
    assert_eq!(apply(&mut game, Command::HardDrop), Outcome::Falling);
    assert_eq!((game.score, game.line), (1, 1));
    assert_eq!(game.field, empty_field());
}

#[test]
fn hard_drop_ends_the_game_when_the_next_piece_has_no_room() {
    let mut game = game_at_entry(BlockKind::I);
    for y in 3..20 {
        game.field[y][6] = O;
    }
    assert_eq!(apply(&mut game, Command::HardDrop), Outcome::GameOver);
}

#[test]
fn hold_and_quit() {
    let mut game = game_at_entry(BlockKind::I);
    assert_eq!(apply(&mut game, Command::Hold), Outcome::Falling);
    assert_eq!(game.hold, Some(BlockKind::I.shape()));
    assert_eq!(game.block, BlockKind::O.shape());
    let before = game.clone();
    assert_eq!(apply(&mut game, Command::Hold), Outcome::Falling);
    assert_eq!(game.hold, before.hold);
    assert_eq!(game.block, before.block);
    assert_eq!(game.next, before.next);
    assert_eq!(apply(&mut game, Command::Quit), Outcome::Quit);
    assert_eq!(game.block, before.block);
    assert_eq!(game.pos, before.pos);
    assert_eq!(game.field, before.field);
}

#[test]
fn every_command_but_a_hard_drop_can_always_be_carried_out() {
    let mut game = game_at_entry(BlockKind::I);
    game.block = turn_right(&BlockKind::I.shape());
    game.pos = Position { x: 5, y: 12 };
    for y in 16..20 {
        fill_row_except(&mut game.field, y, &[6]);
    }
    fill_row_except(&mut game.field, 5, &[]);
    // five rows at once are more than the score table knows
    assert!(!allows(&game, Command::HardDrop));
    for command in [
        Command::MoveLeft,
        Command::MoveRight,
        Command::SoftDrop,
        Command::RotateLeft,
        Command::RotateRight,
        Command::Hold,
        Command::Quit,
    ] {
        assert!(allows(&game, command));
    }
    game.field[5][2] = NONE;
    assert!(allows(&game, Command::HardDrop));
    assert_eq!(apply(&mut game, Command::HardDrop), Outcome::Falling);
    assert_eq!((game.score, game.line), (100, 4));
}

#[test]
fn fall_goes_down_by_one_cell() {
    let mut game = game_at_entry(BlockKind::I);
    assert!(allows_fall(&game));
    assert_eq!(fall(&mut game), Outcome::Falling);
    assert_eq!(game.pos, Position { x: 5, y: 1 });
    assert_eq!(game.block, BlockKind::I.shape());
    assert_eq!(game.field, empty_field());
}

#[test]
fn fall_on_the_floor_fixes_the_piece() {
    let mut game = game_at_entry(BlockKind::I);
    game.pos = Position { x: 5, y: 17 };
    game.holded = true;
    assert!(allows_fall(&game));
    assert_eq!(fall(&mut game), Outcome::Falling);
    for x in 5..9 {
        assert_eq!(game.field[19][x], I);
    }
    assert_eq!(game.block, BlockKind::O.shape());
    assert_eq!(game.pos, Position::init());
    assert!(!game.holded);
}

#[test]
fn fall_ends_the_game_when_the_next_piece_has_no_room() {
    let mut game = game_at_entry(BlockKind::I);
    for y in 3..20 {
        game.field[y][6] = O;
    }
    assert_eq!(fall(&mut game), Outcome::GameOver);
    assert_eq!(game.field[2][5], I);
}

#[test]
fn fall_waits_less_as_rows_are_cleared() {
    assert_eq!(fall_interval_msec(0), 1000);
    assert_eq!(fall_interval_msec(9), 1000);
    assert_eq!(fall_interval_msec(10), 900);
    assert_eq!(fall_interval_msec(45), 600);
    assert_eq!(fall_interval_msec(89), 200);
    assert_eq!(fall_interval_msec(90), 100);
    assert_eq!(fall_interval_msec(99), 100);
    assert_eq!(fall_interval_msec(100), 100);
    assert_eq!(fall_interval_msec(256), 100);
    assert_eq!(fall_interval_msec(usize::MAX), 100);
}

#[test]
fn ghost_of_a_shape() {
    assert_eq!(
        ghost_of(&BlockKind::S.shape()),
        [
            [0, 0, 0, 0],
            [0, GHOST, GHOST, 0],
            [GHOST, GHOST, 0, 0],
            [0, 0, 0, 0]
        ]
    );
    assert_eq!(ghost_of(&[[0; 4]; 4]), [[0; 4]; 4]);
}

#[test]
fn screen_shows_the_piece_and_its_shadow() {
    let mut game = game_at_entry(BlockKind::I);
    game.field[19][2] = O;
    let view = screen(&game);
    let mut expected = game.field;
    for x in 5..9 {
        expected[2][x] = I;
        expected[19][x] = GHOST;
    }
    assert_eq!(view, expected);
    // the game itself is as it was
    assert_eq!(game.field[2][5], NONE);
    assert_eq!(game.field[19][5], NONE);
}

#[test]
fn screen_shows_the_piece_over_its_shadow() {
    let mut game = game_at_entry(BlockKind::I);
    game.block = turn_right(&BlockKind::I.shape());
    game.pos = Position { x: 5, y: 14 };
    let view = screen(&game);
    let mut expected = game.field;
    for y in 14..18 {
        expected[y][6] = I;
    }
    for y in 18..20 {
        expected[y][6] = GHOST;
    }
    assert_eq!(view, expected);
}

#[test]
fn move_left_in_the_first_column_stays() {
    let mut game = game_at_entry(BlockKind::I);
    game.block = tetrust::motion::turn_left(&BlockKind::I.shape());
    for _ in 0..10 {
        assert_eq!(apply(&mut game, Command::MoveLeft), Outcome::Falling);
    }
    assert_eq!(game.pos, Position { x: 0, y: 0 });
    assert_eq!(apply(&mut game, Command::MoveLeft), Outcome::Falling);
    assert_eq!(game.pos, Position { x: 0, y: 0 });
}
