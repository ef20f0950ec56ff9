use std::collections::VecDeque;

use tetrust::block::block_kind::O;
use tetrust::block::{gen_block_7, BlockKind};
use tetrust::board::empty_field;
use tetrust::ga::play_move;
use tetrust::game::{hard_drop, hold, landing, rotate_left, rotate_right, Game, Position};
use tetrust::motion::{turn_left, turn_right};
use tetrust::order::{are_anchored, is_anchored, is_in_well, is_walled};
use tetrust::play::{allows, apply, Command, Outcome};

#[test]
fn every_piece_is_anchored_whichever_way_it_is_turned() {
    for shape in gen_block_7() {
        let mut turned = shape;
        for _ in 0..4 {
            assert!(is_anchored(&turned));
            assert!(is_anchored(&turn_left(&turned)));
            turned = turn_right(&turned);
        }
    }
}

#[test]
fn shapes_that_are_not_anchored() {
    assert!(!is_anchored(&[[0; 4]; 4]));
    // one cell
    assert!(!is_anchored(&[
        [0, 0, 0, 0],
        [0, 4, 0, 0],
        [0, 0, 0, 0],
        [0, 0, 0, 0]
    ]));
    // two central cells corner to corner
    assert!(!is_anchored(&[
        [0, 0, 0, 0],
        [0, 4, 0, 0],
        [0, 0, 4, 0],
        [0, 0, 0, 0]
    ]));
    // a pair side by side, and a cell in the first row without a pair below it
    assert!(!is_anchored(&[
        [0, 0, 0, 4],
        [0, 4, 4, 0],
        [0, 0, 0, 0],
        [0, 0, 0, 0]
    ]));
    // a pair one above the other, and a cell in the last column
    assert!(!is_anchored(&[
        [0, 0, 0, 0],
        [0, 4, 0, 0],
        [0, 4, 0, 4],
        [0, 0, 0, 0]
    ]));
    // the pair alone
    assert!(is_anchored(&[
        [0, 0, 0, 0],
        [0, 4, 4, 0],
        [0, 0, 0, 0],
        [0, 0, 0, 0]
    ]));
}

#[test]
fn the_well_is_between_the_walls_and_above_the_floor() {
    let lying = BlockKind::I.shape();
    let upright = turn_right(&lying);
    assert!(is_in_well(&Position::init(), &lying));
    assert!(is_in_well(&Position { x: 2, y: 17 }, &lying));
    assert!(!is_in_well(&Position { x: 1, y: 17 }, &lying));
    assert!(is_in_well(&Position { x: 9, y: 0 }, &lying));
    assert!(!is_in_well(&Position { x: 10, y: 0 }, &lying));
    assert!(!is_in_well(&Position { x: 2, y: 18 }, &lying));
    assert!(is_in_well(&Position { x: 1, y: 16 }, &upright));
    assert!(!is_in_well(&Position { x: 0, y: 16 }, &upright));
    assert!(is_in_well(&Position { x: 11, y: 16 }, &upright));
    assert!(!is_in_well(&Position { x: 12, y: 16 }, &upright));
    assert!(!is_in_well(&Position { x: 11, y: 17 }, &upright));
    assert!(!is_in_well(
        &Position {
            x: usize::MAX,
            y: usize::MAX
        },
        &lying
    ));
    // a shape without cells is in the well wherever it is
    assert!(is_in_well(&Position { x: 100, y: 100 }, &[[0; 4]; 4]));
}

#[test]
fn walls_of_a_board() {
    let mut field = empty_field();
    assert!(is_walled(&field));
    field[10][6] = O;
    field[21][0] = O;
    assert!(is_walled(&field));
    field[0][1] = 0;
    assert!(!is_walled(&field));
    field[0][1] = O;
    assert!(!is_walled(&field));
    let mut field = empty_field();
    field[20][13] = 0;
    assert!(!is_walled(&field));
    let mut field = empty_field();
    field[20][7] = 0;
    assert!(!is_walled(&field));
    let mut field = empty_field();
    field[12][13] = 0;
    assert!(!is_walled(&field));
}

#[test]
fn queues_of_anchored_shapes() {
    assert!(are_anchored(&VecDeque::new()));
    assert!(are_anchored(&VecDeque::from(gen_block_7().to_vec())));
    let mut queue = VecDeque::from(gen_block_7().to_vec());
    queue.push_back([[0; 4]; 4]);
    assert!(!are_anchored(&queue));
}

#[test]
fn a_new_game_is_in_order() {
    for _ in 0..10 {
        assert!(Game::new().in_order());
    }
}

#[test]
fn games_out_of_order() {
    let game = Game::new();
    let mut broken = game.clone();
    broken.field[5][1] = 0;
    assert!(!broken.in_order());
    let mut broken = game.clone();
    broken.pos = Position { x: 12, y: 0 };
    assert!(!broken.in_order());
    let mut broken = game.clone();
    broken.block = [[0; 4]; 4];
    assert!(!broken.in_order());
    let mut broken = game.clone();
    broken.next.clear();
    assert!(!broken.in_order());
    let mut broken = game.clone();
    broken.next_buf.push_back([[0; 4]; 4]);
    assert!(!broken.in_order());
    let mut broken = game.clone();
    broken.hold = Some([[0; 4]; 4]);
    assert!(!broken.in_order());
    let mut fine = game.clone();
    fine.hold = Some(BlockKind::Z.shape());
    fine.next_buf.clear();
    fine.score = 12;
    assert!(fine.in_order());
}

#[test]
fn moves_keep_a_game_in_order() {
    let commands = [
        Command::RotateRight,
        Command::MoveRight,
        Command::MoveRight,
        Command::MoveRight,
        Command::MoveRight,
        Command::MoveRight,
        Command::MoveRight,
        Command::MoveRight,
        Command::RotateRight,
        Command::RotateLeft,
        Command::SoftDrop,
        Command::Hold,
        Command::RotateLeft,
        Command::MoveLeft,
        Command::MoveLeft,
        Command::MoveLeft,
        Command::MoveLeft,
        Command::MoveLeft,
        Command::MoveLeft,
        Command::RotateLeft,
        Command::RotateLeft,
        Command::HardDrop,
    ];
    let mut game = Game::new();
    'game: for _ in 0..40 {
        for command in commands {
            assert!(game.in_order());
            assert!(allows(&game, command));
            if apply(&mut game, command) == Outcome::GameOver {
                break 'game;
            }
        }
    }
    assert!(game.in_order());
}

#[test]
fn turns_at_the_bottom_keep_a_game_in_order() {
    for kind in [
        BlockKind::I,
        BlockKind::O,
        BlockKind::S,
        BlockKind::Z,
        BlockKind::J,
        BlockKind::L,
        BlockKind::T,
    ] {
        for x in 0..12 {
            let mut game = Game::new();
            game.block = kind.shape();
            for _ in 0..12 {
                apply(&mut game, Command::MoveLeft);
            }
            for _ in 0..x {
                apply(&mut game, Command::MoveRight);
            }
            hard_drop(&mut game);
            for turn in 0..8 {
                if turn % 3 == 0 {
                    rotate_left(&mut game);
                } else {
                    rotate_right(&mut game);
                }
                assert!(game.in_order());
                hard_drop(&mut game);
                assert!(game.in_order());
            }
            assert_eq!(landing(&mut game), Ok(()));
            assert!(game.in_order());
            hold(&mut game);
            assert!(game.in_order());
        }
    }
}

#[test]
fn the_search_keeps_a_game_in_order() {
    let mut game = Game::new();
    for _ in 0..30 {
        assert!(game.in_order());
        if !play_move(&mut game, &[100, 1, 10, 100]) {
            break;
        }
    }
    assert!(game.in_order());
}
