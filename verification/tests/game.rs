use std::collections::VecDeque;

use tetrust::block::block_kind::{I, NONE, O, WALL};
use tetrust::block::{gen_block_7, BlockKind, BlockShape};
use tetrust::board::{count_blanks, count_full_rows, empty_field, fix_shape, is_row_full};
use tetrust::game::{
    can_land, erase_line, fix_block, ghost_pos, hard_drop, hold, is_collision, landing, move_block,
    rotate_left, rotate_right, spawn_block, spawn_next, super_rotation, Field, Game, Position,
    FIELD_HEIGHT, FIELD_WIDTH, SCORE_TABLE,
};
use tetrust::motion::{turn_left, turn_right};

fn all_kinds() -> [BlockKind; 7] {
    [
        BlockKind::I,
        BlockKind::O,
        BlockKind::S,
        BlockKind::Z,
        BlockKind::J,
        BlockKind::L,
        BlockKind::T,
    ]
}

/// A game on an empty board with the given active piece at the entry, and a
/// queue and a buffer of O pieces.
fn game_with(kind: BlockKind) -> Game {
    let mut game = Game::new();
    game.field = empty_field();
    game.pos = Position::init();
    game.block = kind.shape();
    game.hold = None;
    game.holded = false;
    game.next = VecDeque::from(vec![BlockKind::O.shape(); 7]);
    game.next_buf = VecDeque::from(vec![BlockKind::O.shape(); 6]);
    game.score = 0;
    game.line = 0;
    game
}

/// Fills the playing cells of a row, all but the given columns.
fn fill_row(field: &mut Field, y: usize, gaps: &[usize]) {
    for x in 2..FIELD_WIDTH - 2 {
        if !gaps.contains(&x) {
            field[y][x] = O;
        }
    }
}

/// The board with its top row emptied between the walls.
fn before_without_top(field: &Field) -> Field {
    let mut field = *field;
    for x in 2..FIELD_WIDTH - 2 {
        field[0][x] = NONE;
    }
    field
}

fn upright_i() -> BlockShape {
    turn_right(&BlockKind::I.shape())
}

#[test]
fn position_init_is_the_entry() {
    let pos = Position::init();
    assert_eq!((pos.x, pos.y), (5, 0));
}

#[test]
fn shapes_of_the_catalog() {
    assert_eq!(
        BlockKind::I.shape(),
        [[0, 0, 0, 0], [0, 0, 0, 0], [3, 3, 3, 3], [0, 0, 0, 0]]
    );
    assert_eq!(
        BlockKind::O.shape(),
        [[0, 0, 0, 0], [0, 4, 4, 0], [0, 4, 4, 0], [0, 0, 0, 0]]
    );
    assert_eq!(
        BlockKind::S.shape(),
        [[0, 0, 0, 0], [0, 5, 5, 0], [5, 5, 0, 0], [0, 0, 0, 0]]
    );
    assert_eq!(
        BlockKind::Z.shape(),
        [[0, 0, 0, 0], [6, 6, 0, 0], [0, 6, 6, 0], [0, 0, 0, 0]]
    );
    assert_eq!(
        BlockKind::J.shape(),
        [[0, 0, 0, 0], [7, 0, 0, 0], [7, 7, 7, 0], [0, 0, 0, 0]]
    );
    assert_eq!(
        BlockKind::L.shape(),
        [[0, 0, 0, 0], [0, 0, 8, 0], [8, 8, 8, 0], [0, 0, 0, 0]]
    );
    assert_eq!(
        BlockKind::T.shape(),
        [[0, 0, 0, 0], [0, 9, 0, 0], [9, 9, 9, 0], [0, 0, 0, 0]]
    );
}

#[test]
fn from_draw_names_the_kinds() {
    let expected = all_kinds();
    for (n, kind) in expected.iter().enumerate() {
        assert_eq!(BlockKind::from_draw(n), *kind);
    }
    assert_eq!(BlockKind::from_draw(7), BlockKind::T);
    assert_eq!(BlockKind::from_draw(usize::MAX), BlockKind::T);
}

#[test]
fn sample_draws_more_than_one_kind() {
    let first = BlockKind::sample();
    let mut other = false;
    for _ in 0..400 {
        if BlockKind::sample() != first {
            other = true;
        }
    }
    assert!(other);
}

#[test]
fn empty_field_has_walls_floor_and_guards() {
    let field = empty_field();
    for y in 0..FIELD_HEIGHT {
        for x in 0..FIELD_WIDTH {
            let wall = (y <= 20 && (x == 1 || x == 13)) || (y == 20 && (1..=13).contains(&x));
            assert_eq!(field[y][x], if wall { WALL } else { NONE }, "cell {y} {x}");
        }
    }
    assert_eq!(count_blanks(&field), 22 * 15 - 2 * 20 - 13);
}

#[test]
fn collision_on_the_empty_board() {
    let field = empty_field();
    let i = BlockKind::I.shape();
    assert!(!is_collision(&field, &Position::init(), &i));
    assert!(!is_collision(&field, &Position { x: 2, y: 17 }, &i));
    // the floor
    assert!(is_collision(&field, &Position { x: 5, y: 18 }, &i));
    // the left wall and the right wall
    assert!(is_collision(&field, &Position { x: 1, y: 0 }, &i));
    assert!(!is_collision(&field, &Position { x: 9, y: 0 }, &i));
    assert!(is_collision(&field, &Position { x: 10, y: 0 }, &i));
}

#[test]
fn collision_skips_cells_beyond_the_board() {
    let field = empty_field();
    let i = BlockKind::I.shape();
    assert!(!is_collision(&field, &Position { x: 15, y: 0 }, &i));
    assert!(!is_collision(&field, &Position { x: 5, y: 22 }, &i));
    assert!(!is_collision(
        &field,
        &Position {
            x: usize::MAX,
            y: usize::MAX
        },
        &i
    ));
    // the last column of the shape is beyond the board, the one before is on the wall
    assert!(is_collision(&field, &Position { x: 12, y: 0 }, &i));
}

#[test]
fn collision_is_the_same_for_the_same_inputs() {
    let mut field = empty_field();
    field[10][6] = O;
    for kind in all_kinds() {
        let shape = kind.shape();
        for y in 0..22 {
            for x in 0..15 {
                let pos = Position { x, y };
                let first = is_collision(&field, &pos, &shape);
                let second = is_collision(&field, &pos, &shape);
                assert_eq!(first, second);
            }
        }
    }
}

#[test]
fn collision_with_a_block_on_the_board() {
    let mut field = empty_field();
    field[10][6] = O;
    let i = BlockKind::I.shape();
    assert!(is_collision(&field, &Position { x: 5, y: 8 }, &i));
    assert!(is_collision(&field, &Position { x: 3, y: 8 }, &i));
    assert!(!is_collision(&field, &Position { x: 2, y: 8 }, &i));
    assert!(!is_collision(&field, &Position { x: 5, y: 7 }, &i));
    assert!(!is_collision(&field, &Position { x: 5, y: 9 }, &i));
}

#[test]
fn move_goes_where_nothing_is_in_the_way() {
    let mut game = game_with(BlockKind::I);
    move_block(&mut game, Position { x: 6, y: 0 });
    assert_eq!(game.pos, Position { x: 6, y: 0 });
    move_block(&mut game, Position { x: 6, y: 1 });
    assert_eq!(game.pos, Position { x: 6, y: 1 });
    move_block(&mut game, Position { x: 5, y: 1 });
    assert_eq!(game.pos, Position { x: 5, y: 1 });
}

#[test]
fn move_into_something_changes_nothing() {
    let mut game = game_with(BlockKind::I);
    game.pos = Position { x: 9, y: 3 };
    let field = game.field;
    move_block(&mut game, Position { x: 10, y: 3 });
    assert_eq!(game.pos, Position { x: 9, y: 3 });
    game.pos = Position { x: 2, y: 17 };
    move_block(&mut game, Position { x: 2, y: 18 });
    assert_eq!(game.pos, Position { x: 2, y: 17 });
    move_block(&mut game, Position { x: 1, y: 17 });
    assert_eq!(game.pos, Position { x: 2, y: 17 });
    assert_eq!(game.block, BlockKind::I.shape());
    assert_eq!(game.field, field);
}

#[test]
fn turns_of_the_i_piece() {
    let i = BlockKind::I.shape();
    assert_eq!(
        turn_right(&i),
        [[0, 3, 0, 0], [0, 3, 0, 0], [0, 3, 0, 0], [0, 3, 0, 0]]
    );
    assert_eq!(
        turn_left(&i),
        [[0, 0, 3, 0], [0, 0, 3, 0], [0, 0, 3, 0], [0, 0, 3, 0]]
    );
}

#[test]
fn turns_of_the_j_piece() {
    let j = BlockKind::J.shape();
    assert_eq!(
        turn_right(&j),
        [[0, 7, 7, 0], [0, 7, 0, 0], [0, 7, 0, 0], [0, 0, 0, 0]]
    );
    assert_eq!(
        turn_left(&j),
        [[0, 0, 0, 0], [0, 0, 7, 0], [0, 0, 7, 0], [0, 7, 7, 0]]
    );
}

#[test]
fn turn_left_then_right_gives_the_shape_back() {
    for kind in all_kinds() {
        let shape = kind.shape();
        assert_eq!(turn_right(&turn_left(&shape)), shape);
        assert_eq!(turn_left(&turn_right(&shape)), shape);
        let mut turned = shape;
        for _ in 0..4 {
            turned = turn_right(&turn_left(&turned));
        }
        assert_eq!(turned, shape);
    }
}

#[test]
fn four_turns_give_the_shape_back() {
    for kind in all_kinds() {
        let shape = kind.shape();
        let mut left = shape;
        let mut right = shape;
        for _ in 0..4 {
            left = turn_left(&left);
            right = turn_right(&right);
        }
        assert_eq!(left, shape);
        assert_eq!(right, shape);
    }
}

#[test]
fn rotate_in_place() {
    let mut game = game_with(BlockKind::I);
    rotate_right(&mut game);
    assert_eq!(game.block, upright_i());
    assert_eq!(game.pos, Position { x: 5, y: 0 });
    rotate_left(&mut game);
    assert_eq!(game.block, BlockKind::I.shape());
    assert_eq!(game.pos, Position { x: 5, y: 0 });
}

#[test]
fn rotate_kicks_up_first() {
    // an I that lies on the floor cannot stand up in place
    let mut game = game_with(BlockKind::I);
    game.pos = Position { x: 5, y: 17 };
    rotate_right(&mut game);
    assert_eq!(game.block, upright_i());
    assert_eq!(game.pos, Position { x: 5, y: 16 });
}

#[test]
fn rotate_kicks_right_at_the_left_wall() {
    // an upright I in the first playing column cannot lie down in place, nor
    // one row higher
    let mut game = game_with(BlockKind::I);
    game.block = upright_i();
    game.pos = Position { x: 1, y: 5 };
    assert!(!is_collision(&game.field, &game.pos, &game.block));
    rotate_left(&mut game);
    assert_eq!(game.block, BlockKind::I.shape());
    assert_eq!(game.pos, Position { x: 2, y: 5 });
}

#[test]
fn rotate_kick_order_is_up_right_down_left() {
    let field = empty_field();
    let lying = BlockKind::I.shape();
    // free everywhere: up is taken
    assert_eq!(
        super_rotation(&field, &Position { x: 5, y: 5 }, &lying),
        Ok(Position { x: 5, y: 4 })
    );
    // on the top row, up is the place itself
    assert_eq!(
        super_rotation(&field, &Position { x: 5, y: 0 }, &lying),
        Ok(Position { x: 5, y: 0 })
    );
    // up and the place to the right are taken, down is free
    let mut field = empty_field();
    field[6][6] = O;
    field[7][9] = O;
    assert_eq!(
        super_rotation(&field, &Position { x: 5, y: 5 }, &lying),
        Ok(Position { x: 5, y: 6 })
    );
    // up is taken, right is free
    let mut field = empty_field();
    field[6][5] = O;
    assert_eq!(
        super_rotation(&field, &Position { x: 5, y: 5 }, &lying),
        Ok(Position { x: 6, y: 5 })
    );
    // only left is free
    let mut field = empty_field();
    field[6][8] = O;
    field[7][9] = O;
    field[8][8] = O;
    assert_eq!(
        super_rotation(&field, &Position { x: 5, y: 5 }, &lying),
        Ok(Position { x: 4, y: 5 })
    );
    // nothing is free
    let mut field = empty_field();
    field[6][6] = O;
    field[7][6] = O;
    field[8][6] = O;
    assert_eq!(
        super_rotation(&field, &Position { x: 5, y: 5 }, &lying),
        Err(())
    );
}

#[test]
fn rotate_at_the_right_wall_finds_no_room() {
    // an upright I in the last playing column cannot lie down: in place and
    // after every kick it reaches into the wall
    let mut game = game_with(BlockKind::I);
    game.block = upright_i();
    game.pos = Position { x: 11, y: 5 };
    assert!(!is_collision(&game.field, &game.pos, &game.block));
    rotate_right(&mut game);
    assert_eq!(game.block, upright_i());
    assert_eq!(game.pos, Position { x: 11, y: 5 });
}

#[test]
fn rotate_next_to_the_wall_in_place() {
    let mut game = game_with(BlockKind::T);
    game.block = turn_right(&BlockKind::T.shape());
    game.pos = Position { x: 1, y: 5 };
    assert!(!is_collision(&game.field, &game.pos, &game.block));
    rotate_right(&mut game);
    assert_eq!(
        game.block,
        [[0, 0, 0, 0], [0, 9, 9, 9], [0, 0, 9, 0], [0, 0, 0, 0]]
    );
    assert_eq!(game.pos, Position { x: 1, y: 5 });
}

#[test]
fn rotate_that_finds_no_room_changes_nothing() {
    let mut game = game_with(BlockKind::I);
    game.block = upright_i();
    game.pos = Position { x: 5, y: 5 };
    // blocks left and right of the upright piece, on every row it could lie in
    for y in 4..=8 {
        game.field[y][5] = O;
        game.field[y][7] = O;
    }
    let field = game.field;
    rotate_right(&mut game);
    assert_eq!(game.block, upright_i());
    assert_eq!(game.pos, Position { x: 5, y: 5 });
    rotate_left(&mut game);
    assert_eq!(game.block, upright_i());
    assert_eq!(game.pos, Position { x: 5, y: 5 });
    assert_eq!(game.field, field);
}

#[test]
fn hard_drop_to_the_floor() {
    let mut game = game_with(BlockKind::I);
    assert_eq!(
        ghost_pos(&game.field, &game.pos, &game.block),
        Position { x: 5, y: 17 }
    );
    hard_drop(&mut game);
    assert_eq!(game.pos, Position { x: 5, y: 17 });
    // a second drop stays
    hard_drop(&mut game);
    assert_eq!(game.pos, Position { x: 5, y: 17 });
}

#[test]
fn hard_drop_onto_the_stack() {
    let mut game = game_with(BlockKind::O);
    game.field[10][6] = I;
    hard_drop(&mut game);
    // the O fills rows 1 and 2 of its box: it rests with row 2 on row 9
    assert_eq!(game.pos, Position { x: 5, y: 7 });
    assert_eq!(game.field[10][6], I);
}

#[test]
fn fix_writes_the_filled_cells_only() {
    let mut game = game_with(BlockKind::S);
    game.pos = Position { x: 3, y: 10 };
    game.field[11][3] = I;
    let before = game.field;
    fix_block(&mut game);
    for y in 0..FIELD_HEIGHT {
        for x in 0..FIELD_WIDTH {
            let cell = match (y, x) {
                (11, 4) | (11, 5) | (12, 3) | (12, 4) => 5,
                _ => before[y][x],
            };
            assert_eq!(game.field[y][x], cell);
        }
    }
    assert_eq!(game.pos, Position { x: 3, y: 10 });
    assert_eq!(game.block, BlockKind::S.shape());
}

#[test]
fn fix_shape_is_fix_block_on_a_board() {
    let mut game = game_with(BlockKind::T);
    game.pos = Position { x: 7, y: 16 };
    let mut board = game.field;
    fix_shape(&mut board, &game.pos, &game.block);
    fix_block(&mut game);
    assert_eq!(board, game.field);
}

#[test]
fn erase_nothing_on_a_board_without_full_rows() {
    let mut field = empty_field();
    fill_row(&mut field, 19, &[7]);
    fill_row(&mut field, 18, &[2, 12]);
    let before = field;
    assert_eq!(erase_line(&mut field), 0);
    assert_eq!(field, before);
}

#[test]
fn erase_one_row_moves_the_rows_above_down() {
    let mut field = empty_field();
    fill_row(&mut field, 19, &[]);
    fill_row(&mut field, 18, &[2, 12]);
    field[17][5] = I;
    let before = field;
    assert!(is_row_full(&field[19]));
    assert_eq!(count_full_rows(&field), 1);
    assert_eq!(erase_line(&mut field), 1);
    assert_eq!(field[19], before[18]);
    assert_eq!(field[18], before[17]);
    assert_eq!(field[17], before[16]);
    for y in 0..17 {
        assert_eq!(field[y], before[y]);
    }
    assert_eq!(field[20], before[20]);
    assert_eq!(field[21], before[21]);
    assert_eq!(count_full_rows(&field), 0);
}

#[test]
fn erase_rows_that_are_apart() {
    let mut field = empty_field();
    fill_row(&mut field, 19, &[]);
    fill_row(&mut field, 18, &[4]);
    fill_row(&mut field, 17, &[]);
    fill_row(&mut field, 16, &[9]);
    field[15][6] = I;
    let before = field;
    assert_eq!(erase_line(&mut field), 2);
    assert_eq!(field[19], before[18]);
    assert_eq!(field[18], before[16]);
    assert_eq!(field[17], before[15]);
    for y in 0..17 {
        assert_eq!(field[y], empty_field()[y]);
    }
    assert_eq!(field[20], before[20]);
    assert_eq!(field[21], before[21]);
}

#[test]
fn erase_keeps_the_rows_that_were_not_full() {
    let mut field = empty_field();
    fill_row(&mut field, 19, &[]);
    fill_row(&mut field, 17, &[]);
    fill_row(&mut field, 12, &[]);
    field[18][3] = I;
    field[15][8] = I;
    field[11][12] = I;
    field[5][2] = I;
    field[0][7] = I;
    let before = field;
    let filled = |f: &Field| {
        (0..20)
            .map(|y| (2..13).filter(|x| f[y][*x] != NONE).count())
            .sum::<usize>()
    };
    let cells = filled(&field);
    assert_eq!(cells, 38);
    let cleared = erase_line(&mut field);
    assert_eq!(cleared, 3);
    // the rows that were not full, in their order, are the last rows above the floor
    let kept: Vec<[usize; 15]> = (0..20)
        .filter(|y| !is_row_full(&before[*y]))
        .map(|y| before[y])
        .collect();
    assert_eq!(kept.len(), 17);
    for (i, row) in kept.iter().enumerate() {
        assert_eq!(field[cleared + i], *row);
    }
    // the rows above them are empty between the walls
    for y in 0..cleared {
        assert_eq!(field[y], empty_field()[y]);
    }
    assert_eq!(filled(&field), cells - cleared * 11);
    assert_eq!(filled(&field), 5);
}

#[test]
fn erase_leaves_empty_rows_at_the_top() {
    let mut field = empty_field();
    field[0][9] = I;
    field[1][4] = I;
    fill_row(&mut field, 19, &[]);
    let before = field;
    assert_eq!(erase_line(&mut field), 1);
    assert_eq!(field[0], empty_field()[0]);
    assert_eq!(field[1], before[0]);
    assert_eq!(field[2], before[1]);
    assert_eq!(field[3], before[2]);
    assert_eq!(field[19], before[18]);
}

#[test]
fn erase_clears_the_two_top_rows_too() {
    let mut field = empty_field();
    fill_row(&mut field, 1, &[]);
    assert_eq!(erase_line(&mut field), 1);
    assert_eq!(field, empty_field());
    fill_row(&mut field, 0, &[]);
    field[5][5] = I;
    let before = field;
    assert_eq!(erase_line(&mut field), 1);
    assert_eq!(field[5], before[5]);
    assert_eq!(field[0], empty_field()[0]);
    fill_row(&mut field, 0, &[]);
    fill_row(&mut field, 1, &[]);
    assert_eq!(erase_line(&mut field), 2);
    assert_eq!(field, before_without_top(&before));
}

#[test]
fn erase_keeps_what_the_top_row_holds_beyond_the_walls() {
    let mut field = empty_field();
    field[0][0] = I;
    field[0][14] = O;
    fill_row(&mut field, 10, &[]);
    let before = field;
    assert_eq!(erase_line(&mut field), 1);
    assert_eq!(field[0], before[0]);
    assert_eq!(field[1], before[0]);
    assert_eq!(field[2], before[1]);
    assert_eq!(field[10], before[9]);
    assert_eq!(field[11], before[11]);
}

#[test]
fn score_table_values() {
    assert_eq!(SCORE_TABLE, [0, 1, 5, 25, 100]);
}

#[test]
fn landing_scores_by_the_rows_cleared() {
    let scores = [0, 1, 5, 25, 100];
    for rows in 0..=4usize {
        let mut game = game_with(BlockKind::I);
        game.block = upright_i();
        game.score = 1000;
        game.line = 7;
        for y in (20 - rows)..20 {
            fill_row(&mut game.field, y, &[6]);
        }
        // the upright I fills column 1 of its box
        move_block(&mut game, Position { x: 5, y: 0 });
        hard_drop(&mut game);
        assert_eq!(game.pos, Position { x: 5, y: 16 });
        assert!(can_land(&game));
        assert_eq!(landing(&mut game), Ok(()));
        assert_eq!(game.score, 1000 + scores[rows], "rows {rows}");
        assert_eq!(game.line, 7 + rows);
        // what is left of the piece stands in its column
        for y in 16..20 {
            let left = y >= 16 + rows;
            assert_eq!(game.field[y][6] != NONE, left, "row {y} after {rows}");
        }
    }
}

#[test]
fn landing_brings_the_next_piece_in() {
    let mut game = game_with(BlockKind::I);
    game.next = VecDeque::from(vec![BlockKind::T.shape(), BlockKind::S.shape()]);
    game.next_buf = VecDeque::from(vec![BlockKind::Z.shape(), BlockKind::J.shape()]);
    game.holded = true;
    hard_drop(&mut game);
    assert_eq!(landing(&mut game), Ok(()));
    assert_eq!(game.block, BlockKind::T.shape());
    assert_eq!(game.pos, Position::init());
    assert_eq!(
        game.next,
        VecDeque::from(vec![BlockKind::S.shape(), BlockKind::Z.shape()])
    );
    assert_eq!(game.next_buf, VecDeque::from(vec![BlockKind::J.shape()]));
    assert!(!game.holded);
    for x in 5..9 {
        assert_eq!(game.field[19][x], I);
    }
}

#[test]
fn landing_fails_when_the_next_piece_has_no_room() {
    let mut game = game_with(BlockKind::I);
    // a column of blocks up to the second row, under the entry
    for y in 3..20 {
        game.field[y][6] = O;
    }
    game.holded = true;
    hard_drop(&mut game);
    assert_eq!(game.pos, Position { x: 5, y: 0 });
    assert_eq!(landing(&mut game), Err(()));
    // the piece is fixed, the next one has come in and overlaps it
    assert_eq!(game.field[2][5], I);
    assert_eq!(game.block, BlockKind::O.shape());
    assert!(is_collision(&game.field, &game.pos, &game.block));
    assert!(game.holded);
}

#[test]
fn can_land_refuses_more_rows_than_the_table_knows() {
    let mut game = game_with(BlockKind::I);
    game.block = upright_i();
    for y in 15..20 {
        fill_row(&mut game.field, y, &[6]);
    }
    game.field[15][6] = O;
    game.pos = Position { x: 5, y: 16 };
    assert!(!can_land(&game));
    game.field[15][6] = NONE;
    assert!(can_land(&game));
    game.score = usize::MAX - 99;
    assert!(!can_land(&game));
    game.score = usize::MAX - 100;
    assert!(can_land(&game));
}

#[test]
fn spawn_takes_the_front_of_the_queue() {
    let mut game = game_with(BlockKind::I);
    game.pos = Position { x: 3, y: 9 };
    game.next = VecDeque::from(vec![BlockKind::J.shape(), BlockKind::L.shape()]);
    game.next_buf = VecDeque::from(vec![BlockKind::T.shape()]);
    assert_eq!(spawn_next(&mut game), Ok(()));
    assert_eq!(game.block, BlockKind::J.shape());
    assert_eq!(game.pos, Position::init());
    assert_eq!(
        game.next,
        VecDeque::from(vec![BlockKind::L.shape(), BlockKind::T.shape()])
    );
    assert!(game.next_buf.is_empty());
}

#[test]
fn spawn_opens_a_bag_when_the_buffer_is_empty() {
    let mut game = game_with(BlockKind::I);
    game.next = VecDeque::from(vec![BlockKind::J.shape(), BlockKind::L.shape()]);
    game.next_buf = VecDeque::new();
    assert_eq!(spawn_block(&mut game), Ok(()));
    assert_eq!(game.block, BlockKind::J.shape());
    assert_eq!(game.next.len(), 2);
    assert_eq!(game.next[0], BlockKind::L.shape());
    assert_eq!(game.next_buf.len(), 6);
    let mut bag: Vec<BlockShape> = vec![game.next[1]];
    bag.extend(game.next_buf.iter().copied());
    for kind in all_kinds() {
        assert_eq!(bag.iter().filter(|s| **s == kind.shape()).count(), 1);
    }
}

#[test]
fn spawn_fails_on_a_piece_without_room() {
    let mut game = game_with(BlockKind::I);
    game.field[1][6] = I;
    assert_eq!(spawn_block(&mut game), Err(()));
    assert_eq!(game.block, BlockKind::O.shape());
    assert_eq!(game.pos, Position::init());
}

#[test]
fn bag_holds_each_kind_once() {
    for _ in 0..20 {
        let bag = gen_block_7();
        for kind in all_kinds() {
            assert_eq!(bag.iter().filter(|s| **s == kind.shape()).count(), 1);
        }
    }
}

#[test]
fn bags_come_in_more_than_one_order() {
    let first = gen_block_7();
    let mut other = false;
    for _ in 0..100 {
        if gen_block_7() != first {
            other = true;
        }
    }
    assert!(other);
}

#[test]
fn new_game_starts_empty_with_two_bags() {
    let game = Game::new();
    assert_eq!(game.field, empty_field());
    assert_eq!(game.pos, Position::init());
    assert_eq!(game.hold, None);
    assert!(!game.holded);
    assert_eq!(game.score, 0);
    assert_eq!(game.line, 0);
    assert_eq!(game.next.len(), 7);
    assert_eq!(game.next_buf.len(), 6);
    let mut pieces: Vec<BlockShape> = vec![game.block];
    pieces.extend(game.next.iter().copied());
    pieces.extend(game.next_buf.iter().copied());
    for kind in all_kinds() {
        assert_eq!(pieces.iter().filter(|s| **s == kind.shape()).count(), 2);
        assert_eq!(pieces[..7].iter().filter(|s| **s == kind.shape()).count(), 1);
    }
}

#[test]
fn fourteen_spawns_bring_each_kind_twice() {
    let mut game = Game::new();
    // the first piece of the first bag is on the board; thirteen follow, then
    // two more bags
    for _round in 0..3 {
        let mut pieces = vec![];
        for _ in 0..14 {
            pieces.push(game.block);
            assert_eq!(spawn_block(&mut game), Ok(()));
        }
        for kind in all_kinds() {
            assert_eq!(pieces.iter().filter(|s| **s == kind.shape()).count(), 2);
        }
    }
}

#[test]
fn hold_puts_the_piece_aside_and_brings_the_next_in() {
    let mut game = game_with(BlockKind::I);
    game.next = VecDeque::from(vec![BlockKind::J.shape(), BlockKind::L.shape()]);
    game.next_buf = VecDeque::from(vec![BlockKind::T.shape()]);
    game.pos = Position { x: 3, y: 9 };
    hold(&mut game);
    assert_eq!(game.hold, Some(BlockKind::I.shape()));
    assert!(game.holded);
    assert_eq!(game.block, BlockKind::J.shape());
    assert_eq!(game.pos, Position::init());
    assert_eq!(
        game.next,
        VecDeque::from(vec![BlockKind::L.shape(), BlockKind::T.shape()])
    );
}

#[test]
fn hold_twice_is_hold_once() {
    let mut game = game_with(BlockKind::I);
    game.next = VecDeque::from(vec![BlockKind::J.shape(), BlockKind::L.shape()]);
    game.next_buf = VecDeque::from(vec![BlockKind::T.shape()]);
    hold(&mut game);
    let once = game.clone();
    hold(&mut game);
    assert_eq!(game.field, once.field);
    assert_eq!(game.pos, once.pos);
    assert_eq!(game.block, once.block);
    assert_eq!(game.hold, once.hold);
    assert_eq!(game.holded, once.holded);
    assert_eq!(game.next, once.next);
    assert_eq!(game.next_buf, once.next_buf);
    assert_eq!(game.score, once.score);
    assert_eq!(game.line, once.line);
}

#[test]
fn hold_swaps_with_the_piece_put_aside() {
    let mut game = game_with(BlockKind::I);
    game.hold = Some(BlockKind::Z.shape());
    game.pos = Position { x: 8, y: 12 };
    let next = game.next.clone();
    hold(&mut game);
    assert_eq!(game.hold, Some(BlockKind::I.shape()));
    assert_eq!(game.block, BlockKind::Z.shape());
    assert_eq!(game.pos, Position::init());
    assert_eq!(game.next, next);
    assert!(game.holded);
}

#[test]
fn hold_is_allowed_again_after_a_lock() {
    let mut game = game_with(BlockKind::I);
    hold(&mut game);
    assert!(game.holded);
    hard_drop(&mut game);
    assert_eq!(landing(&mut game), Ok(()));
    assert!(!game.holded);
    let active = game.block;
    hold(&mut game);
    assert_eq!(game.hold, Some(active));
    assert_eq!(game.block, BlockKind::I.shape());
}

#[test]
fn clone_copies_the_game() {
    let mut game = Game::new();
    game.hold = Some(BlockKind::L.shape());
    game.score = 9;
    game.field[4][4] = I;
    let copy = game.clone();
    assert_eq!(copy.field, game.field);
    assert_eq!(copy.pos, game.pos);
    assert_eq!(copy.block, game.block);
    assert_eq!(copy.hold, game.hold);
    assert_eq!(copy.holded, game.holded);
    assert_eq!(copy.next, game.next);
    assert_eq!(copy.next_buf, game.next_buf);
    assert_eq!(copy.score, game.score);
    assert_eq!(copy.line, game.line);
}

#[test]
fn hard_drops_that_fill_a_row_clear_it_and_score_one() {
    let mut game = game_with(BlockKind::I);
    let mut place = |game: &mut Game, shape: BlockShape, x: usize| {
        game.block = shape;
        game.pos = Position::init();
        move_block(game, Position { x, y: 0 });
        assert_eq!(game.pos.x, x);
        hard_drop(game);
        landing(game)
    };
    assert_eq!(place(&mut game, BlockKind::I.shape(), 2), Ok(()));
    assert_eq!(place(&mut game, BlockKind::I.shape(), 6), Ok(()));
    assert_eq!(place(&mut game, upright_i(), 9), Ok(()));
    assert_eq!(place(&mut game, upright_i(), 10), Ok(()));
    assert_eq!((game.score, game.line), (0, 0));
    assert_eq!(place(&mut game, upright_i(), 11), Ok(()));
    assert_eq!((game.score, game.line), (1, 1));
    // the three upright pieces have lost their lowest cell
    for y in 0..20 {
        for x in 2..13 {
            let filled = y >= 17 && x >= 10;
            assert_eq!(game.field[y][x] != NONE, filled, "cell {y} {x}");
        }
    }
}

#[test]
fn start_with_the_bags_given() {
    let first = all_kinds().map(|kind| kind.shape());
    let mut second = first;
    second.reverse();
    let game = Game::start(&first, &second);
    assert_eq!(game.field, empty_field());
    assert_eq!(game.pos, Position::init());
    assert_eq!(game.block, BlockKind::I.shape());
    assert_eq!(game.hold, None);
    assert!(!game.holded);
    let mut next = first[1..].to_vec();
    next.push(BlockKind::T.shape());
    assert_eq!(game.next, VecDeque::from(next));
    assert_eq!(game.next_buf, VecDeque::from(second[1..].to_vec()));
    assert_eq!((game.score, game.line), (0, 0));
    assert!(game.in_order());
}

#[test]
fn blanks_and_full_rows_are_counted() {
    let mut field = empty_field();
    let blanks = count_blanks(&field);
    fill_row(&mut field, 19, &[]);
    fill_row(&mut field, 7, &[4, 5]);
    assert_eq!(count_blanks(&field), blanks - 20);
    assert_eq!(count_full_rows(&field), 1);
    assert!(is_row_full(&field[19]));
    assert!(!is_row_full(&field[7]));
    assert!(!is_row_full(&field[0]));
    // the floor is a full row, but not one that is looked at
    assert!(is_row_full(&field[20]));
    fill_row(&mut field, 0, &[]);
    assert_eq!(count_full_rows(&field), 2);
}

#[test]
fn first_column_has_nothing_to_its_left() {
    // an upright I in column 2 of its box stands in the first playing column
    // with its box in the first column of the board
    let mut game = game_with(BlockKind::I);
    game.block = turn_left(&BlockKind::I.shape());
    game.pos = Position { x: 0, y: 5 };
    assert!(!is_collision(&game.field, &game.pos, &game.block));
    // a move to the left of the first column is a move to the first column
    move_block(&mut game, Position { x: 0, y: 5 });
    assert_eq!(game.pos, Position { x: 0, y: 5 });
    // lying down it reaches into the wall, in place and after every kick
    rotate_right(&mut game);
    assert_eq!(game.pos, Position { x: 0, y: 5 });
    assert_eq!(game.block, turn_left(&BlockKind::I.shape()));
    rotate_left(&mut game);
    assert_eq!(game.pos, Position { x: 0, y: 5 });
    assert_eq!(game.block, turn_left(&BlockKind::I.shape()));
    assert_eq!(
        super_rotation(&game.field, &Position { x: 0, y: 0 }, &BlockKind::I.shape()),
        Err(())
    );
}
