//! The game as its player sees it: commands that come in one by one, the
//! fall that time brings, and what becomes of the game under each.

use crate::block::block_kind::{GHOST, NONE};
use crate::block::{is_bag, BlockColor, BlockShape};
use crate::board::{collides, fix_shape, fixed, grid, is_collision, Field, Grid, Position};
use crate::game::{
    can_land, hard_drop, held, hold, landed, landing, lockable, move_block, moved, rotate_left,
    rotate_right, turned, Game, GameView,
};
use crate::motion::{
    down_of, dropped, ghost_pos, left_of, right_of, rotated_left, rotated_right,
};
use crate::order::{
    lemma_dropped_in_well, lemma_in_well_box, lemma_in_well_lands, lemma_moved_wf,
};
use vstd::prelude::*;

verus! {

/// What a player can ask for.
#[derive(Clone, Copy, Debug, PartialEq, Eq, Structural)]
pub enum Command {
    MoveLeft,
    MoveRight,
    SoftDrop,
    RotateLeft,
    RotateRight,
    HardDrop,
    Hold,
    Quit,
}

/// How a game stands after a command or a fall.
#[derive(Clone, Copy, Debug, PartialEq, Eq, Structural)]
pub enum Outcome {
    /// A piece is falling.
    Falling,
    /// The piece that came in had no room: the game is over.
    GameOver,
    /// The player has left.
    Quit,
}

/// The game with its active piece dropped to where it comes to rest.
pub open spec fn at_rest(v: GameView) -> GameView {
    GameView { pos: dropped(v.field, v.pos, v.block), ..v }
}

/// The command can be carried out. A hard drop cannot if the piece cannot be
/// fixed where it comes to rest; every other command can.
pub open spec fn can_apply(v: GameView, command: Command) -> bool {
    command == Command::HardDrop ==> lockable(at_rest(v))
}

/// The game after the command, where `bag` is the bag that is opened if one is
/// needed.
pub open spec fn applied(v: GameView, command: Command, bag: Seq<BlockShape>) -> GameView {
    match command {
        Command::MoveLeft => moved(v, left_of(v.pos)),
        Command::MoveRight => moved(v, right_of(v.pos)),
        Command::SoftDrop => moved(v, down_of(v.pos)),
        Command::RotateLeft => turned(v, rotated_left(v.block)),
        Command::RotateRight => turned(v, rotated_right(v.block)),
        Command::HardDrop => landed(at_rest(v), bag),
        Command::Hold => held(v, bag),
        Command::Quit => v,
    }
}

/// How the game stands after the command has led to `after`.
pub open spec fn outcome_of(command: Command, after: GameView) -> Outcome {
    match command {
        Command::Quit => Outcome::Quit,
        Command::HardDrop => if collides(after.field, after.pos, after.block) {
            Outcome::GameOver
        } else {
            Outcome::Falling
        },
        _ => Outcome::Falling,
    }
}

/// Whether the command can be carried out.
pub fn allows(game: &Game, command: Command) -> (ok: bool)
    requires
        game@.wf(),
    ensures
        ok == can_apply(game@, command),
{
    match command {
        Command::HardDrop => {
            let mut probe = game.clone();
            proof {
                lemma_in_well_lands(probe@.field, probe.pos, probe.block);
                lemma_dropped_in_well(probe@.field, probe.pos, probe.block);
                lemma_in_well_box(dropped(probe@.field, probe.pos, probe.block), probe.block);
            }
            hard_drop(&mut probe);
            can_land(&probe)
        },
        _ => true,
    }
}

/// Carries out one command of the player.
pub fn apply(game: &mut Game, command: Command) -> (out: Outcome)
    requires
        old(game)@.wf(),
        can_apply(old(game)@, command),
    ensures
        exists|bag: Seq<BlockShape>|
            is_bag(bag) && #[trigger] applied(old(game)@, command, bag) == final(game)@,
        out == outcome_of(command, final(game)@),
        final(game)@.wf(),
{
    let ghost any = crate::block::catalog();
    proof {
        lemma_in_well_box(game.pos, game.block);
        crate::block::catalog().to_multiset_ensures();
    }
    match command {
        Command::MoveLeft => {
            let new_pos = Position {
                x: if game.pos.x == 0 {
                    game.pos.x
                } else {
                    game.pos.x - 1
                },
                y: game.pos.y,
            };
            move_block(game, new_pos);
            assert(applied(old(game)@, command, any) == game@);
            Outcome::Falling
        },
        Command::MoveRight => {
            let new_pos = Position { x: game.pos.x + 1, y: game.pos.y };
            move_block(game, new_pos);
            assert(applied(old(game)@, command, any) == game@);
            Outcome::Falling
        },
        Command::SoftDrop => {
            let new_pos = Position { x: game.pos.x, y: game.pos.y + 1 };
            move_block(game, new_pos);
            assert(applied(old(game)@, command, any) == game@);
            Outcome::Falling
        },
        Command::RotateLeft => {
            rotate_left(game);
            assert(applied(old(game)@, command, any) == game@);
            Outcome::Falling
        },
        Command::RotateRight => {
            rotate_right(game);
            assert(applied(old(game)@, command, any) == game@);
            Outcome::Falling
        },
        Command::HardDrop => {
            proof {
                lemma_in_well_lands(game@.field, game.pos, game.block);
                lemma_dropped_in_well(game@.field, game.pos, game.block);
                lemma_in_well_box(dropped(game@.field, game.pos, game.block), game.block);
            }
            hard_drop(game);
            let ghost rest = game@;
            let res = landing(game);
            proof {
                let bag = choose|bag: Seq<BlockShape>|
                    is_bag(bag) && #[trigger] landed(rest, bag) == game@;
                assert(applied(old(game)@, command, bag) == game@);
            }
            if res.is_err() {
                Outcome::GameOver
            } else {
                Outcome::Falling
            }
        },
        Command::Hold => {
            hold(game);
            proof {
                let bag = choose|bag: Seq<BlockShape>|
                    is_bag(bag) && #[trigger] held(old(game)@, bag) == game@;
                assert(applied(old(game)@, command, bag) == game@);
            }
            Outcome::Falling
        },
        Command::Quit => {
            assert(applied(old(game)@, command, any) == game@);
            Outcome::Quit
        },
    }
}

/// The game after the fall that time brings, where `bag` is the bag that is
/// opened if one is needed: the piece goes one cell down, or, where it
/// cannot, it is fixed and the next one comes in.
pub open spec fn fallen(v: GameView, bag: Seq<BlockShape>) -> GameView {
    if collides(v.field, down_of(v.pos), v.block) {
        landed(v, bag)
    } else {
        GameView { pos: down_of(v.pos), ..v }
    }
}

/// The fall can be carried out: where the piece cannot go down, it can be
/// fixed.
pub open spec fn can_fall(v: GameView) -> bool {
    collides(v.field, down_of(v.pos), v.block) ==> lockable(v)
}

/// Whether the fall can be carried out.
pub fn allows_fall(game: &Game) -> (ok: bool)
    requires
        game@.wf(),
    ensures
        ok == can_fall(game@),
{
    proof {
        lemma_in_well_box(game.pos, game.block);
    }
    let new_pos = Position { x: game.pos.x, y: game.pos.y + 1 };
    if is_collision(&game.field, &new_pos, &game.block) {
        can_land(game)
    } else {
        true
    }
}

/// Lets the active piece fall by one cell, or comes to rest.
pub fn fall(game: &mut Game) -> (out: Outcome)
    requires
        old(game)@.wf(),
        can_fall(old(game)@),
    ensures
        exists|bag: Seq<BlockShape>| is_bag(bag) && #[trigger] fallen(old(game)@, bag) == final(game)@,
        out == if collides(final(game)@.field, final(game).pos, final(game).block) {
            Outcome::GameOver
        } else {
            Outcome::Falling
        },
        final(game)@.wf(),
{
    proof {
        lemma_in_well_box(game.pos, game.block);
        crate::block::catalog().to_multiset_ensures();
    }
    let new_pos = Position { x: game.pos.x, y: game.pos.y + 1 };
    if !is_collision(&game.field, &new_pos, &game.block) {
        proof {
            lemma_moved_wf(game@, new_pos);
        }
        game.pos = new_pos;
        assert(fallen(old(game)@, crate::block::catalog()) == game@);
        Outcome::Falling
    } else {
        let res = landing(game);
        proof {
            let bag = choose|bag: Seq<BlockShape>|
                is_bag(bag) && #[trigger] landed(old(game)@, bag) == game@;
            assert(fallen(old(game)@, bag) == game@);
        }
        if res.is_err() {
            Outcome::GameOver
        } else {
            Outcome::Falling
        }
    }
}

/// How long a piece waits before it falls by one cell, in milliseconds: a
/// second at first, a tenth of a second less for every ten rows cleared, and
/// never less than a tenth of a second.
pub open spec fn fall_interval(line: usize) -> u64 {
    if line / 10 >= 9 {
        100
    } else {
        (1000 - (line / 10) * 100) as u64
    }
}

/// How long a piece waits before it falls by one cell, in milliseconds.
pub fn fall_interval_msec(line: usize) -> (msec: u64)
    ensures
        msec == fall_interval(line),
        100 <= msec <= 1000,
{
    let steps = line / 10;
    if steps >= 9 {
        100
    } else {
        1000 - (steps as u64) * 100
    }
}


/// The tag of a cell of a piece's shadow: a ghost where the piece has a cell.
pub open spec fn ghost_cell(cell: BlockColor) -> BlockColor {
    if cell != NONE {
        GHOST
    } else {
        NONE
    }
}

/// The shadow of a shape: the same cells, filled with ghosts.
pub open spec fn ghosted(s: BlockShape) -> BlockShape {
    [
        [ghost_cell(s[0][0]), ghost_cell(s[0][1]), ghost_cell(s[0][2]), ghost_cell(s[0][3])],
        [ghost_cell(s[1][0]), ghost_cell(s[1][1]), ghost_cell(s[1][2]), ghost_cell(s[1][3])],
        [ghost_cell(s[2][0]), ghost_cell(s[2][1]), ghost_cell(s[2][2]), ghost_cell(s[2][3])],
        [ghost_cell(s[3][0]), ghost_cell(s[3][1]), ghost_cell(s[3][2]), ghost_cell(s[3][3])],
    ]
}

/// The shadow of a shape.
pub fn ghost_of(shape: &BlockShape) -> (shadow: BlockShape)
    ensures
        shadow == ghosted(*shape),
{
    let mut shadow: BlockShape = [[NONE, NONE, NONE, NONE]; 4];
    for y in 0..4usize
        invariant
            forall|y0: int, x0: int|
                0 <= y0 < y && 0 <= x0 < 4 ==> #[trigger] shadow[y0][x0] == ghost_cell(
                    shape[y0][x0],
                ),
    {
        for x in 0..4usize
            invariant
                y < 4,
                forall|y0: int, x0: int|
                    0 <= y0 < y && 0 <= x0 < 4 ==> #[trigger] shadow[y0][x0] == ghost_cell(
                        shape[y0][x0],
                    ),
                forall|x0: int|
                    0 <= x0 < x ==> #[trigger] shadow[y as int][x0] == ghost_cell(
                        shape[y as int][x0],
                    ),
        {
            shadow[y][x] = if shape[y][x] != NONE {
                GHOST
            } else {
                NONE
            };
        }
    }
    proof {
        let want = ghosted(*shape);
        assert forall|a: int| 0 <= a < 4 implies shadow[a] == want[a] by {
            assert forall|b: int| 0 <= b < 4 implies shadow[a][b] == want[a][b] by {
                assert(shadow[a][b] == ghost_cell(shape[a][b]));
            }
            assert(shadow[a] =~= want[a]);
        }
        assert(shadow =~= want);
    }
    shadow
}

/// What a game shows: the board, on it the shadow of the active piece where
/// the piece would come to rest, and over both the piece itself.
pub open spec fn shown(v: GameView) -> Grid {
    fixed(fixed(v.field, dropped(v.field, v.pos, v.block), ghosted(v.block)), v.pos, v.block)
}

/// The board as it is shown, with the active piece and its shadow on it.
pub fn screen(game: &Game) -> (view: Field)
    requires
        game@.wf(),
    ensures
        grid(view) == shown(game@),
{
    proof {
        lemma_in_well_box(game.pos, game.block);
        lemma_in_well_lands(game@.field, game.pos, game.block);
        lemma_dropped_in_well(game@.field, game.pos, game.block);
        let rest = dropped(game@.field, game.pos, game.block);
        lemma_in_well_box(rest, game.block);
        assert forall|y: int, x: int|
            0 <= y < 4 && 0 <= x < 4 && #[trigger] ghosted(game.block)[y][x] != NONE implies y
            + rest.y < crate::board::FIELD_HEIGHT && x + rest.x < crate::board::FIELD_WIDTH by {
            assert(game.block[y][x] != NONE);
        }
    }
    let mut view = game.field;
    let rest = ghost_pos(&game.field, &game.pos, &game.block);
    let shadow = ghost_of(&game.block);
    fix_shape(&mut view, &rest, &shadow);
    fix_shape(&mut view, &game.pos, &game.block);
    view
}

} // verus!
