//! The placement search: what a board is worth, and which way of putting the
//! active piece down leaves the best board.

use crate::block::block_kind::NONE;
use crate::block::{is_bag, BlockShape};
use crate::board::{
    collides, count_full_rows, fixed, full_rows, grid, lemma_grid, row_empty, Field, Grid,
    Position, FIELD_HEIGHT, FIELD_WIDTH,
};
use crate::ga::{GenoSeq, GenomeKind};
use crate::game::{
    fix_block, hard_drop, held, hold, move_block, moved, rotate_right, turned, Game, GameView,
};
use crate::motion::{dropped, lemma_dropped_free, rotated_right};
use crate::order::{
    lemma_dropped_in_well, lemma_fixed_walled, lemma_free_in_well, lemma_held_wf,
    lemma_in_well_box, lemma_in_well_lands, lemma_turned_wf,
};
use vstd::prelude::*;

verus! {

/// How many rows a line clear would remove from the board.
pub fn erase_line_count(field: &Field) -> (count: usize)
    ensures
        count == full_rows(grid(*field)),
        count <= FIELD_HEIGHT - 2,
{
    count_full_rows(field)
}

/// The height of the stack, measured from the guard row up to the first row at
/// or below row `y` that holds a block; 0 if there is none above the floor.
pub open spec fn height_from(g: Grid, y: int) -> nat
    decreases FIELD_HEIGHT - 2 - y,
{
    if y >= FIELD_HEIGHT - 2 {
        0
    } else if !row_empty(g[y]) {
        (FIELD_HEIGHT - y - 1) as nat
    } else {
        height_from(g, y + 1)
    }
}

/// The height of the stack: 0 for a board without blocks, and else the number
/// of rows from the topmost block down to the floor, both counted. The top
/// row of the board is not looked at.
pub open spec fn stack_height(g: Grid) -> nat {
    height_from(g, 1)
}

/// The height of the stack.
pub fn field_height_max(field: &Field) -> (height: usize)
    ensures
        height == stack_height(grid(*field)),
        height <= FIELD_HEIGHT - 2,
{
    let ghost g = grid(*field);
    proof {
        lemma_grid(*field);
    }
    for y in 1..FIELD_HEIGHT - 2
        invariant
            g == grid(*field),
            forall|r: int, c: int|
                0 <= r < FIELD_HEIGHT && 0 <= c < FIELD_WIDTH ==> #[trigger] g[r][c] == field[r][c],
            height_from(g, y as int) == stack_height(g),
    {
        for x in 2..FIELD_WIDTH - 2
            invariant
                1 <= y < FIELD_HEIGHT - 2,
                g == grid(*field),
                forall|r: int, c: int|
                    0 <= r < FIELD_HEIGHT && 0 <= c < FIELD_WIDTH ==> #[trigger] g[r][c]
                        == field[r][c],
                height_from(g, y as int) == stack_height(g),
                forall|x0: int| 2 <= x0 < x ==> (#[trigger] g[y as int][x0]) == NONE,
        {
            if field[y][x] != NONE {
                assert(g[y as int][x as int] != NONE);
                return FIELD_HEIGHT - y - 1;
            }
        }
        assert(row_empty(g[y as int]));
    }
    0
}

/// The height of column `x`, measured from the guard row up to its first
/// filled cell at or below row `y`; 0 if it has none above the floor.
pub open spec fn column_from(g: Grid, x: int, y: int) -> nat
    decreases FIELD_HEIGHT - 2 - y,
{
    if y >= FIELD_HEIGHT - 2 {
        0
    } else if g[y][x] != NONE {
        (FIELD_HEIGHT - y - 1) as nat
    } else {
        column_from(g, x, y + 1)
    }
}

/// The height of column `x`. The top row of the board is not looked at.
pub open spec fn column_height(g: Grid, x: int) -> nat {
    column_from(g, x, 1)
}

/// The height of column `x`.
pub fn column_top(field: &Field, x: usize) -> (height: usize)
    requires
        x < FIELD_WIDTH,
    ensures
        height == column_height(grid(*field), x as int),
        height <= FIELD_HEIGHT - 2,
{
    let ghost g = grid(*field);
    proof {
        lemma_grid(*field);
    }
    for y in 1..FIELD_HEIGHT - 2
        invariant
            x < FIELD_WIDTH,
            g == grid(*field),
            forall|r: int, c: int|
                0 <= r < FIELD_HEIGHT && 0 <= c < FIELD_WIDTH ==> #[trigger] g[r][c] == field[r][c],
            column_from(g, x as int, y as int) == column_height(g, x as int),
    {
        if field[y][x] != NONE {
            return FIELD_HEIGHT - y - 1;
        }
    }
    0
}

/// From any row down, no column is higher than the stack, and a stack that
/// is there at all is as high as one of its columns.
proof fn lemma_heights_from(g: Grid, y: int)
    requires
        1 <= y,
    ensures
        height_from(g, y) <= FIELD_HEIGHT - 1 - y || height_from(g, y) == 0,
        forall|x: int|
            2 <= x < FIELD_WIDTH - 2 ==> #[trigger] column_from(g, x, y) <= height_from(g, y),
        height_from(g, y) > 0 ==> exists|x: int|
            2 <= x < FIELD_WIDTH - 2 && #[trigger] column_from(g, x, y) == height_from(g, y),
    decreases FIELD_HEIGHT - 2 - y,
{
    if y < FIELD_HEIGHT - 2 {
        lemma_heights_from(g, y + 1);
        if !row_empty(g[y]) {
            let x = choose|x: int| 2 <= x < FIELD_WIDTH - 2 && #[trigger] g[y][x] != NONE;
            assert(column_from(g, x, y) == height_from(g, y));
            assert forall|x: int| 2 <= x < FIELD_WIDTH - 2 implies #[trigger] column_from(g, x, y)
                <= height_from(g, y) by {
                assert(column_from(g, x, y + 1) <= height_from(g, y + 1));
            }
        } else {
            assert forall|x: int| 2 <= x < FIELD_WIDTH - 2 implies #[trigger] column_from(g, x, y)
                == column_from(g, x, y + 1) by {
                assert(g[y][x] == NONE);
            }
            if height_from(g, y) > 0 {
                let x = choose|x: int|
                    2 <= x < FIELD_WIDTH - 2 && #[trigger] column_from(g, x, y + 1) == height_from(
                        g,
                        y + 1,
                    );
                assert(column_from(g, x, y) == height_from(g, y));
            }
        }
    }
}

/// The stack is as high as its highest column.
pub proof fn lemma_stack_height(g: Grid)
    ensures
        forall|x: int|
            2 <= x < FIELD_WIDTH - 2 ==> #[trigger] column_height(g, x) <= stack_height(g),
        stack_height(g) > 0 ==> exists|x: int|
            2 <= x < FIELD_WIDTH - 2 && #[trigger] column_height(g, x) == stack_height(g),
        stack_height(g) == 0 || 2 <= stack_height(g) <= FIELD_HEIGHT - 2,
{
    lemma_heights_from(g, 1);
    lemma_height_at_least_two(g, 1);
    assert forall|x: int| 2 <= x < FIELD_WIDTH - 2 implies #[trigger] column_height(g, x)
        <= stack_height(g) by {
        assert(column_from(g, x, 1) <= height_from(g, 1));
    }
    if stack_height(g) > 0 {
        let x = choose|x: int|
            2 <= x < FIELD_WIDTH - 2 && #[trigger] column_from(g, x, 1) == height_from(g, 1);
        assert(column_height(g, x) == stack_height(g));
    }
}

/// A stack that is there at all reaches from its top down to the guard row.
proof fn lemma_height_at_least_two(g: Grid, y: int)
    requires
        1 <= y,
    ensures
        height_from(g, y) == 0 || 2 <= height_from(g, y) <= FIELD_HEIGHT - 1 - y,
    decreases FIELD_HEIGHT - 2 - y,
{
    if y < FIELD_HEIGHT - 2 {
        lemma_height_at_least_two(g, y + 1);
    }
}

/// The distance between two heights.
pub open spec fn gap(a: nat, b: nat) -> nat {
    if a <= b {
        (b - a) as nat
    } else {
        (a - b) as nat
    }
}

/// The sum of the differences in height between neighbouring columns, over the
/// playing columns before column `x`.
pub open spec fn bumpiness_to(g: Grid, x: int) -> nat
    decreases x,
{
    if x <= 2 {
        0
    } else {
        bumpiness_to(g, x - 1) + gap(column_height(g, x - 1), column_height(g, x))
    }
}

/// How uneven the stack is: the sum, over each two playing columns next to
/// each other, of the difference of their heights.
pub open spec fn bumpiness(g: Grid) -> nat {
    bumpiness_to(g, FIELD_WIDTH - 3)
}

/// How uneven the stack is.
pub fn diff_in_height(field: &Field) -> (diff: usize)
    ensures
        diff == bumpiness(grid(*field)),
        diff <= 200,
{
    let ghost g = grid(*field);
    let mut diff: usize = 0;
    let mut left = column_top(field, 2);
    for x in 2..FIELD_WIDTH - 3
        invariant
            g == grid(*field),
            left == column_height(g, x as int),
            left <= FIELD_HEIGHT - 2,
            diff == bumpiness_to(g, x as int),
            diff <= 20 * (x - 2),
    {
        let right = column_top(field, x + 1);
        diff += if left <= right {
            right - left
        } else {
            left - right
        };
        left = right;
    }
    diff
}

/// Cell `(y, x)` is empty and the column holds a block above it.
pub open spec fn is_dead(g: Grid, y: int, x: int) -> bool {
    &&& g[y][x] == NONE
    &&& exists|y2: int| 0 <= y2 < y && (#[trigger] g[y2])[x] != NONE
}

/// The dead cells of row `y` in the playing columns before column `x`.
pub open spec fn dead_in_row(g: Grid, y: int, x: int) -> nat
    decreases x,
{
    if x <= 2 {
        0
    } else {
        dead_in_row(g, y, x - 1) + if is_dead(g, y, x - 1) {
            1nat
        } else {
            0nat
        }
    }
}

/// The dead cells of the playing columns in the rows from `y` down to the floor.
pub open spec fn dead_from(g: Grid, y: int) -> nat
    decreases FIELD_HEIGHT - 2 - y,
{
    if y >= FIELD_HEIGHT - 2 {
        0
    } else {
        dead_in_row(g, y, FIELD_WIDTH - 2) + dead_from(g, y + 1)
    }
}

/// How many cells of the stack are dead: empty, with a block above them in
/// their column.
pub open spec fn dead_space(g: Grid) -> nat {
    dead_from(g, 1)
}

/// How many cells of the stack are dead.
pub fn dead_space_count(field: &Field) -> (count: usize)
    ensures
        count == dead_space(grid(*field)),
        count <= 209,
{
    let ghost g = grid(*field);
    proof {
        lemma_grid(*field);
    }
    let mut count: usize = 0;
    let mut y: usize = FIELD_HEIGHT - 2;
    while y > 1
        invariant
            1 <= y <= FIELD_HEIGHT - 2,
            g == grid(*field),
            forall|r: int, c: int|
                0 <= r < FIELD_HEIGHT && 0 <= c < FIELD_WIDTH ==> #[trigger] g[r][c] == field[r][c],
            count == dead_from(g, y as int),
            count <= 11 * (20 - y),
        decreases y,
    {
        y -= 1;
        let ghost below = count;
        for x in 2..FIELD_WIDTH - 2
            invariant
                1 <= y < FIELD_HEIGHT - 2,
                g == grid(*field),
                forall|r: int, c: int|
                    0 <= r < FIELD_HEIGHT && 0 <= c < FIELD_WIDTH ==> #[trigger] g[r][c]
                        == field[r][c],
                count == below + dead_in_row(g, y as int, x as int),
                below <= 11 * (19 - y),
                count <= below + (x - 2),
        {
            if field[y][x] == NONE {
                let mut y2 = y;
                let mut found = false;
                while y2 > 0 && !found
                    invariant
                        x < FIELD_WIDTH - 2,
                        y2 <= y < FIELD_HEIGHT - 2,
                        g == grid(*field),
                        forall|r: int, c: int|
                            0 <= r < FIELD_HEIGHT && 0 <= c < FIELD_WIDTH ==> #[trigger] g[r][c]
                                == field[r][c],
                        found ==> is_dead(g, y as int, x as int),
                        !found ==> forall|r: int| y2 <= r < y ==> (#[trigger] g[r])[x as int] == NONE,
                        g[y as int][x as int] == NONE,
                    decreases y2,
                {
                    y2 -= 1;
                    if field[y2][x] != NONE {
                        assert(g[y2 as int][x as int] != NONE);
                        found = true;
                    }
                }
                if found {
                    count += 1;
                }
            }
        }
    }
    count
}


/// What a board is worth under the weights `w`: each of its four features is
/// brought to the scale from 0 to 1 (full rows by 4, the height by 20,
/// unevenness and dead cells by 200), the last three are turned round so that
/// less is better, and the four are weighted and added. The value is that sum
/// times 200, which is a whole number.
#[verifier::opaque]
pub open spec fn placement_score(g: Grid, w: GenoSeq) -> int {
    50 * full_rows(g) * GenomeKind::Line.of(w) + (200 - 10 * stack_height(g))
        * GenomeKind::HeightMax.of(w) + (200 - bumpiness(g)) * GenomeKind::HeightDiff.of(w) + (200
        - dead_space(g)) * GenomeKind::DeadSpace.of(w)
}

/// What the board is worth under the weights.
pub fn score_of(field: &Field, weight: &GenoSeq) -> (score: i64)
    ensures
        score == placement_score(grid(*field), *weight),
{
    reveal(placement_score);
    let line = erase_line_count(field) as i64;
    let height_max = field_height_max(field) as i64;
    let height_diff = diff_in_height(field) as i64;
    let dead_space = dead_space_count(field) as i64;
    let w_line = GenomeKind::Line.index(weight) as i64;
    let w_max = GenomeKind::HeightMax.index(weight) as i64;
    let w_diff = GenomeKind::HeightDiff.index(weight) as i64;
    let w_dead = GenomeKind::DeadSpace.index(weight) as i64;
    assert(0 <= 50 * line * w_line <= 50 * 20 * 255) by (nonlinear_arith)
        requires
            0 <= line <= 20,
            0 <= w_line <= 255,
    ;
    assert(0 <= (200 - 10 * height_max) * w_max <= 200 * 255) by (nonlinear_arith)
        requires
            0 <= height_max <= 20,
            0 <= w_max <= 255,
    ;
    assert(0 <= (200 - height_diff) * w_diff <= 200 * 255) by (nonlinear_arith)
        requires
            0 <= height_diff <= 200,
            0 <= w_diff <= 255,
    ;
    assert(-9 * 255 <= (200 - dead_space) * w_dead <= 200 * 255) by (nonlinear_arith)
        requires
            0 <= dead_space <= 209,
            0 <= w_dead <= 255,
    ;
    50 * line * w_line + (200 - 10 * height_max) * w_max + (200 - height_diff) * w_diff + (200
        - dead_space) * w_dead
}

/// The game after so many quarter turns to the right of the active piece.
pub open spec fn turned_right(v: GameView, times: nat) -> GameView
    decreases times,
{
    if times == 0 {
        v
    } else {
        let before = turned_right(v, (times - 1) as nat);
        turned(before, rotated_right(before.block))
    }
}

/// The position `shift - 4` columns to the right of `pos`, and no further left
/// than the first column.
pub open spec fn shifted(pos: Position, shift: int) -> Position {
    Position { x: if pos.x + shift <= 4 { 0 } else { (pos.x + shift - 4) as usize }, y: pos.y }
}

/// The game after the active piece has been moved sideways by `shift - 4`
/// columns, if nothing is in its way there, then dropped and fixed. A shift
/// that carries the piece past the wall gives no placement.
#[verifier::opaque]
pub open spec fn placed(v: GameView, shift: int) -> Option<GameView> {
    let aside = moved(v, shifted(v.pos, shift));
    if aside.pos.x > FIELD_WIDTH - 4 {
        None
    } else {
        let rest = dropped(aside.field, aside.pos, aside.block);
        Some(GameView { field: fixed(aside.field, rest, aside.block), pos: rest, ..aside })
    }
}

/// The game after the active piece has been turned to the right `turns` times
/// and then placed with the shift `shift`.
pub open spec fn placement(start: GameView, turns: nat, shift: int) -> Option<GameView> {
    placed(turned_right(start, turns), shift)
}

/// The game `done` is the game `start` with its active piece put somewhere
/// and fixed there: at a place where it overlapped nothing, or, if it never
/// got away from where it was, there and as it was.
pub open spec fn placed_from(start: GameView, done: GameView) -> bool {
    &&& done == (GameView {
        field: fixed(start.field, done.pos, done.block),
        pos: done.pos,
        block: done.block,
        ..start
    })
    &&& !collides(start.field, done.pos, done.block) || (done.pos == start.pos && done.block
        == start.block)
}

/// Moves the active piece sideways by `shift - 4` columns, if nothing is in
/// its way there, drops it and fixes it, all on a copy of the game.
pub fn place(game: &Game, shift: usize) -> (done: Option<Game>)
    requires
        game@.wf(),
        shift < 10,
    ensures
        match placed(game@, shift as int) {
            Some(p) => done matches Some(d) && d@ == p && p.wf(),
            None => done is None,
        },
        done matches Some(d) ==> placed_from(game@, d@),
{
    let mut game = game.clone();
    let ghost before = game@;
    proof {
        reveal(placed);
        lemma_in_well_box(game.pos, game.block);
    }
    let new_pos = Position {
        x: if game.pos.x + shift <= 4 {
            0
        } else {
            game.pos.x + shift - 4
        },
        y: game.pos.y,
    };
    move_block(&mut game, new_pos);
    if game.pos.x > FIELD_WIDTH - 4 {
        return None;
    }
    proof {
        if !collides(before.field, new_pos, before.block) {
            lemma_free_in_well(game@.field, game.pos, game.block);
        }
        lemma_in_well_lands(game@.field, game.pos, game.block);
        lemma_dropped_in_well(game@.field, game.pos, game.block);
        lemma_dropped_free(game@.field, game.pos, game.block);
        let rest = dropped(game@.field, game.pos, game.block);
        lemma_in_well_box(rest, game.block);
        lemma_fixed_walled(game@.field, rest, game.block);
    }
    hard_drop(&mut game);
    fix_block(&mut game);
    Some(game)
}

/// How many placements the search looks at.
pub const CANDIDATES: usize = 80;

/// Placement number `i` of the search. The first half starts from the game
/// after a hold, the second half from the game as it is; within each half come
/// no turn, one turn, two and three, and for each number of turns the ten
/// shifts from four columns to the left to five to the right.
#[verifier::opaque]
pub open spec fn candidate(base: GameView, held: GameView, i: int) -> Option<GameView> {
    placement(if i < 40 { held } else { base }, ((i % 40) / 10) as nat, i % 10)
}

/// The best of the first `n` placements and its score, if there is a
/// placement among them: the first placement, unless a later one scores
/// strictly more; of the placements that score most, the first.
pub open spec fn best_of(base: GameView, held: GameView, w: GenoSeq, n: nat) -> Option<
    (GameView, int),
>
    decreases n,
{
    if n == 0 {
        None
    } else {
        let before = best_of(base, held, w, (n - 1) as nat);
        match candidate(base, held, n - 1) {
            Some(c) => if before matches Some(b) && b.1 >= placement_score(c.field, w) {
                before
            } else {
                Some((c, placement_score(c.field, w)))
            },
            None => before,
        }
    }
}

/// The game that the search returns: the best of all its placements, and the
/// game as it is only where there is no placement at all.
pub open spec fn chosen(base: GameView, held: GameView, w: GenoSeq) -> GameView {
    match best_of(base, held, w, CANDIDATES as nat) {
        Some(b) => b.0,
        None => base,
    }
}

/// The placement that the search looks at after `h` halves, `r` numbers of
/// turns and `s` shifts.
proof fn lemma_candidate(base: GameView, held: GameView, h: int, r: int, s: int)
    requires
        0 <= h < 2,
        0 <= r < 4,
        0 <= s < 10,
    ensures
        candidate(base, held, 40 * h + 10 * r + s) == placed(
            turned_right(if h == 0 { held } else { base }, r as nat),
            s,
        ),
{
    reveal(candidate);
    lemma_candidate_number(h, r, s);
}

/// A placement's number tells its half, its turns and its shift.
proof fn lemma_candidate_number(h: int, r: int, s: int)
    requires
        0 <= h < 2,
        0 <= r < 4,
        0 <= s < 10,
    ensures
        ((40 * h + 10 * r + s) % 40) / 10 == r,
        (40 * h + 10 * r + s) % 10 == s,
        (40 * h + 10 * r + s < 40) == (h == 0),
{
    if h == 0 {
        if r == 0 {
        } else if r == 1 {
        } else if r == 2 {
        } else {
        }
    } else {
        if r == 0 {
        } else if r == 1 {
        } else if r == 2 {
        } else {
        }
    }
}

/// One more placement looked at: the best so far stays unless this one
/// scores more.
proof fn lemma_best_of_step(base: GameView, held: GameView, w: GenoSeq, i: nat)
    ensures
        best_of(base, held, w, i + 1) == match candidate(base, held, i as int) {
            Some(c) => if best_of(base, held, w, i) matches Some(b) && b.1 >= placement_score(
                c.field,
                w,
            ) {
                best_of(base, held, w, i)
            } else {
                Some((c, placement_score(c.field, w)))
            },
            None => best_of(base, held, w, i),
        },
{
}

/// Placement number `i` is the best of the first `n`: it is worth `score`,
/// no placement before the `n`th is worth more, and none before it is worth
/// as much.
pub open spec fn first_best(
    base: GameView,
    held: GameView,
    w: GenoSeq,
    n: nat,
    i: int,
    score: int,
) -> bool {
    &&& 0 <= i < n
    &&& candidate(base, held, i) matches Some(c) && placement_score(c.field, w) == score
        && best_of(base, held, w, n) == Some((c, score))
    &&& forall|j: int|
        0 <= j < n ==> (#[trigger] candidate(base, held, j) matches Some(c) ==> placement_score(
            c.field,
            w,
        ) <= score)
    &&& forall|j: int|
        0 <= j < i ==> (#[trigger] candidate(base, held, j) matches Some(c) ==> placement_score(
            c.field,
            w,
        ) < score)
}

/// What the search picks among its first `n` placements: the first of those
/// that are worth most, and nothing only where there is no placement.
pub proof fn lemma_best_of(base: GameView, held: GameView, w: GenoSeq, n: nat)
    ensures
        best_of(base, held, w, n) is None <==> forall|j: int|
            0 <= j < n ==> #[trigger] candidate(base, held, j) is None,
        best_of(base, held, w, n) matches Some(b) ==> exists|i: int| #[trigger]
            first_best(base, held, w, n, i, b.1),
    decreases n,
{
    if n > 0 {
        let m = (n - 1) as nat;
        lemma_best_of(base, held, w, m);
        let before = best_of(base, held, w, m);
        let now = best_of(base, held, w, n);
        if candidate(base, held, n - 1) is Some {
            if now == before {
                let i = choose|i: int| #[trigger] first_best(base, held, w, m, i, (before->0).1);
                assert(first_best(base, held, w, n, i, (now->0).1));
            } else {
                assert(first_best(base, held, w, n, n - 1, (now->0).1));
            }
        } else if before is Some {
            let i = choose|i: int| #[trigger] first_best(base, held, w, m, i, (before->0).1);
            assert(first_best(base, held, w, n, i, (now->0).1));
        }
    }
}

/// The placement without a turn and without a shift is there for every game
/// in order: the search always has a placement to return.
pub proof fn lemma_placement_exists(base: GameView, held: GameView, w: GenoSeq)
    requires
        held.wf(),
    ensures
        candidate(base, held, 4) is Some,
        best_of(base, held, w, CANDIDATES as nat) is Some,
{
    reveal(candidate);
    reveal(placed);
    lemma_in_well_box(held.pos, held.block);
    assert(turned_right(held, 0) == held);
    assert(shifted(held.pos, 4) == held.pos);
    lemma_best_of(base, held, w, CANDIDATES as nat);
}

/// Searches the placements of the active piece of `base` and of `held`, the
/// same game after a hold, and returns the game with the best one made: the
/// first of those that score most.
pub fn best_placement(base: &Game, held: &Game, weight: &GenoSeq) -> (best: Game)
    requires
        base@.wf(),
        held@.wf(),
    ensures
        best@ == chosen(base@, held@, *weight),
        best_of(base@, held@, *weight, CANDIDATES as nat) is Some,
        best@.wf(),
        placed_from(base@, best@) || placed_from(held@, best@),
{
    let mut elite: Option<Game> = None;
    let mut elite_score: i64 = 0;
    for h in 0..2usize
        invariant
            base@.wf(),
            held@.wf(),
            search_so_far(base, held, elite, elite_score, *weight, (40 * h) as nat),
    {
        let mut turned_game = if h == 0 {
            held.clone()
        } else {
            base.clone()
        };
        let ghost start = turned_game@;
        for r in 0..4usize
            invariant
                h < 2,
                start == if h == 0 {
                    held@
                } else {
                    base@
                },
                turned_from(start, turned_game@),
                turned_game@.wf(),
                turned_game@ == turned_right(
                    start,
                    (if r == 0 {
                        0
                    } else {
                        r - 1
                    }) as nat,
                ),
                search_so_far(base, held, elite, elite_score, *weight, (40 * h + 10 * r) as nat),
        {
            if r > 0 {
                proof {
                    lemma_in_well_box(turned_game.pos, turned_game.block);
                    lemma_turned_wf(turned_game@);
                }
                rotate_right(&mut turned_game);
            }
            for s in 0..10usize
                invariant
                    h < 2,
                    r < 4,
                    start == if h == 0 {
                        held@
                    } else {
                        base@
                    },
                    turned_from(start, turned_game@),
                    turned_game@.wf(),
                    turned_game@ == turned_right(start, r as nat),
                    search_so_far(
                        base,
                        held,
                        elite,
                        elite_score,
                        *weight,
                        (40 * h + 10 * r + s) as nat,
                    ),
            {
                let ghost i = (40 * h + 10 * r + s) as nat;
                proof {
                    lemma_candidate(base@, held@, h as int, r as int, s as int);
                    lemma_best_of_step(base@, held@, *weight, i);
                }
                if let Some(game) = place(&turned_game, s) {
                    let score = score_of(&game.field, weight);
                    if elite.is_none() || elite_score < score {
                        elite = Some(game);
                        elite_score = score;
                    }
                }
            }
        }
    }
    proof {
        lemma_placement_exists(base@, held@, *weight);
    }
    match elite {
        Some(best) => best,
        None => base.clone(),
    }
}

/// The game `turned` is the game `start` with its active piece turned and
/// kicked: to a place where it overlaps nothing, or not at all.
pub open spec fn turned_from(start: GameView, turned: GameView) -> bool {
    &&& turned == (GameView { pos: turned.pos, block: turned.block, ..start })
    &&& !collides(start.field, turned.pos, turned.block) || (turned.pos == start.pos
        && turned.block == start.block)
}

/// What the search holds after `n` placements: the best of them, if there is
/// one, with its score.
pub open spec fn search_so_far(
    base: &Game,
    held: &Game,
    elite: Option<Game>,
    elite_score: i64,
    w: GenoSeq,
    n: nat,
) -> bool {
    match best_of(base@, held@, w, n) {
        None => elite is None,
        Some(b) => {
            &&& elite matches Some(e)
            &&& e@ == b.0
            &&& elite_score == b.1
            &&& e@.wf()
            &&& placed_from(base@, e@) || placed_from(held@, e@)
        },
    }
}

/// What the search returns for the game `v`, where `bag` is the bag that the
/// hold opened if it needed one: the best placement of the game as it is and
/// of the game after a hold, which is one or the other with its piece fixed.
pub open spec fn searched(v: GameView, bag: Seq<BlockShape>, w: GenoSeq, best: GameView) -> bool {
    &&& best == chosen(v, held(v, bag), w)
    &&& placed_from(v, best) || placed_from(held(v, bag), best)
}

/// Searches the placements of the active piece, with and without a hold
/// first, and returns the game with the best one made.
pub fn eval(game: &Game, weight: &GenoSeq) -> (best: Game)
    requires
        game@.wf(),
    ensures
        exists|bag: Seq<BlockShape>| is_bag(bag) && #[trigger] searched(game@, bag, *weight, best@),
        best@.wf(),
        best.line == game.line,
        best.score == game.score,
{
    let mut held_game = game.clone();
    hold(&mut held_game);
    proof {
        let bag = choose|bag: Seq<BlockShape>|
            is_bag(bag) && #[trigger] held(game@, bag) == held_game@;
        lemma_held_wf(game@, bag);
    }
    let best = best_placement(game, &held_game, weight);
    proof {
        let bag = choose|bag: Seq<BlockShape>|
            is_bag(bag) && #[trigger] held(game@, bag) == held_game@;
        assert(searched(game@, bag, *weight, best@));
    }
    best
}

} // verus!
