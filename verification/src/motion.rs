//! How a piece turns, where it is kicked to, and where it comes to rest.

use crate::block::block_kind::NONE;
use crate::block::BlockShape;
use crate::board::{collides, grid, is_collision, Field, Grid, Position, FIELD_HEIGHT};
use vstd::prelude::*;

verus! {

/// The shape after a quarter turn to the left: cell `(y, x)` goes to
/// `(3 - x, y)`.
pub open spec fn rotated_left(s: BlockShape) -> BlockShape {
    [
        [s[0][3], s[1][3], s[2][3], s[3][3]],
        [s[0][2], s[1][2], s[2][2], s[3][2]],
        [s[0][1], s[1][1], s[2][1], s[3][1]],
        [s[0][0], s[1][0], s[2][0], s[3][0]],
    ]
}

/// The shape after a quarter turn to the right: cell `(3 - x, y)` goes to
/// `(y, x)`.
pub open spec fn rotated_right(s: BlockShape) -> BlockShape {
    [
        [s[3][0], s[2][0], s[1][0], s[0][0]],
        [s[3][1], s[2][1], s[1][1], s[0][1]],
        [s[3][2], s[2][2], s[1][2], s[0][2]],
        [s[3][3], s[2][3], s[1][3], s[0][3]],
    ]
}

/// The cells of a turned shape, one by one.
pub proof fn lemma_rotated_cells(s: BlockShape)
    ensures
        forall|y: int, x: int|
            0 <= y < 4 && 0 <= x < 4 ==> #[trigger] rotated_left(s)[3 - x][y] == s[y][x],
        forall|y: int, x: int|
            0 <= y < 4 && 0 <= x < 4 ==> #[trigger] rotated_right(s)[y][x] == s[3 - x][y],
{
}

/// A turn to the left undoes a turn to the right, and the other way round.
pub proof fn lemma_turn_back(s: BlockShape)
    ensures
        rotated_right(rotated_left(s)) == s,
        rotated_left(rotated_right(s)) == s,
{
    let a = rotated_right(rotated_left(s));
    let b = rotated_left(rotated_right(s));
    assert forall|y: int| 0 <= y < 4 implies a[y] == s[y] && b[y] == s[y] by {
        assert(a[y] =~= s[y]);
        assert(b[y] =~= s[y]);
    }
    assert(a =~= s);
    assert(b =~= s);
}

/// Four turns the same way bring a shape back to where it was, and so do four
/// turns to the left followed by four to the right.
pub proof fn lemma_four_turns(s: BlockShape)
    ensures
        rotated_left(rotated_left(rotated_left(rotated_left(s)))) == s,
        rotated_right(rotated_right(rotated_right(rotated_right(s)))) == s,
        rotated_right(
            rotated_right(
                rotated_right(
                    rotated_right(rotated_left(rotated_left(rotated_left(rotated_left(s))))),
                ),
            ),
        ) == s,
{
    let a = rotated_left(rotated_left(rotated_left(rotated_left(s))));
    let b = rotated_right(rotated_right(rotated_right(rotated_right(s))));
    assert forall|y: int| 0 <= y < 4 implies a[y] == s[y] && b[y] == s[y] by {
        assert(a[y] =~= s[y]);
        assert(b[y] =~= s[y]);
    }
    assert(a =~= s);
    assert(b =~= s);
}

/// A quarter turn to the left of a shape.
pub fn turn_left(shape: &BlockShape) -> (turned: BlockShape)
    ensures
        turned == rotated_left(*shape),
{
    let mut new_shape: BlockShape = [[NONE, NONE, NONE, NONE]; 4];
    for y in 0..4usize
        invariant
            forall|y0: int, x0: int|
                0 <= y0 < y && 0 <= x0 < 4 ==> #[trigger] new_shape[3 - x0][y0] == shape[y0][x0],
    {
        for x in 0..4usize
            invariant
                y < 4,
                forall|y0: int, x0: int|
                    0 <= y0 < y && 0 <= x0 < 4 ==> #[trigger] new_shape[3 - x0][y0] == shape[y0][x0],
                forall|x0: int| 0 <= x0 < x ==> #[trigger] new_shape[3 - x0][y as int] == shape[y as int][x0],
        {
            new_shape[4 - 1 - x][y] = shape[y][x];
        }
    }
    proof {
        let want = rotated_left(*shape);
        assert forall|a: int| 0 <= a < 4 implies new_shape[a] == want[a] by {
            assert forall|b: int| 0 <= b < 4 implies new_shape[a][b] == want[a][b] by {
                assert(new_shape[3 - (3 - a)][b] == shape[b][3 - a]);
            }
            assert(new_shape[a] =~= want[a]);
        }
        assert(new_shape =~= want);
    }
    new_shape
}

/// A quarter turn to the right of a shape.
pub fn turn_right(shape: &BlockShape) -> (turned: BlockShape)
    ensures
        turned == rotated_right(*shape),
{
    let mut new_shape: BlockShape = [[NONE, NONE, NONE, NONE]; 4];
    for y in 0..4usize
        invariant
            forall|y0: int, x0: int|
                0 <= y0 < y && 0 <= x0 < 4 ==> #[trigger] new_shape[y0][x0] == shape[3 - x0][y0],
    {
        for x in 0..4usize
            invariant
                y < 4,
                forall|y0: int, x0: int|
                    0 <= y0 < y && 0 <= x0 < 4 ==> #[trigger] new_shape[y0][x0] == shape[3 - x0][y0],
                forall|x0: int| 0 <= x0 < x ==> #[trigger] new_shape[y as int][x0] == shape[3 - x0][y as int],
        {
            new_shape[y][x] = shape[4 - 1 - x][y];
        }
    }
    proof {
        let want = rotated_right(*shape);
        assert forall|a: int| 0 <= a < 4 implies new_shape[a] == want[a] by {
            assert forall|b: int| 0 <= b < 4 implies new_shape[a][b] == want[a][b] by {
                assert(new_shape[a][b] == shape[3 - b][a]);
            }
            assert(new_shape[a] =~= want[a]);
        }
        assert(new_shape =~= want);
    }
    new_shape
}

/// One cell up from `pos`, or `pos` itself on the top row.
pub open spec fn up_of(pos: Position) -> Position {
    Position { x: pos.x, y: if pos.y == 0 { pos.y } else { (pos.y - 1) as usize } }
}

/// One cell to the right of `pos`.
pub open spec fn right_of(pos: Position) -> Position {
    Position { x: (pos.x + 1) as usize, y: pos.y }
}

/// One cell down from `pos`.
pub open spec fn down_of(pos: Position) -> Position {
    Position { x: pos.x, y: (pos.y + 1) as usize }
}

/// One cell to the left of `pos`, or `pos` itself in the first column.
pub open spec fn left_of(pos: Position) -> Position {
    Position { x: if pos.x == 0 { pos.x } else { (pos.x - 1) as usize }, y: pos.y }
}

/// Where a shape that cannot turn in place is put instead: the first of up,
/// right, down and left of `pos`, in this order, at which it overlaps nothing.
pub open spec fn kicked(g: Grid, pos: Position, block: BlockShape) -> Option<Position> {
    if !collides(g, up_of(pos), block) {
        Some(up_of(pos))
    } else if !collides(g, right_of(pos), block) {
        Some(right_of(pos))
    } else if !collides(g, down_of(pos), block) {
        Some(down_of(pos))
    } else if !collides(g, left_of(pos), block) {
        Some(left_of(pos))
    } else {
        None
    }
}

/// Looks one cell around `pos` for a place where the shape overlaps nothing.
pub fn super_rotation(field: &Field, pos: &Position, block: &BlockShape) -> (found: Result<
    Position,
    (),
>)
    requires
        pos.x < usize::MAX,
        pos.y < usize::MAX,
    ensures
        match kicked(grid(*field), *pos, *block) {
            Some(p) => found == Ok::<Position, ()>(p),
            None => found is Err,
        },
{
    let diff_pos: [Position; 4] = [
        Position { x: pos.x, y: if pos.y == 0 { pos.y } else { pos.y - 1 } },
        Position { x: pos.x + 1, y: pos.y },
        Position { x: pos.x, y: pos.y + 1 },
        Position { x: if pos.x == 0 { pos.x } else { pos.x - 1 }, y: pos.y },
    ];
    for i in 0..4usize
        invariant
            diff_pos[0] == up_of(*pos),
            diff_pos[1] == right_of(*pos),
            diff_pos[2] == down_of(*pos),
            diff_pos[3] == left_of(*pos),
            forall|j: int| 0 <= j < i ==> collides(grid(*field), #[trigger] diff_pos[j], *block),
    {
        let p = diff_pos[i];
        if !is_collision(field, &p, block) {
            return Ok(p);
        }
    }
    Err(())
}

/// Row `y` of the column of `pos`.
pub open spec fn at_row(pos: Position, y: int) -> Position {
    Position { x: pos.x, y: y as usize }
}

/// Somewhere below `pos` the shape overlaps something: a piece that falls from
/// `pos` comes to rest.
pub open spec fn lands(g: Grid, pos: Position, block: BlockShape) -> bool {
    exists|y: int| pos.y < y < FIELD_HEIGHT && #[trigger] collides(g, at_row(pos, y), block)
}

/// Where a piece that falls from `pos` comes to rest: it goes down cell by
/// cell for as long as the next cell down is free.
pub open spec fn dropped(g: Grid, pos: Position, block: BlockShape) -> Position
    decreases FIELD_HEIGHT - pos.y,
{
    if pos.y + 1 < FIELD_HEIGHT && !collides(g, down_of(pos), block) {
        dropped(g, down_of(pos), block)
    } else {
        pos
    }
}

/// The resting place lies straight below the start, every step on the way
/// there is free, and the step after it is not. A piece that overlaps nothing
/// where it starts overlaps nothing where it rests.
pub proof fn lemma_dropped(g: Grid, pos: Position, block: BlockShape)
    requires
        lands(g, pos, block),
    ensures
        dropped(g, pos, block).x == pos.x,
        pos.y <= dropped(g, pos, block).y < FIELD_HEIGHT - 1,
        collides(g, down_of(dropped(g, pos, block)), block),
        forall|y: int|
            pos.y < y <= dropped(g, pos, block).y ==> !#[trigger] collides(g, at_row(pos, y), block),
        !collides(g, pos, block) ==> !collides(g, dropped(g, pos, block), block),
    decreases FIELD_HEIGHT - pos.y,
{
    let w = choose|y: int| pos.y < y < FIELD_HEIGHT && #[trigger] collides(g, at_row(pos, y), block);
    assert(at_row(pos, pos.y + 1) == down_of(pos));
    if !collides(g, down_of(pos), block) {
        let below = down_of(pos);
        assert(at_row(below, w) == at_row(pos, w));
        assert(lands(g, below, block));
        lemma_dropped(g, below, block);
        assert forall|y: int| pos.y < y <= dropped(g, pos, block).y implies !#[trigger] collides(
            g,
            at_row(pos, y),
            block,
        ) by {
            assert(at_row(below, y) == at_row(pos, y));
        }
    }
}

/// A piece that has fallen at all overlaps nothing where it rests.
pub proof fn lemma_dropped_free(g: Grid, pos: Position, block: BlockShape)
    requires
        lands(g, pos, block),
    ensures
        dropped(g, pos, block) == pos || !collides(g, dropped(g, pos, block), block),
{
    if pos.y + 1 < FIELD_HEIGHT && !collides(g, down_of(pos), block) {
        let below = down_of(pos);
        let w = choose|y: int| pos.y < y < FIELD_HEIGHT && #[trigger] collides(g, at_row(pos, y), block);
        assert(at_row(pos, pos.y + 1) == below);
        assert(at_row(below, w) == at_row(pos, w));
        assert(lands(g, below, block));
        lemma_dropped(g, below, block);
    }
}

/// Where the piece would come to rest if it were dropped now.
pub fn ghost_pos(field: &Field, pos: &Position, block: &BlockShape) -> (rest: Position)
    requires
        lands(grid(*field), *pos, *block),
    ensures
        rest == dropped(grid(*field), *pos, *block),
{
    let ghost g = grid(*field);
    let mut ghost_pos = *pos;
    loop
        invariant_except_break
            g == grid(*field),
            lands(g, ghost_pos, *block),
            dropped(g, ghost_pos, *block) == dropped(g, *pos, *block),
        ensures
            ghost_pos == dropped(grid(*field), *pos, *block),
        decreases FIELD_HEIGHT - ghost_pos.y,
    {
        proof {
            let w = choose|y: int|
                ghost_pos.y < y < FIELD_HEIGHT && #[trigger] collides(g, at_row(ghost_pos, y), *block);
            assert(at_row(ghost_pos, ghost_pos.y + 1) == down_of(ghost_pos));
            if !collides(g, down_of(ghost_pos), *block) {
                assert(at_row(down_of(ghost_pos), w) == at_row(ghost_pos, w));
                assert(lands(g, down_of(ghost_pos), *block));
            }
        }
        let new_pos = Position { x: ghost_pos.x, y: ghost_pos.y + 1 };
        if is_collision(field, &new_pos, block) {
            break ;
        }
        ghost_pos = new_pos;
    }
    ghost_pos
}

} // verus!
