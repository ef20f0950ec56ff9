//! What holds of a game throughout play, and why the operations keep it.

use crate::block::block_kind::{NONE, WALL};
use crate::block::{catalog, is_bag, BlockKind, BlockShape};
use crate::board::{
    blank_row, cell_hits, collides, erased, fits, fixed, full_rows, grid, is_board,
    kept_rows, lemma_all_kept, lemma_blank_row, lemma_grid,
    row_full, scanned_rows, Field, Grid, Position, FIELD_HEIGHT, FIELD_WIDTH,
};
use crate::game::{
    held, landed, moved, refilled, score_for, spawned, started, turned, Game, GameView,
};
use crate::motion::{
    at_row, down_of, dropped, kicked, lands, left_of, right_of, rotated_left, rotated_right, up_of,
};
use std::collections::VecDeque;
use vstd::prelude::*;

verus! {

/// The walls stand: left and right of the playing columns down to the floor,
/// and the floor between them.
pub open spec fn walled(g: Grid) -> bool {
    &&& is_board(g)
    &&& forall|r: int| 0 <= r <= FIELD_HEIGHT - 2 ==> (#[trigger] g[r])[1] == WALL
    &&& forall|r: int| 0 <= r <= FIELD_HEIGHT - 2 ==> (#[trigger] g[r])[FIELD_WIDTH - 2] == WALL
    &&& forall|c: int| 1 <= c <= FIELD_WIDTH - 2 ==> #[trigger] g[FIELD_HEIGHT - 2][c] == WALL
}

/// Two of the four central cells of the shape, side by side, are filled.
pub open spec fn pair_across(s: BlockShape) -> bool {
    (s[1][1] != NONE && s[1][2] != NONE) || (s[2][1] != NONE && s[2][2] != NONE)
}

/// Two of the four central cells of the shape, one above the other, are filled.
pub open spec fn pair_down(s: BlockShape) -> bool {
    (s[1][1] != NONE && s[2][1] != NONE) || (s[1][2] != NONE && s[2][2] != NONE)
}

/// The shape has a filled cell in its first or last column.
pub open spec fn in_outer_column(s: BlockShape) -> bool {
    s[0][0] != NONE || s[1][0] != NONE || s[2][0] != NONE || s[3][0] != NONE || s[0][3] != NONE
        || s[1][3] != NONE || s[2][3] != NONE || s[3][3] != NONE
}

/// The shape has a filled cell in its first or last row.
pub open spec fn in_outer_row(s: BlockShape) -> bool {
    s[0][0] != NONE || s[0][1] != NONE || s[0][2] != NONE || s[0][3] != NONE || s[3][0] != NONE
        || s[3][1] != NONE || s[3][2] != NONE || s[3][3] != NONE
}

/// The shape holds on to the centre of its box: two central cells next to each
/// other are filled, side by side if it reaches the first or last column, one
/// above the other if it reaches the first or last row. Every piece is so in
/// every orientation, and that is what keeps it from slipping past a wall.
pub open spec fn anchored(s: BlockShape) -> bool {
    &&& pair_across(s) || pair_down(s)
    &&& in_outer_column(s) ==> pair_across(s)
    &&& in_outer_row(s) ==> pair_down(s)
}

/// Every filled cell of the shape at `pos` lies in the well: in a playing
/// column, above the floor.
pub open spec fn in_well(pos: Position, s: BlockShape) -> bool {
    forall|y: int, x: int|
        0 <= y < 4 && 0 <= x < 4 && #[trigger] s[y][x] != NONE ==> 2 <= pos.x + x <= FIELD_WIDTH - 3
            && pos.y + y <= FIELD_HEIGHT - 3
}

/// All shapes of the sequence are anchored.
pub open spec fn all_anchored(shapes: Seq<BlockShape>) -> bool {
    forall|i: int| 0 <= i < shapes.len() ==> anchored(#[trigger] shapes[i])
}

impl GameView {
    /// The game is in order: the walls stand, the active piece is in the well,
    /// a next piece waits, and every piece in play is anchored.
    pub open spec fn wf(self) -> bool {
        &&& walled(self.field)
        &&& anchored(self.block)
        &&& in_well(self.pos, self.block)
        &&& self.next.len() > 0
        &&& all_anchored(self.next)
        &&& all_anchored(self.next_buf)
        &&& self.hold matches Some(kept) ==> anchored(kept)
    }
}

/// Each of the seven pieces enters the board in an anchored shape.
pub proof fn lemma_catalog_anchored()
    ensures
        forall|kind: BlockKind| anchored(#[trigger] kind.spec_shape()),
        all_anchored(catalog()),
{
    assert forall|kind: BlockKind| anchored(#[trigger] kind.spec_shape()) by {
        let s = kind.spec_shape();
        match kind {
            BlockKind::I => {
                assert(s[2][1] != NONE && s[2][2] != NONE);
                assert(s[0][0] == NONE && s[0][1] == NONE && s[0][2] == NONE && s[0][3] == NONE);
                assert(s[3][0] == NONE && s[3][1] == NONE && s[3][2] == NONE && s[3][3] == NONE);
            },
            BlockKind::O => {
                assert(s[1][1] != NONE && s[1][2] != NONE && s[2][1] != NONE && s[2][2] != NONE);
            },
            BlockKind::S => {
                assert(s[1][1] != NONE && s[1][2] != NONE && s[2][1] != NONE);
                assert(s[0][0] == NONE && s[0][1] == NONE && s[0][2] == NONE && s[0][3] == NONE);
                assert(s[3][0] == NONE && s[3][1] == NONE && s[3][2] == NONE && s[3][3] == NONE);
            },
            BlockKind::Z => {
                assert(s[1][1] != NONE && s[2][1] != NONE && s[2][2] != NONE);
                assert(s[0][0] == NONE && s[0][1] == NONE && s[0][2] == NONE && s[0][3] == NONE);
                assert(s[3][0] == NONE && s[3][1] == NONE && s[3][2] == NONE && s[3][3] == NONE);
            },
            BlockKind::J => {
                assert(s[2][1] != NONE && s[2][2] != NONE);
                assert(s[0][0] == NONE && s[0][1] == NONE && s[0][2] == NONE && s[0][3] == NONE);
                assert(s[3][0] == NONE && s[3][1] == NONE && s[3][2] == NONE && s[3][3] == NONE);
            },
            BlockKind::L => {
                assert(s[1][2] != NONE && s[2][1] != NONE && s[2][2] != NONE);
                assert(s[0][0] == NONE && s[0][1] == NONE && s[0][2] == NONE && s[0][3] == NONE);
                assert(s[3][0] == NONE && s[3][1] == NONE && s[3][2] == NONE && s[3][3] == NONE);
            },
            BlockKind::T => {
                assert(s[1][1] != NONE && s[2][1] != NONE && s[2][2] != NONE);
                assert(s[0][0] == NONE && s[0][1] == NONE && s[0][2] == NONE && s[0][3] == NONE);
                assert(s[3][0] == NONE && s[3][1] == NONE && s[3][2] == NONE && s[3][3] == NONE);
            },
        }
    }
    assert(catalog()[0] == BlockKind::I.spec_shape());
    assert(catalog()[1] == BlockKind::O.spec_shape());
    assert(catalog()[2] == BlockKind::S.spec_shape());
    assert(catalog()[3] == BlockKind::Z.spec_shape());
    assert(catalog()[4] == BlockKind::J.spec_shape());
    assert(catalog()[5] == BlockKind::L.spec_shape());
    assert(catalog()[6] == BlockKind::T.spec_shape());
}

/// A bag holds anchored shapes only, seven of them.
pub proof fn lemma_bag_anchored(bag: Seq<BlockShape>)
    requires
        is_bag(bag),
    ensures
        bag.len() == 7,
        all_anchored(bag),
{
    lemma_catalog_anchored();
    bag.to_multiset_ensures();
    catalog().to_multiset_ensures();
    assert forall|i: int| 0 <= i < bag.len() implies anchored(#[trigger] bag[i]) by {
        assert(bag.contains(bag[i]));
        assert(catalog().to_multiset().count(bag[i]) > 0);
        assert(catalog().contains(bag[i]));
        let j = choose|j: int| 0 <= j < catalog().len() && catalog()[j] == bag[i];
        assert(anchored(catalog()[j]));
    }
}

/// A turn keeps a shape anchored, and carries a pair of central cells that lie
/// side by side to one that lie one above the other, and the other way round.
pub proof fn lemma_turn_anchored(s: BlockShape)
    ensures
        pair_across(rotated_left(s)) == pair_down(s),
        pair_down(rotated_left(s)) == pair_across(s),
        pair_across(rotated_right(s)) == pair_down(s),
        pair_down(rotated_right(s)) == pair_across(s),
        anchored(s) ==> anchored(rotated_left(s)) && anchored(rotated_right(s)),
{
}

/// An anchored shape in the well has its whole box on the board.
pub proof fn lemma_in_well_box(pos: Position, s: BlockShape)
    requires
        anchored(s),
        in_well(pos, s),
    ensures
        pos.x <= FIELD_WIDTH - 4,
        pos.y <= FIELD_HEIGHT - 4,
        pair_across(s) ==> 1 <= pos.x <= FIELD_WIDTH - 5,
        pair_down(s) ==> pos.y <= FIELD_HEIGHT - 5,
        fits(pos, s),
{
    assert(s[1][1] != NONE || s[1][2] != NONE || s[2][1] != NONE || s[2][2] != NONE);
}

/// Wherever a piece enters the board, it is in the well.
pub proof fn lemma_entry_in_well(s: BlockShape)
    ensures
        in_well(Position::spec_init(), s),
{
}


/// `to` is `from` or one of the eight positions around it.
pub open spec fn one_step(from: Position, to: Position) -> bool {
    &&& from.x - 1 <= to.x <= from.x + 1
    &&& from.y - 1 <= to.y <= from.y + 1
}

/// A piece in the well that is put one step further, and overlaps nothing
/// there, is still in the well: the walls and the floor are in its way.
pub proof fn lemma_step_in_well(g: Grid, from: Position, to: Position, s: BlockShape)
    requires
        walled(g),
        in_well(from, s),
        one_step(from, to),
        !collides(g, to, s),
    ensures
        in_well(to, s),
{
    assert forall|y: int, x: int| 0 <= y < 4 && 0 <= x < 4 && #[trigger] s[y][x] != NONE implies 2
        <= to.x + x <= FIELD_WIDTH - 3 && to.y + y <= FIELD_HEIGHT - 3 by {
        assert(!cell_hits(g, to, s, y, x));
        let r = to.y + y;
        let c = to.x + x;
        assert(1 <= c <= FIELD_WIDTH - 2 && r <= FIELD_HEIGHT - 2);
        assert(g[r][1] == WALL);
        assert(g[r][FIELD_WIDTH - 2] == WALL);
        assert(g[FIELD_HEIGHT - 2][c] == WALL);
    }
}

/// An anchored shape whose box is on the board, or sticks out of it by one
/// cell on the side to which a pair of its central cells runs, and which
/// overlaps nothing, is in the well.
pub proof fn lemma_free_in_well(g: Grid, pos: Position, s: BlockShape)
    requires
        walled(g),
        anchored(s),
        !collides(g, pos, s),
        pos.x <= FIELD_WIDTH - 3,
        pos.y <= FIELD_HEIGHT - 3,
        pos.x <= FIELD_WIDTH - 4 || pos.y <= FIELD_HEIGHT - 4,
        pair_across(s) || pos.x <= FIELD_WIDTH - 4,
        pair_down(s) || pos.y <= FIELD_HEIGHT - 4,
    ensures
        in_well(pos, s),
{
    assert(!cell_hits(g, pos, s, 1, 1));
    assert(!cell_hits(g, pos, s, 1, 2));
    assert(!cell_hits(g, pos, s, 2, 1));
    assert(!cell_hits(g, pos, s, 2, 2));
    assert(g[pos.y + 1][1] == WALL);
    assert(g[pos.y + 1][FIELD_WIDTH - 2] == WALL);
    if pos.y + 2 <= FIELD_HEIGHT - 2 {
        assert(g[pos.y + 2][1] == WALL);
        assert(g[pos.y + 2][FIELD_WIDTH - 2] == WALL);
    }
    if 1 <= pos.x + 1 <= FIELD_WIDTH - 2 {
        assert(g[FIELD_HEIGHT - 2][pos.x + 1] == WALL);
    }
    if 1 <= pos.x + 2 <= FIELD_WIDTH - 2 {
        assert(g[FIELD_HEIGHT - 2][pos.x + 2] == WALL);
    }
    assert(pos.x <= FIELD_WIDTH - 4);
    assert(pos.y <= FIELD_HEIGHT - 4);
    assert(pair_across(s) ==> 1 <= pos.x <= FIELD_WIDTH - 5 && pos.y <= FIELD_HEIGHT - 4);
    assert(pair_down(s) ==> pos.y <= FIELD_HEIGHT - 5);
    assert forall|y: int, x: int| 0 <= y < 4 && 0 <= x < 4 && #[trigger] s[y][x] != NONE implies 2
        <= pos.x + x <= FIELD_WIDTH - 3 && pos.y + y <= FIELD_HEIGHT - 3 by {
        assert(!cell_hits(g, pos, s, y, x));
        let r = pos.y + y;
        let c = pos.x + x;
        if x == 0 || x == 3 {
            assert(in_outer_column(s));
        }
        if y == 0 || y == 3 {
            assert(in_outer_row(s));
        }
        assert(r <= FIELD_HEIGHT - 2);
        assert(1 <= c <= FIELD_WIDTH - 2);
        assert(g[r][1] == WALL);
        assert(g[r][FIELD_WIDTH - 2] == WALL);
        assert(g[FIELD_HEIGHT - 2][c] == WALL);
    }
}

/// A move by one step keeps a game in order.
pub proof fn lemma_moved_wf(v: GameView, new_pos: Position)
    requires
        v.wf(),
        one_step(v.pos, new_pos),
    ensures
        moved(v, new_pos).wf(),
{
    if !collides(v.field, new_pos, v.block) {
        lemma_step_in_well(v.field, v.pos, new_pos, v.block);
    }
}

/// A turn, kicked or not, keeps a game in order.
pub proof fn lemma_turned_wf(v: GameView)
    requires
        v.wf(),
    ensures
        turned(v, rotated_left(v.block)).wf(),
        turned(v, rotated_right(v.block)).wf(),
{
    lemma_turn_anchored(v.block);
    lemma_in_well_box(v.pos, v.block);
    lemma_turn_in_well(v.field, v.pos, v.block, rotated_left(v.block));
    lemma_turn_in_well(v.field, v.pos, v.block, rotated_right(v.block));
}

/// Where a turned shape ends up, in place or kicked, it is in the well.
proof fn lemma_turn_in_well(g: Grid, pos: Position, s: BlockShape, t: BlockShape)
    requires
        walled(g),
        anchored(s),
        in_well(pos, s),
        anchored(t),
        pair_across(t) == pair_down(s),
        pair_down(t) == pair_across(s),
    ensures
        !collides(g, pos, t) ==> in_well(pos, t),
        kicked(g, pos, t) matches Some(p) ==> in_well(p, t),
{
    lemma_in_well_box(pos, s);
    if !collides(g, pos, t) {
        lemma_free_in_well(g, pos, t);
    }
    if !collides(g, up_of(pos), t) {
        lemma_free_in_well(g, up_of(pos), t);
    }
    if !collides(g, right_of(pos), t) {
        lemma_free_in_well(g, right_of(pos), t);
    }
    if !collides(g, down_of(pos), t) {
        lemma_free_in_well(g, down_of(pos), t);
    }
    if !collides(g, left_of(pos), t) {
        lemma_free_in_well(g, left_of(pos), t);
    }
}

/// A piece in the well of a walled board comes to rest when it falls.
pub proof fn lemma_in_well_lands(g: Grid, pos: Position, s: BlockShape)
    requires
        walled(g),
        anchored(s),
        in_well(pos, s),
    ensures
        lands(g, pos, s),
{
    lemma_in_well_box(pos, s);
    let y: int = if s[2][1] != NONE || s[2][2] != NONE {
        FIELD_HEIGHT - 4
    } else {
        FIELD_HEIGHT - 3
    };
    let low = at_row(pos, y);
    assert(g[FIELD_HEIGHT - 2][pos.x + 1] == WALL);
    assert(g[FIELD_HEIGHT - 2][pos.x + 2] == WALL);
    if s[2][1] != NONE {
        assert(cell_hits(g, low, s, 2, 1));
    } else if s[2][2] != NONE {
        assert(cell_hits(g, low, s, 2, 2));
    } else if s[1][1] != NONE {
        assert(cell_hits(g, low, s, 1, 1));
    } else {
        assert(cell_hits(g, low, s, 1, 2));
    }
    assert(collides(g, low, s));
}

/// A piece that falls from a place in the well comes to rest in the well.
pub proof fn lemma_dropped_in_well(g: Grid, pos: Position, s: BlockShape)
    requires
        walled(g),
        in_well(pos, s),
    ensures
        in_well(dropped(g, pos, s), s),
    decreases FIELD_HEIGHT - pos.y,
{
    if pos.y + 1 < FIELD_HEIGHT && !collides(g, down_of(pos), s) {
        lemma_step_in_well(g, pos, down_of(pos), s);
        lemma_dropped_in_well(g, down_of(pos), s);
    }
}


/// Fixing a piece that is in the well leaves the walls as they are.
pub proof fn lemma_fixed_walled(g: Grid, pos: Position, s: BlockShape)
    requires
        walled(g),
        in_well(pos, s),
    ensures
        walled(fixed(g, pos, s)),
{
    let f = fixed(g, pos, s);
    assert forall|r: int| 0 <= r <= FIELD_HEIGHT - 2 implies (#[trigger] f[r])[1] == WALL by {
        assert(g[r][1] == WALL);
    }
    assert forall|r: int| 0 <= r <= FIELD_HEIGHT - 2 implies (#[trigger] f[r])[FIELD_WIDTH - 2]
        == WALL by {
        assert(g[r][FIELD_WIDTH - 2] == WALL);
    }
    assert forall|c: int| 1 <= c <= FIELD_WIDTH - 2 implies #[trigger] f[FIELD_HEIGHT - 2][c]
        == WALL by {
        assert(g[FIELD_HEIGHT - 2][c] == WALL);
    }
}

/// Each playing row is, after a line clear, a playing row as it was before
/// or the top row with its playing cells emptied.
pub proof fn lemma_erased_rows(g: Grid)
    requires
        is_board(g),
    ensures
        erased(g).len() == FIELD_HEIGHT,
        erased(g)[FIELD_HEIGHT - 2] == g[FIELD_HEIGHT - 2],
        erased(g)[FIELD_HEIGHT - 1] == g[FIELD_HEIGHT - 1],
        forall|r: int|
            0 <= r < FIELD_HEIGHT - 2 ==> (#[trigger] erased(g)[r]) == blank_row(g[0]) || exists|
                r0: int,
            |
                0 <= r0 < FIELD_HEIGHT - 2 && erased(g)[r] == g[r0],
{
    let rows = scanned_rows(g);
    let kept = kept_rows(rows);
    let keep = |row: Seq<usize>| !row_full(row);
    rows.lemma_filter_len(keep);
    let k = full_rows(g) as int;
    assert forall|r: int| 0 <= r < FIELD_HEIGHT - 2 implies (#[trigger] erased(g)[r]) == blank_row(
        g[0],
    ) || exists|r0: int| 0 <= r0 < FIELD_HEIGHT - 2 && erased(g)[r] == g[r0] by {
        if r >= k {
            assert(erased(g)[r] == kept[r - k]);
            assert(kept.contains(kept[r - k]));
            rows.lemma_filter_contains_rev(keep, kept[r - k]);
            let i = choose|i: int| 0 <= i < rows.len() && rows[i] == kept[r - k];
            assert(rows[i] == g[i]);
        }
    }
}

/// A line clear leaves the walls as they are.
pub proof fn lemma_erased_walled(g: Grid)
    requires
        walled(g),
    ensures
        walled(erased(g)),
{
    lemma_erased_rows(g);
    lemma_blank_row(g[0]);
    let e = erased(g);
    assert(g[0][1] == WALL);
    assert forall|r: int| 0 <= r < FIELD_HEIGHT implies (#[trigger] e[r]).len() == FIELD_WIDTH && (r
        <= FIELD_HEIGHT - 2 ==> e[r][1] == WALL && e[r][FIELD_WIDTH - 2] == WALL) by {
        if r < FIELD_HEIGHT - 2 {
            if e[r] != blank_row(g[0]) {
                let r0 = choose|r0: int| 0 <= r0 < FIELD_HEIGHT - 2 && e[r] == g[r0];
                assert(g[r0][1] == WALL);
            }
        } else {
            assert(e[r] == g[r]);
            assert(r <= FIELD_HEIGHT - 2 ==> g[r][1] == WALL);
        }
    }
    assert forall|c: int| 1 <= c <= FIELD_WIDTH - 2 implies #[trigger] e[FIELD_HEIGHT - 2][c]
        == WALL by {
        assert(g[FIELD_HEIGHT - 2][c] == WALL);
    }
}

/// The next piece enters a game in order and leaves it in order.
pub proof fn lemma_spawned_wf(v: GameView, bag: Seq<BlockShape>)
    requires
        v.wf(),
        is_bag(bag),
    ensures
        spawned(refilled(v, bag)).wf(),
{
    lemma_bag_anchored(bag);
    let r = refilled(v, bag);
    assert(r.next_buf.len() > 0);
    let n = spawned(r);
    lemma_entry_in_well(n.block);
    assert(anchored(r.next[0]));
    assert(anchored(r.next_buf[0]));
    assert forall|i: int| 0 <= i < n.next.len() implies anchored(#[trigger] n.next[i]) by {
        if i < r.next.len() - 1 {
            assert(n.next[i] == r.next[i + 1]);
        }
    }
    assert forall|i: int| 0 <= i < n.next_buf.len() implies anchored(#[trigger] n.next_buf[i]) by {
        assert(n.next_buf[i] == r.next_buf[i + 1]);
    }
}

/// A hold keeps a game in order.
pub proof fn lemma_held_wf(v: GameView, bag: Seq<BlockShape>)
    requires
        v.wf(),
        is_bag(bag),
    ensures
        held(v, bag).wf(),
{
    if !v.holded {
        match v.hold {
            Some(kept) => {
                lemma_entry_in_well(kept);
            },
            None => {
                lemma_spawned_wf(GameView { hold: Some(v.block), ..v }, bag);
            },
        }
    }
}

/// Fixing the active piece and bringing in the next keeps a game in order.
pub proof fn lemma_landed_wf(v: GameView, bag: Seq<BlockShape>)
    requires
        v.wf(),
        is_bag(bag),
    ensures
        landed(v, bag).wf(),
{
    let board = fixed(v.field, v.pos, v.block);
    lemma_fixed_walled(v.field, v.pos, v.block);
    lemma_erased_walled(board);
    let rows = full_rows(board);
    let cleared = GameView {
        field: erased(board),
        score: (v.score + score_for(rows)) as usize,
        line: (v.line + rows) as usize,
        ..v
    };
    lemma_spawned_wf(cleared, bag);
}

/// A game starts in order.
pub proof fn lemma_started_wf(first: Seq<BlockShape>, second: Seq<BlockShape>)
    requires
        is_bag(first),
        is_bag(second),
    ensures
        started(first, second).wf(),
{
    lemma_bag_anchored(first);
    lemma_bag_anchored(second);
    let v = started(first, second);
    lemma_entry_in_well(v.block);
    assert(anchored(first[0]));
    assert(anchored(second[0]));
    assert forall|i: int| 0 <= i < v.next.len() implies anchored(#[trigger] v.next[i]) by {
        if i < first.len() - 1 {
            assert(v.next[i] == first[i + 1]);
        }
    }
    assert forall|i: int| 0 <= i < v.next_buf.len() implies anchored(#[trigger] v.next_buf[i]) by {
        assert(v.next_buf[i] == second[i + 1]);
    }
    assert forall|r: int| 0 <= r <= FIELD_HEIGHT - 2 implies (#[trigger] v.field[r])[1] == WALL by {}
}


/// Whether the walls of the board stand.
pub fn is_walled(field: &Field) -> (ok: bool)
    ensures
        ok == walled(grid(*field)),
{
    let ghost g = grid(*field);
    proof {
        lemma_grid(*field);
    }
    for r in 0..FIELD_HEIGHT - 1
        invariant
            g == grid(*field),
            is_board(g),
            forall|r0: int, c: int|
                0 <= r0 < FIELD_HEIGHT && 0 <= c < FIELD_WIDTH ==> #[trigger] g[r0][c]
                    == field[r0][c],
            forall|r0: int| 0 <= r0 < r ==> (#[trigger] g[r0])[1] == WALL,
            forall|r0: int| 0 <= r0 < r ==> (#[trigger] g[r0])[FIELD_WIDTH - 2] == WALL,
    {
        if field[r][1] != WALL || field[r][FIELD_WIDTH - 2] != WALL {
            assert(g[r as int][1] != WALL || g[r as int][FIELD_WIDTH - 2] != WALL);
            return false;
        }
    }
    for c in 1..FIELD_WIDTH - 1
        invariant
            g == grid(*field),
            is_board(g),
            forall|r0: int, c0: int|
                0 <= r0 < FIELD_HEIGHT && 0 <= c0 < FIELD_WIDTH ==> #[trigger] g[r0][c0]
                    == field[r0][c0],
            forall|r0: int| 0 <= r0 <= FIELD_HEIGHT - 2 ==> (#[trigger] g[r0])[1] == WALL,
            forall|r0: int| 0 <= r0 <= FIELD_HEIGHT - 2 ==> (#[trigger] g[r0])[FIELD_WIDTH - 2] == WALL,
            forall|c0: int| 1 <= c0 < c ==> #[trigger] g[FIELD_HEIGHT - 2][c0] == WALL,
    {
        if field[FIELD_HEIGHT - 2][c] != WALL {
            assert(g[FIELD_HEIGHT - 2][c as int] != WALL);
            return false;
        }
    }
    true
}

/// Whether the shape is anchored.
pub fn is_anchored(s: &BlockShape) -> (ok: bool)
    ensures
        ok == anchored(*s),
{
    let across = (s[1][1] != NONE && s[1][2] != NONE) || (s[2][1] != NONE && s[2][2] != NONE);
    let down = (s[1][1] != NONE && s[2][1] != NONE) || (s[1][2] != NONE && s[2][2] != NONE);
    let outer_column = s[0][0] != NONE || s[1][0] != NONE || s[2][0] != NONE || s[3][0] != NONE
        || s[0][3] != NONE || s[1][3] != NONE || s[2][3] != NONE || s[3][3] != NONE;
    let outer_row = s[0][0] != NONE || s[0][1] != NONE || s[0][2] != NONE || s[0][3] != NONE
        || s[3][0] != NONE || s[3][1] != NONE || s[3][2] != NONE || s[3][3] != NONE;
    (across || down) && (!outer_column || across) && (!outer_row || down)
}

/// Whether the shape at `pos` lies in the well.
pub fn is_in_well(pos: &Position, s: &BlockShape) -> (ok: bool)
    ensures
        ok == in_well(*pos, *s),
{
    for y in 0..4usize
        invariant
            forall|y0: int, x0: int|
                0 <= y0 < y && 0 <= x0 < 4 && #[trigger] s[y0][x0] != NONE ==> 2 <= pos.x + x0
                    <= FIELD_WIDTH - 3 && pos.y + y0 <= FIELD_HEIGHT - 3,
    {
        for x in 0..4usize
            invariant
                y < 4,
                forall|y0: int, x0: int|
                    0 <= y0 < y && 0 <= x0 < 4 && #[trigger] s[y0][x0] != NONE ==> 2 <= pos.x + x0
                        <= FIELD_WIDTH - 3 && pos.y + y0 <= FIELD_HEIGHT - 3,
                forall|x0: int|
                    0 <= x0 < x && #[trigger] s[y as int][x0] != NONE ==> 2 <= pos.x + x0
                        <= FIELD_WIDTH - 3 && pos.y + y <= FIELD_HEIGHT - 3,
        {
            if s[y][x] != NONE {
                let inside = pos.x <= FIELD_WIDTH - 3 - x && pos.x >= 2 - if x < 2 {
                    x
                } else {
                    2
                } && pos.y <= FIELD_HEIGHT - 3 - y;
                if !inside {
                    assert(s[y as int][x as int] != NONE);
                    return false;
                }
            }
        }
    }
    true
}

/// Whether all shapes of the queue are anchored.
pub fn are_anchored(shapes: &VecDeque<BlockShape>) -> (ok: bool)
    ensures
        ok == all_anchored(shapes@),
{
    for i in 0..shapes.len()
        invariant
            forall|j: int| 0 <= j < i ==> anchored(#[trigger] shapes@[j]),
    {
        if !is_anchored(&shapes[i]) {
            return false;
        }
    }
    true
}

impl Game {
    /// Whether the game is in order.
    pub fn in_order(&self) -> (ok: bool)
        ensures
            ok == self@.wf(),
    {
        let kept = match &self.hold {
            Some(kept) => is_anchored(kept),
            None => true,
        };
        kept && is_walled(&self.field) && is_anchored(&self.block) && is_in_well(
            &self.pos,
            &self.block,
        ) && self.next.len() > 0 && are_anchored(&self.next) && are_anchored(&self.next_buf)
    }
}


/// The shape is filled in the second cell of its third row, as every piece is
/// when it comes in.
pub open spec fn keyed(s: BlockShape) -> bool {
    s[2][1] != NONE
}

/// All shapes of the sequence are as they come in.
pub open spec fn all_keyed(shapes: Seq<BlockShape>) -> bool {
    forall|i: int| 0 <= i < shapes.len() ==> keyed(#[trigger] shapes[i])
}

impl GameView {
    /// The pieces that wait, in the queue, in the refill buffer and aside, are
    /// as they come in.
    pub open spec fn waiting_keyed(self) -> bool {
        &&& all_keyed(self.next)
        &&& all_keyed(self.next_buf)
        &&& self.hold matches Some(kept) ==> keyed(kept)
    }

    /// The game is under way: it is in order, a piece has just come in and
    /// has room, no row is full, and every row cleared has paid twenty-five
    /// points at most.
    pub open spec fn running(self) -> bool {
        &&& self.wf()
        &&& self.pos == Position::spec_init()
        &&& !collides(self.field, self.pos, self.block)
        &&& keyed(self.block)
        &&& self.waiting_keyed()
        &&& full_rows(self.field) == 0
        &&& self.score <= 25 * self.line
    }
}

/// A bag holds the pieces as they come in.
pub proof fn lemma_bag_keyed(bag: Seq<BlockShape>)
    requires
        is_bag(bag),
    ensures
        bag.len() == 7,
        all_keyed(bag),
{
    bag.to_multiset_ensures();
    catalog().to_multiset_ensures();
    assert(keyed(catalog()[0]) && keyed(catalog()[1]) && keyed(catalog()[2]) && keyed(catalog()[3])
        && keyed(catalog()[4]) && keyed(catalog()[5]) && keyed(catalog()[6]));
    assert forall|i: int| 0 <= i < bag.len() implies keyed(#[trigger] bag[i]) by {
        assert(bag.contains(bag[i]));
        assert(catalog().to_multiset().count(bag[i]) > 0);
        assert(catalog().contains(bag[i]));
        let j = choose|j: int| 0 <= j < catalog().len() && catalog()[j] == bag[i];
        assert(keyed(catalog()[j]));
    }
}

/// The piece that comes in is as it comes in, and so are those that still
/// wait.
pub proof fn lemma_spawned_keyed(v: GameView, bag: Seq<BlockShape>)
    requires
        v.next.len() > 0,
        v.waiting_keyed(),
        is_bag(bag),
    ensures
        keyed(spawned(refilled(v, bag)).block),
        spawned(refilled(v, bag)).waiting_keyed(),
{
    lemma_bag_keyed(bag);
    let r = refilled(v, bag);
    let n = spawned(r);
    assert(keyed(r.next[0]));
    assert(keyed(r.next_buf[0]));
    assert forall|i: int| 0 <= i < n.next.len() implies keyed(#[trigger] n.next[i]) by {
        if i < r.next.len() - 1 {
            assert(n.next[i] == r.next[i + 1]);
        }
    }
    assert forall|i: int| 0 <= i < n.next_buf.len() implies keyed(#[trigger] n.next_buf[i]) by {
        assert(n.next_buf[i] == r.next_buf[i + 1]);
    }
}

/// A hold in a game under way brings a piece to the entry that is as it comes
/// in, and leaves the board, the score and the rows as they are.
pub proof fn lemma_held_keyed(v: GameView, bag: Seq<BlockShape>)
    requires
        v.running(),
        is_bag(bag),
    ensures
        held(v, bag).pos == Position::spec_init(),
        held(v, bag).field == v.field,
        held(v, bag).score == v.score,
        held(v, bag).line == v.line,
        keyed(held(v, bag).block),
        held(v, bag).waiting_keyed(),
        held(v, bag).next.len() > 0,
{
    lemma_held_wf(v, bag);
    if !v.holded && v.hold is None {
        lemma_spawned_keyed(GameView { hold: Some(v.block), ..v }, bag);
    }
}

/// A new game is under way.
pub proof fn lemma_started_running(first: Seq<BlockShape>, second: Seq<BlockShape>)
    requires
        is_bag(first),
        is_bag(second),
    ensures
        started(first, second).running(),
{
    lemma_started_wf(first, second);
    lemma_bag_keyed(first);
    lemma_bag_keyed(second);
    let v = started(first, second);
    assert(keyed(first[0]));
    assert(keyed(second[0]));
    assert forall|i: int| 0 <= i < v.next.len() implies keyed(#[trigger] v.next[i]) by {
        if i < first.len() - 1 {
            assert(v.next[i] == first[i + 1]);
        }
    }
    assert forall|i: int| 0 <= i < v.next_buf.len() implies keyed(#[trigger] v.next_buf[i]) by {
        assert(v.next_buf[i] == second[i + 1]);
    }
    assert forall|y: int, x: int| 0 <= y < 4 && 0 <= x < 4 implies !#[trigger] cell_hits(
        v.field,
        v.pos,
        v.block,
        y,
        x,
    ) by {
        assert(v.field[y + 0][x + 5] == NONE);
    }
    let rows = scanned_rows(v.field);
    assert forall|i: int| 0 <= i < rows.len() implies !row_full(#[trigger] rows[i]) by {
        assert(rows[i][2] == NONE);
    }
    lemma_all_kept(rows);
}

} // verus!
