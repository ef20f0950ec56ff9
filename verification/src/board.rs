//! The board: its cells, what it means for a shape to overlap it, how a shape
//! is fixed into it, and how full rows are cleared.

use crate::block::block_kind::{NONE, WALL, WALL as W};
use crate::block::{BlockColor, BlockShape};
use vstd::prelude::*;

verus! {

/// Board width: the playing columns, a wall on either side, and an empty
/// guard column beyond each wall.
pub const FIELD_WIDTH: usize = 11 + 2 + 2;

/// Board height: the playing rows, the floor, and an empty guard row below it.
pub const FIELD_HEIGHT: usize = 20 + 1 + 1;

/// The board: rows of cells, top row first.
pub type Field = [[BlockColor; FIELD_WIDTH]; FIELD_HEIGHT];

/// A board as a plain value: the sequence of its rows, top row first.
pub type Grid = Seq<Seq<BlockColor>>;

/// The board as a plain value.
pub open spec fn grid(field: Field) -> Grid {
    Seq::new(FIELD_HEIGHT as nat, |r: int| field[r]@)
}

/// A grid with the dimensions of the board.
pub open spec fn is_board(g: Grid) -> bool {
    &&& g.len() == FIELD_HEIGHT
    &&& forall|r: int| 0 <= r < FIELD_HEIGHT ==> (#[trigger] g[r]).len() == FIELD_WIDTH
}

/// The plain value of a board has the board's cells.
pub proof fn lemma_grid(field: Field)
    ensures
        is_board(grid(field)),
        forall|r: int, c: int|
            0 <= r < FIELD_HEIGHT && 0 <= c < FIELD_WIDTH ==> #[trigger] grid(field)[r][c]
                == field[r][c],
{
}

/// Where the 4x4 box of a piece has its top left corner on the board.
#[derive(Clone, Copy, Debug, PartialEq, Eq, Structural)]
pub struct Position {
    pub x: usize,
    pub y: usize,
}

impl Position {
    /// Where a piece enters the board.
    pub open spec fn spec_init() -> Position {
        Position { x: 5, y: 0 }
    }

    /// Where a piece enters the board.
    #[verifier::when_used_as_spec(spec_init)]
    pub fn init() -> (pos: Position)
        ensures
            pos == Self::spec_init(),
    {
        Position { x: 5, y: 0 }
    }
}

/// Cell `(y, x)` of the shape is filled and lies on a filled cell of the board.
/// A cell of the shape that falls beyond the board's last row or column meets
/// nothing.
pub open spec fn cell_hits(g: Grid, pos: Position, block: BlockShape, y: int, x: int) -> bool {
    &&& y + pos.y < FIELD_HEIGHT
    &&& x + pos.x < FIELD_WIDTH
    &&& block[y][x] != NONE
    &&& g[y + pos.y][x + pos.x] != NONE
}

/// The shape at `pos` overlaps something on the board.
pub open spec fn collides(g: Grid, pos: Position, block: BlockShape) -> bool {
    exists|y: int, x: int| 0 <= y < 4 && 0 <= x < 4 && #[trigger] cell_hits(g, pos, block, y, x)
}

/// Whether the shape at `pos` overlaps a filled cell of the board.
pub fn is_collision(field: &Field, pos: &Position, block: &BlockShape) -> (hit: bool)
    ensures
        hit == collides(grid(*field), *pos, *block),
{
    proof {
        lemma_grid(*field);
    }
    let ghost g = grid(*field);
    for y in 0..4usize
        invariant
            g == grid(*field),
            forall|r: int, c: int|
                0 <= r < FIELD_HEIGHT && 0 <= c < FIELD_WIDTH ==> #[trigger] g[r][c] == field[r][c],
            forall|y0: int, x0: int|
                0 <= y0 < y && 0 <= x0 < 4 ==> !#[trigger] cell_hits(g, *pos, *block, y0, x0),
    {
        for x in 0..4usize
            invariant
                y < 4,
                g == grid(*field),
                forall|r: int, c: int|
                    0 <= r < FIELD_HEIGHT && 0 <= c < FIELD_WIDTH ==> #[trigger] g[r][c]
                        == field[r][c],
                forall|y0: int, x0: int|
                    0 <= y0 < y && 0 <= x0 < 4 ==> !#[trigger] cell_hits(g, *pos, *block, y0, x0),
                forall|x0: int| 0 <= x0 < x ==> !#[trigger] cell_hits(g, *pos, *block, y as int, x0),
        {
            if pos.y < FIELD_HEIGHT - y && pos.x < FIELD_WIDTH - x {
                if block[y][x] != NONE && field[y + pos.y][x + pos.x] != NONE {
                    assert(cell_hits(g, *pos, *block, y as int, x as int));
                    return true;
                }
            }
        }
    }
    false
}

/// Every filled cell of the shape at `pos` lies on the board.
pub open spec fn fits(pos: Position, block: BlockShape) -> bool {
    forall|y: int, x: int|
        0 <= y < 4 && 0 <= x < 4 && #[trigger] block[y][x] != NONE ==> y + pos.y < FIELD_HEIGHT && x
            + pos.x < FIELD_WIDTH
}

/// What cell `(r, c)` of the board holds once the shape at `pos` is fixed.
pub open spec fn fixed_cell(g: Grid, pos: Position, block: BlockShape, r: int, c: int) -> BlockColor {
    let y = r - pos.y;
    let x = c - pos.x;
    if 0 <= y < 4 && 0 <= x < 4 && block[y][x] != NONE {
        block[y][x]
    } else {
        g[r][c]
    }
}

/// The board with the filled cells of the shape at `pos` written into it.
pub open spec fn fixed(g: Grid, pos: Position, block: BlockShape) -> Grid {
    Seq::new(
        FIELD_HEIGHT as nat,
        |r: int| Seq::new(FIELD_WIDTH as nat, |c: int| fixed_cell(g, pos, block, r, c)),
    )
}

/// Every playing column of the row is filled.
pub open spec fn row_full(row: Seq<BlockColor>) -> bool {
    forall|x: int| 2 <= x < FIELD_WIDTH - 2 ==> #[trigger] row[x] != NONE
}

/// The rows that a line clear looks at: the playing rows, from the top row
/// down to the last above the floor.
pub open spec fn scanned_rows(g: Grid) -> Seq<Seq<BlockColor>> {
    g.subrange(0, FIELD_HEIGHT - 2)
}

/// The rows that a line clear leaves on the board, in their order.
pub open spec fn kept_rows(rows: Seq<Seq<BlockColor>>) -> Seq<Seq<BlockColor>> {
    rows.filter(|row: Seq<BlockColor>| !row_full(row))
}

/// How many rows a line clear removes.
pub open spec fn full_rows(g: Grid) -> nat {
    (scanned_rows(g).len() - kept_rows(scanned_rows(g)).len()) as nat
}

/// The row with its playing cells emptied: what is left of it are its cells
/// in the walls and beyond them.
pub open spec fn blank_row(row: Seq<BlockColor>) -> Seq<BlockColor> {
    Seq::new(
        row.len(),
        |x: int|
            if 2 <= x < FIELD_WIDTH - 2 {
                NONE
            } else {
                row[x]
            },
    )
}

/// The board after a line clear. The full rows are gone, the rows that are
/// left have moved down to close the gaps and stand directly above the floor
/// in their order, and as many rows that are empty between the walls stand
/// above them as rows were removed. The floor and the guard row stay.
pub open spec fn erased(g: Grid) -> Grid {
    Seq::new(full_rows(g), |i: int| blank_row(g[0])) + kept_rows(scanned_rows(g)) + g.subrange(
        FIELD_HEIGHT - 2,
        FIELD_HEIGHT as int,
    )
}

/// Whether every playing column of the row is filled.
pub fn is_row_full(row: &[BlockColor; FIELD_WIDTH]) -> (full: bool)
    ensures
        full == row_full(row@),
{
    for x in 2..FIELD_WIDTH - 2
        invariant
            forall|x0: int| 2 <= x0 < x ==> #[trigger] row@[x0] != NONE,
    {
        if row[x] == NONE {
            return false;
        }
    }
    true
}

/// Removes the full rows, moves what is above them down, leaves empty rows at
/// the top in their place, and returns how many rows were removed.
pub fn erase_line(field: &mut Field) -> (count: usize)
    ensures
        grid(*final(field)) == erased(grid(*old(field))),
        count == full_rows(grid(*old(field))),
{
    let ghost g0 = grid(*field);
    let ghost keep = |row: Seq<BlockColor>| !row_full(row);
    let ghost top = blank_row(g0[0]);
    let mut count: usize = 0;
    proof {
        lemma_grid(*field);
        reveal(Seq::filter);
        assert(g0.subrange(0, 0).filter(keep) =~= Seq::<Seq<BlockColor>>::empty());
        assert(grid(*field) =~= Seq::new(0, |i: int| top) + g0.subrange(0, 0).filter(keep)
            + g0.subrange(0, FIELD_HEIGHT as int));
    }
    for y in 0..FIELD_HEIGHT - 2
        invariant
            g0.len() == FIELD_HEIGHT,
            g0[0].len() == FIELD_WIDTH,
            top == blank_row(g0[0]),
            keep == (|row: Seq<BlockColor>| !row_full(row)),
            count + g0.subrange(0, y as int).filter(keep).len() == y,
            blank_row(grid(*field)[0]) == top,
            grid(*field) == Seq::new(count as nat, |i: int| top) + g0.subrange(0, y as int).filter(
                keep,
            ) + g0.subrange(y as int, FIELD_HEIGHT as int),
    {
        let ghost pre = *field;
        let ghost kept = g0.subrange(0, y as int).filter(keep);
        proof {
            lemma_grid(pre);
            assert(g0.subrange(0, y + 1) =~= g0.subrange(0, y as int).push(g0[y as int]));
            g0.subrange(0, y as int).lemma_filter_push(g0[y as int], keep);
            assert(grid(pre)[y as int] == g0[y as int]);
        }
        if is_row_full(&field[y]) {
            count += 1;
            let mut y2 = y;
            while y2 >= 1
                invariant
                    y2 <= y < FIELD_HEIGHT - 2,
                    forall|j: int|
                        0 <= j < FIELD_HEIGHT ==> #[trigger] field[j] == (if y2 < j <= y {
                            pre[j - 1]
                        } else {
                            pre[j]
                        }),
                decreases y2,
            {
                field[y2] = field[y2 - 1];
                y2 -= 1;
            }
            for x in 2..FIELD_WIDTH - 2
                invariant
                    y < FIELD_HEIGHT - 2,
                    forall|j: int|
                        1 <= j < FIELD_HEIGHT ==> #[trigger] field[j] == (if j <= y {
                            pre[j - 1]
                        } else {
                            pre[j]
                        }),
                    forall|c: int|
                        0 <= c < FIELD_WIDTH ==> #[trigger] field[0][c] == (if 2 <= c < x {
                            NONE
                        } else {
                            pre[0][c]
                        }),
            {
                field[0][x] = NONE;
            }
            proof {
                lemma_grid(*field);
                assert(grid(*field)[0] =~= blank_row(grid(pre)[0]));
                assert(blank_row(blank_row(grid(pre)[0])) =~= blank_row(grid(pre)[0]));
                let want = Seq::new(count as nat, |i: int| top) + kept + g0.subrange(
                    y + 1,
                    FIELD_HEIGHT as int,
                );
                assert forall|j: int| 0 <= j < FIELD_HEIGHT implies grid(*field)[j] == want[j] by {
                    if 1 <= j <= y {
                        assert(field[j] == pre[j - 1]);
                        assert(grid(*field)[j] == grid(pre)[j - 1]);
                    } else if j > y {
                        assert(field[j] == pre[j]);
                        assert(grid(*field)[j] == grid(pre)[j]);
                    }
                }
                assert(grid(*field) =~= want);
            }
        } else {
            proof {
                assert(grid(*field) =~= Seq::new(count as nat, |i: int| top) + kept.push(
                    g0[y as int],
                ) + g0.subrange(y + 1, FIELD_HEIGHT as int));
            }
        }
    }
    proof {
        assert(g0.subrange(0, FIELD_HEIGHT - 2) == scanned_rows(g0));
        assert(scanned_rows(g0).len() == FIELD_HEIGHT - 2);
    }
    count
}

/// What cell `(r, c)` of the empty board holds: a wall left and right of the
/// playing columns and under them, nothing elsewhere.
pub open spec fn empty_board_cell(r: int, c: int) -> BlockColor {
    if (0 <= r <= FIELD_HEIGHT - 2 && (c == 1 || c == FIELD_WIDTH - 2)) || (r == FIELD_HEIGHT - 2 && 1
        <= c <= FIELD_WIDTH - 2) {
        WALL
    } else {
        NONE
    }
}

/// The board before the first piece.
pub open spec fn empty_board() -> Grid {
    Seq::new(
        FIELD_HEIGHT as nat,
        |r: int| Seq::new(FIELD_WIDTH as nat, |c: int| empty_board_cell(r, c)),
    )
}

/// Writes the filled cells of the shape at `pos` into the board.
pub fn fix_shape(field: &mut Field, pos: &Position, block: &BlockShape)
    requires
        fits(*pos, *block),
    ensures
        grid(*final(field)) == fixed(grid(*old(field)), *pos, *block),
{
    let ghost before = *field;
    for y in 0..4usize
        invariant
            fits(*pos, *block),
            before == *old(field),
            forall|r: int, c: int|
                0 <= r < FIELD_HEIGHT && 0 <= c < FIELD_WIDTH ==> #[trigger] field[r][c] == (if r
                    - pos.y < y {
                    fixed_cell(grid(before), *pos, *block, r, c)
                } else {
                    before[r][c]
                }),
    {
        for x in 0..4usize
            invariant
                y < 4,
                fits(*pos, *block),
                before == *old(field),
                forall|r: int, c: int|
                    0 <= r < FIELD_HEIGHT && 0 <= c < FIELD_WIDTH ==> #[trigger] field[r][c] == (if r
                        - pos.y < y || (r - pos.y == y && c - pos.x < x) {
                        fixed_cell(grid(before), *pos, *block, r, c)
                    } else {
                        before[r][c]
                    }),
        {
            proof {
                lemma_grid(before);
            }
            if block[y][x] != NONE {
                assert(block[y as int][x as int] != NONE);
                field[y + pos.y][x + pos.x] = block[y][x];
            }
        }
    }
    proof {
        lemma_grid(before);
        lemma_grid(*field);
        assert forall|r: int| 0 <= r < FIELD_HEIGHT implies #[trigger] grid(*field)[r] == fixed(
            grid(before),
            *pos,
            *block,
        )[r] by {
            assert(grid(*field)[r] =~= fixed(grid(before), *pos, *block)[r]);
        }
        assert(grid(*field) =~= fixed(grid(before), *pos, *block));
    }
}

/// The board before the first piece.
pub fn empty_field() -> (field: Field)
    ensures
        grid(field) == empty_board(),
{
    let field: Field = [
        [0, W, 0, 0, 0, 0, 0, 0, 0, 0, 0, 0, 0, W, 0],
        [0, W, 0, 0, 0, 0, 0, 0, 0, 0, 0, 0, 0, W, 0],
        [0, W, 0, 0, 0, 0, 0, 0, 0, 0, 0, 0, 0, W, 0],
        [0, W, 0, 0, 0, 0, 0, 0, 0, 0, 0, 0, 0, W, 0],
        [0, W, 0, 0, 0, 0, 0, 0, 0, 0, 0, 0, 0, W, 0],
        [0, W, 0, 0, 0, 0, 0, 0, 0, 0, 0, 0, 0, W, 0],
        [0, W, 0, 0, 0, 0, 0, 0, 0, 0, 0, 0, 0, W, 0],
        [0, W, 0, 0, 0, 0, 0, 0, 0, 0, 0, 0, 0, W, 0],
        [0, W, 0, 0, 0, 0, 0, 0, 0, 0, 0, 0, 0, W, 0],
        [0, W, 0, 0, 0, 0, 0, 0, 0, 0, 0, 0, 0, W, 0],
        [0, W, 0, 0, 0, 0, 0, 0, 0, 0, 0, 0, 0, W, 0],
        [0, W, 0, 0, 0, 0, 0, 0, 0, 0, 0, 0, 0, W, 0],
        [0, W, 0, 0, 0, 0, 0, 0, 0, 0, 0, 0, 0, W, 0],
        [0, W, 0, 0, 0, 0, 0, 0, 0, 0, 0, 0, 0, W, 0],
        [0, W, 0, 0, 0, 0, 0, 0, 0, 0, 0, 0, 0, W, 0],
        [0, W, 0, 0, 0, 0, 0, 0, 0, 0, 0, 0, 0, W, 0],
        [0, W, 0, 0, 0, 0, 0, 0, 0, 0, 0, 0, 0, W, 0],
        [0, W, 0, 0, 0, 0, 0, 0, 0, 0, 0, 0, 0, W, 0],
        [0, W, 0, 0, 0, 0, 0, 0, 0, 0, 0, 0, 0, W, 0],
        [0, W, 0, 0, 0, 0, 0, 0, 0, 0, 0, 0, 0, W, 0],
        [0, W, WALL, WALL, WALL, WALL, WALL, WALL, WALL, WALL, WALL, WALL, WALL, W, 0],
        [0, 0, 0, 0, 0, 0, 0, 0, 0, 0, 0, 0, 0, 0, 0],
    ];
    proof {
        lemma_grid(field);
        assert forall|r: int| 0 <= r < FIELD_HEIGHT implies #[trigger] grid(field)[r]
            == empty_board()[r] by {
            assert(grid(field)[r] =~= empty_board()[r]);
        }
        assert(grid(field) =~= empty_board());
    }
    field
}


/// How many rows a line clear would remove from the board.
pub fn count_full_rows(field: &Field) -> (count: usize)
    ensures
        count == full_rows(grid(*field)),
        count <= FIELD_HEIGHT - 2,
{
    let ghost g = grid(*field);
    let ghost keep = |row: Seq<BlockColor>| !row_full(row);
    let mut count: usize = 0;
    proof {
        lemma_grid(*field);
        reveal(Seq::filter);
        assert(g.subrange(0, 0).filter(keep) =~= Seq::<Seq<BlockColor>>::empty());
    }
    for y in 0..FIELD_HEIGHT - 2
        invariant
            g == grid(*field),
            g.len() == FIELD_HEIGHT,
            keep == (|row: Seq<BlockColor>| !row_full(row)),
            count + g.subrange(0, y as int).filter(keep).len() == y,
    {
        proof {
            assert(g.subrange(0, y + 1) =~= g.subrange(0, y as int).push(g[y as int]));
            g.subrange(0, y as int).lemma_filter_push(g[y as int], keep);
        }
        if is_row_full(&field[y]) {
            count += 1;
        }
    }
    proof {
        assert(g.subrange(0, FIELD_HEIGHT - 2) == scanned_rows(g));
    }
    count
}

/// How many of the first `x` cells of the row are empty.
pub open spec fn blanks_in(row: Seq<BlockColor>, x: int) -> nat
    decreases x,
{
    if x <= 0 {
        0
    } else {
        blanks_in(row, x - 1) + if row[x - 1] == NONE {
            1nat
        } else {
            0nat
        }
    }
}

/// How many cells of the first `y` rows of the board are empty.
pub open spec fn blanks_to(g: Grid, y: int) -> nat
    decreases y,
{
    if y <= 0 {
        0
    } else {
        blanks_to(g, y - 1) + blanks_in(g[y - 1], FIELD_WIDTH as int)
    }
}

/// How many cells of the board are empty.
pub open spec fn blanks(g: Grid) -> nat {
    blanks_to(g, FIELD_HEIGHT as int)
}

/// How many cells of the board are empty.
pub fn count_blanks(field: &Field) -> (count: usize)
    ensures
        count == blanks(grid(*field)),
{
    let ghost g = grid(*field);
    proof {
        lemma_grid(*field);
    }
    let mut count: usize = 0;
    for y in 0..FIELD_HEIGHT
        invariant
            g == grid(*field),
            forall|r: int, c: int|
                0 <= r < FIELD_HEIGHT && 0 <= c < FIELD_WIDTH ==> #[trigger] g[r][c] == field[r][c],
            count == blanks_to(g, y as int),
            count <= 15 * y,
    {
        let ghost above = count;
        for x in 0..FIELD_WIDTH
            invariant
                y < FIELD_HEIGHT,
                g == grid(*field),
                forall|r: int, c: int|
                    0 <= r < FIELD_HEIGHT && 0 <= c < FIELD_WIDTH ==> #[trigger] g[r][c]
                        == field[r][c],
                above <= 15 * y,
                count == above + blanks_in(g[y as int], x as int),
                count <= above + x,
        {
            if field[y][x] == NONE {
                count += 1;
            }
        }
    }
    count
}

/// No playing column of the row is filled.
pub open spec fn row_empty(row: Seq<BlockColor>) -> bool {
    forall|x: int| 2 <= x < FIELD_WIDTH - 2 ==> #[trigger] row[x] == NONE
}

/// How many of the playing cells of the row before column `x` are filled.
pub open spec fn filled_in(row: Seq<BlockColor>, x: int) -> nat
    decreases x,
{
    if x <= 2 {
        0
    } else {
        filled_in(row, x - 1) + if row[x - 1] != NONE {
            1nat
        } else {
            0nat
        }
    }
}

/// How many playing cells of the rows are filled.
pub open spec fn filled_cells(rows: Seq<Seq<BlockColor>>) -> nat
    decreases rows.len(),
{
    if rows.len() == 0 {
        0
    } else {
        filled_cells(rows.drop_last()) + filled_in(rows.last(), FIELD_WIDTH - 2)
    }
}

/// The playing cells of a full row are all filled, those of an empty row are
/// not.
proof fn lemma_filled_in(row: Seq<BlockColor>, x: int)
    requires
        2 <= x <= FIELD_WIDTH - 2,
    ensures
        row_full(row) ==> filled_in(row, x) == x - 2,
        row_empty(row) ==> filled_in(row, x) == 0,
    decreases x,
{
    if x > 2 {
        lemma_filled_in(row, x - 1);
        if row_full(row) {
            assert(row[x - 1] != NONE);
        }
        if row_empty(row) {
            assert(row[x - 1] == NONE);
        }
    }
}

/// The filled cells of two runs of rows add up.
proof fn lemma_filled_add(a: Seq<Seq<BlockColor>>, b: Seq<Seq<BlockColor>>)
    ensures
        filled_cells(a + b) == filled_cells(a) + filled_cells(b),
    decreases b.len(),
{
    if b.len() == 0 {
        assert(a + b =~= a);
    } else {
        assert((a + b).drop_last() =~= a + b.drop_last());
        assert((a + b).last() == b.last());
        lemma_filled_add(a, b.drop_last());
    }
}

/// A row with its playing cells emptied is empty.
pub proof fn lemma_blank_row(row: Seq<BlockColor>)
    requires
        row.len() == FIELD_WIDTH,
    ensures
        row_empty(blank_row(row)),
        !row_full(blank_row(row)),
        blank_row(row).len() == FIELD_WIDTH,
        blank_row(row)[1] == row[1],
        blank_row(row)[FIELD_WIDTH - 2] == row[FIELD_WIDTH - 2],
{
    assert(blank_row(row)[2] == NONE);
}

/// Copies of an empty row hold no filled cell.
proof fn lemma_filled_copies(row: Seq<BlockColor>, k: nat)
    requires
        row_empty(row),
    ensures
        filled_cells(Seq::new(k, |i: int| row)) == 0,
    decreases k,
{
    if k > 0 {
        assert(Seq::new(k, |i: int| row).drop_last() =~= Seq::new((k - 1) as nat, |i: int| row));
        lemma_filled_copies(row, (k - 1) as nat);
        lemma_filled_in(row, FIELD_WIDTH - 2);
    }
}

/// Rows without their full rows hold as many filled cells less as the full
/// rows held.
proof fn lemma_filled_kept(rows: Seq<Seq<BlockColor>>)
    ensures
        kept_rows(rows).len() <= rows.len(),
        filled_cells(rows) == filled_cells(kept_rows(rows)) + (rows.len() - kept_rows(rows).len()) * (
        FIELD_WIDTH - 4),
    decreases rows.len(),
{
    let keep = |row: Seq<BlockColor>| !row_full(row);
    if rows.len() == 0 {
        reveal(Seq::filter);
    } else {
        let front = rows.drop_last();
        assert(rows =~= front.push(rows.last()));
        front.lemma_filter_push(rows.last(), keep);
        lemma_filled_kept(front);
        lemma_filled_in(rows.last(), FIELD_WIDTH - 2);
        if row_full(rows.last()) {
            assert(kept_rows(rows) == kept_rows(front));
        } else {
            assert(kept_rows(rows) == kept_rows(front).push(rows.last()));
            assert(kept_rows(rows).drop_last() =~= kept_rows(front));
        }
    }
}

/// What a line clear does to the playing rows: those that were not full
/// stand directly above the floor, unchanged and in their order; the rows
/// above them are empty between the walls; and the filled playing cells are
/// fewer by a row's width for each row cleared.
pub proof fn lemma_erase_line(g: Grid)
    requires
        is_board(g),
    ensures
        full_rows(g) <= FIELD_HEIGHT - 2,
        erased(g).len() == FIELD_HEIGHT,
        erased(g).subrange(full_rows(g) as int, FIELD_HEIGHT - 2) == kept_rows(scanned_rows(g)),
        forall|r: int| 0 <= r < full_rows(g) ==> row_empty(#[trigger] erased(g)[r]),
        filled_cells(scanned_rows(erased(g))) + full_rows(g) * (FIELD_WIDTH - 4) == filled_cells(
            scanned_rows(g),
        ),
        full_rows(erased(g)) == 0,
{
    let rows = scanned_rows(g);
    let kept = kept_rows(rows);
    let k = full_rows(g);
    let top = blank_row(g[0]);
    let copies = Seq::new(k, |i: int| top);
    let keep = |row: Seq<BlockColor>| !row_full(row);
    lemma_filled_kept(rows);
    lemma_blank_row(g[0]);
    assert(erased(g).subrange(k as int, FIELD_HEIGHT - 2) =~= kept);
    assert(scanned_rows(erased(g)) =~= copies + kept);
    lemma_filled_add(copies, kept);
    lemma_filled_copies(top, k);
    assert forall|r: int| 0 <= r < k implies row_empty(#[trigger] erased(g)[r]) by {
        assert(erased(g)[r] == top);
    }
    lemma_all_kept(copies + kept);
    assert forall|i: int| 0 <= i < (copies + kept).len() implies !row_full(
        #[trigger] (copies + kept)[i],
    ) by {
        if i >= k {
            assert((copies + kept)[i] == kept[i - k]);
            rows.lemma_filter_pred(keep, i - k);
        }
    }
}

/// Rows of which none is full are all kept.
pub proof fn lemma_all_kept(rows: Seq<Seq<BlockColor>>)
    ensures
        (forall|i: int| 0 <= i < rows.len() ==> !row_full(#[trigger] rows[i])) ==> kept_rows(rows)
            == rows,
        kept_rows(rows).len() == rows.len() ==> kept_rows(rows) == rows,
    decreases rows.len(),
{
    let keep = |row: Seq<BlockColor>| !row_full(row);
    if rows.len() == 0 {
        reveal(Seq::filter);
    } else {
        let front = rows.drop_last();
        assert(rows =~= front.push(rows.last()));
        front.lemma_filter_push(rows.last(), keep);
        front.lemma_filter_len(keep);
        lemma_all_kept(front);
        if forall|i: int| 0 <= i < rows.len() ==> !row_full(#[trigger] rows[i]) {
            assert forall|i: int| 0 <= i < front.len() implies !row_full(#[trigger] front[i]) by {
                assert(front[i] == rows[i]);
            }
            assert(!row_full(rows[rows.len() - 1]));
        }
    }
}


/// Fixing a shape where it is fixed already changes nothing.
pub proof fn lemma_fixed_twice(g: Grid, pos: Position, block: BlockShape)
    ensures
        fixed(fixed(g, pos, block), pos, block) == fixed(g, pos, block),
{
    let once = fixed(g, pos, block);
    let twice = fixed(once, pos, block);
    assert forall|r: int| 0 <= r < FIELD_HEIGHT implies #[trigger] twice[r] == once[r] by {
        assert forall|c: int| 0 <= c < FIELD_WIDTH implies #[trigger] twice[r][c] == once[r][c] by {
            assert(once[r][c] == fixed_cell(g, pos, block, r, c));
        }
        assert(twice[r] =~= once[r]);
    }
    assert(twice =~= once);
}

/// Rows of which none is full but, at most, four in a row, lose at most four
/// to a line clear.
proof fn lemma_window_rows(rows: Seq<Seq<BlockColor>>, from: int)
    requires
        forall|i: int|
            0 <= i < rows.len() && !(from <= i < from + 4) ==> !row_full(#[trigger] rows[i]),
    ensures
        kept_rows(rows).len() <= rows.len(),
        rows.len() - kept_rows(rows).len() <= 4,
        rows.len() - kept_rows(rows).len() <= (if rows.len() <= from {
            0
        } else {
            rows.len() - from
        }),
    decreases rows.len(),
{
    let keep = |row: Seq<BlockColor>| !row_full(row);
    if rows.len() == 0 {
        reveal(Seq::filter);
    } else {
        let front = rows.drop_last();
        assert(rows =~= front.push(rows.last()));
        front.lemma_filter_push(rows.last(), keep);
        assert forall|i: int| 0 <= i < front.len() && !(from <= i < from + 4) implies !row_full(
            #[trigger] front[i],
        ) by {
            assert(front[i] == rows[i]);
        }
        lemma_window_rows(front, from);
        if !(from <= rows.len() - 1 < from + 4) {
            assert(!row_full(rows[rows.len() - 1]));
        }
    }
}

/// A piece fixed on a board without full rows makes four rows full at most.
pub proof fn lemma_fixed_full_rows(g: Grid, pos: Position, block: BlockShape)
    requires
        is_board(g),
        full_rows(g) == 0,
    ensures
        full_rows(fixed(g, pos, block)) <= 4,
{
    let keep = |row: Seq<BlockColor>| !row_full(row);
    let rows = scanned_rows(g);
    let after = scanned_rows(fixed(g, pos, block));
    rows.lemma_filter_len(keep);
    lemma_all_kept(rows);
    assert forall|i: int| 0 <= i < after.len() && !(pos.y <= i < pos.y + 4) implies !row_full(
        #[trigger] after[i],
    ) by {
        assert(after[i] =~= rows[i]);
        rows.lemma_filter_pred(keep, i);
    }
    lemma_window_rows(after, pos.y as int);
}

/// A line clear on a board without full rows changes nothing.
pub proof fn lemma_erased_same(g: Grid)
    requires
        is_board(g),
        full_rows(g) == 0,
    ensures
        erased(g) == g,
{
    let keep = |row: Seq<BlockColor>| !row_full(row);
    scanned_rows(g).lemma_filter_len(keep);
    lemma_all_kept(scanned_rows(g));
    assert(erased(g) =~= g);
}

/// A row that is filled wherever another is holds no more empty cells than
/// that one, and fewer if it is filled at `at` where the other is not.
proof fn lemma_blanks_in(fuller: Seq<BlockColor>, row: Seq<BlockColor>, x: int, at: int)
    requires
        forall|c: int| 0 <= c < x && #[trigger] fuller[c] == NONE ==> row[c] == NONE,
    ensures
        blanks_in(fuller, x) + (if 0 <= at < x && fuller[at] != NONE && row[at] == NONE {
            1int
        } else {
            0int
        }) <= blanks_in(row, x),
    decreases x,
{
    if x > 0 {
        lemma_blanks_in(fuller, row, x - 1, at);
        if fuller[x - 1] == NONE {
            assert(row[x - 1] == NONE);
        }
    }
}

/// A board that is filled wherever another is holds no more empty cells than
/// that one, and fewer if it is filled in row `r` at `at` where the other is
/// not.
proof fn lemma_blanks_to(fuller: Grid, g: Grid, y: int, r: int, at: int)
    requires
        forall|i: int, c: int|
            0 <= i < y && 0 <= c < FIELD_WIDTH && #[trigger] fuller[i][c] == NONE ==> g[i][c] == NONE,
    ensures
        blanks_to(fuller, y) + (if 0 <= r < y && 0 <= at < FIELD_WIDTH && fuller[r][at] != NONE
            && g[r][at] == NONE {
            1int
        } else {
            0int
        }) <= blanks_to(g, y),
    decreases y,
{
    if y > 0 {
        lemma_blanks_to(fuller, g, y - 1, r, at);
        assert forall|c: int| 0 <= c < FIELD_WIDTH && #[trigger] fuller[y - 1][c] == NONE implies g[y
            - 1][c] == NONE by {}
        lemma_blanks_in(fuller[y - 1], g[y - 1], FIELD_WIDTH as int, if r == y - 1 { at } else { -1 });
    }
}

/// Fixing a shape leaves no more empty cells than there were, and fewer if
/// its cell `(y, x)` is filled and lies on an empty cell of the board.
pub proof fn lemma_fixed_blanks(g: Grid, pos: Position, block: BlockShape, y: int, x: int)
    requires
        is_board(g),
    ensures
        blanks(fixed(g, pos, block)) <= blanks(g),
        0 <= y < 4 && 0 <= x < 4 && block[y][x] != NONE && y + pos.y < FIELD_HEIGHT && x + pos.x
            < FIELD_WIDTH && g[y + pos.y][x + pos.x] == NONE ==> blanks(fixed(g, pos, block))
            < blanks(g),
{
    let after = fixed(g, pos, block);
    assert forall|i: int, c: int|
        0 <= i < FIELD_HEIGHT && 0 <= c < FIELD_WIDTH && #[trigger] after[i][c] == NONE implies g[i][c]
        == NONE by {
        assert(after[i][c] == fixed_cell(g, pos, block, i, c));
    }
    lemma_blanks_to(after, g, FIELD_HEIGHT as int, y + pos.y, x + pos.x);
    if 0 <= y < 4 && 0 <= x < 4 && block[y][x] != NONE && y + pos.y < FIELD_HEIGHT && x + pos.x
        < FIELD_WIDTH {
        assert(after[y + pos.y][x + pos.x] == fixed_cell(g, pos, block, y + pos.y, x + pos.x));
    }
}

} // verus!
