//! The game: the board with its active piece, the piece put aside, the queue
//! of pieces to come and the score, and the moves that change them.

pub use crate::board::{
    erase_line, is_collision, Field, Position, FIELD_HEIGHT, FIELD_WIDTH,
};
pub use crate::motion::{ghost_pos, super_rotation};

use crate::block::{
    catalog, gen_block_7, is_bag, lemma_two_bags, BlockKind, BlockShape, BLOCK_KIND_MAX,
};
use crate::board::{
    collides, count_full_rows, empty_board, empty_field, erased, fits, fix_shape, fixed,
    full_rows, grid, Grid,
};
use crate::motion::{dropped, kicked, lands, rotated_left, rotated_right, turn_left, turn_right};
use crate::order::{
    lemma_dropped_in_well, lemma_held_wf, lemma_landed_wf, lemma_moved_wf, lemma_spawned_wf,
    lemma_started_running, lemma_started_wf, lemma_turned_wf, one_step,
};
use std::collections::VecDeque;
use vstd::prelude::*;

verus! {

/// How many upcoming pieces are shown.
pub const NEXT_LENGTH: usize = 3;

/// The whole state of one game.
pub struct Game {
    /// The board with the pieces that have been fixed.
    pub field: Field,
    /// Where the active piece is.
    pub pos: Position,
    /// The active piece, turned as it is.
    pub block: BlockShape,
    /// The piece put aside, if there is one.
    pub hold: Option<BlockShape>,
    /// Whether a piece has been put aside since the last one was fixed.
    pub holded: bool,
    /// The pieces to come, the next one first.
    pub next: VecDeque<BlockShape>,
    /// What is left of the bag from which the queue is filled up.
    pub next_buf: VecDeque<BlockShape>,
    /// The points made.
    pub score: usize,
    /// The rows cleared.
    pub line: usize,
}

/// A game as a plain value: what the contracts speak of.
pub struct GameView {
    pub field: Grid,
    pub pos: Position,
    pub block: BlockShape,
    pub hold: Option<BlockShape>,
    pub holded: bool,
    pub next: Seq<BlockShape>,
    pub next_buf: Seq<BlockShape>,
    pub score: usize,
    pub line: usize,
}

impl View for Game {
    type V = GameView;

    open spec fn view(&self) -> GameView {
        GameView {
            field: grid(self.field),
            pos: self.pos,
            block: self.block,
            hold: self.hold,
            holded: self.holded,
            next: self.next@,
            next_buf: self.next_buf@,
            score: self.score,
            line: self.line,
        }
    }
}

/// The game after an attempt to put the active piece at `new_pos`: it goes
/// there unless it would overlap something.
pub open spec fn moved(v: GameView, new_pos: Position) -> GameView {
    if collides(v.field, new_pos, v.block) {
        v
    } else {
        GameView { pos: new_pos, ..v }
    }
}

/// Moves the active piece to `new_pos` if nothing is in its way there, and
/// leaves it where it is otherwise.
pub fn move_block(game: &mut Game, new_pos: Position)
    ensures
        final(game)@ == moved(old(game)@, new_pos),
        final(game).field == old(game).field,
        collides(old(game)@.field, new_pos, old(game).block) ==> final(game).pos == old(game).pos,
        old(game)@.wf() && one_step(old(game).pos, new_pos) ==> final(game)@.wf(),
{
    proof {
        if game@.wf() && one_step(game.pos, new_pos) {
            lemma_moved_wf(game@, new_pos);
        }
    }
    if !is_collision(&game.field, &new_pos, &game.block) {
        game.pos = new_pos;
    }
}

/// Writes the active piece into the board.
pub fn fix_block(game: &mut Game)
    requires
        fits(old(game).pos, old(game).block),
    ensures
        final(game)@ == (GameView {
            field: fixed(old(game)@.field, old(game).pos, old(game).block),
            ..old(game)@
        }),
{
    let pos = game.pos;
    let block = game.block;
    fix_shape(&mut game.field, &pos, &block);
}

/// The game after an attempt to give the active piece the shape `shape`, a
/// turn of its own: in place if that overlaps nothing, else where a kick puts
/// it, else not at all.
pub open spec fn turned(v: GameView, shape: BlockShape) -> GameView {
    if !collides(v.field, v.pos, shape) {
        GameView { block: shape, ..v }
    } else {
        match kicked(v.field, v.pos, shape) {
            Some(p) => GameView { pos: p, block: shape, ..v },
            None => v,
        }
    }
}

/// Turns the active piece a quarter to the left, kicking it one cell aside
/// where it cannot turn in place, and leaves it as it is where no kick helps.
pub fn rotate_left(game: &mut Game)
    requires
        old(game).pos.x < usize::MAX,
        old(game).pos.y < usize::MAX,
    ensures
        final(game)@ == turned(old(game)@, rotated_left(old(game).block)),
        final(game).field == old(game).field,
        old(game)@.wf() ==> final(game)@.wf(),
{
    proof {
        if game@.wf() {
            lemma_turned_wf(game@);
        }
    }
    let new_shape = turn_left(&game.block);
    if !is_collision(&game.field, &game.pos, &new_shape) {
        game.block = new_shape;
    } else if let Ok(new_pos) = super_rotation(&game.field, &game.pos, &new_shape) {
        game.pos = new_pos;
        game.block = new_shape;
    }
}

/// Turns the active piece a quarter to the right, kicking it one cell aside
/// where it cannot turn in place, and leaves it as it is where no kick helps.
pub fn rotate_right(game: &mut Game)
    requires
        old(game).pos.x < usize::MAX,
        old(game).pos.y < usize::MAX,
    ensures
        final(game)@ == turned(old(game)@, rotated_right(old(game).block)),
        final(game).field == old(game).field,
        old(game)@.wf() ==> final(game)@.wf(),
{
    proof {
        if game@.wf() {
            lemma_turned_wf(game@);
        }
    }
    let new_shape = turn_right(&game.block);
    if !is_collision(&game.field, &game.pos, &new_shape) {
        game.block = new_shape;
    } else if let Ok(new_pos) = super_rotation(&game.field, &game.pos, &new_shape) {
        game.pos = new_pos;
        game.block = new_shape;
    }
}

/// Drops the active piece to where it comes to rest.
pub fn hard_drop(game: &mut Game)
    requires
        lands(old(game)@.field, old(game).pos, old(game).block),
    ensures
        final(game)@ == (GameView {
            pos: dropped(old(game)@.field, old(game).pos, old(game).block),
            ..old(game)@
        }),
        final(game).field == old(game).field,
        old(game)@.wf() ==> final(game)@.wf(),
{
    proof {
        if game@.wf() {
            lemma_dropped_in_well(game@.field, game.pos, game.block);
        }
    }
    let rest = ghost_pos(&game.field, &game.pos, &game.block);
    game.pos = rest;
}

/// What clearing so many rows at once is worth.
pub const SCORE_TABLE: [usize; 5] = [0, 1, 5, 25, 100];

/// The points for clearing `rows` rows with one piece.
pub open spec fn score_for(rows: nat) -> nat {
    if rows == 0 {
        0
    } else if rows == 1 {
        1
    } else if rows == 2 {
        5
    } else if rows == 3 {
        25
    } else {
        100
    }
}

/// The game with a fresh bag in its refill buffer, if the buffer has run out.
pub open spec fn refilled(v: GameView, bag: Seq<BlockShape>) -> GameView {
    if v.next_buf.len() == 0 {
        GameView { next_buf: bag, ..v }
    } else {
        v
    }
}

/// The game after the next piece has entered the board: it is the front of
/// the queue, and the front of the refill buffer has joined the queue's end.
pub open spec fn spawned(v: GameView) -> GameView {
    GameView {
        pos: Position::spec_init(),
        block: v.next[0],
        next: v.next.drop_first().push(v.next_buf[0]),
        next_buf: v.next_buf.drop_first(),
        ..v
    }
}

/// The queue that holds the shapes of a bag in their order.
pub fn queue_of(bag: &[BlockShape; BLOCK_KIND_MAX]) -> (queue: VecDeque<BlockShape>)
    ensures
        queue@ == bag@,
{
    let mut queue: VecDeque<BlockShape> = VecDeque::new();
    for i in 0..BLOCK_KIND_MAX
        invariant
            queue@ == bag@.subrange(0, i as int),
    {
        queue.push_back(bag[i]);
        assert(bag@.subrange(0, i + 1) =~= bag@.subrange(0, i as int).push(bag@[i as int]));
    }
    assert(bag@.subrange(0, BLOCK_KIND_MAX as int) =~= bag@);
    queue
}

/// Brings the next piece in from a queue and a refill buffer that both hold
/// something. Fails if the piece overlaps the board where it enters: the game
/// is over.
pub fn spawn_next(game: &mut Game) -> (res: Result<(), ()>)
    requires
        old(game).next@.len() > 0,
        old(game).next_buf@.len() > 0,
    ensures
        final(game)@ == spawned(old(game)@),
        final(game).field == old(game).field,
        res is Err <==> collides(final(game)@.field, final(game).pos, final(game).block),
{
    game.pos = Position::init();
    let block = game.next.pop_front();
    let next = game.next_buf.pop_front();
    match (block, next) {
        (Some(block), Some(next)) => {
            game.block = block;
            game.next.push_back(next);
        },
        _ => {},
    }
    proof {
        assert(game.next@ =~= old(game).next@.drop_first().push(old(game).next_buf@[0]));
        assert(game.next_buf@ =~= old(game).next_buf@.drop_first());
    }
    if is_collision(&game.field, &game.pos, &game.block) {
        Err(())
    } else {
        Ok(())
    }
}

/// Brings the next piece in, after opening a fresh bag if the refill buffer has
/// run out. Fails if the piece overlaps the board where it enters: the game is
/// over.
pub fn spawn_block(game: &mut Game) -> (res: Result<(), ()>)
    requires
        old(game).next@.len() > 0,
    ensures
        exists|bag: Seq<BlockShape>|
            is_bag(bag) && #[trigger] spawned(refilled(old(game)@, bag)) == final(game)@,
        final(game).field == old(game).field,
        res is Err <==> collides(final(game)@.field, final(game).pos, final(game).block),
        old(game)@.wf() ==> final(game)@.wf(),
{
    let ghost bag = catalog();
    if game.next_buf.len() == 0 {
        let fresh = gen_block_7();
        proof {
            bag = fresh@;
            fresh@.to_multiset_ensures();
            catalog().to_multiset_ensures();
        }
        game.next_buf = queue_of(&fresh);
    }
    assert(game@ == refilled(old(game)@, bag));
    let res = spawn_next(game);
    proof {
        assert(spawned(refilled(old(game)@, bag)) == game@);
        if old(game)@.wf() {
            lemma_spawned_wf(old(game)@, bag);
        }
    }
    res
}

/// The game after a hold, where `bag` is the bag that is opened if one is
/// needed. A second hold before the next piece is fixed changes nothing. A
/// first hold of the game puts the active piece aside and brings the next one
/// in; a later one swaps the active piece with the one put aside, which enters
/// at the top.
pub open spec fn held(v: GameView, bag: Seq<BlockShape>) -> GameView {
    if v.holded {
        v
    } else {
        match v.hold {
            Some(kept) => GameView {
                pos: Position::spec_init(),
                block: kept,
                hold: Some(v.block),
                holded: true,
                ..v
            },
            None => GameView {
                holded: true,
                ..spawned(refilled(GameView { hold: Some(v.block), ..v }, bag))
            },
        }
    }
}

/// A hold right after a hold changes nothing, whichever bags are at hand.
pub proof fn lemma_hold_twice(v: GameView, first: Seq<BlockShape>, second: Seq<BlockShape>)
    ensures
        held(v, first).holded,
        held(held(v, first), second) == held(v, first),
{
}

/// Puts the active piece aside, once per piece.
pub fn hold(game: &mut Game)
    requires
        old(game).holded || old(game).hold is Some || old(game).next@.len() > 0,
    ensures
        exists|bag: Seq<BlockShape>| is_bag(bag) && #[trigger] held(old(game)@, bag) == final(game)@,
        old(game).holded ==> final(game)@ == old(game)@,
        final(game).holded,
        final(game).field == old(game).field,
        old(game)@.wf() ==> final(game)@.wf(),
{
    if game.holded {
        assert(held(old(game)@, catalog()) == game@);
        return ;
    }
    if let Some(kept) = game.hold {
        game.hold = Some(game.block);
        game.block = kept;
        game.pos = Position::init();
        game.holded = true;
        proof {
            assert(held(old(game)@, catalog()) == game@);
            if old(game)@.wf() {
                lemma_held_wf(old(game)@, catalog());
            }
        }
    } else {
        game.hold = Some(game.block);
        let ghost mid = game@;
        let _ = spawn_block(game);
        let ghost after = game@;
        game.holded = true;
        proof {
            let bag = choose|bag: Seq<BlockShape>|
                is_bag(bag) && #[trigger] spawned(refilled(mid, bag)) == after;
            assert(held(old(game)@, bag) == game@);
            if old(game)@.wf() {
                lemma_held_wf(old(game)@, bag);
            }
        }
    }
}

/// The game after the active piece has been fixed where it is, where `bag` is
/// the bag that is opened if one is needed: the piece is part of the board, the
/// full rows are cleared and paid for, and the next piece has entered. If that
/// piece has room, a hold is allowed again.
pub open spec fn landed(v: GameView, bag: Seq<BlockShape>) -> GameView {
    let board = fixed(v.field, v.pos, v.block);
    let rows = full_rows(board);
    let entered = spawned(
        refilled(
            GameView {
                field: erased(board),
                score: (v.score + score_for(rows)) as usize,
                line: (v.line + rows) as usize,
                ..v
            },
            bag,
        ),
    );
    if collides(entered.field, entered.pos, entered.block) {
        entered
    } else {
        GameView { holded: false, ..entered }
    }
}

/// The active piece can be fixed where it is: the rows that it fills are no
/// more than the score table knows, and the score and the count of rows have
/// room to grow.
pub open spec fn lockable(v: GameView) -> bool {
    let rows = full_rows(fixed(v.field, v.pos, v.block));
    &&& rows <= 4
    &&& v.score + score_for(rows) <= usize::MAX
    &&& v.line + rows <= usize::MAX
}

/// Whether the active piece can be fixed where it is.
pub fn can_land(game: &Game) -> (ok: bool)
    requires
        fits(game.pos, game.block),
    ensures
        ok == lockable(game@),
{
    let mut board = game.field;
    fix_shape(&mut board, &game.pos, &game.block);
    let rows = count_full_rows(&board);
    rows <= 4 && game.score <= usize::MAX - SCORE_TABLE[rows] && game.line <= usize::MAX - rows
}

/// What fixing a piece pays: nothing for no row, 1, 5, 25 and 100 points for
/// one, two, three and four rows cleared at once; and the rows cleared are
/// counted, whether the next piece has room or not.
pub proof fn lemma_score_table(v: GameView, bag: Seq<BlockShape>)
    requires
        lockable(v),
    ensures
        ({
            let rows = full_rows(fixed(v.field, v.pos, v.block));
            let after = landed(v, bag);
            &&& rows <= 4
            &&& after.line == v.line + rows
            &&& after.score == v.score + score_for(rows)
            &&& rows == 0 ==> after.score == v.score
            &&& rows == 1 ==> after.score == v.score + 1
            &&& rows == 2 ==> after.score == v.score + 5
            &&& rows == 3 ==> after.score == v.score + 25
            &&& rows == 4 ==> after.score == v.score + 100
        }),
{
}

/// Fixes the active piece where it is, clears and scores the full rows, and
/// brings the next piece in. Fails if that piece overlaps the board where it
/// enters: the game is over.
pub fn landing(game: &mut Game) -> (res: Result<(), ()>)
    requires
        fits(old(game).pos, old(game).block),
        lockable(old(game)@),
        old(game).next@.len() > 0,
    ensures
        exists|bag: Seq<BlockShape>| is_bag(bag) && #[trigger] landed(old(game)@, bag) == final(game)@,
        final(game).score == old(game).score + score_for(
            full_rows(fixed(old(game)@.field, old(game).pos, old(game).block)),
        ),
        final(game).line == old(game).line + full_rows(
            fixed(old(game)@.field, old(game).pos, old(game).block),
        ),
        res is Err <==> collides(final(game)@.field, final(game).pos, final(game).block),
        old(game)@.wf() ==> final(game)@.wf(),
{
    fix_block(game);
    let line = erase_line(&mut game.field);
    game.score += SCORE_TABLE[line];
    game.line += line;
    let ghost mid = game@;
    let res = spawn_block(game);
    let ghost after = game@;
    if res.is_ok() {
        game.holded = false;
    }
    proof {
        let bag = choose|bag: Seq<BlockShape>|
            is_bag(bag) && #[trigger] spawned(refilled(mid, bag)) == after;
        assert(landed(old(game)@, bag) == game@);
        if old(game)@.wf() {
            lemma_landed_wf(old(game)@, bag);
        }
    }
    res
}

/// The game that starts with the bag `first` in the queue and the bag `second`
/// in the refill buffer, once its first piece has entered.
pub open spec fn started(first: Seq<BlockShape>, second: Seq<BlockShape>) -> GameView {
    GameView {
        field: empty_board(),
        pos: Position::spec_init(),
        block: first[0],
        hold: None,
        holded: false,
        next: first.drop_first().push(second[0]),
        next_buf: second.drop_first(),
        score: 0,
        line: 0,
    }
}

/// The first fourteen pieces of a game, the active one and those that wait,
/// are the two bags that it started with: each of the seven kinds is among
/// them exactly twice.
pub proof fn lemma_first_pieces(first: Seq<BlockShape>, second: Seq<BlockShape>)
    requires
        is_bag(first),
        is_bag(second),
    ensures
        ({
            let v = started(first, second);
            let pieces = seq![v.block] + v.next + v.next_buf;
            &&& pieces == first + second
            &&& forall|kind: BlockKind| pieces.to_multiset().count(#[trigger] kind.spec_shape()) == 2
        }),
{
    let v = started(first, second);
    first.to_multiset_ensures();
    second.to_multiset_ensures();
    catalog().to_multiset_ensures();
    assert(seq![v.block] + v.next + v.next_buf =~= first + second);
    lemma_two_bags(first, second);
}

/// The game after `n` pieces more have come in, where `bags[i]` is the bag
/// at hand when piece number `i` comes in, to be opened if one is needed.
pub open spec fn dealt(v: GameView, bags: Seq<Seq<BlockShape>>, n: nat) -> GameView
    decreases n,
{
    if n == 0 {
        v
    } else {
        spawned(refilled(dealt(v, bags, (n - 1) as nat), bags[n - 1]))
    }
}

/// The next `n` pieces that come in, in their order.
pub open spec fn pieces(v: GameView, bags: Seq<Seq<BlockShape>>, n: nat) -> Seq<BlockShape> {
    Seq::new(n, |i: int| dealt(v, bags, (i + 1) as nat).block)
}

/// The game stands between two bags: the queue holds a whole bag and the
/// refill buffer is empty.
pub open spec fn between_bags(v: GameView) -> bool {
    is_bag(v.next) && v.next_buf.len() == 0
}

/// Where the queue holds seven pieces and the refill buffer none, the bag at
/// hand is opened, and after `i` pieces the queue has given up its first `i`
/// and taken as many from that bag.
proof fn lemma_deal_from_queue(v: GameView, bags: Seq<Seq<BlockShape>>, i: nat)
    requires
        v.next.len() == 7,
        v.next_buf.len() == 0,
        bags.len() > 0,
        bags[0].len() == 7,
        1 <= i <= 7,
    ensures
        dealt(v, bags, i).block == v.next[i - 1],
        dealt(v, bags, i).next == v.next.subrange(i as int, 7) + bags[0].subrange(0, i as int),
        dealt(v, bags, i).next_buf == bags[0].subrange(i as int, 7),
    decreases i,
{
    let now = dealt(v, bags, i);
    if i == 1 {
        assert(dealt(v, bags, 0) == v);
        assert(now.next =~= v.next.subrange(1, 7) + bags[0].subrange(0, 1));
        assert(now.next_buf =~= bags[0].subrange(1, 7));
    } else {
        lemma_deal_from_queue(v, bags, (i - 1) as nat);
        let before = dealt(v, bags, (i - 1) as nat);
        assert(before.next_buf.len() > 0);
        assert(now == spawned(before));
        assert(now.next =~= v.next.subrange(i as int, 7) + bags[0].subrange(0, i as int));
        assert(now.next_buf =~= bags[0].subrange(i as int, 7));
    }
}

/// Later pieces come in as if the game had started where the earlier ones
/// left it.
proof fn lemma_deal_on(v: GameView, bags: Seq<Seq<BlockShape>>, m: nat, n: nat)
    requires
        m + n <= bags.len(),
    ensures
        dealt(v, bags, m + n) == dealt(dealt(v, bags, m), bags.subrange(m as int, bags.len() as int), n),
    decreases n,
{
    if n > 0 {
        lemma_deal_on(v, bags, m, (n - 1) as nat);
        assert(bags.subrange(m as int, bags.len() as int)[n - 1] == bags[m + n - 1]);
    }
}

/// From between two bags, the next seven pieces are the bag in the queue, and
/// then the game stands between two bags again, with the bag that was at hand
/// for the first of them in the queue.
pub proof fn lemma_seven_pieces(v: GameView, bags: Seq<Seq<BlockShape>>)
    requires
        between_bags(v),
        bags.len() >= 7,
        is_bag(bags[0]),
    ensures
        pieces(v, bags, 7) == v.next,
        dealt(v, bags, 7).next == bags[0],
        between_bags(dealt(v, bags, 7)),
{
    v.next.to_multiset_ensures();
    bags[0].to_multiset_ensures();
    catalog().to_multiset_ensures();
    assert forall|i: int| 0 <= i < 7 implies pieces(v, bags, 7)[i] == v.next[i] by {
        lemma_deal_from_queue(v, bags, (i + 1) as nat);
    }
    assert(pieces(v, bags, 7) =~= v.next);
    lemma_deal_from_queue(v, bags, 7);
    assert(dealt(v, bags, 7).next =~= bags[0]);
}

/// From between two bags, the next fourteen pieces are two bags: each of the
/// seven kinds comes in exactly twice, and then the game stands between two
/// bags again.
pub proof fn lemma_fourteen_pieces(v: GameView, bags: Seq<Seq<BlockShape>>)
    requires
        between_bags(v),
        bags.len() >= 14,
        is_bag(bags[0]),
        is_bag(bags[7]),
    ensures
        pieces(v, bags, 14) == v.next + bags[0],
        forall|kind: BlockKind|
            pieces(v, bags, 14).to_multiset().count(#[trigger] kind.spec_shape()) == 2,
        between_bags(dealt(v, bags, 14)),
{
    lemma_seven_pieces(v, bags);
    let half = dealt(v, bags, 7);
    let rest = bags.subrange(7, bags.len() as int);
    lemma_seven_pieces(half, rest);
    lemma_deal_on(v, bags, 7, 7);
    assert forall|i: int| 0 <= i < 14 implies pieces(v, bags, 14)[i] == (v.next + bags[0])[i] by {
        if i < 7 {
            assert(pieces(v, bags, 7)[i] == v.next[i]);
        } else {
            lemma_deal_on(v, bags, 7, (i - 6) as nat);
            assert(pieces(half, rest, 7)[i - 7] == bags[0][i - 7]);
        }
    }
    v.next.to_multiset_ensures();
    bags[0].to_multiset_ensures();
    catalog().to_multiset_ensures();
    assert(pieces(v, bags, 14) =~= v.next + bags[0]);
    lemma_two_bags(v.next, bags[0]);
}

/// A new game stands between two bags when six pieces more have come in.
pub proof fn lemma_start_between_bags(
    first: Seq<BlockShape>,
    second: Seq<BlockShape>,
    bags: Seq<Seq<BlockShape>>,
)
    requires
        is_bag(first),
        is_bag(second),
        bags.len() >= 6,
    ensures
        between_bags(dealt(started(first, second), bags, 6)),
        dealt(started(first, second), bags, 6).next == second,
{
    first.to_multiset_ensures();
    second.to_multiset_ensures();
    catalog().to_multiset_ensures();
    let v = started(first, second);
    lemma_deal_from_start(first, second, bags, 6);
    assert(dealt(v, bags, 6).next =~= second);
}

/// After `i` pieces more, a new game has given up as many pieces of its first
/// bag and taken as many from its second.
proof fn lemma_deal_from_start(
    first: Seq<BlockShape>,
    second: Seq<BlockShape>,
    bags: Seq<Seq<BlockShape>>,
    i: nat,
)
    requires
        first.len() == 7,
        second.len() == 7,
        i <= 6,
    ensures
        dealt(started(first, second), bags, i).next == first.subrange(i as int + 1, 7) + second.subrange(
            0,
            i as int + 1,
        ),
        dealt(started(first, second), bags, i).next_buf == second.subrange(i as int + 1, 7),
    decreases i,
{
    let v = started(first, second);
    let now = dealt(v, bags, i);
    if i == 0 {
        assert(now.next =~= first.subrange(1, 7) + second.subrange(0, 1));
        assert(now.next_buf =~= second.subrange(1, 7));
    } else {
        lemma_deal_from_start(first, second, bags, (i - 1) as nat);
        let before = dealt(v, bags, (i - 1) as nat);
        assert(before.next_buf.len() > 0);
        assert(now == spawned(before));
        assert(now.next =~= first.subrange(i as int + 1, 7) + second.subrange(0, i as int + 1));
        assert(now.next_buf =~= second.subrange(i as int + 1, 7));
    }
}

impl Game {
    /// A new game: an empty board, two fresh bags, and the first piece of the
    /// first bag on the board.
    pub fn new() -> (game: Game)
        ensures
            exists|first: Seq<BlockShape>, second: Seq<BlockShape>|
                is_bag(first) && is_bag(second) && #[trigger] started(first, second) == game@,
            game@.wf(),
            game@.running(),
    {
        let active = BlockKind::sample().shape();
        let first = gen_block_7();
        let second = gen_block_7();
        let game = Game::assemble(active, &first, &second);
        proof {
            assert(started(first@, second@) == game@);
            lemma_started_wf(first@, second@);
            lemma_started_running(first@, second@);
        }
        game
    }

    /// The game that starts with the bag `first` in the queue and the bag
    /// `second` in the refill buffer.
    pub fn start(first: &[BlockShape; BLOCK_KIND_MAX], second: &[BlockShape; BLOCK_KIND_MAX]) -> (game:
        Game)
        ensures
            game@ == started(first@, second@),
            is_bag(first@) && is_bag(second@) ==> game@.wf() && game@.running(),
    {
        proof {
            if is_bag(first@) && is_bag(second@) {
                lemma_started_wf(first@, second@);
                lemma_started_running(first@, second@);
            }
        }
        Game::assemble(first[0], first, second)
    }

    /// An empty board, the two bags in the queue and in the refill buffer, and
    /// the first piece of the queue brought in; the piece that was active
    /// before gives way to it.
    fn assemble(
        active: BlockShape,
        first: &[BlockShape; BLOCK_KIND_MAX],
        second: &[BlockShape; BLOCK_KIND_MAX],
    ) -> (game: Game)
        ensures
            game@ == started(first@, second@),
    {
        let mut game = Game {
            field: empty_field(),
            pos: Position::init(),
            block: active,
            hold: None,
            holded: false,
            next: queue_of(first),
            next_buf: queue_of(second),
            score: 0,
            line: 0,
        };
        let _ = spawn_next(&mut game);
        game
    }
}

/// A queue with the same shapes in the same order.
fn copy_of(queue: &VecDeque<BlockShape>) -> (copy: VecDeque<BlockShape>)
    ensures
        copy@ == queue@,
{
    let mut copy: VecDeque<BlockShape> = VecDeque::new();
    for i in 0..queue.len()
        invariant
            copy@ == queue@.subrange(0, i as int),
    {
        copy.push_back(queue[i]);
        assert(queue@.subrange(0, i + 1) =~= queue@.subrange(0, i as int).push(queue@[i as int]));
    }
    assert(queue@.subrange(0, queue@.len() as int) =~= queue@);
    copy
}

impl Clone for Game {
    fn clone(&self) -> (copy: Game)
        ensures
            copy@ == self@,
            copy.field == self.field,
    {
        let next = copy_of(&self.next);
        let next_buf = copy_of(&self.next_buf);
        Game {
            field: self.field,
            pos: self.pos,
            block: self.block,
            hold: self.hold,
            holded: self.holded,
            next,
            next_buf,
            score: self.score,
            line: self.line,
        }
    }
}

} // verus!
