//! The seven pieces, their shapes, and the bag that deals them.

pub mod block_kind;

use self::block_kind::{I, J, L, O, S, T, Z};
use crate::random::{random_in_range, shuffle};
use vstd::multiset::Multiset;
use vstd::prelude::*;

verus! {

/// What a cell holds: one of the tags of [`block_kind`].
pub type BlockColor = usize;

/// A piece in one orientation: four rows of four cells.
pub type BlockShape = [[BlockColor; 4]; 4];

/// How many kinds of piece there are.
pub const BLOCK_KIND_MAX: usize = 7;

/// The seven kinds of piece.
#[derive(Clone, Copy, Debug, PartialEq, Eq, Structural)]
pub enum BlockKind {
    I,
    O,
    S,
    Z,
    J,
    L,
    T,
}

impl BlockKind {
    /// The shape in which a piece of this kind enters the board.
    pub open spec fn spec_shape(self) -> BlockShape {
        match self {
            BlockKind::I => [[0, 0, 0, 0], [0, 0, 0, 0], [I, I, I, I], [0, 0, 0, 0]],
            BlockKind::O => [[0, 0, 0, 0], [0, O, O, 0], [0, O, O, 0], [0, 0, 0, 0]],
            BlockKind::S => [[0, 0, 0, 0], [0, S, S, 0], [S, S, 0, 0], [0, 0, 0, 0]],
            BlockKind::Z => [[0, 0, 0, 0], [Z, Z, 0, 0], [0, Z, Z, 0], [0, 0, 0, 0]],
            BlockKind::J => [[0, 0, 0, 0], [J, 0, 0, 0], [J, J, J, 0], [0, 0, 0, 0]],
            BlockKind::L => [[0, 0, 0, 0], [0, 0, L, 0], [L, L, L, 0], [0, 0, 0, 0]],
            BlockKind::T => [[0, 0, 0, 0], [0, T, 0, 0], [T, T, T, 0], [0, 0, 0, 0]],
        }
    }

    /// The shape in which a piece of this kind enters the board.
    #[verifier::when_used_as_spec(spec_shape)]
    pub fn shape(self) -> (shape: BlockShape)
        ensures
            shape == self.spec_shape(),
    {
        let shape: BlockShape = match self {
            BlockKind::I => [[0, 0, 0, 0], [0, 0, 0, 0], [I, I, I, I], [0, 0, 0, 0]],
            BlockKind::O => [[0, 0, 0, 0], [0, O, O, 0], [0, O, O, 0], [0, 0, 0, 0]],
            BlockKind::S => [[0, 0, 0, 0], [0, S, S, 0], [S, S, 0, 0], [0, 0, 0, 0]],
            BlockKind::Z => [[0, 0, 0, 0], [Z, Z, 0, 0], [0, Z, Z, 0], [0, 0, 0, 0]],
            BlockKind::J => [[0, 0, 0, 0], [J, 0, 0, 0], [J, J, J, 0], [0, 0, 0, 0]],
            BlockKind::L => [[0, 0, 0, 0], [0, 0, L, 0], [L, L, L, 0], [0, 0, 0, 0]],
            BlockKind::T => [[0, 0, 0, 0], [0, T, 0, 0], [T, T, T, 0], [0, 0, 0, 0]],
        };
        assert(shape =~= self.spec_shape());
        shape
    }

    /// The kind that a draw of `n` stands for: the first six numbers name a
    /// kind each, every other number names `T`.
    pub open spec fn spec_from_draw(n: usize) -> BlockKind {
        if n == 0 {
            BlockKind::I
        } else if n == 1 {
            BlockKind::O
        } else if n == 2 {
            BlockKind::S
        } else if n == 3 {
            BlockKind::Z
        } else if n == 4 {
            BlockKind::J
        } else if n == 5 {
            BlockKind::L
        } else {
            BlockKind::T
        }
    }

    /// The kind that a draw of `n` stands for.
    #[verifier::when_used_as_spec(spec_from_draw)]
    pub fn from_draw(n: usize) -> (kind: BlockKind)
        ensures
            kind == Self::spec_from_draw(n),
    {
        match n {
            0 => BlockKind::I,
            1 => BlockKind::O,
            2 => BlockKind::S,
            3 => BlockKind::Z,
            4 => BlockKind::J,
            5 => BlockKind::L,
            _ => BlockKind::T,
        }
    }

    /// A kind drawn at random, each of the seven being possible.
    pub fn sample() -> (kind: BlockKind)
        ensures
            exists|n: usize| n < BLOCK_KIND_MAX && kind == Self::spec_from_draw(n),
    {
        let n = random_in_range(0, BLOCK_KIND_MAX);
        BlockKind::from_draw(n)
    }
}

/// The seven entry shapes, in the order of the kinds.
pub open spec fn catalog() -> Seq<BlockShape> {
    seq![
        BlockKind::I.spec_shape(),
        BlockKind::O.spec_shape(),
        BlockKind::S.spec_shape(),
        BlockKind::Z.spec_shape(),
        BlockKind::J.spec_shape(),
        BlockKind::L.spec_shape(),
        BlockKind::T.spec_shape(),
    ]
}

/// A bag: the seven entry shapes, each once, in some order.
pub open spec fn is_bag(shapes: Seq<BlockShape>) -> bool {
    shapes.to_multiset() == catalog().to_multiset()
}

/// The catalog holds each entry shape once.
pub proof fn lemma_catalog_counts()
    ensures
        forall|kind: BlockKind| catalog().to_multiset().count(#[trigger] kind.spec_shape()) == 1,
{
    let s0 = Seq::<BlockShape>::empty();
    let s1 = s0.push(BlockKind::I.spec_shape());
    let s2 = s1.push(BlockKind::O.spec_shape());
    let s3 = s2.push(BlockKind::S.spec_shape());
    let s4 = s3.push(BlockKind::Z.spec_shape());
    let s5 = s4.push(BlockKind::J.spec_shape());
    let s6 = s5.push(BlockKind::L.spec_shape());
    let s7 = s6.push(BlockKind::T.spec_shape());
    assert(s7 =~= catalog());
    s0.to_multiset_ensures();
    s1.to_multiset_ensures();
    s2.to_multiset_ensures();
    s3.to_multiset_ensures();
    s4.to_multiset_ensures();
    s5.to_multiset_ensures();
    s6.to_multiset_ensures();
    assert(s0.to_multiset() =~= Multiset::empty());
    assert forall|kind: BlockKind| catalog().to_multiset().count(#[trigger] kind.spec_shape())
        == 1 by {
        // the shapes differ in the tag of this cell
        assert(BlockKind::I.spec_shape()[2][1] == I);
        assert(BlockKind::O.spec_shape()[2][1] == O);
        assert(BlockKind::S.spec_shape()[2][1] == S);
        assert(BlockKind::Z.spec_shape()[2][1] == Z);
        assert(BlockKind::J.spec_shape()[2][1] == J);
        assert(BlockKind::L.spec_shape()[2][1] == L);
        assert(BlockKind::T.spec_shape()[2][1] == T);
    }
}

/// Two bags, one after the other, hold each of the seven pieces exactly twice.
pub proof fn lemma_two_bags(first: Seq<BlockShape>, second: Seq<BlockShape>)
    requires
        is_bag(first),
        is_bag(second),
    ensures
        (first + second).len() == 2 * BLOCK_KIND_MAX,
        forall|kind: BlockKind|
            (first + second).to_multiset().count(#[trigger] kind.spec_shape()) == 2,
{
    lemma_catalog_counts();
    vstd::seq_lib::lemma_multiset_commutative(first, second);
    first.to_multiset_ensures();
    second.to_multiset_ensures();
    catalog().to_multiset_ensures();
}

/// A fresh bag in random order.
pub fn gen_block_7() -> (bag: [BlockShape; BLOCK_KIND_MAX])
    ensures
        is_bag(bag@),
{
    let mut que: Vec<BlockShape> = Vec::new();
    que.push(BlockKind::I.shape());
    que.push(BlockKind::O.shape());
    que.push(BlockKind::S.shape());
    que.push(BlockKind::Z.shape());
    que.push(BlockKind::J.shape());
    que.push(BlockKind::L.shape());
    que.push(BlockKind::T.shape());
    assert(que@ =~= catalog());
    shuffle(&mut que);
    proof {
        que@.to_multiset_ensures();
        catalog().to_multiset_ensures();
    }
    let bag: [BlockShape; BLOCK_KIND_MAX] = [que[0], que[1], que[2], que[3], que[4], que[5], que[6]];
    assert(bag@ =~= que@);
    bag
}

} // verus!
