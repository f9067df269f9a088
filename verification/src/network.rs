//! Node keys, packed links and the indexed graph.

use vstd::prelude::*;

verus! {

/// Number of nodes that a 32-bit key can tell apart.
pub const KEY_SPACE: u64 = 0x1_0000_0000;

/// One more than the largest cost a link can carry: costs take 30 bits.
pub const COST_SPAN: u32 = 0x4000_0000;

/// Index of a node in the dense node array.
#[derive(Clone, Copy, PartialEq, Eq, Structural, PartialOrd, Ord, Debug, Hash)]
pub struct IdxNodeKey(pub u32);

impl IdxNodeKey {
    /// The key of the node at position `val`; positions past the 32-bit key
    /// space wrap around.
    #[inline]
    pub fn new(val: usize) -> (key: Self)
        ensures
            key.0 == (val as int) % 0x1_0000_0000,
            val < KEY_SPACE ==> key.0 == val,
    {
        let wide: u64 = val as u64;
        let low: u32 = #[verifier::truncate]
        (wide as u32);
        assert(low == wide % 0x1_0000_0000) by (bit_vector)
            requires
                low == #[verifier::truncate]
                (wide as u32),
        ;
        IdxNodeKey(low)
    }

    /// The position of the node in the node array.
    #[inline]
    pub fn index(&self) -> (i: usize)
        ensures
            i == self.0,
    {
        self.0 as usize
    }
}

/// Which way a link is travelled: along the arc it stands for, or against it.
#[derive(Clone, Copy, Debug, PartialEq, Eq, Structural, PartialOrd, Ord)]
pub enum IdxLinkDir {
    Forward,
    Backward,
}

impl IdxLinkDir {
    /// The two-bit code of the direction in a packed word: 1 or 2, never 0.
    pub open spec fn code(self) -> u32 {
        match self {
            IdxLinkDir::Forward => 1,
            IdxLinkDir::Backward => 2,
        }
    }

    /// The other direction.
    pub open spec fn flipped(self) -> IdxLinkDir {
        match self {
            IdxLinkDir::Forward => IdxLinkDir::Backward,
            IdxLinkDir::Backward => IdxLinkDir::Forward,
        }
    }

    /// The two-bit code of the direction.
    pub fn to_u32(self) -> (c: u32)
        ensures
            c == self.code(),
    {
        match self {
            IdxLinkDir::Forward => 1,
            IdxLinkDir::Backward => 2,
        }
    }

    /// The direction with the given code.
    pub fn from_u32(val: u32) -> (dir: Self)
        requires
            val == 1 || val == 2,
        ensures
            dir.code() == val,
    {
        if val == 1 {
            IdxLinkDir::Forward
        } else {
            IdxLinkDir::Backward
        }
    }

    /// The other direction.
    pub fn opposite(self) -> (dir: Self)
        ensures
            dir == self.flipped(),
    {
        match self {
            IdxLinkDir::Forward => IdxLinkDir::Backward,
            IdxLinkDir::Backward => IdxLinkDir::Forward,
        }
    }
}

/// The word that packs a cost and a direction: the direction's code in the two
/// top bits, the low 30 bits of the cost below them.
pub open spec fn pack_word(cost: u32, dir: IdxLinkDir) -> u32 {
    (dir.code() << 30) | (cost & 0x3fff_ffff)
}

/// The cost held in a packed word.
pub open spec fn word_cost(word: u32) -> u32 {
    word & 0x3fff_ffff
}

/// The direction held in a packed word.
pub open spec fn word_dir(word: u32) -> IdxLinkDir {
    if word >> 30 == 2 {
        IdxLinkDir::Backward
    } else {
        IdxLinkDir::Forward
    }
}

/// The top two bits of a packed word hold a direction's code.
pub open spec fn word_ok(word: u32) -> bool {
    word >> 30 == 1 || word >> 30 == 2
}

/// Packing a cost below `2^30` with a direction and unpacking the word gives
/// the same cost and direction back; a larger cost loses its top two bits.
pub proof fn lemma_pack_round_trip(cost: u32, dir: IdxLinkDir)
    ensures
        word_ok(pack_word(cost, dir)),
        word_dir(pack_word(cost, dir)) == dir,
        word_cost(pack_word(cost, dir)) == cost % 0x4000_0000,
        cost < COST_SPAN ==> word_cost(pack_word(cost, dir)) == cost,
{
    let code = dir.code();
    let word = pack_word(cost, dir);
    assert(((code << 30) | (cost & 0x3fff_ffff)) >> 30 == code) by (bit_vector)
        requires
            code == 1 || code == 2,
    ;
    assert(((code << 30) | (cost & 0x3fff_ffff)) & 0x3fff_ffff == cost % 0x4000_0000)
        by (bit_vector)
        requires
            code == 1 || code == 2,
    ;
}

/// Replacing the cost in a packed word keeps its direction.
pub proof fn lemma_repack_keeps_dir(word: u32, cost: u32)
    ensures
        (word & 0xc000_0000) | (cost & 0x3fff_ffff) == pack_word(cost, word_dir(word)) || !word_ok(
            word,
        ),
        word_cost(word) < COST_SPAN,
{
    assert(word >> 30 == 1 ==> (word & 0xc000_0000) | (cost & 0x3fff_ffff) == (1u32 << 30) | (cost
        & 0x3fff_ffff)) by (bit_vector);
    assert(word >> 30 == 2 ==> (word & 0xc000_0000) | (cost & 0x3fff_ffff) == (2u32 << 30) | (cost
        & 0x3fff_ffff)) by (bit_vector);
    assert(word & 0x3fff_ffff < 0x4000_0000) by (bit_vector);
}

/// What a link says: where it leads, at what cost, and which way it is
/// travelled.
pub struct LinkView {
    pub to: int,
    pub cost: int,
    pub dir: IdxLinkDir,
}

/// One arc at a node: the node at its other end, and a word that packs its
/// cost and direction. A `Forward` link at `u` to `v` is the arc from `u` to
/// `v`; a `Backward` link at `u` to `v` is the arc from `v` to `u`.
#[derive(Clone, Copy, Debug, PartialEq, Eq, Structural)]
pub struct IdxLink {
    enode_idx: IdxNodeKey,
    // Lower 30 bits store the cost of the link, upper 2 bits its direction.
    cost: u32,
}

impl View for IdxLink {
    type V = LinkView;

    open spec fn view(&self) -> LinkView {
        LinkView {
            to: self.target().0 as int,
            cost: word_cost(self.word()) as int,
            dir: word_dir(self.word()),
        }
    }
}

impl IdxLink {
    /// The packed word of the link.
    pub closed spec fn word(&self) -> u32 {
        self.cost
    }

    /// The node at the other end.
    pub closed spec fn target(&self) -> IdxNodeKey {
        self.enode_idx
    }

    #[verifier::type_invariant]
    spec fn packed(&self) -> bool {
        word_ok(self.cost)
    }

    /// A link to `enode_idx`; of `cost` the low 30 bits are kept.
    pub fn new(enode_idx: IdxNodeKey, cost: u32, dir: IdxLinkDir) -> (link: Self)
        ensures
            link.target() == enode_idx,
            link.word() == pack_word(cost, dir),
            link@ == (LinkView {
                to: enode_idx.0 as int,
                cost: (cost % 0x4000_0000) as int,
                dir,
            }),
    {
        proof {
            lemma_pack_round_trip(cost, dir);
        }
        let code = dir.to_u32() << 30;
        let cost = code | (cost & 0x3fff_ffff);
        Self { enode_idx, cost }
    }

    /// The node at the other end.
    #[inline]
    pub fn enode_idx(&self) -> (key: IdxNodeKey)
        ensures
            key == self.target(),
            key.0 == self@.to,
    {
        self.enode_idx
    }

    /// The code of the link's direction: 1 for `Forward`, 2 for `Backward`.
    #[inline]
    pub fn dir_code(&self) -> (code: u32)
        ensures
            code == self@.dir.code(),
    {
        self.dir().to_u32()
    }

    /// The direction of the link.
    #[inline]
    pub fn dir(&self) -> (dir: IdxLinkDir)
        ensures
            dir == self@.dir,
    {
        proof {
            use_type_invariant(self);
        }
        IdxLinkDir::from_u32(self.cost >> 30)
    }

    /// The cost of the link.
    #[inline]
    pub fn cost(&self) -> (cost: u32)
        ensures
            cost == self@.cost,
            cost < COST_SPAN,
    {
        proof {
            lemma_repack_keeps_dir(self.cost, 0);
        }
        self.cost & 0x3fff_ffff
    }

    /// Replaces the cost and keeps the rest; of `cost` the low 30 bits are kept.
    #[inline]
    pub fn set_cost(&mut self, cost: u32)
        ensures
            final(self)@ == (LinkView { cost: (cost % 0x4000_0000) as int, ..old(self)@ }),
            final(self).target() == old(self).target(),
    {
        proof {
            use_type_invariant(&*self);
            lemma_repack_keeps_dir(self.cost, cost);
            lemma_pack_round_trip(cost, word_dir(self.cost));
        }
        let dir = self.cost & 0xc000_0000;
        let cost = cost & 0x3fff_ffff;
        self.cost = dir | cost;
    }
}

} // verus!
