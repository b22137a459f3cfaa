//! The ground of a column: what is placed, and where.

use vstd::prelude::*;

verus! {

/// The lowest block layer of the world.
pub const MIN_Y: i32 = -64;

/// The layer, relative to the ground, that carries the grass.
pub const SURFACE_Y: i32 = 0;

/// The layer, relative to the ground, up to which the underground is filled.
pub const FILL_TOP_Y: i32 = -3;

#[derive(Debug, Clone, Copy, PartialEq, Eq, Structural)]
pub enum Block {
    Stone,
    GrassBlock,
    Dirt,
    Bedrock,
}

/// A change to the world.
#[derive(Debug, Clone, Copy, PartialEq, Eq, Structural)]
pub enum BlockOp {
    /// Sets a block; `y` counts from the ground.
    Place { block: Block, x: i32, y: i32, z: i32 },
    /// Fills a box of blocks, both corners included; `y` counts from zero.
    FillAbsolute { block: Block, x1: i32, y1: i32, z1: i32, x2: i32, y2: i32, z2: i32 },
    /// Sets a block unless `unless` is already there; `y` counts from zero.
    PlaceAbsolute { block: Block, x: i32, y: i32, z: i32, unless: Block },
}

/// Grass on two layers of dirt, unless stone was placed on the ground.
pub open spec fn surface(x: i32, z: i32, has_stone: bool) -> Seq<BlockOp> {
    if has_stone {
        Seq::empty()
    } else {
        seq![
            BlockOp::Place { block: Block::GrassBlock, x, y: 0, z },
            BlockOp::Place { block: Block::Dirt, x, y: (-1) as i32, z },
            BlockOp::Place { block: Block::Dirt, x, y: (-2) as i32, z },
        ]
    }
}

/// Stone from just above the lowest layer up to `fill_top` where the
/// underground is filled, and bedrock in the lowest layer.
pub open spec fn underground(x: i32, z: i32, fill_top: Option<i32>) -> Seq<BlockOp> {
    let bedrock = seq![
        BlockOp::PlaceAbsolute { block: Block::Bedrock, x, y: MIN_Y, z, unless: Block::Bedrock },
    ];
    match fill_top {
        Some(top) => seq![
            BlockOp::FillAbsolute {
                block: Block::Stone,
                x1: x,
                y1: (MIN_Y + 1) as i32,
                z1: z,
                x2: x,
                y2: top,
                z2: z,
            },
        ] + bedrock,
        None => bedrock,
    }
}

/// What to place on the ground of a column; `has_stone` says whether there is
/// stone at `SURFACE_Y`.
pub fn surface_ops(x: i32, z: i32, has_stone: bool) -> (ops: Vec<BlockOp>)
    ensures
        ops@ == surface(x, z, has_stone),
        has_stone ==> ops@.len() == 0,
        !has_stone ==> ops@.len() == 3 && ops@[0] == (BlockOp::Place {
            block: Block::GrassBlock,
            x,
            y: 0,
            z,
        }) && ops@[1] == (BlockOp::Place { block: Block::Dirt, x, y: -1i32, z }) && ops@[2] == (
        BlockOp::Place { block: Block::Dirt, x, y: -2i32, z }),
{
    let mut ops: Vec<BlockOp> = Vec::new();
    if !has_stone {
        ops.push(BlockOp::Place { block: Block::GrassBlock, x, y: SURFACE_Y, z });
        ops.push(BlockOp::Place { block: Block::Dirt, x, y: SURFACE_Y - 1, z });
        ops.push(BlockOp::Place { block: Block::Dirt, x, y: SURFACE_Y - 2, z });
    }
    assert(ops@ =~= surface(x, z, has_stone));
    ops
}

/// What to place below the ground of a column; `fill_top` is the absolute
/// height of `FILL_TOP_Y` where the underground is to be filled.
pub fn underground_ops(x: i32, z: i32, fill_top: Option<i32>) -> (ops: Vec<BlockOp>)
    ensures
        ops@ == underground(x, z, fill_top),
        fill_top matches Some(top) ==> ops@.len() == 2 && ops@[0] == (BlockOp::FillAbsolute {
            block: Block::Stone,
            x1: x,
            y1: -63i32,
            z1: z,
            x2: x,
            y2: top,
            z2: z,
        }),
        fill_top is None ==> ops@.len() == 1,
        ops@.last() == (BlockOp::PlaceAbsolute {
            block: Block::Bedrock,
            x,
            y: -64i32,
            z,
            unless: Block::Bedrock,
        }),
{
    let mut ops: Vec<BlockOp> = Vec::new();
    if let Some(top) = fill_top {
        ops.push(
            BlockOp::FillAbsolute {
                block: Block::Stone,
                x1: x,
                y1: MIN_Y + 1,
                z1: z,
                x2: x,
                y2: top,
                z2: z,
            },
        );
    }
    ops.push(
        BlockOp::PlaceAbsolute { block: Block::Bedrock, x, y: MIN_Y, z, unless: Block::Bedrock },
    );
    assert(ops@ =~= underground(x, z, fill_top));
    ops
}

/// A step of laying the ground of a column: a question to the world, or a
/// change to it.
#[derive(Debug, Clone, Copy, PartialEq, Eq, Structural)]
pub enum GroundStep {
    /// Asks whether `block` is at this place; `y` counts from the ground.
    AskBlock { block: Block, x: i32, y: i32, z: i32 },
    /// Asks for the height, counted from zero, of the layer `y`, which counts
    /// from the ground.
    AskHeight { x: i32, y: i32, z: i32 },
    /// Makes a change.
    Apply { op: BlockOp },
}

/// What came of a step.
#[derive(Debug, Clone, Copy, PartialEq, Eq, Structural)]
pub enum Reply {
    /// No question was asked.
    Nothing,
    /// Whether the block is there.
    Found(bool),
    /// The height that was asked for.
    Height(i32),
}

/// Making the changes, in order.
pub open spec fn applying(ops: Seq<BlockOp>) -> Seq<GroundStep> {
    ops.map_values(|op: BlockOp| GroundStep::Apply { op })
}

/// The steps below the surface. The height of the fill is asked for only where
/// the underground is filled; `top` is the answer.
pub open spec fn steps_below(x: i32, z: i32, fill: bool, top: i32) -> Seq<GroundStep> {
    if fill {
        seq![GroundStep::AskHeight { x, y: FILL_TOP_Y, z }] + applying(
            underground(x, z, Some(top)),
        )
    } else {
        applying(underground(x, z, None))
    }
}

/// All steps of a column, where `found` answers whether there is stone on the
/// ground and `top` is the height of the fill: the question for stone, the
/// surface, then what lies below it.
pub open spec fn column_steps(x: i32, z: i32, fill: bool, found: bool, top: i32) -> Seq<
    GroundStep,
> {
    seq![GroundStep::AskBlock { block: Block::Stone, x, y: SURFACE_Y, z }] + applying(
        surface(x, z, found),
    ) + steps_below(x, z, fill, top)
}

/// Stone is asked for once, first of all. The height of the fill is asked for
/// exactly where the underground is filled, once the surface is laid. The
/// surface is laid exactly where no stone was found, and bedrock comes last.
pub proof fn a_column_is_laid_from_the_surface_down(
    x: i32,
    z: i32,
    fill: bool,
    found: bool,
    top: i32,
)
    ensures
        ({
            let steps = column_steps(x, z, fill, found, top);
            let laid: int = if found {
                0
            } else {
                3
            };
            &&& forall|i: int|
                0 <= i < steps.len() ==> (#[trigger] steps[i] is AskBlock <==> i == 0)
            &&& forall|i: int|
                0 <= i < steps.len() ==> (#[trigger] steps[i] is AskHeight <==> fill && i == 1
                    + laid)
            &&& forall|i: int|
                0 <= i < steps.len() ==> ((#[trigger] steps[i] matches GroundStep::Apply { op }
                    && op is Place) <==> 1 <= i <= laid)
            &&& steps.last() == (GroundStep::Apply {
                op: BlockOp::PlaceAbsolute {
                    block: Block::Bedrock,
                    x,
                    y: MIN_Y,
                    z,
                    unless: Block::Bedrock,
                },
            })
        }),
{
}

/// The reply answers the step; before the first step there is nothing to
/// answer.
pub open spec fn answers(reply: Reply, step: Option<GroundStep>) -> bool {
    match step {
        Some(GroundStep::AskBlock { .. }) => reply is Found,
        Some(GroundStep::AskHeight { .. }) => reply is Height,
        _ => reply is Nothing,
    }
}

/// The reply agrees with these answers.
pub open spec fn agrees(reply: Reply, found: bool, top: i32) -> bool {
    match reply {
        Reply::Nothing => true,
        Reply::Found(f) => f == found,
        Reply::Height(h) => h == top,
    }
}

#[derive(Debug, Clone, Copy)]
enum Stage {
    Start,
    AwaitStone,
    Surface,
    AwaitHeight,
    Underground,
}

/// The ground of one column while it is laid, step by step.
#[derive(Debug)]
pub struct ColumnGround {
    x: i32,
    z: i32,
    fill: bool,
    stage: Stage,
    ops: Vec<BlockOp>,
    at: usize,
}

impl ColumnGround {
    #[verifier::type_invariant]
    spec fn within_the_ops(self) -> bool {
        self.at <= self.ops.len()
    }

    /// The steps still to come, by what the world answers; an answer that was
    /// already given no longer matters.
    pub closed spec fn remaining(self, found: bool, top: i32) -> Seq<GroundStep> {
        let left = applying(self.ops@.skip(self.at as int));
        match self.stage {
            Stage::Start => column_steps(self.x, self.z, self.fill, found, top),
            Stage::AwaitStone => applying(surface(self.x, self.z, found)) + steps_below(
                self.x,
                self.z,
                self.fill,
                top,
            ),
            Stage::Surface => left + steps_below(self.x, self.z, self.fill, top),
            Stage::AwaitHeight => applying(underground(self.x, self.z, Some(top))),
            Stage::Underground => left,
        }
    }

    /// The question that waits for its reply.
    pub closed spec fn pending(self) -> Option<GroundStep> {
        match self.stage {
            Stage::AwaitStone => Some(
                GroundStep::AskBlock { block: Block::Stone, x: self.x, y: SURFACE_Y, z: self.z },
            ),
            Stage::AwaitHeight => Some(
                GroundStep::AskHeight { x: self.x, y: FILL_TOP_Y, z: self.z },
            ),
            _ => None,
        }
    }

    /// Begins with a column; `fill` says whether to fill below the ground.
    pub fn new(x: i32, z: i32, fill: bool) -> (r: ColumnGround)
        ensures
            r.pending() is None,
            forall|found: bool, top: i32| #[trigger]
                r.remaining(found, top) == column_steps(x, z, fill, found, top),
    {
        ColumnGround { x, z, fill, stage: Stage::Start, ops: Vec::new(), at: 0 }
    }

    /// Takes the next change out of `ops`.
    fn take_op(&mut self) -> (r: Option<GroundStep>)
        requires
            old(self).stage is Surface || old(self).stage is Underground,
        ensures
            final(self).stage == old(self).stage,
            final(self).x == old(self).x,
            final(self).z == old(self).z,
            final(self).fill == old(self).fill,
            r matches Some(step) ==> step is Apply && forall|found: bool, top: i32| #[trigger]
                old(self).remaining(found, top) == seq![step] + final(self).remaining(found, top),
            r is None ==> *final(self) == *old(self) && old(self).ops@.skip(
                old(self).at as int,
            ).len() == 0,
    {
        proof {
            use_type_invariant(&*self);
        }
        if self.at < self.ops.len() {
            let op = self.ops[self.at];
            let ghost left = self.ops@.skip(self.at as int);
            let step = GroundStep::Apply { op };
            self.at = self.at + 1;
            proof {
                assert(applying(left) =~= seq![step] + applying(self.ops@.skip(self.at as int)));
                assert forall|found: bool, top: i32| #[trigger]
                    old(self).remaining(found, top) == seq![step] + self.remaining(found, top) by {
                    assert(old(self).remaining(found, top) =~= seq![step] + self.remaining(
                        found,
                        top,
                    ));
                }
            }
            Some(step)
        } else {
            None
        }
    }

    /// Takes the reply to the last step and gives the next step; `None` when
    /// the ground is laid.
    pub fn next(&mut self, reply: Reply) -> (r: Option<GroundStep>)
        requires
            answers(reply, old(self).pending()),
        ensures
            forall|found: bool, top: i32|
                agrees(reply, found, top) ==> match r {
                    Some(step) => #[trigger] old(self).remaining(found, top) == seq![step]
                        + final(self).remaining(found, top),
                    None => old(self).remaining(found, top).len() == 0 && final(self).remaining(
                        found,
                        top,
                    ).len() == 0,
                },
            final(self).pending() == match r {
                Some(GroundStep::Apply { .. }) => None,
                _ => r,
            },
    {
        proof {
            use_type_invariant(&*self);
        }
        let x = self.x;
        let z = self.z;
        match (self.stage, reply) {
            (Stage::Start, _) => {
                self.stage = Stage::AwaitStone;
                let step = GroundStep::AskBlock { block: Block::Stone, x, y: SURFACE_Y, z };
                proof {
                    assert forall|found: bool, top: i32| #[trigger]
                        old(self).remaining(found, top) == seq![step] + self.remaining(
                        found,
                        top,
                    ) by {
                        assert(old(self).remaining(found, top) =~= seq![step] + self.remaining(
                            found,
                            top,
                        ));
                    }
                }
                return Some(step);
            },
            (Stage::AwaitStone, Reply::Found(found)) => {
                self.at = 0;
                self.ops = surface_ops(x, z, found);
                self.stage = Stage::Surface;
                assert(self.ops@.skip(0) =~= self.ops@);
            },
            (Stage::AwaitHeight, Reply::Height(top)) => {
                self.at = 0;
                self.ops = underground_ops(x, z, Some(top));
                self.stage = Stage::Underground;
                assert(self.ops@.skip(0) =~= self.ops@);
            },
            _ => {},
        }
        assert(forall|found: bool, top: i32|
            agrees(reply, found, top) ==> #[trigger] old(self).remaining(found, top)
                == self.remaining(found, top));
        if let Stage::Surface = self.stage {
            if let Some(step) = self.take_op() {
                return Some(step);
            }
            let ghost none = self.ops@.skip(self.at as int);
            assert(applying(none) =~= Seq::empty());
            if self.fill {
                self.stage = Stage::AwaitHeight;
                let step = GroundStep::AskHeight { x, y: FILL_TOP_Y, z };
                proof {
                    assert forall|found: bool, top: i32|
                        agrees(reply, found, top) implies #[trigger] old(self).remaining(found, top)
                        == seq![step] + self.remaining(found, top) by {
                        assert(old(self).remaining(found, top) =~= seq![step] + self.remaining(
                            found,
                            top,
                        ));
                    }
                }
                return Some(step);
            }
            self.at = 0;
            self.ops = underground_ops(x, z, None);
            self.stage = Stage::Underground;
            proof {
                assert(self.ops@.skip(0) =~= self.ops@);
                assert forall|found: bool, top: i32|
                    agrees(reply, found, top) implies #[trigger] old(self).remaining(found, top)
                    == self.remaining(found, top) by {
                    assert(old(self).remaining(found, top) =~= self.remaining(found, top));
                }
            }
        }
        self.take_op()
    }
}

} // verus!
