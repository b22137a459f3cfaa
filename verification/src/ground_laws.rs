//! What is asked and placed while the ground of a column is laid, block by
//! block.

use crate::ground::{
    agrees, answers, column_steps, surface, underground, Block, BlockOp, GroundStep, Reply,
    FILL_TOP_Y, MIN_Y, SURFACE_Y,
};
use vstd::prelude::*;

verus! {

/// The layers: bedrock lies at -64, grass at the height of the ground, and the
/// fill ends three layers below it.
pub proof fn the_layers_of_the_world()
    ensures
        MIN_Y == -64,
        SURFACE_Y == 0,
        FILL_TOP_Y == -3,
{
}

/// Where there is no stone, a column gets grass at the height of the ground and
/// dirt in the two layers below, all in the column itself; where there is
/// stone, it gets nothing.
pub proof fn grass_lies_on_two_layers_of_dirt(x: i32, z: i32)
    ensures
        surface(x, z, true).len() == 0,
        surface(x, z, false).len() == 3,
        forall|i: int|
            0 <= i < 3 ==> ((#[trigger] surface(x, z, false)[i]) matches BlockOp::Place {
                block,
                x: at_x,
                y,
                z: at_z,
            } && at_x == x && at_z == z && y == -i && block == if i == 0 {
                Block::GrassBlock
            } else {
                Block::Dirt
            }),
{
}

/// Below the ground, the last change is bedrock at -64, which never replaces
/// bedrock. Before it, where the underground is filled, stone is filled from
/// -63 up to exactly the height given, in this column alone; otherwise nothing
/// comes before it.
pub proof fn stone_reaches_from_the_bedrock_to_the_top(x: i32, z: i32, fill_top: Option<i32>)
    ensures
        ({
            let ops = underground(x, z, fill_top);
            &&& ops.len() == if fill_top is Some {
                2int
            } else {
                1int
            }
            &&& ops.last() matches BlockOp::PlaceAbsolute { block, x: at_x, y, z: at_z, unless }
                && block == Block::Bedrock && at_x == x && y == -64 && at_z == z && unless
                == Block::Bedrock
            &&& fill_top matches Some(top) ==> (ops[0] matches BlockOp::FillAbsolute {
                block,
                x1,
                y1,
                z1,
                x2,
                y2,
                z2,
            } && block == Block::Stone && x1 == x && x2 == x && z1 == z && z2 == z && y1 == -63
                && y2 == top)
        }),
{
}

/// A step of laying the ground that fills a box.
pub open spec fn fills(step: GroundStep) -> bool {
    step matches GroundStep::Apply { op } && op is FillAbsolute
}

/// With a fill there is exactly one step that fills; it comes after the height
/// was asked for, and it fills this column with stone from -63 up to exactly
/// the height that was answered. Without a fill no step fills, and no height is
/// asked for.
pub proof fn the_fill_ends_at_the_answered_height(
    x: i32,
    z: i32,
    fill: bool,
    found: bool,
    top: i32,
)
    ensures
        ({
            let steps = column_steps(x, z, fill, found, top);
            let n = steps.len() as int;
            &&& !fill ==> forall|i: int|
                0 <= i < n ==> !(#[trigger] steps[i] is AskHeight) && !fills(steps[i])
            &&& fill ==> {
                &&& n >= 3
                &&& forall|i: int| 0 <= i < n ==> (#[trigger] fills(steps[i]) <==> i == n - 2)
                &&& steps[n - 2]->op matches BlockOp::FillAbsolute { block, x1, y1, z1, x2, y2, z2 }
                    && block == Block::Stone && x1 == x && x2 == x && z1 == z && z2 == z && y1
                    == -63 && y2 == top
                &&& steps[n - 3] matches GroundStep::AskHeight { x: at_x, y, z: at_z } && at_x == x
                    && y == -3 && at_z == z
            }
        }),
{
    let steps = column_steps(x, z, fill, found, top);
    if fill {
        assert forall|i: int| 0 <= i < steps.len() implies (#[trigger] fills(steps[i]) <==> i
            == steps.len() - 2) by {}
    }
}

/// The steps of a column: first the question for stone at the height of the
/// ground, then the changes of the surface, then, with a fill, the question for
/// the height, then the changes below, and nothing else.
pub proof fn the_steps_of_a_column(x: i32, z: i32, fill: bool, found: bool, top: i32)
    ensures
        ({
            let steps = column_steps(x, z, fill, found, top);
            let above = surface(x, z, found);
            let below = underground(
                x,
                z,
                if fill {
                    Some(top)
                } else {
                    None
                },
            );
            let asked: int = if fill {
                1
            } else {
                0
            };
            &&& steps.len() == 1 + above.len() + asked + below.len()
            &&& steps[0] matches GroundStep::AskBlock { block, x: at_x, y, z: at_z } && block
                == Block::Stone && at_x == x && y == 0 && at_z == z
            &&& forall|i: int|
                1 <= i < 1 + above.len() ==> #[trigger] steps[i] == (GroundStep::Apply {
                    op: above[i - 1],
                })
            &&& fill ==> steps[above.len() + 1int] is AskHeight
            &&& forall|i: int|
                1 + above.len() + asked <= i < steps.len() ==> #[trigger] steps[i] == (
                GroundStep::Apply { op: below[i - 1 - above.len() - asked] })
        }),
{
}

/// Any answer to a question is taken, and taken as it was given.
pub proof fn replies_are_taken_as_given(
    found: bool,
    top: i32,
    given_found: bool,
    given_top: i32,
    block: Block,
    op: BlockOp,
    x: i32,
    y: i32,
    z: i32,
)
    ensures
        answers(Reply::Found(found), Some(GroundStep::AskBlock { block, x, y, z })),
        answers(Reply::Height(top), Some(GroundStep::AskHeight { x, y, z })),
        answers(Reply::Nothing, Some(GroundStep::Apply { op })),
        answers(Reply::Nothing, None),
        agrees(Reply::Found(given_found), found, top) <==> given_found == found,
        agrees(Reply::Height(given_top), found, top) <==> given_top == top,
        agrees(Reply::Nothing, found, top),
{
}

} // verus!
