//! The gatherers' own rules: where the ants start, and what an ant does
//! with a hit.
use vstd::prelude::*;
use crate::collision::HitEvent;
use crate::spatial_index::Entity;

verus! {

/// What an ant does with one hit on a piece of food.
#[derive(Clone, Copy, Debug, PartialEq, Eq, Structural)]
pub enum Reaction {
    /// Nothing happens.
    Ignore,
    /// `ant` sets `carried` down where it stands: the item becomes
    /// collidable again and the ant cools down before its next hit.
    Drop { ant: Entity, carried: Entity },
    /// `ant` takes `food`, which stops being collidable, and turns back.
    PickUp { ant: Entity, food: Entity },
}

/// Decides an ant's reaction to `hit`.
///
/// `ready` says whether the hitter is an ant that may react now (it is not
/// cooling down); `carrying` is what it holds: `None` when it holds nothing,
/// otherwise the items it holds, of which it sets down the first.
pub fn react_to_hit(hit: &HitEvent, ready: bool, carrying: Option<&[Entity]>) -> (r: Reaction)
    ensures
        !ready ==> r == Reaction::Ignore,
        ready && carrying is None ==> r == (Reaction::PickUp { ant: hit.hitter, food: hit.hittable }),
        ready ==> (carrying matches Some(held) ==> r == (if held@.len() > 0 {
            Reaction::Drop { ant: hit.hitter, carried: held@[0] }
        } else {
            Reaction::Ignore
        })),
{
    if !ready {
        return Reaction::Ignore;
    }
    match carrying {
        None => Reaction::PickUp { ant: hit.hitter, food: hit.hittable },
        Some(held) => {
            if held.len() > 0 {
                Reaction::Drop { ant: hit.hitter, carried: held[0] }
            } else {
                Reaction::Ignore
            }
        },
    }
}

/// The x coordinates of the ants' starting row: from `-half_x`, every
/// `step` units, while below `half_x`.
pub fn ant_spawn_columns(half_x: i32, step: u32) -> (xs: Vec<i32>)
    requires
        half_x > i32::MIN,
        step > 0,
    ensures
        forall|k: int| 0 <= k < xs@.len() ==> #[trigger] xs@[k] == -half_x + k * step && xs@[k] < half_x,
        -half_x + xs@.len() * step >= half_x,
{
    let mut xs: Vec<i32> = Vec::new();
    let mut x: i64 = -(half_x as i64);
    assert(xs@.len() * step == 0) by (nonlinear_arith)
        requires
            xs@.len() == 0,
    ;
    while x < half_x as i64
        invariant
            step > 0,
            half_x > i32::MIN,
            x == -half_x + xs@.len() * step,
            x >= -half_x,
            xs@.len() > 0 ==> x < half_x + step,
            forall|k: int| 0 <= k < xs@.len() ==> #[trigger] xs@[k] == -half_x + k * step && xs@[k] < half_x,
        decreases half_x + step - x,
    {
        let ghost n = xs@.len();
        xs.push(x as i32);
        x = x + step as i64;
        assert(-half_x + (n + 1) * step == -half_x + n * step + step) by (nonlinear_arith);
    }
    xs
}

} // verus!
