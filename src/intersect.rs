use vstd::prelude::*;

verus! {

/// Which of the two points where a ray's line meets a sphere is the hit.
#[derive(Clone, Copy, Debug, PartialEq, Eq, Structural)]
pub enum Root {
    /// The nearer point, `t_closest - sqrt(discriminant)`.
    Near,
    /// The farther point, `t_closest + sqrt(discriminant)`.
    Far,
}

/// The root that a hit test picks from the signs of its three quantities.
pub open spec fn root_choice(
    discriminant_nonnegative: bool,
    near_nonnegative: bool,
    far_nonnegative: bool,
) -> Option<Root> {
    if !discriminant_nonnegative || !far_nonnegative {
        None
    } else if near_nonnegative {
        Some(Root::Near)
    } else {
        Some(Root::Far)
    }
}

/// Decides whether a ray hits a sphere, and at which root.
pub fn choose_root(
    discriminant_nonnegative: bool,
    near_nonnegative: bool,
    far_nonnegative: bool,
) -> (r: Option<Root>)
    ensures
        r == root_choice(discriminant_nonnegative, near_nonnegative, far_nonnegative),
{
    if discriminant_nonnegative && far_nonnegative {
        if near_nonnegative {
            Some(Root::Near)
        } else {
            Some(Root::Far)
        }
    } else {
        None
    }
}

} // verus!
