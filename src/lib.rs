// A minimal ray tracer's decisions, verified: which root of a ray-sphere
// intersection is the hit, and which of the objects a ray meets is seen.
// The floating-point geometry and shading around them live in the program.

pub mod intersect;
pub mod nearest;
