//! What a renderer without isolated groups has to say.

use crate::scene::recording::Scene;
use vstd::prelude::*;

verus! {

/// How many groups a renderer that does not composite isolated groups has to
/// report for this scene: once, and only where there are any.
///
/// Such a renderer walks a scene's batches and paints a group's primitives one
/// at a time. `reported` is the caller's own flag and is never cleared, so
/// there is one report for a renderer rather than one for a frame.
pub fn report_groups_painted_without_isolation(scene: &Scene, reported: &mut bool) -> (r: Option<
    usize,
>)
    ensures
        *final(reported) == (*old(reported) || scene@.groups.len() > 0),
        r == if !*old(reported) && scene@.groups.len() > 0 {
            Some(scene@.groups.len() as usize)
        } else {
            None::<usize>
        },
{
    if *reported || scene.groups.len() == 0 {
        return None;
    }
    *reported = true;
    Some(scene.groups.len())
}

} // verus!
