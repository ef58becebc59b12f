use vstd::prelude::*;

verus! {

/// What the developer overlay shows.
#[derive(Clone, Copy, Debug, PartialEq, Eq, Structural)]
pub struct DevOverlaySettings {
    pub enabled: bool,
    pub show_settings: bool,
    pub show_frame_statistics: bool,
    pub show_navmesh: bool,
    pub show_colliders: bool,
}

impl Default for DevOverlaySettings {
    /// Everything hidden.
    fn default() -> (r: DevOverlaySettings)
        ensures
            r == (DevOverlaySettings {
                enabled: false,
                show_settings: false,
                show_frame_statistics: false,
                show_navmesh: false,
                show_colliders: false,
            }),
    {
        DevOverlaySettings {
            enabled: false,
            show_settings: false,
            show_frame_statistics: false,
            show_navmesh: false,
            show_colliders: false,
        }
    }
}

/// Which debug drawings are on: the gizmos, and the outlines of colliders.
#[derive(Clone, Copy, Debug, PartialEq, Eq, Structural)]
pub struct DebugDraw {
    pub gizmos: bool,
    pub colliders: bool,
}

/// One frame of input: the overlay key toggles the overlay, the settings
/// key toggles its settings window. Gizmos are drawn while the overlay is
/// on, colliders while it is on and asked to show them.
pub fn handle_input(settings: &mut DevOverlaySettings, toggle_overlay: bool, toggle_settings: bool) -> (r: DebugDraw)
    ensures
        final(settings).enabled == (old(settings).enabled != toggle_overlay),
        final(settings).show_settings == (old(settings).show_settings != toggle_settings),
        final(settings).show_frame_statistics == old(settings).show_frame_statistics,
        final(settings).show_navmesh == old(settings).show_navmesh,
        final(settings).show_colliders == old(settings).show_colliders,
        r == (DebugDraw {
            gizmos: final(settings).enabled,
            colliders: final(settings).enabled && final(settings).show_colliders,
        }),
{
    if toggle_overlay {
        settings.enabled = !settings.enabled;
    }
    if toggle_settings {
        settings.show_settings = !settings.show_settings;
    }
    DebugDraw { gizmos: settings.enabled, colliders: settings.enabled && settings.show_colliders }
}

/// How many frames the frame-time plot keeps.
pub const FRAME_HISTORY: usize = 100;

/// The last `FRAME_HISTORY` entries of `s`, or all of them when there are
/// fewer.
pub open spec fn recent<T>(s: Seq<T>) -> Seq<T> {
    if s.len() > FRAME_HISTORY {
        s.subrange(s.len() - FRAME_HISTORY, s.len() as int)
    } else {
        s
    }
}

/// Records a frame's sample, dropping the oldest ones beyond
/// `FRAME_HISTORY`.
pub fn push_recent<T>(points: &mut Vec<T>, point: T)
    ensures
        final(points)@ == recent(old(points)@.push(point)),
{
    let ghost all = old(points)@.push(point);
    points.push(point);
    while points.len() > FRAME_HISTORY
        invariant
            points@.len() <= all.len(),
            points@ == all.subrange(all.len() - points@.len(), all.len() as int),
            points@.len() >= FRAME_HISTORY || points@ == all,
        decreases points@.len(),
    {
        points.remove(0);
    }
    proof {
        if all.len() > FRAME_HISTORY {
            assert(points@.len() == FRAME_HISTORY);
        } else {
            assert(points@ == all);
        }
    }
}

} // verus!
