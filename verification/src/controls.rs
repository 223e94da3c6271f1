use vstd::prelude::*;

verus! {

/// Where the outer tab sits on the panel's top edge, or `Free` once dragged off.
#[derive(Clone, Copy, Debug, PartialEq, Eq, Structural)]
pub enum Anchor {
    Left,
    Center,
    Right,
    Free,
}

/// What a click on one of the preset buttons under the panel does.
#[derive(Clone, Copy, Debug, PartialEq, Eq, Structural)]
pub enum PresetAction {
    /// Dock the tab at this place on the panel's top edge.
    Dock(Anchor),
    /// Take the last pie control away, if there is one.
    RemovePie,
    /// Put every control back as it started.
    Reset,
}

/// The action of preset button `i`: the first three dock the tab left, centred
/// and right, the fourth removes a pie, any other resets.
pub fn preset_action(i: usize) -> (a: PresetAction)
    ensures
        a == (if i == 0 {
            PresetAction::Dock(Anchor::Left)
        } else if i == 1 {
            PresetAction::Dock(Anchor::Center)
        } else if i == 2 {
            PresetAction::Dock(Anchor::Right)
        } else if i == 3 {
            PresetAction::RemovePie
        } else {
            PresetAction::Reset
        }),
{
    match i {
        0 => PresetAction::Dock(Anchor::Left),
        1 => PresetAction::Dock(Anchor::Center),
        2 => PresetAction::Dock(Anchor::Right),
        3 => PresetAction::RemovePie,
        _ => PresetAction::Reset,
    }
}

/// The most pie controls the tab holds.
pub const MAX_PIES: usize = 5;

/// The most pie controls the tab of the first, hand-placed layout holds.
pub const FIRST_LAYOUT_MAX_PIES: usize = 4;

/// Whether the plus button may add a pie to a tab that holds `count` and takes
/// at most `limit`.
pub fn may_add_pie(count: usize, limit: usize) -> (ok: bool)
    ensures
        ok == (count < limit),
        ok ==> count + 1 <= limit,
{
    count < limit
}

} // verus!
