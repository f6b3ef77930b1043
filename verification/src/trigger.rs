//! The trigger data model: conditions, effects, and triggers as the
//! scenario format defines them. The encoder currently writes a
//! trigger count of zero, so these records are carried as data but
//! never reach the byte stream; the model is kept so callers can
//! populate it.

use vstd::prelude::*;

use crate::selection::{Coordinate, Rectangle};

verus! {

/// One condition of a trigger: a condition code and its numeric
/// parameters, with an area rectangle.
pub struct TriggerCondition {
    pub condition: i32,
    pub check: i32,
    pub amount: i32,
    pub resource: i32,
    pub unit_object: i32,
    pub unit_location: i32,
    pub unit_type: i32,
    pub player: i32,
    pub technology: i32,
    pub timer: i32,
    pub area: Rectangle,
    pub unit_group: i32,
    pub ai_signal: i32,
}

/// One effect of a trigger: an effect code, its numeric parameters,
/// a location and area, free-text fields (kept as encoded bytes),
/// and the affected unit ids.
pub struct TriggerEffect {
    pub effect: i32,
    pub check: i32,
    pub ai_goal: i32,
    pub amount: i32,
    pub resource: i32,
    pub diplomacy: i32,
    pub unit_location: i32,
    pub unit_type: i32,
    pub player_source: i32,
    pub player_target: i32,
    pub technology: i32,
    pub text_id: i32,
    pub display_time: i32,
    pub trigger_index: i32,
    pub location: Coordinate,
    pub area: Rectangle,
    pub unit_group: i32,
    pub object_type: i32,
    pub instruction_panel: i32,
    pub text: Vec<u8>,
    pub sound_filename: Vec<u8>,
    pub unit_ids: Vec<i32>,
}

/// A trigger: flags, name and description (as encoded bytes), and
/// its conditions and effects.
pub struct Trigger {
    pub enabled: bool,
    pub is_looping: bool,
    pub is_objective: bool,
    pub name: Vec<u8>,
    pub description: Vec<u8>,
    pub conditions: Vec<TriggerCondition>,
    pub effects: Vec<TriggerEffect>,
}

} // verus!
