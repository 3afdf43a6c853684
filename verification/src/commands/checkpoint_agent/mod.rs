//! Presets that turn what an agent reports into a checkpoint request.

pub mod agent_presets;
pub mod agent_v1_preset;
