//! Integer core of a mass-entity swarm simulation: terrain cost grids,
//! bit-packed fog of war, directive processing, flow-field bookkeeping and
//! the debug-visualizer command set. Float quantities are carried as an
//! opaque type parameter and never read by verified code.

pub mod grid;
pub mod keys;
pub mod seqs;
pub mod terrain;
pub mod visibility;
pub mod vision;
pub mod rules;
pub mod registry;
pub mod directive;
pub mod sim;
pub mod flow_field;
pub mod flow_update;
pub mod overlay;
pub mod commands;
pub mod combat;
pub mod vectorizer;
pub mod laws;
