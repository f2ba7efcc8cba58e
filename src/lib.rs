//! A memory bandwidth load generator's logic: rates read from text, a
//! capped debt ledger that paces work against the clock, the quanta of
//! pages it allows, the writer's growth of the shared arena, and the readers'
//! windows over what was written.

pub mod arena;
pub mod float;
pub mod ledger;
pub mod plan;
pub mod quantum;
pub mod rate;
pub mod size;
pub mod step;
pub mod window;
