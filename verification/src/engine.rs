//! An externally driven, observable state machine that walks a live tree of
//! frames.
//!
//! The tree owns intent: node kinds, join policies, reducer names and scope
//! labels. The engine owns the mechanics: frames, suspensions, joins and
//! cancellation. The host executes effects and answers suspensions.
pub mod advance;
pub mod ast;
pub mod cancel;
pub mod drive;
pub mod driving;
pub mod fire;
pub mod laws;
pub mod live;
pub mod numbers;
pub mod observers;
pub mod paths;
pub mod progress;
pub mod project;
pub mod settle;
pub mod spawn;
pub mod starts;
pub mod step;
pub mod validate;
pub mod waiting;
pub mod winners;
pub mod world;
