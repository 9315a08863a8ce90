//! MassiveEQ profile model, Equalizer APO text parsing, device bookkeeping and
//! control-command logic, each stated by contract and proved with Verus.

pub mod model;
pub mod text;
pub mod decimal;
pub mod parser;
pub mod session;
pub mod devices;
pub mod control;
pub mod keyed;
pub mod library;
pub mod discovery;
pub mod filters;
pub mod pipewire;
pub mod storage;
pub mod ui;
pub mod compile;
pub mod laws;
