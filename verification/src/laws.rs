//! What the operations are for, said of their inputs and results alone: what is stored, and
//! for how long; what a source's answer comes to; what is read, written and collected.

pub mod asking;
pub mod cachefile;
pub mod citing;
pub mod feeds;
pub mod hosting;
pub mod keeping;
pub mod members;
pub mod naming;
pub mod planning;
pub mod reading;
pub mod retrieving;
pub mod sources;
pub mod storing;
pub mod telling;
pub mod texts;
