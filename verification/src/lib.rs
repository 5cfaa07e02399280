use vstd::prelude::*;

pub mod address;
pub mod admission;
pub mod allof;
pub mod annotations;
pub mod bigint;
pub mod choices;
pub mod compiled;
pub mod definition;
pub mod engine;
pub mod finding;
pub mod form;
pub mod generated;
pub mod fingerprint;
pub mod json;
pub mod laws;
pub mod limits;
pub mod locations;
pub mod messages;
pub mod number;
pub mod pointer;
pub mod profile;
pub mod projection;
pub mod qualification;
pub mod scan;
pub mod schema;
pub mod state;
pub mod text;
pub mod unsupported;
pub mod value;
