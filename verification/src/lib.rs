//! Temporal refinement of one FIR output of a room correction.
//!
//! Saved impulse responses decide whether a filter gets a delayed, inverted copy of itself to
//! shorten the tail of the room: the training ones pick a candidate, and the held-out ones
//! confirm it or not. The library qualifies the evidence ([`intake`]), reads the measurement
//! packages that must repeat it ([`package_reader`]), judges and picks candidates ([`metrics`],
//! [`spectrum`], [`search`]), records what was decided, writes the file that is delivered
//! ([`wav`]), and checks later that the result still is the one that was qualified
//! ([`refinement`]).
//!
//! Numbers in floating point are held as their bits ([`ieee`]): the library orders, rounds and
//! reports them, and leaves arithmetic to its callers.

pub mod digest;
pub mod error;
pub mod evidence;
pub mod evidence_laws;
pub mod ieee;
pub mod intake;
pub mod json;
pub mod logical_digest;
pub mod measurement_array;
pub mod metrics;
pub mod order;
pub mod package_laws;
pub mod package_reader;
pub mod provenance;
pub mod refinement;
pub mod refinement_laws;
pub mod room;
pub mod room_result;
pub mod search;
pub mod settings;
pub mod spectrum;
pub mod temporal_fir_config;
pub mod text;
pub mod wav;
pub mod zarr_array;
