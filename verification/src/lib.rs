//! ProtoWave: federation-qualified identifiers, wire framing, and the
//! decision logic of a collaborative wave server.

pub mod text;
pub mod hexcode;
pub mod id;
pub mod wire;
pub mod fields;
pub mod protocol;
pub mod signing;
pub mod store;
pub mod common;
pub mod models;
pub mod federation;
pub mod auth;
pub mod waves;
pub mod cas;
pub mod limits;
pub mod search;
pub mod agent;
pub mod shares;
pub mod attachments;
pub mod engine;
pub mod ws;
pub mod translate;
pub mod settings;
pub mod fedwire;
pub mod tables;

pub use hexcode::{hex_decode, hex_decode_str, hex_encode, hex_of, hex_value, is_hex_char, law_hex_roundtrip};
pub use id::{IdError, IdFault, ParticipantId, WaveId, WaveletId, WaveletName, validate_domain, validate_token, law_participant_roundtrip, law_wave_id_roundtrip, law_wavelet_name_roundtrip};
