//! A deterministic xorshift-style pseudo-random generator, short identifiers
//! drawn from it, and suffix-based disambiguation of display names.
pub mod generator;
pub mod ids;
pub mod names;
pub mod text;

pub use generator::{gnrng, Gnrng, GnrngState};
pub use ids::{
    create_deterministic_ids_by_seed, create_id_by_seed, create_ids_by_seed, id_from_positions,
    IdType, ALPHABET_LEN, AVAILABLE_ALPHABET, DEFAULT_SIZE,
};
pub use names::{get_unique_name, get_unique_names};
