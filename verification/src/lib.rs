//! A rotor cipher machine in the Enigma family.
//!
//! The machine owns an ordered stack of rotors (the last one conventionally a
//! fixed reflector) and a plugboard.  Each plaintext letter first advances the
//! rotor stack (an odometer with a forced-carry anomaly), then travels through
//! plugboard, rotors, reflector, rotors again and plugboard again, coming out
//! as the cipher letter.  With the same starting offsets the cipher is its own
//! inverse.

pub mod engine;
pub mod errors;
pub mod laws;
pub mod letters;
pub mod wheel;
