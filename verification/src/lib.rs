//! Arithmetic over the cyclotomic ring `Z_q[X]/(X^128 + 1)` used by the
//! RoKoKo protocol: coefficient, even-odd, incomplete-NTT and homogenized
//! field-extension representations, the quartic slot backend, and norms.
pub mod config;
pub mod conjugation;
pub mod conjugation_law;
pub mod conjugation_table;
pub mod conversion_law;
pub mod extension;
pub mod layout;
pub mod modular;
pub mod negacyclic;
pub mod norm_law;
pub mod norms;
pub mod product_law;
pub mod ntt;
pub mod ntt_laws;
pub mod quartic_law;
pub mod quartic_ring;
pub mod ring_arithmetic;
pub mod roots;
pub mod sampling;
pub mod sizes;
pub mod slot_field;
