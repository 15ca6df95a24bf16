//! String operations over homomorphically encrypted ASCII strings.
//!
//! An encrypted string ([`ciphertext::FheString`]) is a row of encrypted bytes
//! of public length.  Zero bytes are padding; where padding may stand is told
//! by three public flags, how many bytes are characters is secret.  The
//! operations of a string library (`len`, `trim`, `to_uppercase`, `repeat`,
//! `contains`, `find`, `strip_prefix`, ...) are computed on the ciphertexts
//! alone, through the operations of a homomorphic primitive layer
//! ([`primitives::Fhe`]).
//!
//! The searches are the work of the pattern-matching engine
//! ([`pattern_matcher::SimpleEngine`]): it lays out every alignment of the
//! pattern in the padded content as a plan of primitive operations
//! ([`execution::Execution`]), in which what two alignments have in common is
//! one node, and evaluates each node of the plan once.
//!
//! Every contract speaks of a ciphertext through the value it decrypts to.
//! [`semantics`] says what a match is and what each node of a plan stands
//! for, [`text`] and [`search`] say what each operation does to the clear
//! bytes, and [`text_laws`] and [`search_laws`] prove that this is what the
//! same operation does to the characters of a clear string.  [`padding_laws`]
//! proves that the transforms leave padding only where their flags allow it.
//!
//! [`trivial`] is a primitive layer without secrecy, on which the library runs
//! as it is.  [`shortint`] holds the scalar bitwise operations of short-integer
//! blocks, [`shortint_laws`] their laws.
pub mod ciphertext;
pub mod client_key;
pub mod execution;
pub mod padding_laws;
pub mod pattern_matcher;
pub mod primitives;
pub mod reduction;
pub mod search;
pub mod search_laws;
pub mod semantics;
pub mod shortint;
pub mod shortint_laws;
pub mod text;
pub mod text_laws;
pub mod trivial;
