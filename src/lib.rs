//! A ring-LWE homomorphic encryption core: arithmetic in a cyclotomic integer
//! ring, key generation with encryption and decryption, and the ciphertext
//! algebra with relinearization by modulus switching.

pub mod crypt_message;
pub mod cyclotomic;
pub mod lattice;

pub use crypt_message::CryptMessage;
pub use cyclotomic::Cyclotomic;
pub use lattice::Lattice;

