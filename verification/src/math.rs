pub mod divisor;
pub mod enumerator;
pub mod eratosthenes;
pub mod linear_sieve;
pub mod primality;
pub mod ratio;
