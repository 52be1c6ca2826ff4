//! Verified algorithms on integers and on in-place sequences.
//!
//! The sequence algorithms exchange the two blocks of a span (rotation) and
//! reverse spans, each suited to what a traversal can do: forward-only block
//! exchange, reversal from both ends, cycle leaders with random access, and
//! reversal through a bounded scratch buffer. Every rotation computes the
//! same sequence, `span::rotated`.
//!
//! The integer algorithms are Egyptian multiplication, the sieve of
//! Eratosthenes, Euclid's greatest common measure with its remainder
//! variants, Stein's binary gcd, and primality by trial division.

pub mod span;
pub mod swap_ranges;
pub mod rotate;
pub mod reverse;
pub mod cycle;
pub mod facts;
pub mod cursor;

pub mod gcd;
pub mod multiply;
pub mod polynomial;
pub mod fibonacci;
pub mod ancient;
pub mod euclid;
pub mod stein;
pub mod primes;
pub mod inverse;
