//! Jones polynomials of the closures of three-strand braids: exact Laurent
//! polynomial arithmetic, canonical braid words, and the Kauffman-bracket
//! recurrence that extends a word's annotation by one twist.
pub mod braid;
pub mod jones;
pub mod poly;
pub mod sums;
