//! Character-bigram statistics for telling natural-language words from
//! random, encoded or hashed tokens.
//!
//! A [`bigram::BigramAnalyzer`] counts, over a fixed alphabet, how often each
//! character directly follows each other in a corpus, and scores strings by
//! the probabilities of their adjacent pairs. Every character is folded to
//! lower case first, and a character outside the alphabet breaks the
//! sequence: no pair reaches across it.
//!
//! Probabilities are exact fractions. A cell of the matrix holds a weight,
//! and one denominator serves all cells: the number of transitions counted
//! in the whole corpus, not that of a row. Scores and thresholds are
//! fractions as well and are compared without rounding.
//!
//! Three choices are worth knowing:
//!
//! * A model without data, fresh or built from a corpus without a single
//!   transition, gives every pair the probability zero. Nothing is ever
//!   divided by zero.
//! * The empty string has the weighted score zero; a string of one
//!   character has the score one, whatever the character.
//! * A stored matrix holds each probability rounded down to eighteen
//!   decimal places, in the shortest form that holds them: `0`, `1`, `0.5`.
//!   Reading it back gives those probabilities exactly, as numerators over
//!   ten to the eighteenth. What is read is any decimal number as
//!   floating-point numbers are written, sign and exponent included, as
//!   long as it lies between zero and one.
//! * A caller that writes numbers its own way, as floats are printed, hands
//!   the written fields over; the library lays them out and sees to it that
//!   each is within a millionth of the probability it stands for.
//! * The joint score is held in units of ten to the minus thirty-eighth,
//!   about as far down as single-precision floats reach; a product below
//!   that comes out as zero.

pub mod bigram;
pub mod charset;
pub mod decimal;
pub mod filter;
pub mod model;
pub mod ratio;
pub mod source;
pub mod storage;
pub mod table;
pub mod text;
