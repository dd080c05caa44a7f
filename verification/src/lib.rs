//! The core of a small list calculator: a list of double-precision numbers,
//! the commands that act on it, and the text format it is saved in.
//!
//! Numbers are held as their IEEE 754 bit patterns ([`number`]), which is
//! enough to compare, order and find them ([`list`]). Reading a number from
//! text, writing one as text, and arithmetic on numbers are left to the
//! caller, who hands in and takes out bit patterns.
//!
//! A line of input is read as a command ([`command`]) and carried out on the
//! list ([`dispatch`]); the reply says what is to be shown. [`import`] finds
//! the numbered lines of a text that is read in, [`export`] lays out the text
//! that is written out, and [`text`] holds what both and the commands need of
//! white space and words.

pub mod command;
pub mod dispatch;
pub mod export;
pub mod import;
pub mod list;
pub mod number;
pub mod text;
