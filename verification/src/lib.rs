//! An interpreter for a little language whose programs are sequences of
//! playing-card symbols.  Source text is tokenized into a stream of cards,
//! jump labels are resolved in a separate pass, and the stream is executed
//! against four arbitrary-precision registers, one per suit.

pub mod bignum;
pub mod encoding;
pub mod labels;
pub mod machine;
pub mod token;
pub mod tokenize;
