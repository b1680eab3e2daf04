//! Two binary codecs for an ordered sequence of text lines, and the checksum
//! that tells whether a decoded sequence is the one that was encoded.
//!
//! # The relocatable codec
//!
//! [`relocatable`] writes a sequence the way it lies in memory: a header for
//! the sequence, a table with one header for each line, and the bytes of the
//! lines, one after the other. A header is three numbers of eight bytes,
//! least significant byte first: the position of the data, its capacity and
//! its length.
//!
//! ```text
//! 0        8        16       24                 24 + 24 n
//! | 24     | n      | n      | pos cap len | ... | line 0 | line 1 | ...
//! ```
//!
//! Decoding works in place on a mutable buffer. It reads lengths only, walks
//! the payload word by word, refuses a buffer that ends early or goes on
//! after the last word, and then rewrites every position to where the data
//! stands in the buffer. The decoded sequence is a view into that buffer:
//! element `i` is found through header `i`, without a walk. [`layout`] holds
//! the mathematical model of the format, [`steps`] the states that a buffer
//! passes through while it is written or fixed up, and [`laws`] what is
//! proved of encoding and decoding together.
//!
//! # The schema codec
//!
//! [`schema`] stores a sequence as a Cap'n Proto message whose root is a list
//! of text, built and read by the `capnp` crate. To read, the bytes are first
//! copied into aligned words, as many as the bytes hold and no more; `capnp`
//! then reads the message in place and resolves elements one at a time, when
//! they are asked for. What `capnp` does is not proved here: the module
//! states it in the contracts of a few private functions that make the calls,
//! and proves the rest from those.
//!
//! # The checksum
//!
//! [`checksum`] reduces one element, or a whole decoded sequence, to the
//! wrapping sum of its bytes. It reads either decoded form through
//! [`checksum::WordList`].
pub mod checksum;
pub mod error;
pub mod fields;
pub mod laws;
pub mod layout;
pub mod lines;
pub mod relocatable;
pub mod schema;
pub mod steps;
