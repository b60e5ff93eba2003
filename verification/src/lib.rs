//! A decoder for UASTC, a texture format of blocks of 128 bits, each of which
//! holds four by four pixels in one of twenty modes.
//!
//! A block is a string of bits, read from the lowest bit of its first byte
//! on. [`bitreader`] reads fields from such a string. A block opens with the
//! code of its mode; flags for transcoders follow, then the endpoints, which
//! [`bise`] unpacks and maps to eight bits, and the weights, which
//! [`weights`] reads and maps to the range 0 to 64. [`uastc`] holds the mode
//! table, puts a block together from its fields, and walks the blocks of a
//! slice, handing each to a sink of [`sink`] or painting the flat blocks
//! into an image of [`image`].
//!
//! Every function states what it returns in terms of the bytes it was given,
//! and is verified to return just that.

pub mod bise;
pub mod bitreader;
pub mod image;
pub mod sink;
pub mod uastc;
pub mod weights;
