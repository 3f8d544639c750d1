//! Headlines of an RSS feed, kept in a flat cache file and opened again by number.
//!
//! The crate turns a feed document into an ordered list of articles, writes and
//! reads the line-oriented cache that holds them between two runs, and answers
//! the questions a command-line front end asks: what the arguments name, which
//! cached link belongs to which number, what the listing looks like, which
//! program opens a link on which platform.  Fetching the feed, touching the
//! file system and starting the browser are left to the caller.
//!
//! - [`article`]: the record that everything else passes around.
//! - [`feed`]: the feed parser, a state machine over markup events.
//! - [`xml`]: the tokenizer that produces those events.  This is the one
//!   module that calls an outside crate, and its contracts are assumed.
//! - [`cache`]: the cache codec and the laws of its round trip.
//! - [`driver`]: arguments, lookup by number, the listing, the launcher.
//! - [`text`]: tools on text that the other modules share, and the one
//!   contract assumed of the standard library.
//!
//! Contracts are stated over views: a `String` stands for its sequence of
//! characters, an article for its two texts, a list for the sequence of its
//! items' views.

pub mod article;
pub mod cache;
pub mod driver;
pub mod feed;
pub mod text;
pub mod xml;
