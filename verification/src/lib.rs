//! Client-side codec and session logic for the WeeChat relay protocol.
//!
//! The relay streams what happens in the buffers of a WeeChat instance as
//! binary messages. This crate decodes those messages and decides what a
//! session with the relay does next. It performs no I/O: whoever owns the
//! transport reads and writes the bytes and tells the session what came of it.
//!
//! * [`wire`] says what the bytes mean, as mathematics; [`model`] holds the
//!   values they decode to.
//! * [`parse`] decodes the objects of the protocol; [`message`], [`hdata`]
//!   and [`strdata`] frame them into messages.
//! * [`relay`] is the session: connect, authenticate, subscribe, and tell a
//!   line that calls for attention from one that does not.
//! * [`display`] writes objects out for people to read.
//!
//! Every function is verified against its contract with Verus. What is taken
//! on trust is named in [`text`].

pub mod conversions;
pub mod decimal;
pub mod display;
pub mod errors;
pub mod hdata;
pub mod message;
pub mod model;
pub mod parse;
pub mod relay;
pub mod split;
pub mod strdata;
pub mod text;
pub mod wire;
