//! Decoding engine for the Goff line-oriented configuration syntax.
//!
//! Goff text is decoded under the direction of the destination type's shape:
//! booleans (`yes` / `no`), signed and unsigned integers, quoted strings with
//! escapes, the `nothing` marker for absent optional values, comma-separated
//! sequences in `[` `]`, and structures of `identifier = value` assignments in
//! `(` `)` (or, at the top level of a document, without the parentheses).
//!
//! The engine itself never builds an untyped value tree: scalar parsers return
//! plain values, and composite decoding is driven through a pull protocol on
//! [`serialize::Deserializer`] — the caller asks for the next sequence element
//! or the next structure field and then decodes the value with whatever
//! grammar its target shape calls for.
//!
//! [`grammar`] holds the mathematical description of the textual grammar that
//! every parser is specified against, together with the round-trip laws for
//! integers and escaped strings.

pub mod error;
pub mod grammar;
pub mod serialize;
