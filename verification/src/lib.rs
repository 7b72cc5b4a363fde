//! A templating engine for OOXML word-processing documents.
//!
//! A template carries structured document tags ("content controls"), each
//! with a tag identifier, a kind, and a body. Given a mapping from tag
//! identifiers to raw OOXML fragments, the engine replaces every control's
//! body with the mapped fragment, wrapped in whichever paragraph, run and
//! text elements the surrounding document expects; a repeating section is
//! expanded to one copy of its item template per sub-mapping. A strip pass
//! removes the control framing while keeping the bodies. Parts of the
//! container that carry no control pass through byte for byte.
//!
//! Every operation is specified against a mathematical model of the XML
//! event stream: the scanner's events are indexed into control positions by
//! a verified state machine, held to the structural invariants, and
//! rewritten by a verified writer whose output text is pinned down event by
//! event.
pub mod archive;
pub mod controls;
pub mod detect;
pub mod engine;
pub mod errors;
pub mod events;
pub mod index;
pub mod laws;
pub mod metadata;
pub mod scanner;
pub mod state;
pub mod writer;
