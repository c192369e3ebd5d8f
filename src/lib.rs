//! Renders a dragon holding a short text in two slots of its ASCII-art sign,
//! and plans the sequence of frames, captions, pauses and screen clears of an
//! animated show.
//!
//! A payload is cut into the two slot texts by one of two rules, chosen by the
//! caller through `frame::Segmentation`: by character count alone, or by lines
//! first (falling back to the character count for a single line).

pub mod frame;
pub mod show;
