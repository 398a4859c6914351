//! Typewriter: which rule holds the caret's row down the window as the caret
//! moves. Where the row then goes is measured in points, and is the caller's
//! to work out from the rule chosen here.

use vstd::prelude::*;

verus! {

/// How long after a pointer press the pointer band holds the row instead of
/// the anchor, in milliseconds.
pub const POINTER_MS: u32 = 400;

/// A band of the viewport the caret's row is nudged into, and no further than
/// its nearest edge.
#[derive(Clone, Copy, Debug, PartialEq, Eq, Structural)]
pub enum Band {
    /// The band a click nudges into, with Typewriter on.
    Pointer,
    /// The band every move nudges into with Focus on and Typewriter off,
    /// wider than the pointer's.
    Edge,
}

/// Which rule holds the caret's row on one move.
#[derive(Clone, Copy, Debug, PartialEq, Eq, Structural)]
pub enum Rule {
    /// Typewriter: the row's centre kept at the anchor, a share of the
    /// viewport.
    Anchor,
    /// Nudged into a band, as far as its nearest edge, and not at all inside.
    Nudge(Band),
    /// Neither mode holds it.
    Free,
}

/// The rule for a move: with Typewriter on, the anchor, except within
/// [`POINTER_MS`] of a pointer press (`since_press`, none where the pointer
/// was never pressed), when the pointer band; with Focus on and Typewriter
/// off, the edge band; with both off, nothing.
pub open spec fn rule_of(typewriter: bool, focus: bool, since_press: Option<u32>) -> Rule {
    if typewriter {
        match since_press {
            Some(ms) if ms < POINTER_MS => Rule::Nudge(Band::Pointer),
            _ => Rule::Anchor,
        }
    } else if focus {
        Rule::Nudge(Band::Edge)
    } else {
        Rule::Free
    }
}

/// Which rule holds the row on this move. The pointer band outranks the
/// anchor for [`POINTER_MS`] after a press whatever moved the caret: a key
/// pressed in that window nudges too.
pub fn rule(typewriter: bool, focus: bool, since_press: Option<u32>) -> (rule: Rule)
    ensures
        rule == rule_of(typewriter, focus, since_press),
{
    if typewriter {
        match since_press {
            Some(ms) if ms < POINTER_MS => Rule::Nudge(Band::Pointer),
            _ => Rule::Anchor,
        }
    } else if focus {
        Rule::Nudge(Band::Edge)
    } else {
        Rule::Free
    }
}

} // verus!
