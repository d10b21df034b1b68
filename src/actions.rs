use vstd::prelude::*;

verus! {

/// A move through the history list.
#[derive(Debug, Clone, Copy, PartialEq, Eq, Structural)]
pub enum ScrollAction {
    ItemUp,
    ItemDown,
    HalfUp,
    HalfDown,
    PageUp,
    PageDown,
    ToTop,
    ToBottom,
}

/// The same move in the other direction.
pub open spec fn opposite(a: ScrollAction) -> ScrollAction {
    match a {
        ScrollAction::ItemUp => ScrollAction::ItemDown,
        ScrollAction::ItemDown => ScrollAction::ItemUp,
        ScrollAction::HalfUp => ScrollAction::HalfDown,
        ScrollAction::HalfDown => ScrollAction::HalfUp,
        ScrollAction::PageUp => ScrollAction::PageDown,
        ScrollAction::PageDown => ScrollAction::PageUp,
        ScrollAction::ToTop => ScrollAction::ToBottom,
        ScrollAction::ToBottom => ScrollAction::ToTop,
    }
}

impl ScrollAction {
    /// The same move in the other direction, for a list shown bottom to top.
    pub fn flipped(self) -> (r: Self)
        ensures
            r == opposite(self),
    {
        match self {
            ScrollAction::ItemUp => ScrollAction::ItemDown,
            ScrollAction::ItemDown => ScrollAction::ItemUp,
            ScrollAction::HalfUp => ScrollAction::HalfDown,
            ScrollAction::HalfDown => ScrollAction::HalfUp,
            ScrollAction::PageUp => ScrollAction::PageDown,
            ScrollAction::PageDown => ScrollAction::PageUp,
            ScrollAction::ToTop => ScrollAction::ToBottom,
            ScrollAction::ToBottom => ScrollAction::ToTop,
        }
    }
}

/// Flipping twice gives the move back, and flipping never keeps a move.
pub proof fn lemma_flipped_involution(a: ScrollAction)
    ensures
        opposite(opposite(a)) == a,
        opposite(a) != a,
{
}

/// A move through the help text.
#[derive(Debug, Clone, Copy, PartialEq, Eq, Structural)]
pub enum SimpleScrollAction {
    Up,
    Down,
}

/// How an item is pasted: trimmed of surrounding white space, and followed by Enter.
#[derive(Debug, Clone, Copy, PartialEq, Eq, Structural)]
pub struct PasteModifier {
    pub trim: bool,
    pub and_enter: bool,
}

impl PasteModifier {
    /// A plain paste.
    pub fn plain() -> (r: PasteModifier)
        ensures
            !r.trim && !r.and_enter,
    {
        PasteModifier { trim: false, and_enter: false }
    }
}

/// What a pointer button does.
#[derive(Debug, Clone, Copy, PartialEq, Eq, Structural)]
pub enum PointerAction {
    Paste(PasteModifier),
}

/// The direction in which the history list is laid out.
#[derive(Debug, Clone, Copy, PartialEq, Eq, Structural)]
pub enum UiFlow {
    TopToBottom,
    BottomToTop,
}

} // verus!
