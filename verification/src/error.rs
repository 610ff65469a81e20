use vstd::prelude::*;

verus! {

/// Why an input was rejected. Every failure of this crate is fatal and is
/// reported at once; nothing is retried.
#[derive(Clone, Copy, Debug, PartialEq, Eq, Structural)]
pub enum InvalidInput {
    /// The source image has zero width or zero height.
    EmptyImage,
    /// Fewer than three pins were given.
    TooFewPins,
    /// The radius is zero.
    ZeroRadius,
    /// A pin lies outside the circular mask.
    PinOutsideMask,
    /// A pixel buffer does not have the length its dimensions call for.
    SizeMismatch,
}

impl InvalidInput {
    /// A short description for messages to a user.
    pub fn message(&self) -> (text: &'static str)
        ensures
            text@ == match *self {
                InvalidInput::EmptyImage => "image has zero width or height"@,
                InvalidInput::TooFewPins => "fewer than three pins"@,
                InvalidInput::ZeroRadius => "radius is zero"@,
                InvalidInput::PinOutsideMask => "pin outside the circular mask"@,
                InvalidInput::SizeMismatch => "buffer length does not match its dimensions"@,
            },
    {
        match self {
            InvalidInput::EmptyImage => "image has zero width or height",
            InvalidInput::TooFewPins => "fewer than three pins",
            InvalidInput::ZeroRadius => "radius is zero",
            InvalidInput::PinOutsideMask => "pin outside the circular mask",
            InvalidInput::SizeMismatch => "buffer length does not match its dimensions",
        }
    }
}

} // verus!
