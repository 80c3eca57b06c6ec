use vstd::prelude::*;

use crate::fixel::Mood;
use crate::fixel::RootType;

verus! {

/// One RGBA pixel of a frame buffer.
#[derive(Clone, Copy, PartialEq, Eq, Structural, Debug)]
pub struct Pixel {
    pub r: u8,
    pub g: u8,
    pub b: u8,
    pub a: u8,
}

/// The background color: plain white, also used for freshly allocated buffer
/// area.
pub open spec fn spec_background() -> Pixel {
    Pixel { r: 255, g: 255, b: 255, a: 255 }
}

/// The color a cell is drawn with, from its classification: black for a root,
/// red for an out-of-domain cell, tinted shades for a uniform sign, white
/// where nothing is known.
pub open spec fn spec_color_of(root: RootType, mood: Mood) -> Pixel {
    match root {
        RootType::Root => Pixel { r: 0, g: 0, b: 0, a: 255 },
        RootType::OutOfDomain => Pixel { r: 255, g: 0, b: 0, a: 255 },
        RootType::NoRoot => match mood {
            Mood::NoData => Pixel { r: 255, g: 255, b: 255, a: 255 },
            Mood::Positive => Pixel { r: 255, g: 255, b: 200, a: 255 },
            Mood::Negative => Pixel { r: 200, g: 255, b: 255, a: 255 },
        },
    }
}

pub fn background() -> (p: Pixel)
    ensures
        p == spec_background(),
{
    Pixel { r: 255, g: 255, b: 255, a: 255 }
}

pub fn color_of(root: RootType, mood: Mood) -> (p: Pixel)
    ensures
        p == spec_color_of(root, mood),
{
    match root {
        RootType::Root => Pixel { r: 0, g: 0, b: 0, a: 255 },
        RootType::OutOfDomain => Pixel { r: 255, g: 0, b: 0, a: 255 },
        RootType::NoRoot => match mood {
            Mood::NoData => Pixel { r: 255, g: 255, b: 255, a: 255 },
            Mood::Positive => Pixel { r: 255, g: 255, b: 200, a: 255 },
            Mood::Negative => Pixel { r: 200, g: 255, b: 255, a: 255 },
        },
    }
}

} // verus!
