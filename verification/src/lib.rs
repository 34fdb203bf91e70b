//! Enumeration of the distinct connected glyphs that can be drawn from a
//! palette of strokes on a symmetric grid, one per symmetry class.
//!
//! A [`parameters::Parameters`] holds the catalog: the strokes, which of them
//! touch, and where each symmetry of the grid moves each stroke. A
//! [`generate::GlyphGenerator`] is a catalog that has been checked. Sets of
//! strokes are [`glyph::InternalGlyph`]s: lists of catalog positions with a
//! bit mask as identifier.

#![allow(unused_imports)]

use vstd::prelude::*;

pub mod bits;
pub mod connected;
pub mod generate;
pub mod glyph;
pub mod intersect;
pub mod parameters;
pub mod stroke;
pub mod symmetry;

use crate::generate::{GlyphGenerator, LookupError};
use crate::glyph::Glyph;
use crate::stroke::Stroke;

verus! {

/// A request: the palette of strokes, the first of which is the seed.
pub struct Computable {
    pub strokes: Vec<Stroke>,
}

/// The glyphs that the palette of a request generates around its first stroke.
pub fn compute(generator: &GlyphGenerator, computable: &Computable) -> (r: Result<
    Vec<Glyph>,
    LookupError,
>)
    requires
        generator.wf(),
        computable.strokes.len() > 0,
    ensures
        r is Ok <==> generator.knows_all(computable.strokes@),
        r matches Ok(glyphs) ==> generator.generates(
            computable.strokes@,
            computable.strokes@[0],
            glyphs@,
        ),
{
    assert(computable.strokes@.contains(computable.strokes@[0]));
    generator.generate(&computable.strokes, &computable.strokes[0])
}

} // verus!
