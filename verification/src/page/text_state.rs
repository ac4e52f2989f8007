use vstd::prelude::*;

verus! {

/// How the glyphs of a text are painted.
#[derive(Debug, Clone, Copy, PartialEq, Eq, Structural)]
pub enum TextRenderingMode {
    Fill,
    Stroke,
    FillStroke,
    INVisible,
    FillClip,
    StrokeClip,
    FillStrokeClip,
    Clip,
}

impl Default for TextRenderingMode {
    fn default() -> (r: TextRenderingMode)
        ensures
            r == TextRenderingMode::Fill,
    {
        TextRenderingMode::Fill
    }
}

} // verus!
