//! The region colorizer: renders every label as a palette entry.

use crate::color::Rgb;
use vstd::prelude::*;

verus! {

/// The rendered grid: pixel `i` shows palette entry
/// `labels[i] mod palette.len()`.
pub open spec fn colorized(labels: Seq<u32>, palette: Seq<Rgb>) -> Seq<Rgb> {
    Seq::new(labels.len(), |i: int| palette[(labels[i] as int) % (palette.len() as int)])
}

/// Maps every label to its palette colour, wrapping around when the label
/// exceeds the palette size.
pub fn colorize(labels: &Vec<u32>, palette: &Vec<Rgb>) -> (out: Vec<Rgb>)
    requires
        palette@.len() > 0,
    ensures
        out@.len() == labels@.len(),
        out@ == colorized(labels@, palette@),
        forall|i: int|
            0 <= i < labels@.len() ==> #[trigger] out@[i] == palette@[(labels@[i] as int) % (
            palette@.len() as int)],
{
    let mut out: Vec<Rgb> = Vec::new();
    let mut i: usize = 0;
    while i < labels.len()
        invariant
            i <= labels@.len(),
            out@.len() == i,
            palette@.len() > 0,
            forall|k: int|
                0 <= k < i ==> #[trigger] out@[k] == palette@[(labels@[k] as int) % (palette@.len()
                    as int)],
        decreases labels@.len() - i,
    {
        let idx: usize = (labels[i] as usize) % palette.len();
        out.push(palette[idx]);
        i += 1;
    }
    proof {
        assert(out@ =~= colorized(labels@, palette@));
    }
    out
}

/// Rendering the same label array with the same palette a second time gives
/// the same grid: the output is a function of the labels and the palette
/// alone.
pub proof fn lemma_colorize_idempotent(
    labels: Seq<u32>,
    palette: Seq<Rgb>,
    out1: Seq<Rgb>,
    out2: Seq<Rgb>,
)
    requires
        out1 == colorized(labels, palette),
        out2 == colorized(labels, palette),
    ensures
        out1 == out2,
{
}

/// The sixteen display colours, in order.
pub open spec fn palette_spec() -> Seq<Rgb> {
    seq![
        Rgb { r: 0, g: 0, b: 0 },
        Rgb { r: 255, g: 255, b: 255 },
        Rgb { r: 255, g: 0, b: 0 },
        Rgb { r: 0, g: 255, b: 0 },
        Rgb { r: 0, g: 0, b: 255 },
        Rgb { r: 0, g: 255, b: 255 },
        Rgb { r: 255, g: 0, b: 255 },
        Rgb { r: 192, g: 192, b: 192 },
        Rgb { r: 128, g: 128, b: 128 },
        Rgb { r: 128, g: 0, b: 0 },
        Rgb { r: 128, g: 128, b: 0 },
        Rgb { r: 0, g: 128, b: 0 },
        Rgb { r: 128, g: 0, b: 128 },
        Rgb { r: 255, g: 228, b: 225 },
        Rgb { r: 188, g: 143, b: 143 },
        Rgb { r: 210, g: 105, b: 30 },
    ]
}

/// Builds the fixed sixteen-colour palette.
pub fn default_palette() -> (palette: Vec<Rgb>)
    ensures
        palette@ == palette_spec(),
        palette@.len() == 16,
{
    let mut v: Vec<Rgb> = Vec::new();
    v.push(Rgb { r: 0, g: 0, b: 0 });
    v.push(Rgb { r: 255, g: 255, b: 255 });
    v.push(Rgb { r: 255, g: 0, b: 0 });
    v.push(Rgb { r: 0, g: 255, b: 0 });
    v.push(Rgb { r: 0, g: 0, b: 255 });
    v.push(Rgb { r: 0, g: 255, b: 255 });
    v.push(Rgb { r: 255, g: 0, b: 255 });
    v.push(Rgb { r: 192, g: 192, b: 192 });
    v.push(Rgb { r: 128, g: 128, b: 128 });
    v.push(Rgb { r: 128, g: 0, b: 0 });
    v.push(Rgb { r: 128, g: 128, b: 0 });
    v.push(Rgb { r: 0, g: 128, b: 0 });
    v.push(Rgb { r: 128, g: 0, b: 128 });
    v.push(Rgb { r: 255, g: 228, b: 225 });
    v.push(Rgb { r: 188, g: 143, b: 143 });
    v.push(Rgb { r: 210, g: 105, b: 30 });
    proof {
        assert(v@ =~= palette_spec());
    }
    v
}

} // verus!
