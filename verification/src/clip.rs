//! Clipping to the display.

use vstd::prelude::*;
use rayon::iter::{IntoParallelRefIterator, ParallelIterator};
use crate::seqs::lemma_filter_all;
use crate::Pixel;

verus! {

/// Whether `p` lies on a display `width` pixels wide and `height` pixels
/// high: `0 <= x < width` and `0 <= y < height`.
pub open spec fn on_display(p: Pixel, width: int, height: int) -> bool {
    &&& 0 <= p.x < width
    &&& 0 <= p.y < height
}

/// The pixels of `s` that lie on the display, in their order in `s`.
pub open spec fn clipped(s: Seq<Pixel>, width: int, height: int) -> Seq<Pixel> {
    s.filter(|p: Pixel| on_display(p, width, height))
}

impl Pixel {
    /// Tells whether the pixel lies on a display of the given size. A pixel
    /// with a negative coordinate never does.
    pub fn is_visible(&self, width: usize, height: usize) -> (visible: bool)
        ensures
            visible == on_display(*self, width as int, height as int),
    {
        self.x >= 0 && (self.x as usize) < width && self.y >= 0 && (self.y as usize) < height
    }
}

/// Filters `pixels` on `rayon`'s worker threads: `par_iter` on the vector,
/// `ParallelIterator::filter` with `Pixel::is_visible`, `copied`, and
/// `collect` into a vector.
///
/// Taken on trust from `rayon`: the result holds the pixels for which
/// `Pixel::is_visible` answered `true`, each as often as it occurs in
/// `pixels`, in the order of `pixels`.
#[verifier::external_body]
pub(crate) fn par_clip(pixels: &Vec<Pixel>, width: usize, height: usize) -> (kept: Vec<Pixel>)
    ensures
        kept@ == clipped(pixels@, width as int, height as int),
{
    pixels.par_iter().filter(|p| p.is_visible(width, height)).copied().collect()
}

/// Keeps the pixels that lie on a display `width` pixels wide and `height`
/// pixels high.
pub fn clip(pixels: &Vec<Pixel>, width: usize, height: usize) -> (kept: Vec<Pixel>)
    ensures
        kept@ == clipped(pixels@, width as int, height as int),
        forall|i: int|
            0 <= i < kept@.len() ==> on_display(#[trigger] kept@[i], width as int, height as int),
        clipped(kept@, width as int, height as int) == kept@,
{
    let kept = par_clip(pixels, width, height);
    proof {
        lemma_clipped_on_display(pixels@, width as int, height as int);
        lemma_clip_idempotent(pixels@, width as int, height as int);
    }
    kept
}

/// After clipping, every pixel lies on the display.
pub proof fn lemma_clipped_on_display(s: Seq<Pixel>, width: int, height: int)
    ensures
        forall|i: int|
            0 <= i < clipped(s, width, height).len() ==> on_display(
                #[trigger] clipped(s, width, height)[i],
                width,
                height,
            ),
{
    let pred = |p: Pixel| on_display(p, width, height);
    assert forall|i: int| 0 <= i < clipped(s, width, height).len() implies on_display(
        #[trigger] clipped(s, width, height)[i],
        width,
        height,
    ) by {
        s.lemma_filter_pred(pred, i);
    }
}

/// Clipping is idempotent: clipping what has been clipped to the same
/// display changes nothing.
pub proof fn lemma_clip_idempotent(s: Seq<Pixel>, width: int, height: int)
    ensures
        clipped(clipped(s, width, height), width, height) == clipped(s, width, height),
{
    lemma_clipped_on_display(s, width, height);
    lemma_filter_all(clipped(s, width, height), |p: Pixel| on_display(p, width, height));
}

/// Clipping keeps exactly the pixels of `s` that lie on the display.
pub proof fn lemma_clipped_contains(s: Seq<Pixel>, width: int, height: int, p: Pixel)
    ensures
        clipped(s, width, height).contains(p) <==> s.contains(p) && on_display(p, width, height),
{
    let pred = |p: Pixel| on_display(p, width, height);
    if s.contains(p) && on_display(p, width, height) {
        let i = choose|i: int| 0 <= i < s.len() && s[i] == p;
        s.lemma_filter_contains(pred, i);
    }
    if clipped(s, width, height).contains(p) {
        s.lemma_filter_contains_rev(pred, p);
    }
}

} // verus!
