//! The grid as a grey-scale image of the `image` crate, ready to be encoded.
//!
//! The image is filled pixel by pixel, and what each call of the `image`
//! crate does to it is stated over two names: the image's size and its
//! samples. Those statements are taken from the crate's source, not proved.
use vstd::prelude::*;
use crate::raster::PixelGrid;
use crate::raster::is_square;

verus! {

/// An `image::GrayImage`: one 8-bit sample for each pixel. Nothing inside it
/// is visible to the verifier; what the contracts say of a picture, they say
/// over [`picture_size`] and [`picture_samples`].
#[verifier::external_body]
pub struct Picture {
    inner: image::GrayImage,
}

/// The width and the height of a picture, in pixels.
pub uninterp spec fn picture_size(picture: Picture) -> (nat, nat);

/// The buffer of a picture: its samples row after row from the top, each row
/// from its left end on.
pub uninterp spec fn picture_samples(picture: Picture) -> Seq<u8>;

/// The place of the pixel `(x, y)` in the buffer of a picture `width` wide.
pub open spec fn sample_index(width: int, x: int, y: int) -> int {
    y * width + x
}

/// `image::ImageBuffer::new`: an image of the given width and height whose
/// buffer holds one sample for each pixel, every one of them zero. The
/// number of pixels may not be more than a vector can hold.
#[verifier::external_body]
fn blank(width: u32, height: u32) -> (picture: Picture)
    requires
        width * height <= isize::MAX,
    ensures
        picture_size(picture) == (width as nat, height as nat),
        picture_samples(picture) == Seq::new((width * height) as nat, |i: int| 0u8),
{
    Picture { inner: image::ImageBuffer::new(width, height) }
}

/// `image::ImageBuffer::put_pixel`: sets the sample of the pixel `(x, y)`,
/// which has to lie within the image, and leaves the size and every other
/// sample as they were.
#[verifier::external_body]
fn put(picture: &mut Picture, x: u32, y: u32, value: u8)
    requires
        x < picture_size(*old(picture)).0,
        y < picture_size(*old(picture)).1,
        picture_size(*old(picture)).0 * picture_size(*old(picture)).1 <= picture_samples(
            *old(picture),
        ).len(),
    ensures
        picture_size(*final(picture)) == picture_size(*old(picture)),
        picture_samples(*final(picture)) == picture_samples(*old(picture)).update(
            sample_index(picture_size(*old(picture)).0 as int, x as int, y as int),
            value,
        ),
{
    picture.inner.put_pixel(x, y, image::Luma([value]))
}

/// `image::ImageBuffer::into_raw`: the buffer of the image, as it is.
#[verifier::external_body]
fn raw(picture: Picture) -> (samples: Vec<u8>)
    ensures
        samples@ == picture_samples(picture),
{
    picture.inner.into_raw()
}

/// The pixels of a raster of side `side` have places of their own in its
/// buffer, in the order of their rows and, within a row, of their columns.
pub proof fn lemma_sample_index(side: int, x: int, y: int)
    requires
        0 <= x < side,
        0 <= y < side,
    ensures
        0 <= sample_index(side, x, y) < side * side,
        sample_index(side, x, y) / side == y,
        sample_index(side, x, y) % side == x,
{
    assert(0 <= y * side + x < side * side) by (nonlinear_arith)
        requires
            0 <= x < side,
            0 <= y < side,
    ;
    vstd::arithmetic::div_mod::lemma_fundamental_div_mod_converse(y * side + x, side, y, x);
}

/// Whether `samples` is the buffer of `grid`: one sample for each pixel, that
/// of `(x, y)` at its place.
pub open spec fn holds_grid(samples: Seq<u8>, grid: Seq<Seq<u8>>) -> bool {
    &&& samples.len() == grid.len() * grid.len()
    &&& forall|x: int, y: int|
        0 <= x < grid.len() && 0 <= y < grid.len() ==> samples[#[trigger] sample_index(
            grid.len() as int,
            x,
            y,
        )] == grid[y][x]
}

impl Picture {
    /// Gives up the picture for its buffer.
    pub fn into_raw(self) -> (samples: Vec<u8>)
        ensures
            samples@ == picture_samples(self),
    {
        raw(self)
    }
}

impl PixelGrid {
    /// The grid as a picture of the same side: the sample of each pixel
    /// `(x, y)` is the grid's byte of `(x, y)`. The number of pixels may not
    /// be more than a vector can hold.
    pub fn to_image(&self) -> (picture: Picture)
        requires
            self@.len() * self@.len() <= isize::MAX,
        ensures
            picture_size(picture) == (self@.len(), self@.len()),
            holds_grid(picture_samples(picture), self@),
    {
        let side: u32 = self.side();
        let ghost n = side as int;
        let mut picture = blank(side, side);
        let mut y: u32 = 0;
        while y < side
            invariant
                n == side == self@.len(),
                is_square(self@),
                y <= side,
                picture_size(picture) == (side as nat, side as nat),
                picture_samples(picture).len() == n * n,
                forall|i: int, j: int|
                    0 <= i < n && 0 <= j < y ==> picture_samples(picture)[#[trigger] sample_index(
                        n,
                        i,
                        j,
                    )] == self@[j][i],
            decreases side - y,
        {
            let mut x: u32 = 0;
            while x < side
                invariant
                    n == side == self@.len(),
                    is_square(self@),
                    y < side,
                    x <= side,
                    picture_size(picture) == (side as nat, side as nat),
                    picture_samples(picture).len() == n * n,
                    forall|i: int, j: int|
                        0 <= i < n && 0 <= j < y ==> picture_samples(
                            picture,
                        )[#[trigger] sample_index(n, i, j)] == self@[j][i],
                    forall|i: int|
                        0 <= i < x ==> picture_samples(picture)[#[trigger] sample_index(
                            n,
                            i,
                            y as int,
                        )] == self@[y as int][i],
                decreases side - x,
            {
                let byte: u8 = self.get(x, y);
                let ghost before = picture_samples(picture);
                put(&mut picture, x, y, byte);
                proof {
                    let at = sample_index(n, x as int, y as int);
                    lemma_sample_index(n, x as int, y as int);
                    assert forall|i: int, j: int| 0 <= i < n && 0 <= j < y implies picture_samples(
                        picture,
                    )[#[trigger] sample_index(n, i, j)] == self@[j][i] by {
                        lemma_sample_index(n, i, j);
                        assert(before[sample_index(n, i, j)] == self@[j][i]);
                    }
                    assert forall|i: int| 0 <= i < x + 1 implies picture_samples(
                        picture,
                    )[#[trigger] sample_index(n, i, y as int)] == self@[y as int][i] by {
                        lemma_sample_index(n, i, y as int);
                        if i < x {
                            assert(before[sample_index(n, i, y as int)] == self@[y as int][i]);
                        }
                    }
                }
                x += 1;
            }
            y += 1;
        }
        picture
    }
}

} // verus!
