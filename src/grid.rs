//! The carrier: an RGB pixel grid held as its channel bytes in row-major order.
use vstd::prelude::*;

verus! {

/// Why an encode or decode call failed.
#[derive(Clone, Copy, Debug, PartialEq, Eq, Structural)]
pub enum StegoError {
    /// The number of bits per channel is outside `1..=8`.
    InvalidParameter,
    /// The payload and its end marker do not fit into the grid's channels.
    PayloadTooLarge,
    /// The grid holds no end marker at this bit width, or what it holds is not UTF-8.
    BitWidthMismatch,
}

/// A `width` x `height` grid of pixels, each three 8-bit channels (R, G, B),
/// stored as one byte per channel, pixel after pixel in row-major order.
pub struct PixelGrid {
    width: u32,
    height: u32,
    channels: Vec<u8>,
}

impl View for PixelGrid {
    type V = Seq<u8>;

    /// The channel bytes, in walking order.
    closed spec fn view(&self) -> Seq<u8> {
        self.channels@
    }
}

impl PixelGrid {
    pub closed spec fn spec_width(&self) -> nat {
        self.width as nat
    }

    pub closed spec fn spec_height(&self) -> nat {
        self.height as nat
    }

    /// Three channels for each of the `width * height` pixels.
    pub open spec fn wf(&self) -> bool {
        self@.len() == 3 * (self.spec_width() * self.spec_height())
    }

    /// A grid over `channels`, or `None` where their number is not three per pixel.
    pub fn new(width: u32, height: u32, channels: Vec<u8>) -> (r: Option<PixelGrid>)
        ensures
            r is Some <==> channels@.len() == 3 * (width * height),
            r matches Some(g) ==> g.wf() && g@ == channels@ && g.spec_width() == width
                && g.spec_height() == height,
    {
        let n = channels.len();
        assert((width as u64) * (height as u64) <= 0xffff_ffffu64 * 0xffff_ffffu64) by (nonlinear_arith)
            requires
                width <= 0xffff_ffffu32,
                height <= 0xffff_ffffu32,
        ;
        let pixels: u64 = (width as u64) * (height as u64);
        if n % 3 != 0 || (n / 3) as u64 != pixels {
            None
        } else {
            Some(PixelGrid { width, height, channels })
        }
    }

    pub fn width(&self) -> (r: u32)
        ensures
            r == self.spec_width(),
    {
        self.width
    }

    pub fn height(&self) -> (r: u32)
        ensures
            r == self.spec_height(),
    {
        self.height
    }

    /// The number of pixels, `width * height`.
    pub fn pixel_count(&self) -> (r: usize)
        requires
            self.wf(),
        ensures
            r == self.spec_width() * self.spec_height(),
    {
        let n = self.channels.len();
        n / 3
    }

    /// The channel bytes, in walking order.
    pub fn channels(&self) -> (r: &Vec<u8>)
        ensures
            r@ == self@,
    {
        &self.channels
    }

    pub fn into_channels(self) -> (r: Vec<u8>)
        ensures
            r@ == self@,
    {
        self.channels
    }

    /// Overwrites channel `i`, keeping the grid's shape.
    pub(crate) fn set_channel(&mut self, i: usize, v: u8)
        requires
            i < old(self)@.len(),
        ensures
            final(self)@ == old(self)@.update(i as int, v),
            final(self).spec_width() == old(self).spec_width(),
            final(self).spec_height() == old(self).spec_height(),
    {
        self.channels.set(i, v);
    }
}

} // verus!
