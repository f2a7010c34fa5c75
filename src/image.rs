//! The final image as plain-text PPM: a `P3` header, the width and height, the
//! maximum value 255, then one `r g b` line per pixel, top row first.
use vstd::prelude::*;
use crate::numeral::{decimal, push_decimal};

verus! {

/// A pixel with 8 bits per channel.
#[derive(Clone, Copy, Debug, PartialEq, Eq, Structural)]
pub struct Rgb8 {
    pub r: u8,
    pub g: u8,
    pub b: u8,
}

/// A finished image, row-major, top row first.
pub struct Image {
    pub width: usize,
    pub height: usize,
    pub data: Vec<Rgb8>,
}

/// The line of one pixel: its three channels in decimal, separated by spaces.
pub open spec fn pixel_text(p: Rgb8) -> Seq<char> {
    decimal(p.r as nat) + seq![' '] + decimal(p.g as nat) + seq![' '] + decimal(p.b as nat) + seq![
        '\n',
    ]
}

/// The lines of the pixels of `ps`, in order.
pub open spec fn pixels_text(ps: Seq<Rgb8>) -> Seq<char>
    decreases ps.len(),
{
    if ps.len() == 0 {
        Seq::empty()
    } else {
        pixels_text(ps.drop_last()) + pixel_text(ps.last())
    }
}

/// The header: `P3`, the width and height, and the maximum channel value.
pub open spec fn ppm_header(width: nat, height: nat) -> Seq<char> {
    seq!['P', '3', '\n'] + decimal(width) + seq![' '] + decimal(height) + seq!['\n', '2', '5', '5', '\n']
}

/// The whole file for an image of `width` by `height` pixels.
pub open spec fn ppm_text(width: nat, height: nat, ps: Seq<Rgb8>) -> Seq<char> {
    ppm_header(width, height) + pixels_text(ps.take((width * height) as int))
}

/// Appends the line of pixel `p` to `s`.
fn push_pixel(s: &mut String, p: Rgb8)
    ensures
        final(s)@ == old(s)@ + pixel_text(p),
{
    proof {
        reveal_strlit(" ");
        reveal_strlit("\n");
    }
    let ghost start = s@;
    push_decimal(s, p.r as usize);
    s.append(" ");
    push_decimal(s, p.g as usize);
    s.append(" ");
    push_decimal(s, p.b as usize);
    s.append("\n");
    assert(s@ =~= start + pixel_text(p));
}

impl Image {
    /// The image as plain-text PPM. Only the first `width * height` pixels are
    /// written.
    pub fn render(&self) -> (r: String)
        requires
            self.data@.len() >= self.width * self.height,
        ensures
            r@ == ppm_text(self.width as nat, self.height as nat, self.data@),
    {
        proof {
            reveal_strlit("P3\n");
            reveal_strlit(" ");
            reveal_strlit("\n255\n");
        }
        let len = self.data.len();
        let mut s = String::new();
        s.append("P3\n");
        push_decimal(&mut s, self.width);
        s.append(" ");
        push_decimal(&mut s, self.height);
        s.append("\n255\n");
        let ghost header = s@;
        assert(header =~= ppm_header(self.width as nat, self.height as nat));
        let mut y: usize = 0;
        while y < self.height
            invariant
                y <= self.height,
                self.data@.len() >= self.width * self.height,
                self.data@.len() == len,
                s@ == header + pixels_text(self.data@.take((self.width * y) as int)),
            decreases self.height - y,
        {
            assert(self.width * y + self.width <= self.width * self.height) by (nonlinear_arith)
                requires
                    y < self.height,
            ;
            let offset: usize = self.width * y;
            let mut x: usize = 0;
            while x < self.width
                invariant
                    x <= self.width,
                    y < self.height,
                    offset == self.width * y,
                    offset + self.width <= self.data@.len(),
                    self.data@.len() == len,
                    s@ == header + pixels_text(self.data@.take(offset + x)),
                decreases self.width - x,
            {
                let p = self.data[offset + x];
                push_pixel(&mut s, p);
                proof {
                    let t = self.data@.take(offset + x + 1);
                    assert(t.drop_last() =~= self.data@.take(offset + x));
                    assert(t.last() == p);
                    assert(s@ =~= header + pixels_text(t));
                }
                x = x + 1;
            }
            assert(offset + self.width == self.width * (y + 1)) by (nonlinear_arith)
                requires
                    offset == self.width * y,
            ;
            y = y + 1;
        }
        s
    }
}

} // verus!
