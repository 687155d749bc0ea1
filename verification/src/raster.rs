//! A fixed-size raster of 24-bit pixel colors, stored row-major, and its
//! plain-text image encoding.
use vstd::prelude::*;

use crate::decimal::dec_digits;
use crate::decimal::decimal;

verus! {

/// The ASCII line-break byte that ends every line of the encoding.
pub const NEWLINE: u8 = 10;

/// The ASCII space byte that separates fields of the encoding.
pub const SPACE: u8 = 32;

/// The fixed first two lines of the encoding: the format tag `P3` and a
/// comment line.
pub open spec fn header_prefix() -> Seq<u8> {
    seq![
        80,
        51,
        NEWLINE,
        35,
        SPACE,
        109,
        97,
        110,
        100,
        101,
        108,
        98,
        114,
        111,
        116,
        NEWLINE,
    ]
}

/// The full header: format tag, comment, `width height`, and the maximum
/// channel value `255`, each on a line of its own.
pub open spec fn header_bytes(width: nat, height: nat) -> Seq<u8> {
    header_prefix() + dec_digits(width) + seq![SPACE] + dec_digits(height) + seq![NEWLINE] + seq![
        50,
        53,
        53,
        NEWLINE,
    ]
}

/// One encoded pixel: `red green blue` and a line break.
pub open spec fn pixel_line(p: (u8, u8, u8)) -> Seq<u8> {
    dec_digits(p.0 as nat) + seq![SPACE] + dec_digits(p.1 as nat) + seq![SPACE] + dec_digits(
        p.2 as nat,
    ) + seq![NEWLINE]
}

/// The encoded pixel lines, one per cell, in storage order.
pub open spec fn pixel_lines(ps: Seq<(u8, u8, u8)>) -> Seq<u8>
    decreases ps.len(),
{
    if ps.len() == 0 {
        Seq::empty()
    } else {
        pixel_lines(ps.drop_last()) + pixel_line(ps.last())
    }
}

/// The whole encoding of a raster: header, then every pixel in storage order.
pub open spec fn encoded(width: nat, height: nat, ps: Seq<(u8, u8, u8)>) -> Seq<u8> {
    header_bytes(width, height) + pixel_lines(ps)
}

/// How many times the byte `b` occurs in `s`.
pub open spec fn count_byte(s: Seq<u8>, b: u8) -> nat
    decreases s.len(),
{
    if s.len() == 0 {
        0
    } else {
        count_byte(s.drop_last(), b) + (if s.last() == b {
            1nat
        } else {
            0nat
        })
    }
}

/// Error signalled by a pixel write whose coordinates lie outside the raster.
#[derive(Clone, Copy, Debug, PartialEq, Eq, Structural)]
pub enum PixelError {
    OutOfBounds,
}

/// A `width x height` grid of `(red, green, blue)` colors, stored as one
/// row-major vector: pixel `(column, row)` lives at index `row * width + column`.
pub struct Image24Bits {
    pixels: Vec<(u8, u8, u8)>,
    width: usize,
    height: usize,
}

impl Image24Bits {
    /// The pixels in storage order.
    pub closed spec fn pixel_seq(&self) -> Seq<(u8, u8, u8)> {
        self.pixels@
    }

    /// The raster's width in pixels.
    pub closed spec fn spec_width(&self) -> nat {
        self.width as nat
    }

    /// The raster's height in pixels.
    pub closed spec fn spec_height(&self) -> nat {
        self.height as nat
    }

    /// The storage holds exactly one color per grid cell.
    pub open spec fn wf(&self) -> bool {
        self.pixel_seq().len() == self.spec_width() * self.spec_height()
    }

    /// Allocates a `width x height` raster with every cell set to `default`.
    pub fn new(width: usize, height: usize, default: (u8, u8, u8)) -> (img: Image24Bits)
        requires
            width * height <= usize::MAX,
        ensures
            img.wf(),
            img.spec_width() == width,
            img.spec_height() == height,
            img.pixel_seq().len() == width * height,
            forall|i: int| 0 <= i < img.pixel_seq().len() ==> img.pixel_seq()[i] == default,
    {
        let n = width * height;
        let mut pixels: Vec<(u8, u8, u8)> = Vec::new();
        let mut i: usize = 0;
        while i < n
            invariant
                i <= n,
                pixels@.len() == i,
                forall|k: int| 0 <= k < i ==> pixels@[k] == default,
            decreases n - i,
        {
            pixels.push(default);
            i += 1;
        }
        Image24Bits { pixels, width, height }
    }

    /// Overwrites the cell at `(column, row)`; every other cell is kept.
    pub fn set_pixel(&mut self, column: usize, row: usize, color: (u8, u8, u8))
        requires
            old(self).wf(),
            column < old(self).spec_width(),
            row < old(self).spec_height(),
        ensures
            final(self).wf(),
            final(self).spec_width() == old(self).spec_width(),
            final(self).spec_height() == old(self).spec_height(),
            final(self).pixel_seq() == old(self).pixel_seq().update(
                row * old(self).spec_width() + column,
                color,
            ),
    {
        let n = self.pixels.len();
        proof {
            let w = self.width as int;
            let h = self.height as int;
            let r = row as int;
            let c = column as int;
            assert(w * r + c < w * h) by (nonlinear_arith)
                requires
                    0 <= c < w,
                    0 <= r < h,
            ;
            assert(w * r + c < n);
        }
        let index = self.width * row + column;
        self.pixels.set(index, color);
    }

    /// Writes the cell at `(column, row)` when both coordinates are in range;
    /// signals an indexing error, and changes nothing, when either is not.
    pub fn try_set_pixel(&mut self, column: usize, row: usize, color: (u8, u8, u8)) -> (r: Result<
        (),
        PixelError,
    >)
        requires
            old(self).wf(),
        ensures
            final(self).wf(),
            final(self).spec_width() == old(self).spec_width(),
            final(self).spec_height() == old(self).spec_height(),
            column < old(self).spec_width() && row < old(self).spec_height() ==> (r == Ok::<
                (),
                PixelError,
            >(()) && final(self).pixel_seq() == old(self).pixel_seq().update(
                row * old(self).spec_width() + column,
                color,
            )),
            !(column < old(self).spec_width() && row < old(self).spec_height()) ==> (r == Err::<
                (),
                PixelError,
            >(PixelError::OutOfBounds) && *final(self) == *old(self)),
    {
        if column < self.width && row < self.height {
            self.set_pixel(column, row, color);
            Ok(())
        } else {
            Err(PixelError::OutOfBounds)
        }
    }

    /// Serializes the raster to its plain-text image form, byte for byte as
    /// `encoded` states: the header, then one line per cell in storage order.
    pub fn encode(&self) -> (out: Vec<u8>)
        ensures
            out@ == encoded(self.spec_width(), self.spec_height(), self.pixel_seq()),
    {
        let mut out: Vec<u8> = Vec::new();
        out.push(80);
        out.push(51);
        out.push(NEWLINE);
        out.push(35);
        out.push(SPACE);
        out.push(109);
        out.push(97);
        out.push(110);
        out.push(100);
        out.push(101);
        out.push(108);
        out.push(98);
        out.push(114);
        out.push(111);
        out.push(116);
        out.push(NEWLINE);
        proof {
            assert(out@ =~= header_prefix());
        }
        let mut wd = decimal(self.width);
        out.append(&mut wd);
        out.push(SPACE);
        let mut hd = decimal(self.height);
        out.append(&mut hd);
        out.push(NEWLINE);
        out.push(50);
        out.push(53);
        out.push(53);
        out.push(NEWLINE);
        proof {
            assert(out@ =~= header_bytes(self.spec_width(), self.spec_height()));
        }
        let npix = self.pixels.len();
        let mut k: usize = 0;
        while k < npix
            invariant
                k <= npix,
                npix == self.pixel_seq().len(),
                out@ == header_bytes(self.spec_width(), self.spec_height()) + pixel_lines(
                    self.pixel_seq().take(k as int),
                ),
            decreases npix - k,
        {
            let p = self.pixels[k];
            let mut rd = decimal(p.0 as usize);
            out.append(&mut rd);
            out.push(SPACE);
            let mut gd = decimal(p.1 as usize);
            out.append(&mut gd);
            out.push(SPACE);
            let mut bd = decimal(p.2 as usize);
            out.append(&mut bd);
            out.push(NEWLINE);
            proof {
                let s = self.pixel_seq();
                assert(s.take(k + 1).drop_last() =~= s.take(k as int));
                assert(s.take(k + 1).last() == s[k as int]);
                assert(out@ =~= header_bytes(self.spec_width(), self.spec_height())
                    + pixel_lines(s.take(k + 1)));
            }
            k += 1;
        }
        proof {
            assert(self.pixel_seq().take(npix as int) =~= self.pixel_seq());
        }
        out
    }
}

proof fn lemma_count_byte_concat(s: Seq<u8>, t: Seq<u8>, b: u8)
    ensures
        count_byte(s + t, b) == count_byte(s, b) + count_byte(t, b),
    decreases t.len(),
{
    if t.len() == 0 {
        assert(s + t =~= s);
    } else {
        lemma_count_byte_concat(s, t.drop_last(), b);
        assert((s + t).drop_last() =~= s + t.drop_last());
        assert((s + t).last() == t.last());
    }
}

proof fn lemma_count_byte_single(x: u8, b: u8)
    ensures
        count_byte(seq![x], b) == (if x == b {
            1nat
        } else {
            0nat
        }),
{
    assert(count_byte(Seq::<u8>::empty(), b) == 0);
    assert(seq![x].drop_last() =~= Seq::<u8>::empty());
    assert(seq![x].last() == x);
}

proof fn lemma_dec_digits_no_newline(n: nat)
    ensures
        count_byte(dec_digits(n), NEWLINE) == 0,
    decreases n,
{
    if n < 10 {
        lemma_count_byte_single((48 + n) as u8, NEWLINE);
    } else {
        lemma_dec_digits_no_newline(n / 10);
        assert(dec_digits(n).drop_last() =~= dec_digits(n / 10));
        assert(dec_digits(n).last() == (48 + n % 10) as u8);
    }
}

proof fn lemma_pixel_line_newlines(p: (u8, u8, u8))
    ensures
        count_byte(pixel_line(p), NEWLINE) == 1,
{
    lemma_dec_digits_no_newline(p.0 as nat);
    lemma_dec_digits_no_newline(p.1 as nat);
    lemma_dec_digits_no_newline(p.2 as nat);
    lemma_count_byte_single(SPACE, NEWLINE);
    lemma_count_byte_single(NEWLINE, NEWLINE);
    let a = dec_digits(p.0 as nat);
    let g = dec_digits(p.1 as nat);
    let c = dec_digits(p.2 as nat);
    lemma_count_byte_concat(a, seq![SPACE], NEWLINE);
    lemma_count_byte_concat(a + seq![SPACE], g, NEWLINE);
    lemma_count_byte_concat(a + seq![SPACE] + g, seq![SPACE], NEWLINE);
    lemma_count_byte_concat(a + seq![SPACE] + g + seq![SPACE], c, NEWLINE);
    lemma_count_byte_concat(a + seq![SPACE] + g + seq![SPACE] + c, seq![NEWLINE], NEWLINE);
}

proof fn lemma_pixel_lines_newlines(ps: Seq<(u8, u8, u8)>)
    ensures
        count_byte(pixel_lines(ps), NEWLINE) == ps.len(),
    decreases ps.len(),
{
    if ps.len() > 0 {
        lemma_pixel_lines_newlines(ps.drop_last());
        lemma_pixel_line_newlines(ps.last());
        lemma_count_byte_concat(pixel_lines(ps.drop_last()), pixel_line(ps.last()), NEWLINE);
    }
}

#[verifier::rlimit(50)]
proof fn lemma_header_prefix_newlines()
    ensures
        count_byte(header_prefix(), NEWLINE) == 2,
{
    reveal_with_fuel(count_byte, 20);
}

proof fn lemma_header_newlines(width: nat, height: nat)
    ensures
        count_byte(header_bytes(width, height), NEWLINE) == 4,
{
    lemma_header_prefix_newlines();
    lemma_dec_digits_no_newline(width);
    lemma_dec_digits_no_newline(height);
    lemma_count_byte_single(SPACE, NEWLINE);
    lemma_count_byte_single(NEWLINE, NEWLINE);
    let wd = dec_digits(width);
    let hd = dec_digits(height);
    lemma_count_byte_concat(header_prefix(), wd, NEWLINE);
    lemma_count_byte_concat(header_prefix() + wd, seq![SPACE], NEWLINE);
    lemma_count_byte_concat(header_prefix() + wd + seq![SPACE], hd, NEWLINE);
    lemma_count_byte_concat(header_prefix() + wd + seq![SPACE] + hd, seq![NEWLINE], NEWLINE);
    assert(count_byte(seq![50, 53, 53, NEWLINE], NEWLINE) == 1) by {
        reveal_with_fuel(count_byte, 6);
    }
    lemma_count_byte_concat(
        header_prefix() + wd + seq![SPACE] + hd + seq![NEWLINE],
        seq![50, 53, 53, NEWLINE],
        NEWLINE,
    );
}

/// Law: the encoding of a raster breaks into exactly four header lines and
/// one line per pixel, so its line-break count is `4 + ps.len()`.
pub proof fn lemma_encoded_line_count(width: nat, height: nat, ps: Seq<(u8, u8, u8)>)
    ensures
        count_byte(encoded(width, height, ps), NEWLINE) == (4 + ps.len()) as nat,
{
    lemma_header_newlines(width, height);
    lemma_pixel_lines_newlines(ps);
    lemma_count_byte_concat(header_bytes(width, height), pixel_lines(ps), NEWLINE);
}

} // verus!
