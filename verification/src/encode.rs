//! Serialization of the canvas into the terminal's inline-image
//! escape sequence.
//!
//! The canvas is first dumped into a minimal binary raster container:
//! the ASCII header `P6\n<width> <height>\n255\n` followed by one
//! R,G,B byte triple per pixel in row-major order.  That buffer is
//! base64-encoded and wrapped into the control sequence a compatible
//! terminal renders as an inline image: an escape introducer, the tag
//! `]1337;File=inline=1`, an optional `;width=<scale>%` display hint,
//! a colon, the base64 payload, and a terminating bell character.

use vstd::prelude::*;
use base64::prelude::BASE64_STANDARD;
use base64::prelude::Engine;
use crate::canvas::Pict;

verus! {

/// The shortest decimal digit string for `n`: most significant digit
/// first, a single `0` for zero, no leading zeros otherwise.
pub open spec fn dec_rep(n: nat) -> Seq<u8>
    decreases n,
{
    if n < 10 {
        seq![(48 + n) as u8]
    } else {
        dec_rep(n / 10).push((48 + n % 10) as u8)
    }
}

/// Appends the decimal digits of `n` to `out`.
fn push_decimal(out: &mut Vec<u8>, n: usize)
    ensures
        final(out)@ == old(out)@ + dec_rep(n as nat),
    decreases n,
{
    if n < 10 {
        out.push(48 + (n as u8));
        proof {
            assert(out@ =~= old(out)@ + dec_rep(n as nat));
        }
    } else {
        assert(n / 10 < n);
        push_decimal(out, n / 10);
        out.push(48 + ((n % 10) as u8));
        proof {
            assert(out@ =~= old(out)@ + dec_rep(n as nat));
        }
    }
}

/// The three payload bytes of one packed pixel value: red (bits
/// 16-23), green (bits 8-15) and blue (bits 0-7); bits above bit 23
/// are discarded.
pub open spec fn pixel_bytes(c: u32) -> Seq<u8> {
    seq![(c >> 16) as u8, (c >> 8) as u8, c as u8]
}

/// The raw pixel payload: the byte triples of `pix` in order.
pub open spec fn payload_bytes(pix: Seq<u32>) -> Seq<u8>
    decreases pix.len(),
{
    if pix.len() == 0 {
        Seq::empty()
    } else {
        payload_bytes(pix.drop_last()) + pixel_bytes(pix.last())
    }
}

/// The ASCII container header `P6\n<w> <h>\n255\n`.
pub open spec fn header_bytes(w: int, h: int) -> Seq<u8> {
    seq![80u8, 54u8, 10u8] + dec_rep(w as nat) + seq![32u8] + dec_rep(h as nat) + seq![
        10u8,
        50u8,
        53u8,
        53u8,
        10u8,
    ]
}

/// The whole binary container: header, then payload.
pub open spec fn image_bytes(w: int, h: int, pix: Seq<u32>) -> Seq<u8> {
    header_bytes(w, h) + payload_bytes(pix)
}

/// The payload carries exactly three bytes per pixel.
pub proof fn lemma_payload_bytes_len(pix: Seq<u32>)
    ensures
        payload_bytes(pix).len() == 3 * pix.len(),
    decreases pix.len(),
{
    if pix.len() > 0 {
        lemma_payload_bytes_len(pix.drop_last());
    }
}

/// The container is the header followed by exactly `3 * w * h` payload
/// bytes: its length is the header's length plus three bytes per cell
/// of a dense `w` by `h` pixel store.
pub proof fn lemma_image_bytes_len(w: int, h: int, pix: Seq<u32>)
    requires
        pix.len() == w * h,
    ensures
        image_bytes(w, h, pix).len() == header_bytes(w, h).len() + 3 * w * h,
{
    lemma_payload_bytes_len(pix);
    assert(3 * pix.len() == 3 * w * h) by (nonlinear_arith)
        requires
            pix.len() == w * h,
    ;
}

/// Appending one more pixel to the payload appends its three bytes.
proof fn lemma_payload_bytes_snoc(pix: Seq<u32>, i: int)
    requires
        0 <= i < pix.len(),
    ensures
        payload_bytes(pix.take(i + 1)) == payload_bytes(pix.take(i)) + pixel_bytes(pix[i]),
{
    assert(pix.take(i + 1).len() == i + 1);
    assert(pix.take(i + 1).drop_last() =~= pix.take(i));
    assert(pix.take(i + 1).last() == pix[i]);
}

/// What the base64 step returns for a given byte sequence: the
/// standard alphabet with padding, a pure function of the bytes.
pub uninterp spec fn base64_of(bytes: Seq<u8>) -> Seq<u8>;

/// Relies on base64's `BASE64_STANDARD` engine (standard alphabet,
/// with padding): encoding is a pure function of the input bytes, and
/// the encoded form is four bytes for every three-byte block of
/// input, the last block padded.  The engine fails only when that
/// output length cannot be represented in `usize`, which the
/// precondition rules out.
#[verifier::external_body]
fn base64_encode(bytes: &Vec<u8>) -> (r: Vec<u8>)
    requires
        4 * ((bytes@.len() + 2) / 3) <= usize::MAX,
    ensures
        r@ == base64_of(bytes@),
        r@.len() == 4 * ((bytes@.len() + 2) / 3),
{
    BASE64_STANDARD.encode(bytes.as_slice()).into_bytes()
}

/// The escape introducer and tag that open the control sequence:
/// ESC `]1337;File=inline=1`.
pub open spec fn intro_bytes() -> Seq<u8> {
    seq![
        27u8,
        93u8,
        49u8,
        51u8,
        51u8,
        55u8,
        59u8,
        70u8,
        105u8,
        108u8,
        101u8,
        61u8,
        105u8,
        110u8,
        108u8,
        105u8,
        110u8,
        101u8,
        61u8,
        49u8,
    ]
}

/// The optional display-width hint: `;width=<f>%` when a scale is
/// given, nothing otherwise.
pub open spec fn scale_suffix(scale: Option<usize>) -> Seq<u8> {
    match scale {
        Option::None => Seq::empty(),
        Option::Some(f) => seq![59u8, 119u8, 105u8, 100u8, 116u8, 104u8, 61u8] + dec_rep(f as nat)
            + seq![37u8],
    }
}

/// The complete control sequence for a `w` by `h` canvas with pixel
/// store `pix`: introducer and tag, optional width hint, a colon, the
/// base64-encoded container, and a bell.
pub open spec fn dump_bytes(w: int, h: int, pix: Seq<u32>, scale: Option<usize>) -> Seq<u8> {
    intro_bytes() + scale_suffix(scale) + seq![58u8] + base64_of(image_bytes(w, h, pix))
        + seq![7u8]
}

/// The control sequence is a function of the canvas contents and the
/// scale hint alone: canvases with equal dimensions and equal pixel
/// stores produce byte-identical output, whichever hint is passed.
pub proof fn lemma_dump_deterministic(a: &Pict, b: &Pict, scale: Option<usize>)
    requires
        a.width == b.width,
        a.height == b.height,
        a.pixel@ == b.pixel@,
    ensures
        dump_bytes(a.width as int, a.height as int, a.pixel@, scale) == dump_bytes(
            b.width as int,
            b.height as int,
            b.pixel@,
            scale,
        ),
{
}

impl Pict {
    /// Serializes the canvas into its binary container: the ASCII
    /// header, then one R,G,B triple per pixel in row-major order.
    pub fn image_buffer(&self) -> (r: Vec<u8>)
        requires
            self.wf(),
        ensures
            r@ == image_bytes(self.width as int, self.height as int, self.pixel@),
    {
        let ghost w = self.width as int;
        let ghost h = self.height as int;
        let mut buf: Vec<u8> = Vec::new();
        buf.push(80);
        buf.push(54);
        buf.push(10);
        proof {
            assert(buf@ =~= seq![80u8, 54u8, 10u8]);
        }
        push_decimal(&mut buf, self.width as usize);
        buf.push(32);
        push_decimal(&mut buf, self.height as usize);
        buf.push(10);
        buf.push(50);
        buf.push(53);
        buf.push(53);
        buf.push(10);
        proof {
            assert(buf@ =~= header_bytes(w, h));
        }
        let ghost header = buf@;
        let n: usize = self.pixel.len();
        let mut idx: usize = 0;
        proof {
            assert(self.pixel@.take(0) =~= Seq::<u32>::empty());
        }
        while idx < n
            invariant
                0 <= idx <= n,
                n == self.pixel@.len(),
                buf@ == header + payload_bytes(self.pixel@.take(idx as int)),
            decreases n - idx,
        {
            let c: u32 = self.pixel[idx];
            let red: u8 = #[verifier::truncate] ((c >> 16) as u8);
            let green: u8 = #[verifier::truncate] ((c >> 8) as u8);
            let blue: u8 = #[verifier::truncate] (c as u8);
            buf.push(red);
            buf.push(green);
            buf.push(blue);
            proof {
                lemma_payload_bytes_snoc(self.pixel@, idx as int);
                assert(buf@ =~= header + payload_bytes(self.pixel@.take(idx as int + 1)));
            }
            idx = idx + 1;
        }
        proof {
            assert(self.pixel@.take(n as int) =~= self.pixel@);
        }
        buf
    }

    /// Produces the one line written to the terminal to display the
    /// canvas inline, with an optional scaling of the terminal width:
    /// a scale of `Some(100)` asks the terminal to stretch the
    /// picture to its full width.
    ///
    /// The returned bytes are the complete control sequence except
    /// for the trailing newline the line-printing caller adds.  The
    /// size bound in the precondition is the machine limit of the
    /// base64 step: beyond it the encoded payload's length does not
    /// fit in `usize`.
    pub fn dump_iterm2_image(&self, scale: Option<usize>) -> (r: Vec<u8>)
        requires
            self.wf(),
            4 * ((image_bytes(self.width as int, self.height as int, self.pixel@).len() + 2) / 3)
                <= usize::MAX,
        ensures
            r@ == dump_bytes(self.width as int, self.height as int, self.pixel@, scale),
    {
        let ghost w = self.width as int;
        let ghost h = self.height as int;
        let mut out: Vec<u8> = Vec::new();
        out.push(27);
        out.push(93);
        out.push(49);
        out.push(51);
        out.push(51);
        out.push(55);
        out.push(59);
        out.push(70);
        out.push(105);
        out.push(108);
        out.push(101);
        out.push(61);
        out.push(105);
        out.push(110);
        out.push(108);
        out.push(105);
        out.push(110);
        out.push(101);
        out.push(61);
        out.push(49);
        proof {
            assert(out@ =~= intro_bytes());
        }
        match scale {
            Option::None => {},
            Option::Some(f) => {
                out.push(59);
                out.push(119);
                out.push(105);
                out.push(100);
                out.push(116);
                out.push(104);
                out.push(61);
                push_decimal(&mut out, f);
                out.push(37);
                proof {
                    assert(out@ =~= intro_bytes() + scale_suffix(scale));
                }
            },
        }
        proof {
            assert(out@ =~= intro_bytes() + scale_suffix(scale));
        }
        out.push(58);
        let buf = self.image_buffer();
        let b64 = base64_encode(&buf);
        out.extend_from_slice(b64.as_slice());
        out.push(7);
        proof {
            assert(out@ =~= dump_bytes(w, h, self.pixel@, scale));
        }
        out
    }
}

} // verus!
