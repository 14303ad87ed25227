//! Pixel conversion for the layered overlay window: straight RGBA to the
//! premultiplied BGRA that `UpdateLayeredWindow` expects.
use vstd::prelude::*;
use vstd::arithmetic::div_mod::lemma_fundamental_div_mod_converse;

verus! {

/// A color channel scaled by alpha, rounded down (`c * a / 255`).
pub open spec fn premul(c: u8, a: u8) -> u8 {
    ((c as int * a as int) / 255) as u8
}

/// Byte `j` of the premultiplied BGRA copy of `s`: whole pixels are
/// converted; bytes after the last whole pixel stay 0.
pub open spec fn premultiplied_byte(s: Seq<u8>, j: int) -> u8 {
    let p = j / 4;
    let c = j % 4;
    if p >= s.len() / 4 {
        0
    } else {
        let a = s[4 * p + 3];
        if c == 0 {
            premul(s[4 * p + 2], a)
        } else if c == 1 {
            premul(s[4 * p + 1], a)
        } else if c == 2 {
            premul(s[4 * p], a)
        } else {
            a
        }
    }
}

pub open spec fn premultiplied(s: Seq<u8>) -> Seq<u8> {
    Seq::new(s.len(), |j: int| premultiplied_byte(s, j))
}

proof fn lemma_premul_bounded(c: u8, a: u8)
    ensures
        premul(c, a) <= a,
        (c as int * a as int) / 255 <= 255,
{
    assert((c as int * a as int) / 255 <= a as int) by (nonlinear_arith)
        requires
            0 <= c <= 255,
            0 <= a <= 255,
    ;
}

/// The four bytes of pixel `p`.
pub open spec fn pixel_of(s: Seq<u8>, p: int) -> (u8, u8, u8, u8) {
    (s[4 * p], s[4 * p + 1], s[4 * p + 2], s[4 * p + 3])
}

proof fn lemma_opaque_channel(c: u8)
    ensures
        ((c as int * 255) / 255) as u8 == c,
{
    assert((c as int * 255) / 255 == c as int) by (nonlinear_arith);
}

/// Pixel `p` of the premultiplied copy: channels swapped from RGBA to BGRA,
/// each color scaled by alpha and rounded down, alpha kept; an opaque pixel
/// (R, G, B, 255) becomes (B, G, R, 255).
pub proof fn law_premultiplied_pixel(rgba: Seq<u8>, p: int)
    requires
        0 <= p < rgba.len() / 4,
    ensures
        premultiplied(rgba).len() == rgba.len(),
        pixel_of(premultiplied(rgba), p) == (
            ((rgba[4 * p + 2] as int * rgba[4 * p + 3] as int) / 255) as u8,
            ((rgba[4 * p + 1] as int * rgba[4 * p + 3] as int) / 255) as u8,
            ((rgba[4 * p] as int * rgba[4 * p + 3] as int) / 255) as u8,
            rgba[4 * p + 3],
        ),
        rgba[4 * p + 3] == 255 ==> pixel_of(premultiplied(rgba), p) == (
            rgba[4 * p + 2],
            rgba[4 * p + 1],
            rgba[4 * p],
            255u8,
        ),
{
    vstd::arithmetic::div_mod::lemma_fundamental_div_mod(rgba.len() as int, 4);
    lemma_fundamental_div_mod_converse(4 * p + 0, 4, p, 0);
    lemma_fundamental_div_mod_converse(4 * p + 1, 4, p, 1);
    lemma_fundamental_div_mod_converse(4 * p + 2, 4, p, 2);
    lemma_fundamental_div_mod_converse(4 * p + 3, 4, p, 3);
    lemma_opaque_channel(rgba[4 * p + 2]);
    lemma_opaque_channel(rgba[4 * p + 1]);
    lemma_opaque_channel(rgba[4 * p]);
}

/// Straight RGBA (top-down) to premultiplied BGRA, pixel by pixel: every
/// whole pixel (R, G, B, A) becomes (B*A/255, G*A/255, R*A/255, A), rounded
/// down, so an opaque pixel (R, G, B, 255) becomes (B, G, R, 255) and a
/// transparent one (0, 0, 0, 0).
pub fn premultiply_bgra(rgba: &[u8]) -> (out: Vec<u8>)
    ensures
        out@ == premultiplied(rgba@),
        out@.len() == rgba@.len(),
        forall|p: int|
            0 <= p < rgba@.len() / 4 ==> {
                let (r, g, b, a) = pixel_of(rgba@, p);
                #[trigger] pixel_of(out@, p) == (
                    ((b as int * a as int) / 255) as u8,
                    ((g as int * a as int) / 255) as u8,
                    ((r as int * a as int) / 255) as u8,
                    a,
                )
            },
        forall|p: int|
            0 <= p < rgba@.len() / 4 && rgba@[4 * p + 3] == 255 ==> #[trigger] pixel_of(out@, p) == (
                rgba@[4 * p + 2],
                rgba@[4 * p + 1],
                rgba@[4 * p],
                255u8,
            ),
        forall|j: int|
            0 <= j < out@.len() && j % 4 != 3 ==> #[trigger] out@[j] <= out@[j - j % 4 + 3],
{
    let len = rgba.len();
    let pixels = len / 4;
    let mut out: Vec<u8> = Vec::new();
    let mut i: usize = 0;
    while i < pixels
        invariant
            len == rgba@.len(),
            pixels == len / 4,
            i <= pixels,
            out@.len() == 4 * i,
            forall|j: int| 0 <= j < out@.len() ==> #[trigger] out@[j] == premultiplied_byte(rgba@, j),
        decreases pixels - i,
    {
        assert(4 * i + 3 < len) by {
            vstd::arithmetic::div_mod::lemma_fundamental_div_mod(len as int, 4);
        }
        let a = rgba[i * 4 + 3];
        proof {
            lemma_premul_bounded(rgba@[4 * i + 2], a);
            lemma_premul_bounded(rgba@[4 * i + 1], a);
            lemma_premul_bounded(rgba@[4 * i], a);
            lemma_fundamental_div_mod_converse(4 * i + 0, 4, i as int, 0);
            lemma_fundamental_div_mod_converse(4 * i + 1, 4, i as int, 1);
            lemma_fundamental_div_mod_converse(4 * i + 2, 4, i as int, 2);
            lemma_fundamental_div_mod_converse(4 * i + 3, 4, i as int, 3);
        }
        let b = (rgba[i * 4 + 2] as u16 * a as u16 / 255) as u8;
        let g = (rgba[i * 4 + 1] as u16 * a as u16 / 255) as u8;
        let r = (rgba[i * 4] as u16 * a as u16 / 255) as u8;
        out.push(b);
        out.push(g);
        out.push(r);
        out.push(a);
        i = i + 1;
    }
    while out.len() < len
        invariant
            len == rgba@.len(),
            pixels == len / 4,
            4 * pixels <= out@.len() <= len,
            forall|j: int| 0 <= j < out@.len() ==> #[trigger] out@[j] == premultiplied_byte(rgba@, j),
        decreases len - out@.len(),
    {
        proof {
            let j = out@.len() as int;
            vstd::arithmetic::div_mod::lemma_fundamental_div_mod(len as int, 4);
            assert(j / 4 >= pixels) by {
                vstd::arithmetic::div_mod::lemma_div_is_ordered(4 * pixels as int, j, 4);
                lemma_fundamental_div_mod_converse(4 * pixels as int, 4, pixels as int, 0);
            }
        }
        out.push(0);
    }
    assert(out@ =~= premultiplied(rgba@));
    proof {
        assert forall|p: int| 0 <= p < rgba@.len() / 4 implies #[trigger] pixel_of(out@, p) == (
            ((rgba@[4 * p + 2] as int * rgba@[4 * p + 3] as int) / 255) as u8,
            ((rgba@[4 * p + 1] as int * rgba@[4 * p + 3] as int) / 255) as u8,
            ((rgba@[4 * p] as int * rgba@[4 * p + 3] as int) / 255) as u8,
            rgba@[4 * p + 3],
        ) by {
            law_premultiplied_pixel(rgba@, p);
        }
        assert forall|p: int| 0 <= p < rgba@.len() / 4 && rgba@[4 * p + 3] == 255 implies #[trigger] pixel_of(out@, p) == (
            rgba@[4 * p + 2],
            rgba@[4 * p + 1],
            rgba@[4 * p],
            255u8,
        ) by {
            law_premultiplied_pixel(rgba@, p);
        }
    }
    proof {
        assert forall|j: int|
            0 <= j < out@.len() && j % 4 != 3 implies #[trigger] out@[j] <= out@[j - j % 4 + 3] by {
            let p = j / 4;
            let k = j - j % 4 + 3;
            lemma_fundamental_div_mod_converse(k, 4, p, 3);
            vstd::arithmetic::div_mod::lemma_fundamental_div_mod(j, 4);
            if p < rgba@.len() / 4 {
                let a = rgba@[4 * p + 3];
                lemma_premul_bounded(rgba@[4 * p + 2], a);
                lemma_premul_bounded(rgba@[4 * p + 1], a);
                lemma_premul_bounded(rgba@[4 * p], a);
            }
        }
    }
    out
}

} // verus!
