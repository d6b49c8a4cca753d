//! Plain-text serialization of an image: a `P3` header line followed by one
//! `R G B` line per pixel, row-major.

use vstd::prelude::*;
use vstd::string::StringExecFns;
use crate::decimal::append_decimal;
use crate::decimal::dec_digits;
use crate::image::Image;
use crate::image::Pixel;

verus! {

/// The header line: magic number, then the two numbers handed in reversed
/// (`height` prints first), then the maximum channel value.
pub open spec fn header_text(width: nat, height: nat) -> Seq<char> {
    seq!['P', '3', ' '] + dec_digits(height) + seq![' '] + dec_digits(width) + seq![
        ' ',
        '2',
        '5',
        '5',
    ]
}

/// The text of one pixel: its three channel values separated by spaces,
/// closed by a newline.
pub open spec fn pixel_text(p: Pixel) -> Seq<char> {
    dec_digits(p.r as nat) + seq![' '] + dec_digits(p.g as nat) + seq![' '] + dec_digits(p.b as nat)
        + seq!['\n']
}

/// The pixel lines of a buffer, in buffer order.
pub open spec fn pixels_text(ps: Seq<Pixel>) -> Seq<char>
    decreases ps.len(),
{
    if ps.len() == 0 {
        Seq::empty()
    } else {
        pixels_text(ps.drop_last()) + pixel_text(ps.last())
    }
}

/// The whole serialized image: header line, then the pixel lines.
pub open spec fn ppm_text(image: Image) -> Seq<char> {
    header_text(image.spec_height() as nat, image.spec_width() as nat) + seq!['\n'] + pixels_text(
        image.pixels(),
    )
}

fn header(width: u32, height: u32) -> (r: String)
    ensures
        r@ == header_text(width as nat, height as nat),
{
    let mut s = String::new();
    proof {
        reveal_strlit("P3 ");
        reveal_strlit(" ");
        reveal_strlit(" 255");
    }
    s.append("P3 ");
    append_decimal(&mut s, height);
    s.append(" ");
    append_decimal(&mut s, width);
    s.append(" 255");
    proof {
        assert(s@ =~= header_text(width as nat, height as nat));
    }
    s
}

fn pixelmap_to_string(image: &Image) -> (r: String)
    requires
        image.wf(),
    ensures
        r@ == pixels_text(image.pixels()),
{
    let mut ppm_string = String::new();
    let height = image.get_height();
    let width = image.get_width();
    proof {
        reveal_strlit(" ");
        reveal_strlit("\n");
    }
    for x in 0..height
        invariant
            image.wf(),
            width == image.spec_width(),
            height == image.spec_height(),
            ppm_string@ == pixels_text(image.pixels().take(x * width)),
    {
        proof {
            vstd::arithmetic::mul::lemma_mul_inequality(
                x as int + 1,
                height as int,
                width as int,
            );
            vstd::arithmetic::mul::lemma_mul_is_commutative(height as int, width as int);
            vstd::arithmetic::mul::lemma_mul_is_distributive_add_other_way(
                width as int,
                x as int,
                1,
            );
        }
        for y in 0..width
            invariant
                image.wf(),
                width == image.spec_width(),
                height == image.spec_height(),
                x < height,
                (x * width + width) as int == (x + 1) * width <= image.pixels().len(),
                ppm_string@ == pixels_text(image.pixels().take(x * width + y)),
        {
            let pixel = image.get(x, y);
            let ghost index = x * width + y;
            let ghost grown = image.pixels().take(index + 1);
            proof {
                reveal_strlit(" ");
                reveal_strlit("\n");
                assert(grown.drop_last() =~= image.pixels().take(index));
            }
            append_decimal(&mut ppm_string, pixel.get_red() as u32);
            ppm_string.append(" ");
            append_decimal(&mut ppm_string, pixel.get_green() as u32);
            ppm_string.append(" ");
            append_decimal(&mut ppm_string, pixel.get_blue() as u32);
            ppm_string.append("\n");
            proof {
                assert(ppm_string@ =~= pixels_text(grown));
            }
        }
    }
    proof {
        vstd::arithmetic::mul::lemma_mul_is_commutative(height as int, width as int);
        assert(image.pixels().take((height * width) as int) =~= image.pixels());
    }
    ppm_string
}

/// Serializes the image. The text is determined, character for character, by
/// the image's dimensions and pixel buffer.
pub fn to_ppm_p3_string(image: &Image) -> (r: String)
    requires
        image.wf(),
    ensures
        r@ == ppm_text(*image),
{
    let mut s = header(image.get_height(), image.get_width());
    proof {
        reveal_strlit("\n");
    }
    s.append("\n");
    let body = pixelmap_to_string(image);
    s.append(body.as_str());
    proof {
        assert(s@ =~= ppm_text(*image));
    }
    s
}

} // verus!
