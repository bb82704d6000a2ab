//! The mouse cursor image of the GPU driver: the pixels of a 24-bit BMP turned into the
//! RGBA bytes the device takes, white being transparent.
use vstd::prelude::*;

verus! {

/// The raw pixel bytes of the BMP file `bytes`, as the `tinybmp` crate parses it (`None` when
/// it rejects the file).
pub uninterp spec fn bmp_image_data(bytes: Seq<u8>) -> Option<Seq<u8>>;

/// The raw pixel data of a BMP file, read with `tinybmp::Bmp::<Rgb888>::from_slice` and
/// `RawBmp::image_data`.
#[verifier::external_body]
fn bmp_pixels(bytes: &[u8]) -> (r: Option<Vec<u8>>)
    ensures
        match r {
            Some(v) => bmp_image_data(bytes@) == Some(v@),
            None => bmp_image_data(bytes@) is None,
        },
{
    match tinybmp::Bmp::<embedded_graphics::pixelcolor::Rgb888>::from_slice(bytes) {
        Ok(bmp) => Some(bmp.as_raw().image_data().to_vec()),
        Err(_) => None,
    }
}

/// Opacity of a pixel: white is transparent, anything else opaque.
pub open spec fn alpha(px: Seq<u8>) -> u8 {
    if px == seq![255u8, 255u8, 255u8] { 0 } else { 0xff }
}

/// The RGBA form of the pixel bytes `rgb`: each group of three bytes followed by its opacity;
/// a shorter last group is kept and made opaque.
pub open spec fn rgba_of(rgb: Seq<u8>) -> Seq<u8>
    decreases rgb.len(),
{
    if rgb.len() == 0 {
        Seq::empty()
    } else if rgb.len() < 3 {
        rgb.push(0xffu8)
    } else {
        rgb.take(3).push(alpha(rgb.take(3))) + rgba_of(rgb.skip(3))
    }
}

/// Converts three-byte pixels to the cursor's four-byte pixels (see `rgba_of`).
pub fn cursor_rgba(rgb: &[u8]) -> (r: Vec<u8>)
    ensures
        r@ == rgba_of(rgb@),
{
    let mut out: Vec<u8> = Vec::new();
    let n = rgb.len();
    let mut i: usize = 0;
    assert(rgb@.skip(0) =~= rgb@);
    assert(out@ + rgba_of(rgb@) =~= rgba_of(rgb@));
    while i < n
        invariant
            n == rgb@.len(),
            0 <= i <= n,
            out@ + rgba_of(rgb@.skip(i as int)) == rgba_of(rgb@),
        decreases n - i,
    {
        let ghost rest = rgb@.skip(i as int);
        let ghost before = out@;
        if n - i >= 3 {
            let a = rgb[i];
            let b = rgb[i + 1];
            let c = rgb[i + 2];
            out.push(a);
            out.push(b);
            out.push(c);
            let white = a == 255 && b == 255 && c == 255;
            out.push(if white { 0 } else { 0xff });
            proof {
                assert(rest.take(3) =~= seq![a, b, c]);
                assert(white == (rest.take(3) == seq![255u8, 255u8, 255u8])) by {
                    if rest.take(3) == seq![255u8, 255u8, 255u8] {
                        assert(rest.take(3)[0] == 255 && rest.take(3)[1] == 255 && rest.take(3)[2] == 255);
                    }
                }
                assert(rest.skip(3) =~= rgb@.skip(i + 3));
                assert(out@ =~= before + rest.take(3).push(alpha(rest.take(3))));
            }
            i = i + 3;
        } else {
            let mut k = i;
            while k < n
                invariant
                    i <= k <= n,
                    n == rgb@.len(),
                    out@ == before + rgb@.subrange(i as int, k as int),
                decreases n - k,
            {
                out.push(rgb[k]);
                k = k + 1;
                assert(out@ =~= before + rgb@.subrange(i as int, k as int));
            }
            out.push(0xff);
            proof {
                assert(rest =~= rgb@.subrange(i as int, n as int));
                assert(rgb@.skip(n as int) =~= Seq::<u8>::empty());
                assert(out@ =~= before + rest.push(0xffu8));
            }
            i = n;
        }
    }
    proof {
        assert(rgb@.skip(n as int) =~= Seq::<u8>::empty());
        assert(out@ + Seq::<u8>::empty() =~= out@);
    }
    out
}

/// The cursor image for the BMP file `bmp`, or `None` when the file does not parse.
pub fn cursor_from_bmp(bmp: &[u8]) -> (r: Option<Vec<u8>>)
    ensures
        match bmp_image_data(bmp@) {
            None => r is None,
            Some(d) => r is Some && r->Some_0@ == rgba_of(d),
        },
{
    match bmp_pixels(bmp) {
        Some(data) => Some(cursor_rgba(data.as_slice())),
        None => None,
    }
}

} // verus!
