use crate::bytes::{
    be16_at, be32_at, lemma_u16_be_round_trip, lemma_u32_be_round_trip, u16_be_bytes, u32_be_bytes,
};
use crate::pixel::Pixel;
use vstd::arithmetic::div_mod::{
    lemma_div_is_ordered, lemma_div_multiples_vanish, lemma_fundamental_div_mod,
};
use vstd::prelude::*;

verus! {

/// The eight ASCII bytes `farbfeld` that open every well-formed stream.
pub open spec fn magic() -> Seq<u8> {
    seq![102u8, 97u8, 114u8, 98u8, 102u8, 101u8, 108u8, 100u8]
}

/// The eight bytes of one pixel on the wire: r, g, b, a, each big-endian.
pub open spec fn pixel_bytes(p: Pixel) -> Seq<u8> {
    u16_be_bytes(p.r) + u16_be_bytes(p.g) + u16_be_bytes(p.b) + u16_be_bytes(p.a)
}

/// The wire bytes of a pixel sequence, in order.
pub open spec fn pixels_bytes(ps: Seq<Pixel>) -> Seq<u8>
    decreases ps.len(),
{
    if ps.len() == 0 {
        Seq::<u8>::empty()
    } else {
        pixels_bytes(ps.drop_last()) + pixel_bytes(ps.last())
    }
}

/// The whole encoded stream: magic, the two big-endian dimensions, then the
/// pixels in their stored order, whatever the declared dimensions say.
pub open spec fn encode_bytes(width: u32, height: u32, ps: Seq<Pixel>) -> Seq<u8> {
    magic() + u32_be_bytes(width) + u32_be_bytes(height) + pixels_bytes(ps)
}

/// The input cannot hold the 16-byte header.
pub open spec fn header_to_short(s: Seq<u8>) -> bool {
    s.len() < 16
}

/// The input is long enough but does not open with the magic bytes.
pub open spec fn magic_missing(s: Seq<u8>) -> bool {
    !header_to_short(s) && s.subrange(0, 8) != magic()
}

/// The width the header declares.
pub open spec fn decoded_width(s: Seq<u8>) -> int {
    be32_at(s, 8)
}

/// The height the header declares.
pub open spec fn decoded_height(s: Seq<u8>) -> int {
    be32_at(s, 12)
}

/// The number of pixels the header declares.
pub open spec fn decoded_pix_num(s: Seq<u8>) -> int {
    decoded_width(s) * decoded_height(s)
}

/// The header is intact but the stream carries fewer complete 8-byte chunks
/// than it declares pixels.
pub open spec fn length_mismatched(s: Seq<u8>) -> bool {
    !header_to_short(s) && !magic_missing(s) && (s.len() - 16) / 8 < decoded_pix_num(s)
}

/// The stream decodes: header intact, magic present, enough pixel chunks.
pub open spec fn decodes(s: Seq<u8>) -> bool {
    !header_to_short(s) && !magic_missing(s) && !length_mismatched(s)
}

/// The `j`-th pixel the stream carries, read from its 8-byte chunk.
pub open spec fn decoded_pixel(s: Seq<u8>, j: int) -> Pixel {
    Pixel {
        r: be16_at(s, 16 + 8 * j) as u16,
        g: be16_at(s, 16 + 8 * j + 2) as u16,
        b: be16_at(s, 16 + 8 * j + 4) as u16,
        a: be16_at(s, 16 + 8 * j + 6) as u16,
    }
}

/// Every pixel takes exactly eight bytes on the wire.
pub proof fn lemma_pixels_bytes_len(ps: Seq<Pixel>)
    ensures
        pixels_bytes(ps).len() == 8 * ps.len(),
    decreases ps.len(),
{
    if ps.len() > 0 {
        lemma_pixels_bytes_len(ps.drop_last());
    }
}

/// Extending the encoded prefix by one pixel appends that pixel's bytes.
pub proof fn lemma_pixels_bytes_snoc(ps: Seq<Pixel>, i: int)
    requires
        0 <= i < ps.len(),
    ensures
        pixels_bytes(ps.take(i + 1)) == pixels_bytes(ps.take(i)) + pixel_bytes(ps[i]),
{
    assert(ps.take(i + 1).drop_last() =~= ps.take(i));
    assert(ps.take(i + 1).last() == ps[i]);
}

/// The bytes of the `j`-th pixel sit at offset `8 * j` of the pixel area.
pub proof fn lemma_pixels_bytes_index(ps: Seq<Pixel>, j: int)
    requires
        0 <= j < ps.len(),
    ensures
        pixels_bytes(ps).subrange(8 * j, 8 * j + 8) == pixel_bytes(ps[j]),
    decreases ps.len(),
{
    lemma_pixels_bytes_len(ps);
    lemma_pixels_bytes_len(ps.drop_last());
    if j == ps.len() - 1 {
        assert(pixels_bytes(ps).subrange(8 * j, 8 * j + 8) =~= pixel_bytes(ps.last()));
    } else {
        lemma_pixels_bytes_index(ps.drop_last(), j);
        assert(ps.drop_last()[j] == ps[j]);
        assert(pixels_bytes(ps).subrange(8 * j, 8 * j + 8) =~= pixels_bytes(
            ps.drop_last(),
        ).subrange(8 * j, 8 * j + 8));
    }
}

/// Round trip: a stream encoded from any dimensions that match their pixel
/// sequence decodes again, to the same width, the same height and the same
/// pixels.
pub proof fn lemma_encode_decode_round_trip(width: u32, height: u32, ps: Seq<Pixel>)
    requires
        ps.len() == width as int * height as int,
    ensures
        decodes(encode_bytes(width, height, ps)),
        decoded_width(encode_bytes(width, height, ps)) == width as int,
        decoded_height(encode_bytes(width, height, ps)) == height as int,
        decoded_pix_num(encode_bytes(width, height, ps)) == ps.len(),
        forall|j: int|
            0 <= j < ps.len() ==> decoded_pixel(encode_bytes(width, height, ps), j) == ps[j],
{
    let s = encode_bytes(width, height, ps);
    lemma_pixels_bytes_len(ps);
    lemma_u32_be_round_trip(width);
    lemma_u32_be_round_trip(height);
    assert(s.len() == 16 + 8 * ps.len());
    assert(s.subrange(0, 8) =~= magic());
    assert(decoded_width(s) == width as int);
    assert(decoded_height(s) == height as int);
    lemma_div_multiples_vanish(ps.len() as int, 8);
    assert((s.len() - 16) / 8 == ps.len());
    assert(!length_mismatched(s));
    assert forall|j: int| 0 <= j < ps.len() implies decoded_pixel(s, j) == ps[j] by {
        lemma_pixels_bytes_index(ps, j);
        let pb = pixel_bytes(ps[j]);
        assert forall|t: int| 0 <= t < 8 implies s[16 + 8 * j + t] == pb[t] by {
            assert(pb[t] == pixels_bytes(ps).subrange(8 * j, 8 * j + 8)[t]);
        }
        lemma_u16_be_round_trip(ps[j].r);
        lemma_u16_be_round_trip(ps[j].g);
        lemma_u16_be_round_trip(ps[j].b);
        lemma_u16_be_round_trip(ps[j].a);
        assert(pb[0] == u16_be_bytes(ps[j].r)[0]);
        assert(pb[1] == u16_be_bytes(ps[j].r)[1]);
        assert(pb[2] == u16_be_bytes(ps[j].g)[0]);
        assert(pb[3] == u16_be_bytes(ps[j].g)[1]);
        assert(pb[4] == u16_be_bytes(ps[j].b)[0]);
        assert(pb[5] == u16_be_bytes(ps[j].b)[1]);
        assert(pb[6] == u16_be_bytes(ps[j].a)[0]);
        assert(pb[7] == u16_be_bytes(ps[j].a)[1]);
    }
}

/// Trailing bytes past the declared pixel count change nothing: the extended
/// stream still decodes, to the same dimensions and the same pixels.
pub proof fn lemma_decode_ignores_trailing(s: Seq<u8>, extra: Seq<u8>)
    requires
        decodes(s),
    ensures
        decodes(s + extra),
        decoded_width(s + extra) == decoded_width(s),
        decoded_height(s + extra) == decoded_height(s),
        decoded_pix_num(s + extra) == decoded_pix_num(s),
        forall|j: int|
            0 <= j < decoded_pix_num(s) ==> decoded_pixel(s + extra, j) == decoded_pixel(s, j),
{
    let t = s + extra;
    assert(t.subrange(0, 8) =~= s.subrange(0, 8));
    lemma_div_is_ordered(s.len() - 16, t.len() - 16, 8);
    lemma_fundamental_div_mod(s.len() - 16, 8);
    assert(8 * decoded_pix_num(s) <= s.len() - 16);
    assert forall|j: int|
        0 <= j < decoded_pix_num(s) implies decoded_pixel(t, j) == decoded_pixel(s, j) by {
        assert(16 + 8 * j + 7 < s.len());
    }
}

} // verus!
