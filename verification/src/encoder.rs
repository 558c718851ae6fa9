//! The bitmap encoder: packs per-character 8x8 coverage samples into an
//! output buffer of one byte per scanline, eight bytes per character.
//!
//! A character's samples are the cell coordinates the rasterizer reported
//! with nonzero coverage; an absent glyph is `None` and leaves its eight
//! bytes zero. Samples outside the 8x8 cell are a collaborator contract
//! violation and are ignored rather than written out of bounds.

use vstd::prelude::*;

use crate::range_spec::RangeSpec;

verus! {

/// The bit one coverage sample `(x, y)` contributes to the packed byte of
/// scanline `y`: bit `x`, the least-significant side being column zero.
pub open spec fn sample_bit(s: (u32, u32), y: nat) -> u8 {
    if s.1 == y && s.0 < 8 {
        1u8 << (s.0 as u8)
    } else {
        0u8
    }
}

/// The packed byte for scanline `y`: the OR of every sample's contribution.
/// Duplicate samples are idempotent and order does not matter.
pub open spec fn row_byte(samples: Seq<(u32, u32)>, y: nat) -> u8
    decreases samples.len(),
{
    if samples.len() == 0 {
        0u8
    } else {
        row_byte(samples.drop_last(), y) | sample_bit(samples.last(), y)
    }
}

/// The packed byte for scanline `y` of one character: zero when the glyph is
/// absent.
pub open spec fn glyph_byte(g: Option<Seq<(u32, u32)>>, y: nat) -> u8 {
    match g {
        Some(samples) => row_byte(samples, y),
        None => 0u8,
    }
}

/// The whole output buffer for a sequence of glyphs: byte `r * 8 + y` holds
/// scanline `y` of character `r`.
pub open spec fn buffer_spec(gs: Seq<Option<Seq<(u32, u32)>>>) -> Seq<u8> {
    Seq::new(gs.len() * 8, |j: int| glyph_byte(gs[j / 8], (j % 8) as nat))
}

/// Byte `r * 8 + y` of the buffer layout belongs to character `r`, row `y`.
proof fn lemma_cell_index(r: int, y: int)
    requires
        0 <= r,
        0 <= y < 8,
    ensures
        (r * 8 + y) / 8 == r,
        (r * 8 + y) % 8 == y,
{
    assert((r * 8 + y) / 8 == r && (r * 8 + y) % 8 == y) by (nonlinear_arith)
        requires
            0 <= r,
            0 <= y < 8,
    ;
}

/// A character with no glyph outline has all-zero output bytes.
pub proof fn lemma_absent_glyph_zero(gs: Seq<Option<Seq<(u32, u32)>>>, r: int, y: int)
    requires
        0 <= r < gs.len(),
        gs[r] is None,
        0 <= y < 8,
    ensures
        buffer_spec(gs)[r * 8 + y] == 0u8,
{
    lemma_cell_index(r, y);
    assert(r * 8 + y < gs.len() * 8) by (nonlinear_arith)
        requires
            0 <= y < 8,
            r < gs.len(),
    ;
}

/// Appending one sample ORs its bit into the row it falls in.
proof fn lemma_row_byte_step(samples: Seq<(u32, u32)>, k: int, y: nat)
    requires
        0 <= k < samples.len(),
    ensures
        row_byte(samples.take(k + 1), y) == (row_byte(samples.take(k), y) | sample_bit(
            samples[k],
            y,
        )),
{
    assert(samples.take(k + 1).drop_last() =~= samples.take(k));
    assert(samples.take(k + 1).last() == samples[k]);
}

/// ORs the sample bits of one character's glyph into its eight-byte cell at
/// relative offset `r`, leaving every other byte unchanged. A sample outside
/// the 8x8 cell is ignored.
pub fn write_glyph(buf: &mut Vec<u8>, r: usize, samples: &Vec<(u32, u32)>)
    requires
        r * 8 + 8 <= old(buf)@.len(),
    ensures
        final(buf)@.len() == old(buf)@.len(),
        forall|y: int|
            0 <= y < 8 ==> final(buf)@[r * 8 + y] == (old(buf)@[r * 8 + y] | #[trigger] row_byte(
                samples@,
                y as nat,
            )),
        forall|j: int|
            0 <= j < old(buf)@.len() && !(r * 8 <= j < r * 8 + 8) ==> final(buf)@[j] == old(
                buf,
            )@[j],
{
    let n = samples.len();
    let mut k: usize = 0;
    assert(forall|y: nat| row_byte(samples@.take(0), y) == 0u8);
    assert(forall|b: u8| (b | 0u8) == b) by (bit_vector);
    while k < n
        invariant
            n == samples@.len(),
            0 <= k <= n,
            r * 8 + 8 <= buf@.len() == old(buf)@.len(),
            forall|y: int|
                0 <= y < 8 ==> buf@[r * 8 + y] == (old(buf)@[r * 8 + y] | #[trigger] row_byte(
                    samples@.take(k as int),
                    y as nat,
                )),
            forall|j: int|
                0 <= j < buf@.len() && !(r * 8 <= j < r * 8 + 8) ==> buf@[j] == old(buf)@[j],
        decreases n - k,
    {
        let (x, yy) = samples[k];
        proof {
            assert forall|y: int| 0 <= y < 8 implies #[trigger] row_byte(
                samples@.take(k + 1),
                y as nat,
            ) == (row_byte(samples@.take(k as int), y as nat) | sample_bit(
                samples@[k as int],
                y as nat,
            )) by {
                lemma_row_byte_step(samples@, k as int, y as nat);
            }
            assert(forall|a: u8, b: u8, c: u8| ((a | b) | c) == (a | (b | c))) by (bit_vector);
            assert(forall|b: u8| (b | 0u8) == b) by (bit_vector);
        }
        if x < 8 && yy < 8 {
            let len = buf.len();
            assert(r * 8 + 8 <= len);
            let idx = r * 8 + (yy as usize);
            let b = buf[idx];
            buf[idx] = b | (1u8 << (x as u8));
        }
        k = k + 1;
    }
    proof {
        assert(samples@.take(n as int) =~= samples@);
    }
}

/// Encodes every character of the range: character `r`'s samples fill bytes
/// `r * 8 .. r * 8 + 8`, and an absent glyph leaves them zero.
pub fn encode_glyphs(range: &RangeSpec, glyphs: &Vec<Option<Vec<(u32, u32)>>>) -> (buf: Vec<u8>)
    requires
        glyphs@.len() == range.spec_len(),
        range.spec_len() * 8 <= usize::MAX,
    ensures
        buf@ == buffer_spec(glyphs.deep_view()),
        buf@.len() == range.spec_len() * 8,
{
    let n = range.len();
    let total = n * 8;
    let ghost gs = glyphs.deep_view();
    let mut buf: Vec<u8> = Vec::new();
    while buf.len() < total
        invariant
            buf@.len() <= total,
            forall|j: int| 0 <= j < buf@.len() ==> buf@[j] == 0u8,
        decreases total - buf@.len(),
    {
        buf.push(0u8);
    }
    let mut r: usize = 0;
    while r < n
        invariant
            n == glyphs@.len() == range.spec_len(),
            gs == glyphs.deep_view(),
            gs.len() == n,
            total == n * 8,
            buf@.len() == total,
            forall|j: int| 0 <= j < r * 8 ==> buf@[j] == buffer_spec(gs)[j],
            forall|j: int| r * 8 <= j < total ==> buf@[j] == 0u8,
        decreases n - r,
    {
        assert(r * 8 + 8 <= (r + 1) * 8 <= n * 8) by (nonlinear_arith)
            requires
                r < n,
        ;
        let g = &glyphs[r];
        match g {
            Some(samples) => {
                write_glyph(&mut buf, r, samples);
                proof {
                    assert(samples.deep_view() =~= samples@);
                    assert(gs[r as int] == Some(samples@));
                }
            },
            None => {
                proof {
                    assert(gs[r as int] is None);
                }
            },
        }
        proof {
            assert(forall|b: u8| (0u8 | b) == b) by (bit_vector);
            assert forall|j: int| r * 8 <= j < r * 8 + 8 implies buf@[j] == buffer_spec(gs)[j] by {
                let y = j - r * 8;
                lemma_cell_index(r as int, y);
                assert(j < gs.len() * 8) by (nonlinear_arith)
                    requires
                        j < (r + 1) * 8,
                        r < gs.len(),
                ;
            }
        }
        r = r + 1;
    }
    proof {
        assert(buf@ =~= buffer_spec(gs));
    }
    buf
}

/// The single-byte character code looked up for relative offset `r` of the
/// range: codes at and above 256 alias into `0..=255`.
pub fn code_for_offset(range: &RangeSpec, r: usize) -> (c: u8)
    requires
        r < range.spec_len(),
    ensures
        c == ((range.start + r) % 256) as u8,
{
    let code = (range.start + r) % 256;
    code as u8
}

} // verus!
