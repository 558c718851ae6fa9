//! Converts glyph outlines of a font into a textual memory-initialization
//! (MIF) document: a contiguous range of character codes is rasterized into
//! 8x8 one-bit-per-pixel cells, packed one byte per scanline, and serialized
//! as an addressed hex content table.
//!
//! Font decoding and rasterization are a collaborator's work: callers hand
//! each character's coverage samples — the `(x, y)` cell coordinates the
//! rasterizer reported with nonzero coverage, or `None` for an absent glyph —
//! and receive the finished document.

use vstd::prelude::*;

mod encoder;
mod mif;
mod range_spec;

pub use encoder::buffer_spec;
pub use encoder::code_for_offset;
pub use encoder::encode_glyphs;
pub use encoder::glyph_byte;
pub use encoder::lemma_absent_glyph_zero;
pub use encoder::row_byte;
pub use encoder::sample_bit;
pub use encoder::write_glyph;
pub use mif::dec_chars;
pub use mif::dec_digit;
pub use mif::hex_chars;
pub use mif::hex_digit;
pub use mif::content_line;
pub use mif::content_lines;
pub use mif::lemma_mif_line_count;
pub use mif::mif_doc;
pub use mif::mif_document;
pub use mif::mif_header;
pub use mif::nl_count;
pub use range_spec::RangeSpec;
pub use range_spec::RangeError;
pub use range_spec::all_digits_from;
pub use range_spec::dec_value;
pub use range_spec::digit_run;
pub use range_spec::digit_val;
pub use range_spec::is_digit_ch;
pub use range_spec::is_pair_split;
pub use range_spec::lemma_parse_complete;
pub use range_spec::lemma_parse_pair;
pub use range_spec::lemma_parse_singleton;
pub use range_spec::lemma_parser_rejections;
pub use range_spec::range_parser;
pub use range_spec::spec_parse;
pub use range_spec::valid_pair;
pub use range_spec::valid_singleton;

verus! {

/// Runs the encoder and the serializer in sequence: the MIF document for a
/// source file's display name, a resolved range, and the per-character
/// coverage samples gathered for that range.
pub fn convert(name: &str, range: &RangeSpec, glyphs: &Vec<Option<Vec<(u32, u32)>>>) -> (doc:
    String)
    requires
        glyphs@.len() == range.spec_len(),
        range.spec_len() * 64 <= usize::MAX,
    ensures
        doc@ == mif_doc(name@, buffer_spec(glyphs.deep_view())),
        buffer_spec(glyphs.deep_view()).len() == range.spec_len() * 8,
{
    let buf = encode_glyphs(range, glyphs);
    mif_document(name, &buf)
}

/// Encoding is deterministic: two documents produced from the same display
/// name and the same per-character outline and coverage data are identical,
/// character for character. Together with `convert`'s postcondition, which
/// pins its result to `mif_doc` of its inputs alone, running the conversion
/// twice over one font and range yields byte-identical documents.
pub proof fn lemma_convert_deterministic(
    doc1: Seq<char>,
    doc2: Seq<char>,
    name: Seq<char>,
    gs: Seq<Option<Seq<(u32, u32)>>>,
)
    requires
        doc1 == mif_doc(name, buffer_spec(gs)),
        doc2 == mif_doc(name, buffer_spec(gs)),
    ensures
        doc1 == doc2,
{
}

} // verus!
