//! The MIF serializer: turns the output buffer into the textual
//! memory-initialization document — a fixed header naming the source font
//! and declaring `DEPTH`, `WIDTH = 1` and hex radices, one
//! `ADDRESS : DATA;` line per buffer byte with the address in bit units
//! (byte index times eight), and the `END;` marker. The format is pinned
//! character for character: downstream tooling parses it.

use vstd::prelude::*;
use vstd::string::StringExecFns;

verus! {

/// The decimal digit character for `d < 10`.
pub open spec fn dec_digit(d: nat) -> char {
    if d == 0 {
        '0'
    } else if d == 1 {
        '1'
    } else if d == 2 {
        '2'
    } else if d == 3 {
        '3'
    } else if d == 4 {
        '4'
    } else if d == 5 {
        '5'
    } else if d == 6 {
        '6'
    } else if d == 7 {
        '7'
    } else if d == 8 {
        '8'
    } else {
        '9'
    }
}

/// The uppercase hexadecimal digit character for `d < 16`.
pub open spec fn hex_digit(d: nat) -> char {
    if d < 10 {
        dec_digit(d)
    } else if d == 10 {
        'A'
    } else if d == 11 {
        'B'
    } else if d == 12 {
        'C'
    } else if d == 13 {
        'D'
    } else if d == 14 {
        'E'
    } else {
        'F'
    }
}

/// The decimal rendering of `n`, most significant digit first, without
/// leading zeros (a lone `0` for zero).
pub open spec fn dec_chars(n: nat) -> Seq<char>
    decreases n,
{
    if n < 10 {
        seq![dec_digit(n)]
    } else {
        dec_chars(n / 10) + seq![dec_digit(n % 10)]
    }
}

/// The uppercase hexadecimal rendering of `n`, left-padded with zeros to at
/// least `w` digits (more digits appear when `n` needs them).
pub open spec fn hex_chars(n: nat, w: nat) -> Seq<char>
    decreases n + w,
{
    if n < 16 && w <= 1 {
        seq![hex_digit(n)]
    } else {
        hex_chars(n / 16, if w == 0 { 0nat } else { (w - 1) as nat }) + seq![hex_digit(n % 16)]
    }
}

/// Content line `i`: the byte's bit address in at least four uppercase hex
/// digits, the ` : ` separator, the byte value in two hex digits, and `;`.
pub open spec fn content_line(data: Seq<u8>, i: int) -> Seq<char> {
    hex_chars((i * 8) as nat, 4) + " : "@ + hex_chars(data[i] as nat, 2) + ";\n"@
}

/// The first `n` content lines, in ascending address order.
pub open spec fn content_lines(data: Seq<u8>, n: int) -> Seq<char>
    decreases n,
{
    if n <= 0 {
        Seq::empty()
    } else {
        content_lines(data, n - 1) + content_line(data, n - 1)
    }
}

/// The fixed header block: a comment line with the source file's display
/// name, the `DEPTH`/`WIDTH`/radix declarations, and the `CONTENT`/`BEGIN`
/// opener, blank lines included.
pub open spec fn mif_header(name: Seq<char>, depth: nat) -> Seq<char> {
    "-- "@ + name + " \n\n"@ + "DEPTH = "@ + dec_chars(depth) + ";\n"@ + "WIDTH = 1;\n"@
        + "ADDRESS_RADIX = HEX;\n"@ + "DATA_RADIX = HEX;\n\n"@ + "CONTENT\n"@ + "BEGIN\n\n"@
}

/// The complete MIF document for a display name and an output buffer. The
/// `DEPTH` field is the buffer's byte count; each byte's address is its
/// index times eight, addresses counting the 1-bit words declared by
/// `WIDTH = 1`.
pub open spec fn mif_doc(name: Seq<char>, data: Seq<u8>) -> Seq<char> {
    mif_header(name, data.len()) + content_lines(data, data.len() as int) + "\nEND;\n"@
}

/// Number of newline characters in `s`; each one terminates a line of the
/// document.
pub open spec fn nl_count(s: Seq<char>) -> nat
    decreases s.len(),
{
    if s.len() == 0 {
        0
    } else {
        nl_count(s.drop_last()) + if s.last() == '\n' {
            1nat
        } else {
            0nat
        }
    }
}

proof fn lemma_nl_count_concat(a: Seq<char>, b: Seq<char>)
    ensures
        nl_count(a + b) == nl_count(a) + nl_count(b),
    decreases b.len(),
{
    if b.len() == 0 {
        assert(a + b =~= a);
    } else {
        lemma_nl_count_concat(a, b.drop_last());
        assert((a + b).drop_last() =~= a + b.drop_last());
        assert((a + b).last() == b.last());
    }
}

proof fn lemma_digit_not_nl(d: nat)
    ensures
        dec_digit(d) != '\n',
        hex_digit(d) != '\n',
{
}

proof fn lemma_nl_single(c: char)
    requires
        c != '\n',
    ensures
        nl_count(seq![c]) == 0,
{
    assert(seq![c].drop_last() =~= Seq::<char>::empty());
    assert(seq![c].last() == c);
    assert(nl_count(Seq::<char>::empty()) == 0);
}

proof fn lemma_dec_chars_no_nl(n: nat)
    ensures
        nl_count(dec_chars(n)) == 0,
    decreases n,
{
    lemma_digit_not_nl(n);
    lemma_digit_not_nl(n % 10);
    lemma_nl_single(dec_digit(n));
    lemma_nl_single(dec_digit(n % 10));
    if n >= 10 {
        lemma_dec_chars_no_nl(n / 10);
        lemma_nl_count_concat(dec_chars(n / 10), seq![dec_digit(n % 10)]);
    }
}

proof fn lemma_hex_chars_no_nl(n: nat, w: nat)
    ensures
        nl_count(hex_chars(n, w)) == 0,
    decreases n + w,
{
    lemma_digit_not_nl(n);
    lemma_digit_not_nl(n % 16);
    lemma_nl_single(hex_digit(n));
    lemma_nl_single(hex_digit(n % 16));
    if !(n < 16 && w <= 1) {
        let w2: nat = if w == 0 {
            0nat
        } else {
            (w - 1) as nat
        };
        lemma_hex_chars_no_nl(n / 16, w2);
        lemma_nl_count_concat(hex_chars(n / 16, w2), seq![hex_digit(n % 16)]);
    }
}

/// Newline counts of the fixed pieces of the document.
proof fn lemma_literal_nl_counts()
    ensures
        nl_count("-- "@) == 0,
        nl_count(" \n\n"@) == 2,
        nl_count("DEPTH = "@) == 0,
        nl_count(";\n"@) == 1,
        nl_count("WIDTH = 1;\n"@) == 1,
        nl_count("ADDRESS_RADIX = HEX;\n"@) == 1,
        nl_count("DATA_RADIX = HEX;\n\n"@) == 2,
        nl_count("CONTENT\n"@) == 1,
        nl_count("BEGIN\n\n"@) == 2,
        nl_count(" : "@) == 0,
        nl_count("\nEND;\n"@) == 2,
{
    reveal_strlit("-- ");
    reveal_strlit(" \n\n");
    reveal_strlit("DEPTH = ");
    reveal_strlit(";\n");
    reveal_strlit("WIDTH = 1;\n");
    reveal_strlit("ADDRESS_RADIX = HEX;\n");
    reveal_strlit("DATA_RADIX = HEX;\n\n");
    reveal_strlit("CONTENT\n");
    reveal_strlit("BEGIN\n\n");
    reveal_strlit(" : ");
    reveal_strlit("\nEND;\n");
    reveal_with_fuel(nl_count, 25);
}

proof fn lemma_header_nl(name: Seq<char>, depth: nat)
    ensures
        nl_count(mif_header(name, depth)) == 10 + nl_count(name),
{
    lemma_literal_nl_counts();
    lemma_dec_chars_no_nl(depth);
    let a1 = "-- "@;
    let a2 = a1 + name;
    let a3 = a2 + " \n\n"@;
    let a4 = a3 + "DEPTH = "@;
    let a5 = a4 + dec_chars(depth);
    let a6 = a5 + ";\n"@;
    let a7 = a6 + "WIDTH = 1;\n"@;
    let a8 = a7 + "ADDRESS_RADIX = HEX;\n"@;
    let a9 = a8 + "DATA_RADIX = HEX;\n\n"@;
    let a10 = a9 + "CONTENT\n"@;
    lemma_nl_count_concat(a1, name);
    lemma_nl_count_concat(a2, " \n\n"@);
    lemma_nl_count_concat(a3, "DEPTH = "@);
    lemma_nl_count_concat(a4, dec_chars(depth));
    lemma_nl_count_concat(a5, ";\n"@);
    lemma_nl_count_concat(a6, "WIDTH = 1;\n"@);
    lemma_nl_count_concat(a7, "ADDRESS_RADIX = HEX;\n"@);
    lemma_nl_count_concat(a8, "DATA_RADIX = HEX;\n\n"@);
    lemma_nl_count_concat(a9, "CONTENT\n"@);
    lemma_nl_count_concat(a10, "BEGIN\n\n"@);
}

proof fn lemma_content_lines_nl(data: Seq<u8>, n: int)
    requires
        0 <= n <= data.len(),
    ensures
        nl_count(content_lines(data, n)) == n,
    decreases n,
{
    if n > 0 {
        lemma_content_lines_nl(data, n - 1);
        lemma_literal_nl_counts();
        lemma_hex_chars_no_nl((((n - 1) * 8)) as nat, 4);
        lemma_hex_chars_no_nl(data[n - 1] as nat, 2);
        let b1 = hex_chars((((n - 1) * 8)) as nat, 4);
        let b2 = b1 + " : "@;
        let b3 = b2 + hex_chars(data[n - 1] as nat, 2);
        lemma_nl_count_concat(b1, " : "@);
        lemma_nl_count_concat(b2, hex_chars(data[n - 1] as nat, 2));
        lemma_nl_count_concat(b3, ";\n"@);
        lemma_nl_count_concat(content_lines(data, n - 1), content_line(data, n - 1));
    }
}

/// The document's line count: twelve fixed lines — the ten-line header
/// block, blank lines included, and the blank-plus-`END;` trailer — plus one
/// content line per buffer byte. Any newline inside the display name adds to
/// the count; a file name free of newlines gives exactly
/// `12 + data.len()` lines.
pub proof fn lemma_mif_line_count(name: Seq<char>, data: Seq<u8>)
    ensures
        nl_count(mif_doc(name, data)) == 12 + data.len() + nl_count(name),
{
    lemma_header_nl(name, data.len());
    lemma_content_lines_nl(data, data.len() as int);
    lemma_literal_nl_counts();
    lemma_nl_count_concat(mif_header(name, data.len()), content_lines(data, data.len() as int));
    lemma_nl_count_concat(
        mif_header(name, data.len()) + content_lines(data, data.len() as int),
        "\nEND;\n"@,
    );
}

/// The one-character string for the uppercase hexadecimal digit `d`.
fn hex_digit_str(d: usize) -> (r: &'static str)
    requires
        d < 16,
    ensures
        r@ == seq![hex_digit(d as nat)],
{
    proof {
        reveal_strlit("0");
        reveal_strlit("1");
        reveal_strlit("2");
        reveal_strlit("3");
        reveal_strlit("4");
        reveal_strlit("5");
        reveal_strlit("6");
        reveal_strlit("7");
        reveal_strlit("8");
        reveal_strlit("9");
        reveal_strlit("A");
        reveal_strlit("B");
        reveal_strlit("C");
        reveal_strlit("D");
        reveal_strlit("E");
        reveal_strlit("F");
    }
    let r = if d == 0 {
        "0"
    } else if d == 1 {
        "1"
    } else if d == 2 {
        "2"
    } else if d == 3 {
        "3"
    } else if d == 4 {
        "4"
    } else if d == 5 {
        "5"
    } else if d == 6 {
        "6"
    } else if d == 7 {
        "7"
    } else if d == 8 {
        "8"
    } else if d == 9 {
        "9"
    } else if d == 10 {
        "A"
    } else if d == 11 {
        "B"
    } else if d == 12 {
        "C"
    } else if d == 13 {
        "D"
    } else if d == 14 {
        "E"
    } else {
        "F"
    };
    proof {
        assert(r@ =~= seq![hex_digit(d as nat)]);
    }
    r
}

/// Appends the uppercase hexadecimal rendering of `n`, left-padded with
/// zeros to at least `w` digits.
fn push_hex(out: &mut String, n: usize, w: usize)
    ensures
        final(out)@ == old(out)@ + hex_chars(n as nat, w as nat),
    decreases n + w,
{
    if n < 16 && w <= 1 {
        out.append(hex_digit_str(n));
        proof {
            assert(out@ =~= old(out)@ + hex_chars(n as nat, w as nat));
        }
    } else {
        let w2 = if w == 0 {
            0
        } else {
            w - 1
        };
        push_hex(out, n / 16, w2);
        out.append(hex_digit_str(n % 16));
        proof {
            assert(out@ =~= old(out)@ + hex_chars(n as nat, w as nat));
        }
    }
}

/// Appends the decimal rendering of `n`.
fn push_dec(out: &mut String, n: usize)
    ensures
        final(out)@ == old(out)@ + dec_chars(n as nat),
    decreases n,
{
    if n < 10 {
        out.append(hex_digit_str(n));
        proof {
            assert(out@ =~= old(out)@ + dec_chars(n as nat));
        }
    } else {
        push_dec(out, n / 10);
        out.append(hex_digit_str(n % 10));
        proof {
            assert(out@ =~= old(out)@ + dec_chars(n as nat));
        }
    }
}

/// Serializes the output buffer as a MIF document, exactly the text
/// `mif_doc` describes.
pub fn mif_document(name: &str, data: &Vec<u8>) -> (doc: String)
    requires
        data@.len() * 8 <= usize::MAX,
    ensures
        doc@ == mif_doc(name@, data@),
{
    let mut out = String::new();
    out.append("-- ");
    out.append(name);
    out.append(" \n\n");
    out.append("DEPTH = ");
    push_dec(&mut out, data.len());
    out.append(";\n");
    out.append("WIDTH = 1;\n");
    out.append("ADDRESS_RADIX = HEX;\n");
    out.append("DATA_RADIX = HEX;\n\n");
    out.append("CONTENT\n");
    out.append("BEGIN\n\n");
    proof {
        assert(out@ =~= mif_header(name@, data@.len()));
    }
    let n = data.len();
    let mut i: usize = 0;
    while i < n
        invariant
            0 <= i <= n,
            n == data@.len(),
            n * 8 <= usize::MAX,
            out@ == mif_header(name@, data@.len()) + content_lines(data@, i as int),
        decreases n - i,
    {
        push_hex(&mut out, i * 8, 4);
        out.append(" : ");
        push_hex(&mut out, data[i] as usize, 2);
        out.append(";\n");
        proof {
            assert(out@ =~= mif_header(name@, data@.len()) + content_lines(data@, i + 1));
        }
        i = i + 1;
    }
    out.append("\nEND;\n");
    proof {
        assert(out@ =~= mif_doc(name@, data@));
    }
    out
}

} // verus!
