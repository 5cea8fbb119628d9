//! The hex-and-ASCII dump shown in the bank preview.
use vstd::prelude::*;
use crate::text::{hex_width, push_char, push_hex_width};

verus! {

/// The character shown for a byte in the ASCII column.
pub open spec fn ascii_cell(b: u8) -> char {
    if 0x20 <= b <= 0x7E {
        b as char
    } else {
        '.'
    }
}

/// The hex column entry at position `i` of a line holding `chunk`: the byte
/// and a space, or three spaces past the end, and an extra space after the
/// eighth entry.
pub open spec fn hex_cell(chunk: Seq<u8>, i: int) -> Seq<char> {
    (if i < chunk.len() {
        hex_width(chunk[i] as nat, 2) + " "@
    } else {
        "   "@
    }) + if i == 7 {
        " "@
    } else {
        Seq::empty()
    }
}

/// The first `n` hex column entries of a line holding `chunk`.
pub open spec fn hex_cells(chunk: Seq<u8>, n: nat) -> Seq<char>
    decreases n,
{
    if n == 0 {
        Seq::empty()
    } else {
        hex_cells(chunk, (n - 1) as nat) + hex_cell(chunk, n - 1)
    }
}

/// One dump line: offset, sixteen hex entries, and the ASCII column.
pub open spec fn dump_line(offset: nat, chunk: Seq<u8>) -> Seq<char> {
    hex_width(offset, 8) + "  "@ + hex_cells(chunk, 16) + " "@ + chunk.map_values(|b: u8| ascii_cell(b))
        + "\n"@
}

/// The dump of `data[pos..end]`, sixteen bytes per line.
pub open spec fn dump_from(data: Seq<u8>, pos: int, end: int) -> Seq<char>
    decreases end - pos,
{
    if pos >= end {
        Seq::empty()
    } else if pos + 16 < end {
        dump_line(pos as nat, data.subrange(pos, pos + 16)) + dump_from(data, pos + 16, end)
    } else {
        dump_line(pos as nat, data.subrange(pos, end))
    }
}

/// The ASCII-column character for `b`.
fn ascii_char(b: u8) -> (c: char)
    ensures
        c == ascii_cell(b),
{
    if 0x20 <= b && b <= 0x7E {
        b as char
    } else {
        '.'
    }
}

/// Hex dump of `data[start..start + len]` (cut at the end of `data`), sixteen
/// bytes per line, each line with its offset and an ASCII column.
pub fn format_hex(data: &[u8], start: usize, len: usize) -> (text: String)
    requires
        start <= data@.len(),
        start + len <= usize::MAX,
    ensures
        text@ == dump_from(
            data@,
            start as int,
            if start + len < data@.len() {
                start + len
            } else {
                data@.len() as int
            },
        ),
{
    let end = if start + len < data.len() {
        start + len
    } else {
        data.len()
    };
    let mut output = String::new();
    let mut pos = start;
    while pos < end
        invariant
            start <= end <= data@.len(),
            start <= pos,
            output@ + dump_from(data@, pos as int, end as int) == dump_from(data@, start as int, end as int),
        decreases end - pos,
    {
        let stop = if end - pos > 16 {
            pos + 16
        } else {
            end
        };
        let ghost before = output@;
        let ghost chunk = data@.subrange(pos as int, stop as int);
        let mut line = String::new();
        push_hex_width(&mut line, pos, 8);
        line.append("  ");
        let mut index: usize = 0;
        while index < 16
            invariant
                pos <= stop <= end <= data@.len(),
                stop - pos <= 16,
                chunk == data@.subrange(pos as int, stop as int),
                index <= 16,
                line@ == hex_width(pos as nat, 8) + "  "@ + hex_cells(chunk, index as nat),
            decreases 16 - index,
        {
            if index < stop - pos {
                push_hex_width(&mut line, data[pos + index] as usize, 2);
                line.append(" ");
            } else {
                line.append("   ");
            }
            if index == 7 {
                line.append(" ");
            }
            index += 1;
            assert(line@ =~= hex_width(pos as nat, 8) + "  "@ + hex_cells(chunk, index as nat));
        }
        line.append(" ");
        let ghost with_hex = line@;
        let mut k = pos;
        while k < stop
            invariant
                pos <= k <= stop <= end <= data@.len(),
                chunk == data@.subrange(pos as int, stop as int),
                line@ == with_hex + chunk.take(k - pos).map_values(|b: u8| ascii_cell(b)),
            decreases stop - k,
        {
            let c = ascii_char(data[k]);
            push_char(&mut line, c);
            k += 1;
            assert(chunk.take(k - pos).map_values(|b: u8| ascii_cell(b)) =~= chunk.take(k - 1 - pos).map_values(
                |b: u8| ascii_cell(b),
            ).push(ascii_cell(chunk[k - 1 - pos])));
        }
        assert(chunk.take(stop - pos) =~= chunk);
        line.append("\n");
        assert(line@ =~= dump_line(pos as nat, chunk));
        output.append(line.as_str());
        if stop == end {
            assert(output@ =~= before + dump_from(data@, pos as int, end as int));
            pos = end;
            assert(output@ + dump_from(data@, pos as int, end as int) =~= output@);
        } else {
            assert(output@ + dump_from(data@, pos + 16, end as int) =~= before + dump_from(
                data@,
                pos as int,
                end as int,
            ));
            pos = pos + 16;
        }
    }
    assert(output@ =~= output@ + dump_from(data@, pos as int, end as int));
    output
}

} // verus!
