//! Splitting by count: a range of lines or of bytes is cut into chunks of a
//! fixed number of units, one file per chunk.

use crate::text::same_text;
use crate::output::{chunk_name, files_view, make_chunk_name, OutputFile};
use crate::source::{
    lemma_line_end_bounds, lemma_skip_lines_at_end, lemma_skip_lines_bounds,
    lemma_skip_lines_split, line_end, lineloop, skip_lines, ByteSource, LINE_END,
};
use vstd::prelude::*;
use vstd::slice::{slice_subrange, slice_to_vec};

verus! {

/// The number of units from the `lower`-th to the `upper`-th, both counted.
pub open spec fn unit_count(lower: int, upper: int) -> nat {
    if lower <= upper {
        (upper - lower + 1) as nat
    } else {
        0
    }
}

/// The number of units that lie before the `lower`-th.
pub open spec fn units_before(lower: int) -> nat {
    if lower > 1 {
        (lower - 1) as nat
    } else {
        0
    }
}

/// The number of units counted into the next chunk when `left` units remain
/// to be taken: `size`, or all that remain where those are fewer. A size of
/// zero is never reached, so that everything goes into one chunk.
pub open spec fn chunk_units(size: nat, left: nat) -> nat {
    if size == 0 || size > left {
        left
    } else {
        size
    }
}

/// Where the chunk that starts at `pos` and counts `units` units ends. By
/// lines, after that many lines. By bytes, after that many bytes and then
/// after the line in which the last of them lies.
pub open spec fn chunk_end(input: Seq<u8>, pos: int, units: nat, bytes: bool) -> int {
    if bytes {
        line_end(
            input,
            if pos + units <= input.len() {
                pos + units
            } else {
                input.len() as int
            },
        )
    } else {
        skip_lines(input, pos, units)
    }
}

/// The chunks cut from `pos` on while `left` units remain to be taken.
pub open spec fn chunks_from(input: Seq<u8>, pos: int, left: nat, size: nat, bytes: bool) -> Seq<
    Seq<u8>,
>
    decreases left,
{
    if left == 0 || pos < 0 || pos >= input.len() {
        Seq::empty()
    } else {
        let units = chunk_units(size, left);
        let end = chunk_end(input, pos, units, bytes);
        seq![input.subrange(pos, end)] + chunks_from(
            input,
            end,
            (left - units) as nat,
            size,
            bytes,
        )
    }
}

/// The position behind the last chunk cut from `pos` on.
pub open spec fn covered_end(input: Seq<u8>, pos: int, left: nat, size: nat, bytes: bool) -> int
    decreases left,
{
    if left == 0 || pos < 0 || pos >= input.len() {
        pos
    } else {
        let units = chunk_units(size, left);
        covered_end(
            input,
            chunk_end(input, pos, units, bytes),
            (left - units) as nat,
            size,
            bytes,
        )
    }
}

/// Where the first chunk starts: behind the units before the `lower`-th, or
/// at the end of the input where it has no more.
pub open spec fn start_pos(input: Seq<u8>, lower: int, bytes: bool) -> int {
    if bytes {
        if units_before(lower) <= input.len() {
            units_before(lower) as int
        } else {
            input.len() as int
        }
    } else {
        skip_lines(input, 0, units_before(lower))
    }
}

/// The chunks of a run: by lines or by bytes as `method` says, and none for
/// any other method.
pub open spec fn chunk_plan(input: Seq<u8>, lower: int, upper: int, size: nat, method: Seq<char>) -> Seq<
    Seq<u8>,
> {
    if method == "lines"@ {
        chunks_from(input, start_pos(input, lower, false), unit_count(lower, upper), size, false)
    } else if method == "bytes"@ {
        chunks_from(input, start_pos(input, lower, true), unit_count(lower, upper), size, true)
    } else {
        Seq::empty()
    }
}

/// The chunks as files, named by their place in the order, from zero.
pub open spec fn numbered(base: Seq<char>, chunks: Seq<Seq<u8>>) -> Seq<(Seq<char>, Seq<u8>)> {
    Seq::new(chunks.len(), |i: int| (chunk_name(base, i as nat), chunks[i]))
}

/// The chunks one after the other.
pub open spec fn joined(chunks: Seq<Seq<u8>>) -> Seq<u8>
    decreases chunks.len(),
{
    if chunks.len() == 0 {
        Seq::empty()
    } else {
        chunks[0] + joined(chunks.drop_first())
    }
}

/// The number of line terminators in `s`.
pub open spec fn terminators(s: Seq<u8>) -> nat
    decreases s.len(),
{
    if s.len() == 0 {
        0
    } else {
        terminators(s.drop_last()) + if s.last() == LINE_END {
            1nat
        } else {
            0nat
        }
    }
}

/// A chunk ends after its start and within the input.
pub proof fn lemma_chunk_end_bounds(input: Seq<u8>, pos: int, units: nat, bytes: bool)
    requires
        0 <= pos < input.len(),
        units > 0,
    ensures
        pos < chunk_end(input, pos, units, bytes) <= input.len(),
        bytes ==> pos + units <= chunk_end(input, pos, units, bytes) || chunk_end(
            input,
            pos,
            units,
            bytes,
        ) == input.len(),
        bytes && chunk_end(input, pos, units, bytes) < input.len() ==> input[chunk_end(
            input,
            pos,
            units,
            bytes,
        ) - 1] == LINE_END,
{
    if bytes {
        let raw: int = if pos + units <= input.len() {
            pos + units
        } else {
            input.len() as int
        };
        lemma_line_end_bounds(input, raw);
    } else {
        lemma_skip_lines_bounds(input, pos, units);
    }
}

/// The chunks cut from a position on, put together, are one stretch of the
/// input that starts there: no byte is left out and none is there twice. By
/// lines the stretch is exactly the `left` lines from `pos` on. By bytes it
/// holds at least the `left` bytes from `pos` on, as far as the input goes.
pub proof fn lemma_chunks_cover(input: Seq<u8>, pos: int, left: nat, size: nat, bytes: bool)
    requires
        0 <= pos <= input.len(),
    ensures
        pos <= covered_end(input, pos, left, size, bytes) <= input.len(),
        joined(chunks_from(input, pos, left, size, bytes)) == input.subrange(
            pos,
            covered_end(input, pos, left, size, bytes),
        ),
        !bytes ==> covered_end(input, pos, left, size, bytes) == skip_lines(input, pos, left),
        bytes ==> pos + left <= covered_end(input, pos, left, size, bytes) || covered_end(
            input,
            pos,
            left,
            size,
            bytes,
        ) == input.len(),
        bytes && chunks_from(input, pos, left, size, bytes).len() > 0 ==> covered_end(
            input,
            pos,
            left,
            size,
            bytes,
        ) == input.len() || input[covered_end(input, pos, left, size, bytes) - 1] == LINE_END,
    decreases left,
{
    let chunks = chunks_from(input, pos, left, size, bytes);
    if left == 0 || pos >= input.len() {
        assert(joined(chunks) =~= input.subrange(pos, pos));
        lemma_skip_lines_at_end(input, left);
    } else {
        let units = chunk_units(size, left);
        let end = chunk_end(input, pos, units, bytes);
        let rest = chunks_from(input, end, (left - units) as nat, size, bytes);
        lemma_chunk_end_bounds(input, pos, units, bytes);
        lemma_chunks_cover(input, end, (left - units) as nat, size, bytes);
        lemma_skip_lines_split(input, pos, units, (left - units) as nat);
        assert(chunks[0] == input.subrange(pos, end));
        assert(chunks.drop_first() =~= rest);
        assert(joined(chunks) =~= input.subrange(
            pos,
            covered_end(input, pos, left, size, bytes),
        ));
    }
}

/// By lines, the files of a run put together are exactly the lines of the
/// input from the `lower`-th to the `upper`-th.
pub proof fn lemma_line_files_are_the_range(input: Seq<u8>, lower: int, upper: int, size: nat)
    ensures
        joined(chunk_plan(input, lower, upper, size, "lines"@)) == input.subrange(
            skip_lines(input, 0, units_before(lower)),
            skip_lines(input, 0, units_before(lower) + unit_count(lower, upper)),
        ),
{
    let start = skip_lines(input, 0, units_before(lower));
    lemma_skip_lines_bounds(input, 0, units_before(lower));
    lemma_chunks_cover(input, start, unit_count(lower, upper), size, false);
    lemma_skip_lines_split(input, 0, units_before(lower), unit_count(lower, upper));
}

/// By bytes, the files of a run put together are one stretch of the input.
/// It starts at the `lower`-th byte, holds every byte up to the `upper`-th
/// that the input has, and, where there is a file at all, ends at the end of
/// a line or of the input.
pub proof fn lemma_byte_files_are_a_stretch(input: Seq<u8>, lower: int, upper: int, size: nat)
    ensures
        ({
            let start = start_pos(input, lower, true);
            let end = covered_end(input, start, unit_count(lower, upper), size, true);
            let plan = chunk_plan(input, lower, upper, size, "bytes"@);
            &&& 0 <= start <= end <= input.len()
            &&& joined(plan) == input.subrange(start, end)
            &&& start + unit_count(lower, upper) <= end || end == input.len()
            &&& plan.len() > 0 ==> end == input.len() || input[end - 1] == LINE_END
        }),
{
    reveal_strlit("bytes");
    reveal_strlit("lines");
    assert("bytes"@[0] != "lines"@[0]);
    lemma_chunks_cover(input, start_pos(input, lower, true), unit_count(lower, upper), size, true);
}

/// No chunk is empty, and by bytes every chunk but the last ends with a line
/// terminator: no file but the last can end within a line.
pub proof fn lemma_byte_chunks_end_lines(
    input: Seq<u8>,
    pos: int,
    left: nat,
    size: nat,
    bytes: bool,
    i: int,
)
    requires
        0 <= pos <= input.len(),
        0 <= i < chunks_from(input, pos, left, size, bytes).len(),
    ensures
        chunks_from(input, pos, left, size, bytes)[i].len() > 0,
        bytes && i < chunks_from(input, pos, left, size, bytes).len() - 1 ==> chunks_from(
            input,
            pos,
            left,
            size,
            bytes,
        )[i].last() == LINE_END,
    decreases left,
{
    let units = chunk_units(size, left);
    let end = chunk_end(input, pos, units, bytes);
    let chunks = chunks_from(input, pos, left, size, bytes);
    let rest = chunks_from(input, end, (left - units) as nat, size, bytes);
    lemma_chunk_end_bounds(input, pos, units, bytes);
    assert(chunks == seq![input.subrange(pos, end)] + rest);
    if i > 0 {
        lemma_byte_chunks_end_lines(input, end, (left - units) as nat, size, bytes, i - 1);
        assert(chunks[i] == rest[i - 1]);
    } else {
        assert(chunks[0] == input.subrange(pos, end));
        if bytes && rest.len() > 0 {
            assert(end < input.len());
            assert(input.subrange(pos, end).last() == input[end - 1]);
        }
    }
}

/// A stretch without a line terminator counts none.
proof fn lemma_no_terminators(s: Seq<u8>)
    requires
        forall|i: int| 0 <= i < s.len() ==> s[i] != LINE_END,
    ensures
        terminators(s) == 0,
    decreases s.len(),
{
    if s.len() > 0 {
        lemma_no_terminators(s.drop_last());
    }
}

/// The terminators of two stretches put together are those of both.
proof fn lemma_terminators_concat(a: Seq<u8>, b: Seq<u8>)
    ensures
        terminators(a + b) == terminators(a) + terminators(b),
    decreases b.len(),
{
    if b.len() == 0 {
        assert(a + b =~= a);
    } else {
        assert((a + b).drop_last() =~= a + b.drop_last());
        lemma_terminators_concat(a, b.drop_last());
    }
}

/// Lines that end before the end of the input are whole: `count` of them
/// hold `count` terminators, the last byte being one.
pub proof fn lemma_whole_lines(input: Seq<u8>, pos: int, count: nat)
    requires
        0 <= pos <= input.len(),
        count > 0,
        skip_lines(input, pos, count) < input.len(),
    ensures
        pos < skip_lines(input, pos, count),
        terminators(input.subrange(pos, skip_lines(input, pos, count))) == count,
        input[skip_lines(input, pos, count) - 1] == LINE_END,
    decreases count,
{
    let mid = line_end(input, pos);
    let end = skip_lines(input, pos, count);
    lemma_line_end_bounds(input, pos);
    lemma_skip_lines_bounds(input, mid, (count - 1) as nat);
    let first = input.subrange(pos, mid);
    assert(first.drop_last() =~= input.subrange(pos, mid - 1));
    lemma_no_terminators(first.drop_last());
    assert(terminators(first) == 1);
    if count == 1 {
        assert(end == mid);
    } else {
        lemma_whole_lines(input, mid, (count - 1) as nat);
        lemma_terminators_concat(first, input.subrange(mid, end));
        assert(first + input.subrange(mid, end) =~= input.subrange(pos, end));
    }
}

/// By lines, every file but the last holds exactly `size` lines, each with
/// its terminator.
pub proof fn lemma_line_chunks_are_full(input: Seq<u8>, pos: int, left: nat, size: nat, i: int)
    requires
        0 <= pos <= input.len(),
        size > 0,
        0 <= i < chunks_from(input, pos, left, size, false).len() - 1,
    ensures
        terminators(chunks_from(input, pos, left, size, false)[i]) == size,
        chunks_from(input, pos, left, size, false)[i].last() == LINE_END,
    decreases left,
{
    let units = chunk_units(size, left);
    let end = chunk_end(input, pos, units, false);
    let chunks = chunks_from(input, pos, left, size, false);
    let rest = chunks_from(input, end, (left - units) as nat, size, false);
    lemma_chunk_end_bounds(input, pos, units, false);
    assert(chunks == seq![input.subrange(pos, end)] + rest);
    if i > 0 {
        lemma_line_chunks_are_full(input, end, (left - units) as nat, size, i - 1);
        assert(chunks[i] == rest[i - 1]);
    } else {
        assert(chunks[0] == input.subrange(pos, end));
        assert(rest.len() > 0);
        assert(end < input.len() && units == size);
        lemma_whole_lines(input, pos, units);
        assert(input.subrange(pos, end).last() == input[end - 1]);
    }
}

/// By lines, every file of a run but the last holds exactly `size` lines,
/// each with its terminator.
pub proof fn lemma_line_files_are_full(input: Seq<u8>, lower: int, upper: int, size: nat, i: int)
    requires
        size > 0,
        0 <= i < chunk_plan(input, lower, upper, size, "lines"@).len() - 1,
    ensures
        terminators(chunk_plan(input, lower, upper, size, "lines"@)[i]) == size,
        chunk_plan(input, lower, upper, size, "lines"@)[i].last() == LINE_END,
{
    lemma_skip_lines_bounds(input, 0, units_before(lower));
    lemma_line_chunks_are_full(
        input,
        start_pos(input, lower, false),
        unit_count(lower, upper),
        size,
        i,
    );
}

/// By bytes, no file of a run is empty and every file but the last ends with
/// a line terminator: a line is never split between two files.
pub proof fn lemma_byte_files_end_lines(input: Seq<u8>, lower: int, upper: int, size: nat, i: int)
    requires
        0 <= i < chunk_plan(input, lower, upper, size, "bytes"@).len(),
    ensures
        chunk_plan(input, lower, upper, size, "bytes"@)[i].len() > 0,
        i < chunk_plan(input, lower, upper, size, "bytes"@).len() - 1 ==> chunk_plan(
            input,
            lower,
            upper,
            size,
            "bytes"@,
        )[i].last() == LINE_END,
{
    reveal_strlit("bytes");
    reveal_strlit("lines");
    assert("bytes"@[0] != "lines"@[0]);
    lemma_byte_chunks_end_lines(
        input,
        start_pos(input, lower, true),
        unit_count(lower, upper),
        size,
        true,
        i,
    );
}

/// Where the last unit lies before the first, there is no file.
pub proof fn lemma_inverted_range_is_empty(
    input: Seq<u8>,
    lower: int,
    upper: int,
    size: nat,
    method: Seq<char>,
)
    requires
        lower > upper,
    ensures
        chunk_plan(input, lower, upper, size, method).len() == 0,
{
}

/// Reads up to `count` lines from the source and appends them to `content`.
fn read_lines(lines: &mut ByteSource<'_>, count: u128, content: &mut Vec<u8>)
    requires
        old(lines).wf(),
    ensures
        final(lines).wf(),
        final(lines).data@ == old(lines).data@,
        final(lines).pos == skip_lines(old(lines).data@, old(lines).pos as int, count as nat),
        final(content)@ == old(content)@ + old(lines).data@.subrange(
            old(lines).pos as int,
            final(lines).pos as int,
        ),
{
    let ghost data = lines.data@;
    let ghost start = lines.pos as int;
    let mut taken: u128 = 0;
    assert(content@ =~= old(content)@ + data.subrange(start, start));
    while taken < count && !lines.is_exhausted()
        invariant
            lines.wf(),
            lines.data@ == data,
            data == old(lines).data@,
            start == old(lines).pos,
            taken <= count,
            start <= lines.pos,
            lines.pos == skip_lines(data, start, taken as nat),
            content@ == old(content)@ + data.subrange(start, lines.pos as int),
        decreases data.len() - lines.pos,
    {
        let ghost here = lines.pos as int;
        proof {
            lemma_line_end_bounds(data, here);
            lemma_skip_lines_split(data, start, taken as nat, 1);
            assert(skip_lines(data, here, 1) == skip_lines(data, line_end(data, here), 0));
        }
        let line = lineloop(lines);
        content.extend_from_slice(line.as_slice());
        taken = taken + 1;
        assert(content@ =~= old(content)@ + data.subrange(start, lines.pos as int));
    }
    proof {
        if taken < count {
            lemma_skip_lines_split(data, start, taken as nat, (count - taken) as nat);
            lemma_skip_lines_at_end(data, (count - taken) as nat);
        }
    }
}

/// Cuts the units from the `lbound`-th to the `ubound`-th of `input` into
/// chunks of `size` units, by lines or by bytes as `m` says, and returns one
/// file for each chunk, named after `filebase` and the chunk's number.
pub fn linebyte_split(
    input: &[u8],
    filebase: &str,
    lbound: u64,
    ubound: u64,
    size: u64,
    m: &str,
) -> (files: Vec<OutputFile>)
    ensures
        files_view(files@) == numbered(
            filebase@,
            chunk_plan(input@, lbound as int, ubound as int, size as nat, m@),
        ),
{
    let mut files: Vec<OutputFile> = Vec::new();
    let ghost plan = chunk_plan(input@, lbound as int, ubound as int, size as nat, m@);
    let by_lines = same_text(m, "lines");
    let by_bytes = !by_lines && same_text(m, "bytes");
    if !(by_lines || by_bytes) || lbound > ubound {
        assert(files_view(files@) =~= numbered(filebase@, plan));
        return files;
    }
    let mut lines = ByteSource::new(input);
    let to_skip: u64 = if lbound > 1 {
        lbound - 1
    } else {
        0
    };
    if by_bytes {
        if to_skip as u128 <= input.len() as u128 {
            lines.seek(to_skip as usize);
        } else {
            lines.seek(input.len());
        }
    } else {
        let mut dropped: Vec<u8> = Vec::new();
        read_lines(&mut lines, to_skip as u128, &mut dropped);
    }
    let mut x: u64 = lbound;
    let mut finished = false;
    let ghost mut cut: Seq<Seq<u8>> = Seq::empty();
    assert(plan =~= cut + plan);
    assert(files_view(files@) =~= numbered(filebase@, cut));
    while !finished && !lines.is_exhausted()
        invariant
            lines.wf(),
            lines.data@ == input@,
            lbound <= x <= ubound,
            files@.len() == cut.len(),
            files@.len() <= lines.pos,
            files_view(files@) == numbered(filebase@, cut),
            finished ==> plan == cut,
            !finished ==> plan == cut + chunks_from(
                input@,
                lines.pos as int,
                unit_count(x as int, ubound as int),
                size as nat,
                by_bytes,
            ),
        decreases input@.len() - lines.pos + (if finished { 0int } else { 1int }),
    {
        let ghost pos = lines.pos as int;
        let ghost left = unit_count(x as int, ubound as int);
        let ghost shown = files_view(files@);
        let start = lines.position();
        let room: u64 = ubound - x;
        let last: bool = size == 0 || size - 1 >= room;
        let units: u128 = if last {
            room as u128 + 1
        } else {
            size as u128
        };
        assert(units == chunk_units(size as nat, left));
        proof {
            lemma_chunk_end_bounds(input@, pos, units as nat, by_bytes);
        }
        let mut content: Vec<u8> = Vec::new();
        if by_bytes {
            if units <= (input.len() - start) as u128 {
                lines.seek(start + (units as usize));
            } else {
                lines.seek(input.len());
            }
            let _ = lineloop(&mut lines);
            content = slice_to_vec(slice_subrange(input, start, lines.position()));
        } else {
            read_lines(&mut lines, units, &mut content);
            assert(content@ =~= input@.subrange(pos, lines.pos as int));
        }
        assert(lines.pos == chunk_end(input@, pos, units as nat, by_bytes));
        let name = make_chunk_name(filebase, files.len() as u64);
        let ghost chunk = content@;
        files.push(OutputFile { name, content });
        proof {
            let rest = chunks_from(
                input@,
                lines.pos as int,
                (left - units) as nat,
                size as nat,
                by_bytes,
            );
            assert(cut + (seq![chunk] + rest) =~= cut.push(chunk) + rest);
            let earlier = cut;
            cut = cut.push(chunk);
            assert forall|i: int| 0 <= i < files@.len() implies files_view(files@)[i] == numbered(
                filebase@,
                cut,
            )[i] by {
                if i < earlier.len() {
                    assert(shown[i] == numbered(filebase@, earlier)[i]);
                }
            }
            assert(files_view(files@) =~= numbered(filebase@, cut));
            if last {
                assert(rest =~= Seq::empty());
                assert(cut + rest =~= cut);
            }
        }
        if last {
            finished = true;
        } else {
            x = x + size;
        }
    }
    proof {
        if !finished {
            assert(cut + Seq::<Seq<u8>>::empty() =~= cut);
        }
    }
    files
}

} // verus!
