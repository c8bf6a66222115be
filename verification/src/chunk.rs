//! What a chunk of bytes means: its lines, and what taking them in does to
//! an aggregate whose statistics are kept in machine integers.

use crate::aggregate::{aggregate, aggregate_from, observe};
use crate::error::Error;
use crate::record::{parse_record, Record};
use crate::splitter::{is_aligned, NEWLINE};
use crate::values::Stats;
use vstd::prelude::*;

verus! {

/// The lines that a newline has ended in `bytes`, and the bytes behind the
/// last newline.
pub open spec fn scan(bytes: Seq<u8>) -> (Seq<Seq<u8>>, Seq<u8>)
    decreases bytes.len(),
{
    if bytes.len() == 0 {
        (Seq::empty(), Seq::empty())
    } else {
        let (lines, open) = scan(bytes.drop_last());
        if bytes.last() == NEWLINE {
            (lines.push(open), Seq::empty())
        } else {
            (lines, open.push(bytes.last()))
        }
    }
}

/// The lines of a chunk, in order: each run of bytes that a newline ends,
/// and the bytes behind the last newline if there are any.
pub open spec fn lines_of(bytes: Seq<u8>) -> Seq<Seq<u8>> {
    let (lines, open) = scan(bytes);
    if open.len() == 0 {
        lines
    } else {
        lines.push(open)
    }
}

/// What taking in one record does: the aggregate is left as it was, with
/// `Overflow`, where the statistics of the record's key would no longer
/// fit.
pub open spec fn take_record(aggregate: Map<Seq<u8>, Stats>, record: Record) -> (
    Map<Seq<u8>, Stats>,
    Result<(), Error>,
) {
    let next = observe(aggregate, record);
    if next[record.key].fits() {
        (next, Ok(()))
    } else {
        (aggregate, Err(Error::Overflow))
    }
}

/// What taking in one line does: a line that cannot be understood leaves
/// the aggregate as it was.
pub open spec fn take_line(aggregate: Map<Seq<u8>, Stats>, line: Seq<u8>) -> (
    Map<Seq<u8>, Stats>,
    Result<(), Error>,
) {
    match parse_record(line) {
        Ok(record) => take_record(aggregate, record),
        Err(e) => (aggregate, Err(e)),
    }
}

/// What taking in lines in order does: the first line that fails ends it,
/// and the lines behind it are not looked at.
pub open spec fn take_lines(aggregate: Map<Seq<u8>, Stats>, lines: Seq<Seq<u8>>) -> (
    Map<Seq<u8>, Stats>,
    Result<(), Error>,
)
    decreases lines.len(),
{
    if lines.len() == 0 {
        (aggregate, Ok(()))
    } else {
        let (reached, outcome) = take_lines(aggregate, lines.drop_last());
        if outcome is Err {
            (reached, outcome)
        } else {
            take_line(reached, lines.last())
        }
    }
}

/// The records that `lines` write. Meaningful where each line can be
/// understood.
pub open spec fn records_of(lines: Seq<Seq<u8>>) -> Seq<Record> {
    lines.map_values(|line: Seq<u8>| parse_record(line)->Ok_0)
}

/// The aggregate of the records that the lines of `bytes` write.
pub open spec fn chunk_aggregate(bytes: Seq<u8>) -> Map<Seq<u8>, Stats> {
    aggregate(records_of(lines_of(bytes)))
}

/// The lines written out again, each with a newline behind it.
pub open spec fn terminated(lines: Seq<Seq<u8>>) -> Seq<u8>
    decreases lines.len(),
{
    if lines.len() == 0 {
        Seq::empty()
    } else {
        terminated(lines.drop_last()) + lines.last().push(NEWLINE)
    }
}

/// Scanning loses no byte: the ended lines, each with its newline, and
/// then the bytes behind the last newline are the bytes scanned. No line
/// holds a newline.
pub proof fn lemma_scan_keeps_bytes(bytes: Seq<u8>)
    ensures
        terminated(scan(bytes).0) + scan(bytes).1 == bytes,
        !scan(bytes).1.contains(NEWLINE),
        forall|i: int| 0 <= i < scan(bytes).0.len() ==> !(#[trigger] scan(bytes).0[i]).contains(NEWLINE),
    decreases bytes.len(),
{
    if bytes.len() == 0 {
        assert(terminated(scan(bytes).0) + scan(bytes).1 =~= bytes);
    } else {
        let front = bytes.drop_last();
        let (lines, open) = scan(front);
        lemma_scan_keeps_bytes(front);
        assert(front.push(bytes.last()) =~= bytes);
        if bytes.last() == NEWLINE {
            assert(lines.push(open).drop_last() =~= lines);
            assert(terminated(lines.push(open)) + Seq::<u8>::empty() =~= (terminated(lines) + open).push(
                NEWLINE,
            ));
        } else {
            assert(terminated(lines) + open.push(bytes.last()) =~= (terminated(lines) + open).push(
                bytes.last(),
            ));
            assert forall|i: int| 0 <= i < open.push(bytes.last()).len() implies open.push(
                bytes.last(),
            )[i] != NEWLINE by {
                if i < open.len() {
                    assert(open[i] == open.push(bytes.last())[i]);
                    assert(!open.contains(NEWLINE));
                }
            }
        }
    }
}

/// The lines of a chunk are its bytes, parted at the newlines: no line
/// holds a newline, and the lines written out again, each with a newline
/// behind it, are the chunk, with the newline that its last line may lack.
pub proof fn lemma_lines_are_the_bytes(bytes: Seq<u8>)
    ensures
        forall|i: int| 0 <= i < lines_of(bytes).len() ==> !(#[trigger] lines_of(bytes)[i]).contains(NEWLINE),
        terminated(lines_of(bytes)) == if is_aligned(bytes) {
            bytes
        } else {
            bytes.push(NEWLINE)
        },
{
    lemma_scan_keeps_bytes(bytes);
    let (lines, open) = scan(bytes);
    if open.len() == 0 {
        assert(terminated(lines) + open =~= terminated(lines));
        if bytes.len() > 0 && bytes.last() != NEWLINE {
            assert(scan(bytes).1 == scan(bytes.drop_last()).1.push(bytes.last()));
        }
    } else {
        assert(lines.push(open).drop_last() =~= lines);
        assert(terminated(lines) + open.push(NEWLINE) =~= (terminated(lines) + open).push(NEWLINE));
        assert(bytes.last() == open.last());
        assert(open[open.len() - 1] != NEWLINE);
    }
}

/// Behind bytes that end on a newline, scanning starts afresh.
pub proof fn lemma_scan_concat(a: Seq<u8>, b: Seq<u8>)
    requires
        is_aligned(a),
    ensures
        scan(a + b) == (scan(a).0 + scan(b).0, scan(b).1),
    decreases b.len(),
{
    if a.len() == 0 {
        assert(a + b =~= b);
        assert(scan(a).0 + scan(b).0 =~= scan(b).0);
    } else if b.len() == 0 {
        assert(a + b =~= a);
        assert(scan(a).0 + scan(b).0 =~= scan(a).0);
    } else {
        assert((a + b).drop_last() =~= a + b.drop_last());
        lemma_scan_concat(a, b.drop_last());
        let (lines, open) = scan(b.drop_last());
        if b.last() == NEWLINE {
            assert((scan(a).0 + lines).push(open) =~= scan(a).0 + lines.push(open));
        }
    }
}

/// No record is lost or torn where a chunk ends on a newline: the lines of
/// two chunks, one behind the other, are the lines of the first and then
/// the lines of the second.
pub proof fn lemma_lines_concat(a: Seq<u8>, b: Seq<u8>)
    requires
        is_aligned(a),
    ensures
        lines_of(a + b) == lines_of(a) + lines_of(b),
{
    lemma_scan_concat(a, b);
    let (lines, open) = scan(b);
    if open.len() > 0 {
        assert((scan(a).0 + lines).push(open) =~= scan(a).0 + lines.push(open));
    }
}

/// Lines behind a failure change nothing.
pub proof fn lemma_take_lines_stops(
    aggregate: Map<Seq<u8>, Stats>,
    lines: Seq<Seq<u8>>,
    more: Seq<Seq<u8>>,
)
    requires
        take_lines(aggregate, lines).1 is Err,
    ensures
        take_lines(aggregate, lines + more) == take_lines(aggregate, lines),
    decreases more.len(),
{
    if more.len() == 0 {
        assert(lines + more =~= lines);
    } else {
        assert((lines + more).drop_last() =~= lines + more.drop_last());
        lemma_take_lines_stops(aggregate, lines, more.drop_last());
    }
}

/// Lines behind lines that were all taken in are taken in from where those
/// ended.
pub proof fn lemma_take_lines_concat(
    aggregate: Map<Seq<u8>, Stats>,
    lines: Seq<Seq<u8>>,
    more: Seq<Seq<u8>>,
)
    requires
        take_lines(aggregate, lines).1 is Ok,
    ensures
        take_lines(aggregate, lines + more) == take_lines(take_lines(aggregate, lines).0, more),
    decreases more.len(),
{
    if more.len() == 0 {
        assert(lines + more =~= lines);
    } else {
        assert((lines + more).drop_last() =~= lines + more.drop_last());
        lemma_take_lines_concat(aggregate, lines, more.drop_last());
    }
}

/// Taking in two chunks one after the other is taking in the bytes of
/// both, where the first chunk ends on a record's end: a failure in the
/// first ends it, else the second goes on from where the first ended.
pub proof fn lemma_take_chunks(aggregate: Map<Seq<u8>, Stats>, first: Seq<u8>, second: Seq<u8>)
    requires
        is_aligned(first),
    ensures
        take_lines(aggregate, lines_of(first + second)) == if take_lines(
            aggregate,
            lines_of(first),
        ).1 is Ok {
            take_lines(take_lines(aggregate, lines_of(first)).0, lines_of(second))
        } else {
            take_lines(aggregate, lines_of(first))
        },
{
    lemma_lines_concat(first, second);
    if take_lines(aggregate, lines_of(first)).1 is Ok {
        lemma_take_lines_concat(aggregate, lines_of(first), lines_of(second));
    } else {
        lemma_take_lines_stops(aggregate, lines_of(first), lines_of(second));
    }
}

/// Where all lines were taken in, each of them can be understood, and the
/// aggregate is the one that mathematics gives for their records.
pub proof fn lemma_take_lines_ok(aggregate: Map<Seq<u8>, Stats>, lines: Seq<Seq<u8>>)
    requires
        take_lines(aggregate, lines).1 is Ok,
    ensures
        forall|i: int| 0 <= i < lines.len() ==> (#[trigger] parse_record(lines[i])) is Ok,
        take_lines(aggregate, lines).0 == aggregate_from(aggregate, records_of(lines)),
    decreases lines.len(),
{
    if lines.len() > 0 {
        let front = lines.drop_last();
        lemma_take_lines_ok(aggregate, front);
        assert(records_of(lines).drop_last() =~= records_of(front));
        assert forall|i: int| 0 <= i < lines.len() implies (#[trigger] parse_record(lines[i])) is Ok by {
            if i < front.len() {
                assert(lines[i] == front[i]);
            }
        }
    }
}

} // verus!
