//! Turning a chunk of appended bytes into records: split at newlines, skip
//! blank lines silently, parse the rest, and drop (but count) malformed
//! lines, so that a bad line is reported once and never re-delivered.

use vstd::prelude::*;
use crate::record::{Record, RecordView, parse_record, parse_record_spec};
use crate::text::is_blank;

verus! {

/// The lines of a byte stream, accumulating the current line: split at
/// newline bytes; a final unterminated line counts; a trailing newline does
/// not add an empty line.
pub open spec fn lines_acc(s: Seq<u8>, i: int, cur: Seq<u8>) -> Seq<Seq<u8>>
    decreases s.len() - i,
{
    if i < 0 || i >= s.len() {
        if cur.len() == 0 {
            Seq::empty()
        } else {
            seq![cur]
        }
    } else if s[i] == 10 {
        seq![cur] + lines_acc(s, i + 1, Seq::empty())
    } else {
        lines_acc(s, i + 1, cur.push(s[i]))
    }
}

pub open spec fn lines_of(s: Seq<u8>) -> Seq<Seq<u8>> {
    lines_acc(s, 0, Seq::empty())
}

/// Records contributed by one line: none if it is blank or malformed.
pub open spec fn line_records(l: Seq<u8>) -> Seq<RecordView> {
    if is_blank(l) {
        Seq::empty()
    } else {
        match parse_record_spec(l) {
            Some(r) => seq![r],
            None => Seq::empty(),
        }
    }
}

/// A line that should be reported: not blank, yet not a record.
pub open spec fn line_malformed(l: Seq<u8>) -> bool {
    !is_blank(l) && parse_record_spec(l) is None
}

pub open spec fn records_of_lines(ls: Seq<Seq<u8>>) -> Seq<RecordView>
    decreases ls.len(),
{
    if ls.len() == 0 {
        Seq::empty()
    } else {
        records_of_lines(ls.drop_last()) + line_records(ls.last())
    }
}

pub open spec fn malformed_count_of_lines(ls: Seq<Seq<u8>>) -> int
    decreases ls.len(),
{
    if ls.len() == 0 {
        0
    } else {
        malformed_count_of_lines(ls.drop_last()) + if line_malformed(ls.last()) {
            1int
        } else {
            0int
        }
    }
}

/// Every record a chunk of bytes carries, in line order.
pub open spec fn records_of(s: Seq<u8>) -> Seq<RecordView> {
    records_of_lines(lines_of(s))
}

/// An empty chunk carries no records: reading nothing delivers nothing.
pub proof fn lemma_empty_chunk_no_records()
    ensures
        records_of(Seq::<u8>::empty()) == Seq::<RecordView>::empty(),
{
}

/// Split a chunk into its lines.
pub fn split_lines(s: &[u8]) -> (r: Vec<Vec<u8>>)
    ensures
        r.deep_view() == lines_of(s@),
{
    let mut out: Vec<Vec<u8>> = Vec::new();
    let mut cur: Vec<u8> = Vec::new();
    let mut i: usize = 0;
    while i < s.len()
        invariant
            i <= s@.len(),
            lines_of(s@) == out.deep_view() + lines_acc(s@, i as int, cur@),
        decreases s@.len() - i,
    {
        let b = s[i];
        if b == 10 {
            let ghost prev_out = out.deep_view();
            let ghost prev_cur = cur@;
            out.push(cur);
            cur = Vec::new();
            proof {
                assert(out.deep_view() =~~= prev_out.push(prev_cur));
                assert(prev_out + (seq![prev_cur] + lines_acc(s@, i + 1, cur@)) =~= out.deep_view()
                    + lines_acc(s@, i + 1, cur@));
            }
        } else {
            cur.push(b);
        }
        i = i + 1;
    }
    if cur.len() > 0 {
        let ghost prev_out = out.deep_view();
        let ghost prev_cur = cur@;
        out.push(cur);
        proof {
            assert(out.deep_view() =~~= prev_out.push(prev_cur));
            assert(prev_out + seq![prev_cur] =~= out.deep_view());
        }
    } else {
        proof {
            assert(out.deep_view() + Seq::<Seq<u8>>::empty() =~= out.deep_view());
        }
    }
    out
}

/// Parse a chunk of appended bytes: the records of its lines, in order, and
/// how many non-blank lines were malformed (each is skipped, never retried).
pub fn ingest_chunk(chunk: &[u8]) -> (r: (Vec<Record>, usize))
    ensures
        r.0.deep_view() == records_of(chunk@),
        r.1 as int == malformed_count_of_lines(lines_of(chunk@)),
{
    let lines = split_lines(chunk);
    let ghost ldv = lines.deep_view();
    let mut recs: Vec<Record> = Vec::new();
    let mut bad: usize = 0;
    let mut i: usize = 0;
    while i < lines.len()
        invariant
            i <= lines@.len(),
            ldv == lines.deep_view(),
            ldv.len() == lines@.len(),
            forall|j: int| 0 <= j < lines@.len() ==> ldv[j] == lines@[j]@,
            recs.deep_view() == records_of_lines(ldv.take(i as int)),
            bad as int == malformed_count_of_lines(ldv.take(i as int)),
            bad <= i,
        decreases lines@.len() - i,
    {
        proof {
            assert(ldv.take(i + 1 as int).drop_last() =~= ldv.take(i as int));
            assert(ldv.take(i + 1 as int).last() == ldv[i as int]);
        }
        let line = &lines[i];
        if crate::text::is_blank_line(line.as_slice()) {
            assert(recs.deep_view() =~= records_of_lines(ldv.take(i + 1 as int)));
        } else {
            match parse_record(line.as_slice()) {
                Ok(rec) => {
                    let ghost prev = recs.deep_view();
                    let ghost rv = rec@;
                    recs.push(rec);
                    proof {
                        assert(recs.deep_view() =~= prev.push(rv));
                        assert(recs.deep_view() =~= records_of_lines(ldv.take(i + 1 as int)));
                    }
                },
                Err(_) => {
                    bad = bad + 1;
                    assert(recs.deep_view() =~= records_of_lines(ldv.take(i + 1 as int)));
                },
            }
        }
        i = i + 1;
    }
    proof {
        assert(ldv.take(lines@.len() as int) =~= ldv);
    }
    (recs, bad)
}

} // verus!
