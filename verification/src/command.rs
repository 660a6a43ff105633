//! Classifying one line of the interactive prompt: surrounding whitespace is
//! ignored; `latency` renders the dashboard, `quit` or `exit` terminates,
//! `help` lists the commands, an empty line does nothing, and anything else
//! is unknown.

use vstd::prelude::*;
use crate::text::is_blank_byte;

verus! {

/// What one prompt line asks for.
pub enum Command {
    Latency,
    Quit,
    Help,
    Empty,
    Unknown,
}

/// The sequence with trailing whitespace removed.
pub open spec fn trim_end_spec(s: Seq<u8>) -> Seq<u8>
    decreases s.len(),
{
    if s.len() > 0 && is_blank_byte(s.last()) {
        trim_end_spec(s.drop_last())
    } else {
        s
    }
}

/// The sequence with leading whitespace removed.
pub open spec fn trim_start_spec(s: Seq<u8>) -> Seq<u8>
    decreases s.len(),
{
    if s.len() > 0 && is_blank_byte(s[0]) {
        trim_start_spec(s.drop_first())
    } else {
        s
    }
}

/// The sequence with surrounding whitespace removed.
pub open spec fn trim_spec(s: Seq<u8>) -> Seq<u8> {
    trim_start_spec(trim_end_spec(s))
}

pub open spec fn lit_latency() -> Seq<u8> {
    seq!['l' as u8, 'a' as u8, 't' as u8, 'e' as u8, 'n' as u8, 'c' as u8, 'y' as u8]
}

pub open spec fn lit_quit() -> Seq<u8> {
    seq!['q' as u8, 'u' as u8, 'i' as u8, 't' as u8]
}

pub open spec fn lit_exit() -> Seq<u8> {
    seq!['e' as u8, 'x' as u8, 'i' as u8, 't' as u8]
}

pub open spec fn lit_help() -> Seq<u8> {
    seq!['h' as u8, 'e' as u8, 'l' as u8, 'p' as u8]
}

/// The command a prompt line stands for, after trimming.
pub open spec fn parse_command_spec(s: Seq<u8>) -> Command {
    let t = trim_spec(s);
    if t == lit_latency() {
        Command::Latency
    } else if t == lit_quit() || t == lit_exit() {
        Command::Quit
    } else if t == lit_help() {
        Command::Help
    } else if t.len() == 0 {
        Command::Empty
    } else {
        Command::Unknown
    }
}

/// Classify one prompt line, per `parse_command_spec`.
pub fn parse_command(line: &[u8]) -> (c: Command)
    ensures
        c == parse_command_spec(line@),
{
    let mut hi: usize = line.len();
    proof {
        assert(line@.take(line@.len() as int) =~= line@);
    }
    while hi > 0 && crate::text::blank_byte(line[hi - 1])
        invariant
            hi <= line@.len(),
            trim_end_spec(line@) == trim_end_spec(line@.take(hi as int)),
        decreases hi,
    {
        proof {
            assert(line@.take(hi as int).drop_last() =~= line@.take(hi - 1 as int));
        }
        hi = hi - 1;
    }
    proof {
        assert(trim_end_spec(line@) == line@.take(hi as int));
    }
    let mut lo: usize = 0;
    proof {
        assert(line@.take(hi as int) =~= line@.subrange(0, hi as int));
    }
    while lo < hi && crate::text::blank_byte(line[lo])
        invariant
            lo <= hi <= line@.len(),
            trim_spec(line@) == trim_start_spec(line@.subrange(lo as int, hi as int)),
        decreases hi - lo,
    {
        proof {
            assert(line@.subrange(lo as int, hi as int).drop_first() =~= line@.subrange(
                lo + 1 as int,
                hi as int,
            ));
        }
        lo = lo + 1;
    }
    proof {
        assert(trim_spec(line@) == line@.subrange(lo as int, hi as int));
    }
    let t = vstd::slice::slice_subrange(line, lo, hi);
    let mut lit: Vec<u8> = Vec::new();
    lit.push('l' as u8);
    lit.push('a' as u8);
    lit.push('t' as u8);
    lit.push('e' as u8);
    lit.push('n' as u8);
    lit.push('c' as u8);
    lit.push('y' as u8);
    assert(lit@ =~= lit_latency());
    if crate::text::bytes_eq(t, lit.as_slice()) {
        return Command::Latency;
    }
    let mut litq: Vec<u8> = Vec::new();
    litq.push('q' as u8);
    litq.push('u' as u8);
    litq.push('i' as u8);
    litq.push('t' as u8);
    assert(litq@ =~= lit_quit());
    if crate::text::bytes_eq(t, litq.as_slice()) {
        return Command::Quit;
    }
    let mut lite: Vec<u8> = Vec::new();
    lite.push('e' as u8);
    lite.push('x' as u8);
    lite.push('i' as u8);
    lite.push('t' as u8);
    assert(lite@ =~= lit_exit());
    if crate::text::bytes_eq(t, lite.as_slice()) {
        return Command::Quit;
    }
    let mut lith: Vec<u8> = Vec::new();
    lith.push('h' as u8);
    lith.push('e' as u8);
    lith.push('l' as u8);
    lith.push('p' as u8);
    assert(lith@ =~= lit_help());
    if crate::text::bytes_eq(t, lith.as_slice()) {
        return Command::Help;
    }
    if t.len() == 0 {
        return Command::Empty;
    }
    Command::Unknown
}

} // verus!
