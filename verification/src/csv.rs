//! The record store's external representation: one comma-separated line per
//! record — power limit in whole watts, the two offsets, the locked clock
//! range, the integer score, and the average power with two decimals — under
//! a single header line.

use vstd::prelude::*;

use crate::search::RecordSink;
use crate::Record;

verus! {

/// The decimal digit character for `d`.
pub open spec fn dec_digit(d: int) -> char {
    if d == 0 {
        '0'
    } else if d == 1 {
        '1'
    } else if d == 2 {
        '2'
    } else if d == 3 {
        '3'
    } else if d == 4 {
        '4'
    } else if d == 5 {
        '5'
    } else if d == 6 {
        '6'
    } else if d == 7 {
        '7'
    } else if d == 8 {
        '8'
    } else {
        '9'
    }
}

/// The decimal digits of a non-negative number, most significant first.
pub open spec fn dec_nat(n: int) -> Seq<char>
    decreases n,
{
    if n < 10 {
        seq![dec_digit(n)]
    } else {
        dec_nat(n / 10).push(dec_digit(n % 10))
    }
}

/// The decimal rendering of a signed number: a minus sign before the digits
/// of its magnitude when negative.
pub open spec fn dec_int(n: int) -> Seq<char> {
    if n < 0 {
        seq!['-'] + dec_nat(-n)
    } else {
        dec_nat(n)
    }
}

/// The header line written once before the first row of a fresh store.
pub open spec fn header_text() -> Seq<char> {
    "power_limit_w,freq_offset,mem_offset,min_clock,max_clock,score,avg_power_w"@
}

/// One record as a comma-separated line: power limit in whole watts, core
/// and memory offsets, locked clock range, score, and average power in watts
/// with exactly two decimals.
pub open spec fn record_line(r: Record) -> Seq<char> {
    dec_nat(r.config.power_limit as int / 1000) + seq![','] + dec_int(r.config.freq_offset as int)
        + seq![','] + dec_int(r.config.mem_offset as int) + seq![','] + dec_nat(
        r.config.min_clock as int,
    ) + seq![','] + dec_nat(r.config.max_clock as int) + seq![','] + dec_int(r.result.score as int)
        + seq![','] + dec_nat(r.result.avg_power_cw as int / 100) + seq!['.'] + seq![
        dec_digit((r.result.avg_power_cw as int % 100) / 10),
        dec_digit(r.result.avg_power_cw as int % 10),
    ]
}

/// The digit character for one decimal digit.
fn digit_char(d: u64) -> (c: char)
    requires
        d < 10,
    ensures
        c == dec_digit(d as int),
{
    match d {
        0 => '0',
        1 => '1',
        2 => '2',
        3 => '3',
        4 => '4',
        5 => '5',
        6 => '6',
        7 => '7',
        8 => '8',
        _ => '9',
    }
}

/// Appends the decimal digits of `n` to `out`.
fn push_u64_dec(out: &mut Vec<char>, n: u64)
    ensures
        final(out)@ == old(out)@ + dec_nat(n as int),
    decreases n,
{
    if n >= 10 {
        push_u64_dec(out, n / 10);
    }
    out.push(digit_char(n % 10));
    proof {
        if n >= 10 {
            assert(final(out)@ =~= old(out)@ + dec_nat(n as int));
        } else {
            assert(final(out)@ =~= old(out)@ + dec_nat(n as int));
        }
    }
}

/// Appends the decimal rendering of `n` to `out`.
fn push_i64_dec(out: &mut Vec<char>, n: i64)
    ensures
        final(out)@ == old(out)@ + dec_int(n as int),
{
    if n < 0 {
        out.push('-');
        let wide: i128 = -(n as i128);
        let mag: u64 = wide as u64;
        push_u64_dec(out, mag);
        proof {
            assert(final(out)@ =~= old(out)@ + dec_int(n as int));
        }
    } else {
        let mag: u64 = n as u64;
        push_u64_dec(out, mag);
    }
}

/// Renders one record as its comma-separated line.
pub fn format_record(r: &Record) -> (line: Vec<char>)
    ensures
        line@ == record_line(*r),
{
    let mut out: Vec<char> = Vec::new();
    push_u64_dec(&mut out, (r.config.power_limit / 1000) as u64);
    out.push(',');
    push_i64_dec(&mut out, r.config.freq_offset as i64);
    out.push(',');
    push_i64_dec(&mut out, r.config.mem_offset as i64);
    out.push(',');
    push_u64_dec(&mut out, r.config.min_clock as u64);
    out.push(',');
    push_u64_dec(&mut out, r.config.max_clock as u64);
    out.push(',');
    push_i64_dec(&mut out, r.result.score);
    out.push(',');
    push_u64_dec(&mut out, r.result.avg_power_cw / 100);
    out.push('.');
    out.push(digit_char((r.result.avg_power_cw % 100) / 10));
    out.push(digit_char(r.result.avg_power_cw % 10));
    proof {
        assert(out@ =~= record_line(*r));
    }
    out
}

/// Relies on `String`'s `FromIterator` over `char`: collecting the
/// characters of a vector yields a string of exactly those characters.
#[verifier::external_body]
fn chars_to_string(v: &Vec<char>) -> (s: String)
    ensures
        s@ == v@,
{
    v.iter().collect()
}

/// Renders one record as its comma-separated line, as a string.
pub fn record_line_string(r: &Record) -> (s: String)
    ensures
        s@ == record_line(*r),
{
    let line = format_record(r);
    chars_to_string(&line)
}

/// The header line of a fresh store, as a string.
pub fn header_string() -> (s: String)
    ensures
        s@ == header_text(),
{
    String::from_str("power_limit_w,freq_offset,mem_offset,min_clock,max_clock,score,avg_power_w")
}

/// An in-memory record store in the external representation: once the first
/// record arrives, one header line followed by one data line per record, in
/// the order they were handed over.
pub struct CsvLog {
    lines: Vec<String>,
    recs: Ghost<Seq<Record>>,
}

impl CsvLog {
    /// Exactly one header before the first row, then one line per record.
    #[verifier::type_invariant]
    spec fn wf(self) -> bool {
        if self.recs@.len() == 0 {
            self.lines@.len() == 0
        } else {
            &&& self.lines@.len() == self.recs@.len() + 1
            &&& self.lines@[0]@ == header_text()
            &&& forall|i: int|
                0 <= i < self.recs@.len() ==> self.lines@[i + 1]@ == record_line(
                    #[trigger] self.recs@[i],
                )
        }
    }

    /// A fresh, empty store.
    pub fn new() -> (s: CsvLog)
        ensures
            s.rows() == Seq::<Record>::empty(),
    {
        CsvLog { lines: Vec::new(), recs: Ghost(Seq::empty()) }
    }

    /// This store extended by one record, with the header line first when
    /// the store was untouched.
    fn with_record(self, rec: &Record) -> (s: CsvLog)
        ensures
            s.rows() == self.rows().push(*rec),
    {
        proof {
            use_type_invariant(&self);
        }
        let ghost old_self = self;
        let CsvLog { mut lines, recs } = self;
        if lines.len() == 0 {
            lines.push(header_string());
        }
        let line = record_line_string(rec);
        lines.push(line);
        let out = CsvLog { lines, recs: Ghost(recs@.push(*rec)) };
        proof {
            assert forall|i: int| 0 <= i < out.recs@.len() implies out.lines@[i + 1]@
                == record_line(#[trigger] out.recs@[i]) by {
                if i < old_self.recs@.len() {
                    assert(out.lines@[i + 1] == old_self.lines@[i + 1]);
                }
            }
        }
        out
    }

    /// The stored lines: nothing for an untouched store; exactly one header
    /// line followed by one line per received record, in order, otherwise.
    pub fn lines(&self) -> (lines: &Vec<String>)
        ensures
            self.rows().len() == 0 ==> lines@.len() == 0,
            self.rows().len() > 0 ==> {
                &&& lines@.len() == self.rows().len() + 1
                &&& lines@[0]@ == header_text()
                &&& forall|i: int|
                    0 <= i < self.rows().len() ==> lines@[i + 1]@ == record_line(
                        #[trigger] self.rows()[i],
                    )
            },
    {
        proof {
            use_type_invariant(self);
        }
        &self.lines
    }
}

impl RecordSink for CsvLog {
    closed spec fn rows(&self) -> Seq<Record> {
        self.recs@
    }

    fn put(&mut self, rec: &Record) {
        let mut taken = CsvLog::new();
        core::mem::swap(self, &mut taken);
        let updated = taken.with_record(rec);
        *self = updated;
    }
}

} // verus!
