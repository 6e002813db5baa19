//! The supported-clocks report: a line-oriented text format in which a line
//! beginning `Graphics` or `Memory` selects a clock axis and every following
//! line that ends in `MHz` contributes one clock value to the selected axis.
//! The format is read byte-wise; lines are trimmed of ASCII whitespace, the
//! only kind the report's producer emits.

use vstd::prelude::*;

use crate::SupportedClocks;

verus! {

/// Whitespace stripped from the ends of a line: the ASCII whitespace bytes
/// other than the line feed, which separates lines.
pub open spec fn is_space(b: u8) -> bool {
    b == 32 || b == 9 || b == 11 || b == 12 || b == 13
}

/// `s` without leading whitespace.
pub open spec fn trim_front(s: Seq<u8>) -> Seq<u8>
    decreases s.len(),
{
    if s.len() > 0 && is_space(s[0]) {
        trim_front(s.skip(1))
    } else {
        s
    }
}

/// `s` without trailing whitespace.
pub open spec fn trim_back(s: Seq<u8>) -> Seq<u8>
    decreases s.len(),
{
    if s.len() > 0 && is_space(s.last()) {
        trim_back(s.drop_last())
    } else {
        s
    }
}

/// `s` without leading or trailing whitespace.
pub open spec fn trim(s: Seq<u8>) -> Seq<u8> {
    trim_front(trim_back(s))
}

/// Whether `p` is a prefix of `s`.
pub open spec fn starts_with(s: Seq<u8>, p: Seq<u8>) -> bool {
    s.len() >= p.len() && forall|j: int| 0 <= j < p.len() ==> s[j] == #[trigger] p[j]
}

/// Whether `p` is a suffix of `s`.
pub open spec fn ends_with(s: Seq<u8>, p: Seq<u8>) -> bool {
    s.len() >= p.len() && forall|j: int|
        0 <= j < p.len() ==> s[s.len() - p.len() + j] == #[trigger] p[j]
}

/// Whether `b` is a decimal digit.
pub open spec fn is_digit(b: u8) -> bool {
    48 <= b <= 57
}

/// Whether every byte of `s` is a decimal digit.
pub open spec fn all_digits(s: Seq<u8>) -> bool {
    forall|j: int| 0 <= j < s.len() ==> is_digit(#[trigger] s[j])
}

/// The number the decimal digits `s` denote, most significant first.
pub open spec fn digits_value(s: Seq<u8>) -> int
    decreases s.len(),
{
    if s.len() == 0 {
        0
    } else {
        digits_value(s.drop_last()) * 10 + (s.last() - 48)
    }
}

/// `s` without its optional leading plus sign.
pub open spec fn numeral_body(s: Seq<u8>) -> Seq<u8> {
    if s.len() > 0 && s[0] == 43 {
        s.skip(1)
    } else {
        s
    }
}

/// Whether `s` is a numeral a 32-bit clock value can be read from: an
/// optional plus sign, then one or more digits, denoting at most `u32::MAX`.
pub open spec fn is_u32_numeral(s: Seq<u8>) -> bool {
    &&& numeral_body(s).len() > 0
    &&& all_digits(numeral_body(s))
    &&& digits_value(numeral_body(s)) <= u32::MAX
}

/// The value a numeral denotes.
pub open spec fn numeral_value(s: Seq<u8>) -> int {
    digits_value(numeral_body(s))
}

/// The length of the first line of `s`: the index of the first line feed,
/// or the whole length when there is none.
pub open spec fn line_end(s: Seq<u8>) -> nat
    decreases s.len(),
{
    if s.len() == 0 {
        0
    } else if s[0] == 10 {
        0
    } else {
        1 + line_end(s.skip(1))
    }
}

/// `s` split at line feeds, the way a line iterator hands lines out: the
/// final fragment appears only when it is not empty.
pub open spec fn split_lines(s: Seq<u8>) -> Seq<Seq<u8>>
    decreases s.len(),
{
    if s.len() == 0 {
        Seq::empty()
    } else {
        let e = line_end(s);
        if e >= s.len() {
            seq![s]
        } else {
            seq![s.take(e as int)] + split_lines(s.skip(e as int + 1))
        }
    }
}

/// Which clock axis the lines read so far have selected.
#[derive(Clone, Copy, Debug, PartialEq, Eq, Structural)]
pub enum AxisMode {
    NoAxis,
    Graphics,
    Memory,
}

/// The bytes of `Graphics`.
pub open spec fn graphics_tag() -> Seq<u8> {
    seq![71u8, 114u8, 97u8, 112u8, 104u8, 105u8, 99u8, 115u8]
}

/// The bytes of `Memory`.
pub open spec fn memory_tag() -> Seq<u8> {
    seq![77u8, 101u8, 109u8, 111u8, 114u8, 121u8]
}

/// The bytes of `MHz`.
pub open spec fn mhz_tag() -> Seq<u8> {
    seq![77u8, 72u8, 122u8]
}

/// The clock values the lines contribute to each axis, in order: a trimmed
/// line beginning `Graphics` or `Memory` selects that axis; any other
/// trimmed line ending in `MHz` whose remainder trims to a numeral
/// contributes its value to the selected axis, and is dropped while no axis
/// is selected.
pub open spec fn collect_clocks(lines: Seq<Seq<u8>>, mode: AxisMode) -> (Seq<u32>, Seq<u32>)
    decreases lines.len(),
{
    if lines.len() == 0 {
        (Seq::empty(), Seq::empty())
    } else {
        let t = trim(lines[0]);
        let rest = lines.skip(1);
        if starts_with(t, graphics_tag()) {
            collect_clocks(rest, AxisMode::Graphics)
        } else if starts_with(t, memory_tag()) {
            collect_clocks(rest, AxisMode::Memory)
        } else if ends_with(t, mhz_tag()) && is_u32_numeral(trim(t.take(t.len() - 3))) {
            let v = numeral_value(trim(t.take(t.len() - 3))) as u32;
            let r = collect_clocks(rest, mode);
            match mode {
                AxisMode::NoAxis => r,
                AxisMode::Graphics => (seq![v] + r.0, r.1),
                AxisMode::Memory => (r.0, seq![v] + r.1),
            }
        } else {
            collect_clocks(rest, mode)
        }
    }
}

/// The two clock tables a supported-clocks report denotes.
pub open spec fn parsed_clocks(text: Seq<u8>) -> (Seq<u32>, Seq<u32>) {
    collect_clocks(split_lines(text), AxisMode::NoAxis)
}

proof fn lemma_line_end_concat(a: Seq<u8>, b: Seq<u8>)
    requires
        forall|j: int| 0 <= j < a.len() ==> a[j] != 10,
    ensures
        line_end(a + b) == a.len() + line_end(b),
    decreases a.len(),
{
    if a.len() == 0 {
        assert(a + b =~= b);
    } else {
        assert((a + b)[0] == a[0]);
        assert((a + b).skip(1) =~= a.skip(1) + b);
        lemma_line_end_concat(a.skip(1), b);
    }
}

/// `line` without leading or trailing whitespace.
fn trimmed(line: &Vec<u8>) -> (t: Vec<u8>)
    ensures
        t@ == trim(line@),
{
    let mut hi: usize = line.len();
    proof {
        assert(line@.take(hi as int) =~= line@);
    }
    while hi > 0 && (line[hi - 1] == 32 || line[hi - 1] == 9 || line[hi - 1] == 11 || line[hi
        - 1] == 12 || line[hi - 1] == 13)
        invariant
            hi <= line.len(),
            trim_back(line@) == trim_back(line@.take(hi as int)),
        decreases hi,
    {
        proof {
            assert(line@.take(hi as int).last() == line@[hi - 1]);
            assert(line@.take(hi as int).drop_last() =~= line@.take(hi - 1));
        }
        hi = hi - 1;
    }
    proof {
        assert(trim_back(line@) == line@.take(hi as int));
    }
    let mut lo: usize = 0;
    while lo < hi && (line[lo] == 32 || line[lo] == 9 || line[lo] == 11 || line[lo] == 12
        || line[lo] == 13)
        invariant
            lo <= hi <= line.len(),
            trim_back(line@) == line@.take(hi as int),
            trim_front(line@.take(hi as int)) == trim_front(line@.subrange(lo as int, hi as int)),
        decreases hi - lo,
    {
        proof {
            assert(line@.subrange(lo as int, hi as int)[0] == line@[lo as int]);
            assert(line@.subrange(lo as int, hi as int).skip(1) =~= line@.subrange(
                lo as int + 1,
                hi as int,
            ));
        }
        lo = lo + 1;
    }
    proof {
        assert(trim(line@) == line@.subrange(lo as int, hi as int));
    }
    let mut t: Vec<u8> = Vec::new();
    let mut j: usize = lo;
    while j < hi
        invariant
            lo <= j <= hi <= line.len(),
            t@ =~= line@.subrange(lo as int, j as int),
        decreases hi - j,
    {
        t.push(line[j]);
        j = j + 1;
    }
    proof {
        assert(t@ =~= line@.subrange(lo as int, hi as int));
        assert(trim(line@) == line@.subrange(lo as int, hi as int));
    }
    t
}

/// Whether `p` is a prefix of `t`.
fn has_prefix(t: &Vec<u8>, p: &Vec<u8>) -> (b: bool)
    ensures
        b == starts_with(t@, p@),
{
    if t.len() < p.len() {
        return false;
    }
    let mut j: usize = 0;
    while j < p.len()
        invariant
            j <= p.len() <= t.len(),
            forall|k: int| 0 <= k < j ==> t@[k] == #[trigger] p@[k],
        decreases p.len() - j,
    {
        if t[j] != p[j] {
            return false;
        }
        j = j + 1;
    }
    true
}

/// Whether `p` is a suffix of `t`.
fn has_suffix(t: &Vec<u8>, p: &Vec<u8>) -> (b: bool)
    ensures
        b == ends_with(t@, p@),
{
    if t.len() < p.len() {
        return false;
    }
    let off: usize = t.len() - p.len();
    let mut j: usize = 0;
    while j < p.len()
        invariant
            j <= p.len() <= t.len(),
            off == t.len() - p.len(),
            forall|k: int| 0 <= k < j ==> t@[off + k] == #[trigger] p@[k],
        decreases p.len() - j,
    {
        if t[off + j] != p[j] {
            return false;
        }
        j = j + 1;
    }
    true
}

/// The first `n` bytes of `t`.
fn take_prefix(t: &Vec<u8>, n: usize) -> (r: Vec<u8>)
    requires
        n <= t@.len(),
    ensures
        r@ == t@.take(n as int),
{
    let mut r: Vec<u8> = Vec::new();
    let mut j: usize = 0;
    while j < n
        invariant
            j <= n <= t@.len(),
            r@ =~= t@.take(j as int),
        decreases n - j,
    {
        r.push(t[j]);
        j = j + 1;
    }
    proof {
        assert(r@ =~= t@.take(n as int));
    }
    r
}

/// Reads a clock value from a numeral, or nothing when the bytes are not a
/// numeral or denote more than a 32-bit value.
fn parse_u32(t: &Vec<u8>) -> (r: Option<u32>)
    ensures
        r == (if is_u32_numeral(t@) {
            Some(numeral_value(t@) as u32)
        } else {
            Option::<u32>::None
        }),
{
    let start: usize = if t.len() > 0 && t[0] == 43 {
        1
    } else {
        0
    };
    proof {
        assert(numeral_body(t@) =~= t@.skip(start as int));
    }
    if t.len() == start {
        return None;
    }
    let mut acc: u64 = 0;
    let mut big = false;
    let mut j: usize = start;
    while j < t.len()
        invariant
            start <= j <= t@.len(),
            numeral_body(t@) =~= t@.skip(start as int),
            all_digits(t@.subrange(start as int, j as int)),
            !big ==> acc == digits_value(t@.subrange(start as int, j as int)) && acc <= u32::MAX,
            big ==> digits_value(t@.subrange(start as int, j as int)) > u32::MAX,
        decreases t@.len() - j,
    {
        let b = t[j];
        if b < 48 || b > 57 {
            proof {
                assert(numeral_body(t@)[j - start] == t@[j as int]);
            }
            return None;
        }
        let d = (b - 48) as u64;
        proof {
            assert(t@.subrange(start as int, j as int + 1).drop_last() =~= t@.subrange(
                start as int,
                j as int,
            ));
            assert(t@.subrange(start as int, j as int + 1).last() == t@[j as int]);
        }
        if big {
            proof {
                assert(digits_value(t@.subrange(start as int, j as int + 1)) > u32::MAX);
            }
        } else {
            acc = acc * 10 + d;
            if acc > 0xffff_ffff {
                big = true;
            }
        }
        j = j + 1;
    }
    proof {
        assert(t@.subrange(start as int, t@.len() as int) =~= t@.skip(start as int));
    }
    if big {
        None
    } else {
        Some(acc as u32)
    }
}

/// `text` split at line feeds.
fn split_into_lines(text: &Vec<u8>) -> (lines: Vec<Vec<u8>>)
    ensures
        lines@.map_values(|v: Vec<u8>| v@) == split_lines(text@),
{
    let mut lines: Vec<Vec<u8>> = Vec::new();
    let mut cur: Vec<u8> = Vec::new();
    let mut i: usize = 0;
    proof {
        assert(lines@.map_values(|v: Vec<u8>| v@) =~= Seq::<Seq<u8>>::empty());
        assert(text@.skip(0) =~= text@);
        assert(Seq::<Seq<u8>>::empty() + split_lines(text@) =~= split_lines(text@));
    }
    while i < text.len()
        invariant
            i <= text@.len(),
            cur@.len() <= i,
            cur@ == text@.subrange(i - cur@.len(), i as int),
            forall|k: int| 0 <= k < cur@.len() ==> cur@[k] != 10,
            split_lines(text@) == lines@.map_values(|v: Vec<u8>| v@) + split_lines(
                text@.skip(i - cur@.len()),
            ),
        decreases text@.len() - i,
    {
        let b = text[i];
        if b == 10 {
            proof {
                let s = text@.skip(i - cur@.len());
                assert(s =~= cur@ + text@.skip(i as int));
                lemma_line_end_concat(cur@, text@.skip(i as int));
                assert(text@.skip(i as int)[0] == 10);
                assert(line_end(s) == cur@.len());
                assert(s.take(cur@.len() as int) =~= cur@);
                assert(s.skip(cur@.len() as int + 1) =~= text@.skip(i as int + 1));
                assert(lines@.push(cur).map_values(|v: Vec<u8>| v@) =~= lines@.map_values(
                    |v: Vec<u8>| v@,
                ).push(cur@));
            }
            lines.push(cur);
            cur = Vec::new();
        } else {
            cur.push(b);
            proof {
                assert(cur@ =~= text@.subrange(i as int + 1 - cur@.len(), i as int + 1));
            }
        }
        i = i + 1;
    }
    if cur.len() > 0 {
        proof {
            let s = text@.skip(i - cur@.len());
            assert(s =~= cur@);
            lemma_line_end_concat(cur@, Seq::empty());
            assert(cur@ + Seq::<u8>::empty() =~= cur@);
            assert(line_end(s) == cur@.len());
            assert(lines@.push(cur).map_values(|v: Vec<u8>| v@) =~= lines@.map_values(
                |v: Vec<u8>| v@,
            ).push(cur@));
        }
        lines.push(cur);
    } else {
        proof {
            assert(text@.skip(i - cur@.len()) =~= Seq::<u8>::empty());
            assert(lines@.map_values(|v: Vec<u8>| v@) + Seq::<Seq<u8>>::empty()
                =~= lines@.map_values(|v: Vec<u8>| v@));
        }
    }
    lines
}

fn graphics_prefix() -> (v: Vec<u8>)
    ensures
        v@ == graphics_tag(),
{
    let mut v: Vec<u8> = Vec::new();
    v.push(71);
    v.push(114);
    v.push(97);
    v.push(112);
    v.push(104);
    v.push(105);
    v.push(99);
    v.push(115);
    proof {
        assert(v@ =~= graphics_tag());
    }
    v
}

fn memory_prefix() -> (v: Vec<u8>)
    ensures
        v@ == memory_tag(),
{
    let mut v: Vec<u8> = Vec::new();
    v.push(77);
    v.push(101);
    v.push(109);
    v.push(111);
    v.push(114);
    v.push(121);
    proof {
        assert(v@ =~= memory_tag());
    }
    v
}

fn mhz_suffix() -> (v: Vec<u8>)
    ensures
        v@ == mhz_tag(),
{
    let mut v: Vec<u8> = Vec::new();
    v.push(77);
    v.push(72);
    v.push(122);
    proof {
        assert(v@ =~= mhz_tag());
    }
    v
}

/// Reads the two clock tables out of a supported-clocks report.
pub fn parse_supported_clocks(text: &Vec<u8>) -> (r: SupportedClocks)
    ensures
        r.graphics@ == parsed_clocks(text@).0,
        r.memory@ == parsed_clocks(text@).1,
{
    let lines = split_into_lines(text);
    let gtag = graphics_prefix();
    let mtag = memory_prefix();
    let suffix = mhz_suffix();
    let mut graphics: Vec<u32> = Vec::new();
    let mut memory: Vec<u32> = Vec::new();
    let mut mode = AxisMode::NoAxis;
    let ghost ls = lines@.map_values(|v: Vec<u8>| v@);
    let mut i: usize = 0;
    proof {
        assert(ls.skip(0) =~= ls);
    }
    while i < lines.len()
        invariant
            i <= lines@.len(),
            ls == lines@.map_values(|v: Vec<u8>| v@),
            ls == split_lines(text@),
            gtag@ == graphics_tag(),
            mtag@ == memory_tag(),
            suffix@ == mhz_tag(),
            parsed_clocks(text@).0 == graphics@ + collect_clocks(ls.skip(i as int), mode).0,
            parsed_clocks(text@).1 == memory@ + collect_clocks(ls.skip(i as int), mode).1,
        decreases lines@.len() - i,
    {
        let t = trimmed(&lines[i]);
        proof {
            let cur = ls.skip(i as int);
            assert(cur[0] == ls[i as int]);
            assert(ls[i as int] == lines@[i as int]@);
            assert(cur.skip(1) =~= ls.skip(i as int + 1));
        }
        if has_prefix(&t, &gtag) {
            mode = AxisMode::Graphics;
        } else if has_prefix(&t, &mtag) {
            mode = AxisMode::Memory;
        } else if has_suffix(&t, &suffix) {
            let stripped = take_prefix(&t, t.len() - 3);
            let value_part = trimmed(&stripped);
            match parse_u32(&value_part) {
                Some(v) => {
                    match mode {
                        AxisMode::NoAxis => {},
                        AxisMode::Graphics => {
                            graphics.push(v);
                            proof {
                                let rest = collect_clocks(ls.skip(i as int + 1), mode);
                                assert(graphics@ + rest.0 =~= graphics@.drop_last() + (seq![v]
                                    + rest.0));
                            }
                        },
                        AxisMode::Memory => {
                            memory.push(v);
                            proof {
                                let rest = collect_clocks(ls.skip(i as int + 1), mode);
                                assert(memory@ + rest.1 =~= memory@.drop_last() + (seq![v]
                                    + rest.1));
                            }
                        },
                    }
                },
                None => {},
            }
        }
        i = i + 1;
    }
    proof {
        let tail = collect_clocks(ls.skip(i as int), mode);
        assert(ls.skip(i as int) =~= Seq::<Seq<u8>>::empty());
        assert(graphics@ + tail.0 =~= graphics@);
        assert(memory@ + tail.1 =~= memory@);
    }
    SupportedClocks { graphics, memory }
}

} // verus!
