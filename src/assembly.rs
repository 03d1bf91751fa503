//! Assembly lines mapped to source lines, as read from a disassembler's
//! listing.

use crate::error_parser::{
    chars_of, parse_u32, parse_u32_spec, pieces, string_of_range, trim, trim_range, unsigned_part,
};
use vstd::prelude::*;

verus! {

/// One disassembled instruction and the source line it came from.
#[derive(Debug)]
pub struct AssemblyLine {
    pub address: u64,
    pub instruction: String,
    pub source_file: String,
    pub source_line: u32,
}

/// The assembly lines of one object file.
pub struct AssemblyAnalyzer {
    pub asm_lines: Vec<AssemblyLine>,
}

/// `s` ends with `suffix`.
pub open spec fn ends_with(s: Seq<char>, suffix: Seq<char>) -> bool {
    suffix.len() <= s.len() && s.subrange(s.len() - suffix.len(), s.len() as int) == suffix
}

/// Line `a` belongs to line `line` of a file whose path ends with `file`.
pub open spec fn matches_line(a: &AssemblyLine, file: Seq<char>, line: u32) -> bool {
    a.source_line == line && ends_with(a.source_file@, file)
}

fn str_ends_with(s: &str, suffix: &str) -> (r: bool)
    ensures
        r == ends_with(s@, suffix@),
{
    let n = s.unicode_len();
    let m = suffix.unicode_len();
    if m > n {
        return false;
    }
    let mut i: usize = 0;
    while i < m
        invariant
            n == s@.len(),
            m == suffix@.len(),
            m <= n,
            i <= m,
            forall|j: int| 0 <= j < i ==> s@[n - m + j] == suffix@[j],
        decreases m - i,
    {
        if s.get_char(n - m + i) != suffix.get_char(i) {
            assert(s@.subrange(n - m, n as int)[i as int] != suffix@[i as int]);
            return false;
        }
        i = i + 1;
    }
    assert(s@.subrange(n - m, n as int) =~= suffix@);
    true
}

impl AssemblyAnalyzer {
    /// An analyzer with no lines.
    pub fn new() -> (r: AssemblyAnalyzer)
        ensures
            r.asm_lines@.len() == 0,
    {
        AssemblyAnalyzer { asm_lines: Vec::new() }
    }

    /// The lines, in listing order, of source line `line` in a file whose
    /// path ends with `source_file`.
    pub fn get_assembly_for_line(&self, source_file: &str, line: u32) -> (r: Vec<&AssemblyLine>)
        ensures
            r@.len() == self.asm_lines@.filter(|a: AssemblyLine| matches_line(&a, source_file@, line)).len(),
            forall|i: int|
                0 <= i < r@.len() ==> *r@[i] == self.asm_lines@.filter(
                    |a: AssemblyLine| matches_line(&a, source_file@, line),
                )[i],
    {
        let ghost pick = |a: AssemblyLine| matches_line(&a, source_file@, line);
        let mut r: Vec<&AssemblyLine> = Vec::new();
        let mut k: usize = 0;
        while k < self.asm_lines.len()
            invariant
                k <= self.asm_lines@.len(),
                pick == (|a: AssemblyLine| matches_line(&a, source_file@, line)),
                r@.len() == self.asm_lines@.take(k as int).filter(pick).len(),
                forall|i: int| 0 <= i < r@.len() ==> *r@[i] == self.asm_lines@.take(k as int).filter(pick)[i],
            decreases self.asm_lines@.len() - k,
        {
            let a = &self.asm_lines[k];
            let ghost before = self.asm_lines@.take(k as int);
            assert(self.asm_lines@.take(k + 1) =~= before.push(*a));
            proof {
                before.lemma_filter_push(*a, pick);
            }
            if a.source_line == line && str_ends_with(a.source_file.as_str(), source_file) {
                r.push(a);
            }
            k = k + 1;
        }
        assert(self.asm_lines@.take(k as int) =~= self.asm_lines@);
        r
    }
}

/// An assembly line as plain values: address, instruction, file, line.
pub type AsmView = (u64, Seq<char>, Seq<char>, u32);

/// The plain values of an assembly line.
pub open spec fn asm_view(a: &AssemblyLine) -> AsmView {
    (a.address, a.instruction@, a.source_file@, a.source_line)
}

/// The plain values of a list of assembly lines.
pub open spec fn asm_views(v: Seq<AssemblyLine>) -> Seq<AsmView> {
    v.map_values(|a: AssemblyLine| asm_view(&a))
}

/// `k` is the place of the last `:` in `s`.
pub open spec fn is_last_colon(s: Seq<char>, k: int) -> bool {
    0 <= k < s.len() && s[k] == ':' && forall|j: int| k < j < s.len() ==> #[trigger] s[j] != ':'
}

/// `k` is the place of the first `:` in `s`.
pub open spec fn is_first_colon(s: Seq<char>, k: int) -> bool {
    0 <= k < s.len() && s[k] == ':' && forall|j: int| 0 <= j < k ==> #[trigger] s[j] != ':'
}

/// Place of the last `:` in `s`, or -1.
pub open spec fn last_colon(s: Seq<char>) -> int {
    if exists|k: int| is_last_colon(s, k) {
        choose|k: int| is_last_colon(s, k)
    } else {
        -1
    }
}

/// Place of the first `:` in `s`, or -1.
pub open spec fn first_colon(s: Seq<char>) -> int {
    if exists|k: int| is_first_colon(s, k) {
        choose|k: int| is_first_colon(s, k)
    } else {
        -1
    }
}

/// `s` without every leading `0x`.
pub open spec fn strip_0x(s: Seq<char>) -> Seq<char>
    decreases s.len(),
{
    if s.len() >= 2 && s[0] == '0' && s[1] == 'x' {
        strip_0x(s.skip(2))
    } else {
        s
    }
}

/// `c` is a hexadecimal digit.
pub open spec fn is_hex(c: char) -> bool {
    ('0' <= c <= '9') || ('a' <= c <= 'f') || ('A' <= c <= 'F')
}

/// Value of a hexadecimal digit.
pub open spec fn hex_val(c: char) -> int {
    if '0' <= c <= '9' {
        c as int - '0' as int
    } else if 'a' <= c <= 'f' {
        c as int - 'a' as int + 10
    } else {
        c as int - 'A' as int + 10
    }
}

/// Value of a sequence of hexadecimal digits.
pub open spec fn hex_value(s: Seq<char>) -> int
    decreases s.len(),
{
    if s.len() == 0 {
        0
    } else {
        hex_value(s.drop_last()) * 16 + hex_val(s.last())
    }
}

/// What `u64::from_str_radix(s, 16)` gives: an optional `+`, then one or
/// more hexadecimal digits whose value fits in `u64`.
pub open spec fn parse_hex_spec(s: Seq<char>) -> Option<u64> {
    let d = unsigned_part(s);
    if d.len() > 0 && (forall|i: int| 0 <= i < d.len() ==> is_hex(#[trigger] d[i])) && hex_value(d) <= u64::MAX {
        Some(hex_value(d) as u64)
    } else {
        None
    }
}

/// Reading state: current file, current line, lines read so far.
pub type ListingState = (Seq<char>, u32, Seq<AsmView>);

/// One line of a disassembly listing. A trimmed line `; FILE:LINE` (split
/// at the last `:`, LINE a `u32`) sets the current source location; any
/// other line `ADDR: INSTR` (split at the first `:`, ADDR hexadecimal after
/// trimming and dropping leading `0x`s) adds an assembly line at the
/// current location.
pub open spec fn listing_step(st: ListingState, line: Seq<char>) -> ListingState {
    let t = trim(line);
    if t.len() >= 2 && t[0] == ';' && t[1] == ' ' {
        let rest = t.skip(2);
        let k = last_colon(rest);
        if k >= 0 && parse_u32_spec(rest.skip(k + 1)) is Some {
            (rest.take(k), parse_u32_spec(rest.skip(k + 1))->0, st.2)
        } else {
            st
        }
    } else {
        let k = first_colon(t);
        if k >= 0 && parse_hex_spec(strip_0x(trim(t.take(k)))) is Some {
            (st.0, st.1, st.2.push((parse_hex_spec(strip_0x(trim(t.take(k))))->0, trim(t.skip(k + 1)), st.0, st.1)))
        } else {
            st
        }
    }
}

/// The state after reading `lines` in order from an empty location.
pub open spec fn listing(lines: Seq<Seq<char>>) -> ListingState
    decreases lines.len(),
{
    if lines.len() == 0 {
        (Seq::empty(), 0, Seq::empty())
    } else {
        listing_step(listing(lines.drop_last()), lines.last())
    }
}

/// The last `:` in `c[lo..hi]`, as an index into `c`.
fn find_last_colon(c: &Vec<char>, lo: usize, hi: usize) -> (r: Option<usize>)
    requires
        lo <= hi <= c@.len(),
    ensures
        match r {
            Some(k) => lo <= k < hi && last_colon(c@.subrange(lo as int, hi as int)) == k - lo,
            None => last_colon(c@.subrange(lo as int, hi as int)) == -1,
        },
{
    let ghost s = c@.subrange(lo as int, hi as int);
    let mut k = hi;
    while k > lo
        invariant
            lo <= k <= hi <= c@.len(),
            s == c@.subrange(lo as int, hi as int),
            forall|j: int| k - lo <= j < s.len() ==> #[trigger] s[j] != ':',
        decreases k - lo,
    {
        if c[k - 1] == ':' {
            assert(s[k - 1 - lo] == ':');
            assert(is_last_colon(s, k - 1 - lo));
            assert forall|k2: int| is_last_colon(s, k2) implies k2 == k - 1 - lo by {
                if k2 < k - 1 - lo {
                    assert(s[k - 1 - lo] != ':');
                }
            }
            return Some(k - 1);
        }
        assert(s[k - 1 - lo] == c@[k - 1]);
        k = k - 1;
    }
    assert(!exists|k2: int| is_last_colon(s, k2)) by {
        if exists|k2: int| is_last_colon(s, k2) {
            let k2 = choose|k2: int| is_last_colon(s, k2);
            assert(s[k2] != ':');
        }
    }
    None
}

/// The first `:` in `c[lo..hi]`, as an index into `c`.
fn find_first_colon(c: &Vec<char>, lo: usize, hi: usize) -> (r: Option<usize>)
    requires
        lo <= hi <= c@.len(),
    ensures
        match r {
            Some(k) => lo <= k < hi && first_colon(c@.subrange(lo as int, hi as int)) == k - lo,
            None => first_colon(c@.subrange(lo as int, hi as int)) == -1,
        },
{
    let ghost s = c@.subrange(lo as int, hi as int);
    let mut k = lo;
    while k < hi
        invariant
            lo <= k <= hi <= c@.len(),
            s == c@.subrange(lo as int, hi as int),
            forall|j: int| 0 <= j < k - lo ==> #[trigger] s[j] != ':',
        decreases hi - k,
    {
        if c[k] == ':' {
            assert(s[k - lo] == ':');
            assert(is_first_colon(s, k - lo));
            assert forall|k2: int| is_first_colon(s, k2) implies k2 == k - lo by {
                if k2 > k - lo {
                    assert(s[k - lo] != ':');
                }
            }
            return Some(k);
        }
        assert(s[k - lo] == c@[k as int]);
        k = k + 1;
    }
    assert(!exists|k2: int| is_first_colon(s, k2)) by {
        if exists|k2: int| is_first_colon(s, k2) {
            let k2 = choose|k2: int| is_first_colon(s, k2);
            assert(s[k2] != ':');
        }
    }
    None
}

/// Start of `c[lo..hi]` once every leading `0x` is dropped.
fn strip_0x_range(c: &Vec<char>, lo: usize, hi: usize) -> (r: usize)
    requires
        lo <= hi <= c@.len(),
    ensures
        lo <= r <= hi,
        c@.subrange(r as int, hi as int) == strip_0x(c@.subrange(lo as int, hi as int)),
{
    let mut a = lo;
    while hi - a >= 2 && c[a] == '0' && c[a + 1] == 'x'
        invariant
            lo <= a <= hi <= c@.len(),
            strip_0x(c@.subrange(lo as int, hi as int)) == strip_0x(c@.subrange(a as int, hi as int)),
        decreases hi - a,
    {
        assert(c@.subrange(a as int, hi as int).skip(2) =~= c@.subrange(a + 2, hi as int));
        a = a + 2;
    }
    a
}

proof fn lemma_hex_nonneg(s: Seq<char>)
    requires
        forall|i: int| 0 <= i < s.len() ==> is_hex(#[trigger] s[i]),
    ensures
        hex_value(s) >= 0,
    decreases s.len(),
{
    if s.len() > 0 {
        assert forall|i: int| 0 <= i < s.drop_last().len() implies is_hex(#[trigger] s.drop_last()[i]) by {
            assert(s.drop_last()[i] == s[i]);
        }
        lemma_hex_nonneg(s.drop_last());
    }
}

/// Hexadecimal number in `c[lo..hi]`, as `u64::from_str_radix` reads it.
fn parse_hex_range(c: &Vec<char>, lo: usize, hi: usize) -> (r: Option<u64>)
    requires
        lo <= hi <= c@.len(),
    ensures
        r == parse_hex_spec(c@.subrange(lo as int, hi as int)),
{
    let ghost s = c@.subrange(lo as int, hi as int);
    let start: usize = if hi > lo && c[lo] == '+' { lo + 1 } else { lo };
    let ghost d = unsigned_part(s);
    assert(d =~= c@.subrange(start as int, hi as int));
    if start == hi {
        return None;
    }
    let mut v: u128 = 0;
    let mut over = false;
    let mut k = start;
    while k < hi
        invariant
            start <= k <= hi <= c@.len(),
            s == c@.subrange(lo as int, hi as int),
            d == unsigned_part(s),
            d == c@.subrange(start as int, hi as int),
            forall|i: int| start <= i < k ==> is_hex(#[trigger] c@[i]),
            !over ==> v == hex_value(c@.subrange(start as int, k as int)) && v <= u64::MAX,
            over ==> hex_value(c@.subrange(start as int, k as int)) > u64::MAX,
        decreases hi - k,
    {
        let ch = c[k];
        let dv: u128 = if '0' <= ch && ch <= '9' {
            ch as u128 - '0' as u128
        } else if 'a' <= ch && ch <= 'f' {
            ch as u128 - 'a' as u128 + 10
        } else if 'A' <= ch && ch <= 'F' {
            ch as u128 - 'A' as u128 + 10
        } else {
            assert(d[k - start] == ch);
            assert(!is_hex(d[k - start]));
            return None;
        };
        let ghost prev = c@.subrange(start as int, k as int);
        let ghost next = c@.subrange(start as int, k + 1);
        proof {
            assert(next.drop_last() =~= prev);
            assert(next.last() == ch);
            assert forall|i: int| 0 <= i < prev.len() implies is_hex(#[trigger] prev[i]) by {
                assert(prev[i] == c@[start + i]);
            }
            lemma_hex_nonneg(prev);
            assert(hex_value(next) == hex_value(prev) * 16 + hex_val(ch));
            assert(dv == hex_val(ch));
        }
        if !over {
            v = v * 16 + dv;
            if v > 0xFFFF_FFFF_FFFF_FFFF {
                over = true;
            }
        }
        k = k + 1;
    }
    assert(c@.subrange(start as int, hi as int) == d);
    assert forall|i: int| 0 <= i < d.len() implies is_hex(#[trigger] d[i]) by {
        assert(d[i] == c@[start + i]);
    }
    if over {
        None
    } else {
        Some(v as u64)
    }
}

impl AssemblyAnalyzer {
    /// Reads one listing line `c[lo..hi]` as `listing_step` says.
    fn read_listing_line(&mut self, c: &Vec<char>, lo: usize, hi: usize, file: &mut String, line: &mut u32)
        requires
            lo <= hi <= c@.len(),
        ensures
            (final(file)@, *final(line), asm_views(final(self).asm_lines@)) == listing_step(
                (old(file)@, *old(line), asm_views(old(self).asm_lines@)),
                c@.subrange(lo as int, hi as int),
            ),
    {
        let ghost st = (file@, *line, asm_views(self.asm_lines@));
        let (a, b) = trim_range(c, lo, hi);
        let ghost t = c@.subrange(a as int, b as int);
        if b - a >= 2 && c[a] == ';' && c[a + 1] == ' ' {
            assert(t[0] == ';' && t[1] == ' ');
            assert(t.skip(2) =~= c@.subrange(a + 2, b as int));
            match find_last_colon(c, a + 2, b) {
                Some(k) => {
                    let ghost rest = c@.subrange(a + 2, b as int);
                    assert(rest.skip(k - (a + 2) + 1) =~= c@.subrange(k + 1, b as int));
                    assert(rest.take(k - (a + 2)) =~= c@.subrange(a + 2, k as int));
                    let digits = string_of_range(c, k + 1, b);
                    match parse_u32(&digits) {
                        Some(n) => {
                            *file = string_of_range(c, a + 2, k);
                            *line = n;
                        },
                        None => {},
                    }
                },
                None => {},
            }
        } else {
            assert(!(t.len() >= 2 && t[0] == ';' && t[1] == ' '));
            match find_first_colon(c, a, b) {
                Some(k) => {
                    assert(t.take(k - a) =~= c@.subrange(a as int, k as int));
                    assert(t.skip(k - a + 1) =~= c@.subrange(k + 1, b as int));
                    let (x, y) = trim_range(c, a, k);
                    let z = strip_0x_range(c, x, y);
                    match parse_hex_range(c, z, y) {
                        Some(address) => {
                            let (p, q) = trim_range(c, k + 1, b);
                            let instruction = string_of_range(c, p, q);
                            let source_file = file.clone();
                            let ghost before = self.asm_lines@;
                            self.asm_lines.push(
                                AssemblyLine { address, instruction, source_file, source_line: *line },
                            );
                            assert(asm_views(self.asm_lines@) =~= asm_views(before).push(
                                (address, c@.subrange(p as int, q as int), file@, *line),
                            ));
                        },
                        None => {},
                    }
                },
                None => {},
            }
        }
    }

    /// Reads a disassembly listing with source lines (as `llvm-objdump -d
    /// -l` prints it) in place of the current lines; true when at least one
    /// assembly line was read.
    pub fn parse_objdump_output(&mut self, output: &str) -> (r: bool)
        ensures
            asm_views(final(self).asm_lines@) == listing(pieces(output@)).2,
            r == (final(self).asm_lines@.len() > 0),
    {
        self.asm_lines = Vec::new();
        let c = chars_of(output);
        let n = c.len();
        let mut file = String::new();
        let mut line: u32 = 0;
        let ghost mut done: Seq<Seq<char>> = Seq::empty();
        let mut start: usize = 0;
        let mut k: usize = 0;
        assert(c@.take(0) =~= Seq::<char>::empty());
        assert(c@.subrange(0, 0) =~= Seq::<char>::empty());
        assert(asm_views(self.asm_lines@) =~= Seq::<AsmView>::empty());
        assert(file@ =~= Seq::<char>::empty());
        while k < n
            invariant
                n == c@.len(),
                start <= k <= n,
                pieces(c@.take(k as int)) == done.push(c@.subrange(start as int, k as int)),
                (file@, line, asm_views(self.asm_lines@)) == listing(done),
            decreases n - k,
        {
            let ghost p = c@.take(k as int);
            assert(c@.take(k + 1).drop_last() =~= p);
            assert(c@.take(k + 1).last() == c@[k as int]);
            if c[k] == '\n' {
                self.read_listing_line(&c, start, k, &mut file, &mut line);
                proof {
                    let x = c@.subrange(start as int, k as int);
                    assert(done.push(x).drop_last() =~= done);
                    done = done.push(x);
                    assert(c@.subrange(k + 1, k + 1) =~= Seq::<char>::empty());
                }
                start = k + 1;
            } else {
                proof {
                    assert(c@.subrange(start as int, k + 1) =~= c@.subrange(start as int, k as int).push(c@[k as int]));
                    let q = done.push(c@.subrange(start as int, k as int));
                    assert(q.update(q.len() - 1, q.last().push(c@[k as int])) =~= done.push(
                        c@.subrange(start as int, k + 1),
                    ));
                }
            }
            k = k + 1;
        }
        self.read_listing_line(&c, start, n, &mut file, &mut line);
        proof {
            let x = c@.subrange(start as int, n as int);
            assert(c@.take(n as int) =~= c@);
            assert(done.push(x).drop_last() =~= done);
            assert(c@ == output@);
        }
        self.asm_lines.len() > 0
    }
}

} // verus!
