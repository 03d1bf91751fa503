//! Compiler output parser for the GCC/Clang, MSVC and Unity C# formats.
//!
//! The output is cut into lines at `\n`; each line is trimmed of
//! whitespace, and a non-empty line is matched against the GCC/Clang, the
//! Unity and the MSVC pattern in that order. The first that matches, with
//! line and column numbers that fit in `u32`, gives one error record.

use crate::types::ErrorInfo;
use vstd::prelude::*;

verus! {

/// GCC/Clang: `file:line:column: error|warning: message`.
pub const GCC_PATTERN: &'static str = "^(.+?):(\\d+):(\\d+):\\s*(error|warning):\\s*(.+)$";

/// MSVC: `file(line): error|warning CODE: message`.
pub const MSVC_PATTERN: &'static str = "^(.+?)\\((\\d+)\\):\\s*(error|warning)\\s+(\\w+):\\s*(.+)$";

/// Unity C#: `file(line,column): error|warning CODE: message`.
pub const UNITY_PATTERN: &'static str = "^(.+?)\\((\\d+),(\\d+)\\):\\s*(error|warning)\\s+(\\w+):\\s*(.+)$";

/// Whether `c` has the Unicode White_Space property.
pub open spec fn is_ws(c: char) -> bool {
    ('\u{9}' <= c <= '\u{d}') || c == ' ' || c == '\u{85}' || c == '\u{a0}' || c == '\u{1680}' || ('\u{2000}'
        <= c <= '\u{200a}') || c == '\u{2028}' || c == '\u{2029}' || c == '\u{202f}' || c == '\u{205f}' || c
        == '\u{3000}'
}

/// The capture groups of the first match of regular expression `pattern`
/// in `text`, group 0 first; `None` where the pattern does not compile or
/// does not match; a group that took no part in the match is `None`.
pub uninterp spec fn regex_groups(pattern: Seq<char>, text: Seq<char>) -> Option<Seq<Option<Seq<char>>>>;

/// Whether `c` is white space, as `char::is_whitespace` says.
fn char_is_whitespace(c: char) -> (r: bool)
    ensures
        r == is_ws(c),
{
    ('\u{9}' <= c && c <= '\u{d}') || c == ' ' || c == '\u{85}' || c == '\u{a0}' || c == '\u{1680}' || ('\u{2000}'
        <= c && c <= '\u{200a}') || c == '\u{2028}' || c == '\u{2029}' || c == '\u{202f}' || c == '\u{205f}' || c
        == '\u{3000}'
}

/// Relies on str::chars: the characters of `s` in order.
#[verifier::external_body]
pub(crate) fn chars_of(s: &str) -> (r: Vec<char>)
    ensures
        r@ == s@,
{
    s.chars().collect()
}

/// Relies on FromIterator<char> for String: the string of the characters
/// `c[from..to]`.
#[verifier::external_body]
pub(crate) fn string_of_range(c: &Vec<char>, from: usize, to: usize) -> (r: String)
    requires
        from <= to <= c@.len(),
    ensures
        r@ == c@.subrange(from as int, to as int),
{
    c[from..to].iter().collect()
}

/// The capture groups as plain values.
pub open spec fn groups_view(r: Option<Vec<Option<String>>>) -> Option<Seq<Option<Seq<char>>>> {
    match r {
        None => None,
        Some(v) => Some(
            v@.map_values(
                |g: Option<String>|
                    match g {
                        Some(s) => Some(s@),
                        None => None,
                    },
            ),
        ),
    }
}

/// Relies on regex::Regex::new and Regex::captures: compiles `pattern`
/// and returns the groups of its first match in `text`, each as its text.
#[verifier::external_body]
fn captures_of(pattern: &str, text: &str) -> (r: Option<Vec<Option<String>>>)
    ensures
        groups_view(r) == regex_groups(pattern@, text@),
{
    let re = match regex::Regex::new(pattern) {
        Ok(re) => re,
        Err(_) => return None,
    };
    let caps = re.captures(text)?;
    Some(caps.iter().map(|g| g.map(|m| m.as_str().to_string())).collect())
}

/// `s` without its leading white space.
pub open spec fn trim_start(s: Seq<char>) -> Seq<char>
    decreases s.len(),
{
    if s.len() > 0 && is_ws(s[0]) {
        trim_start(s.drop_first())
    } else {
        s
    }
}

/// `s` without its trailing white space.
pub open spec fn trim_end(s: Seq<char>) -> Seq<char>
    decreases s.len(),
{
    if s.len() > 0 && is_ws(s.last()) {
        trim_end(s.drop_last())
    } else {
        s
    }
}

/// `s` without leading and trailing white space.
pub open spec fn trim(s: Seq<char>) -> Seq<char> {
    trim_end(trim_start(s))
}

/// The bounds of `c[lo..hi]` trimmed of white space.
pub(crate) fn trim_range(c: &Vec<char>, lo: usize, hi: usize) -> (r: (usize, usize))
    requires
        lo <= hi <= c@.len(),
    ensures
        lo <= r.0 <= r.1 <= hi,
        c@.subrange(r.0 as int, r.1 as int) == trim(c@.subrange(lo as int, hi as int)),
{
    let mut a = lo;
    while a < hi && char_is_whitespace(c[a])
        invariant
            lo <= a <= hi <= c@.len(),
            trim_start(c@.subrange(lo as int, hi as int)) == trim_start(c@.subrange(a as int, hi as int)),
        decreases hi - a,
    {
        assert(c@.subrange(a as int, hi as int).drop_first() =~= c@.subrange(a + 1, hi as int));
        a = a + 1;
    }
    let mut b = hi;
    while b > a && char_is_whitespace(c[b - 1])
        invariant
            lo <= a <= b <= hi <= c@.len(),
            trim_start(c@.subrange(lo as int, hi as int)) == c@.subrange(a as int, hi as int) ==> trim_end(
                c@.subrange(a as int, hi as int),
            ) == trim_end(c@.subrange(a as int, b as int)),
            trim_end(c@.subrange(a as int, hi as int)) == trim_end(c@.subrange(a as int, b as int)),
        decreases b - a,
    {
        assert(c@.subrange(a as int, b as int).drop_last() =~= c@.subrange(a as int, b - 1));
        b = b - 1;
    }
    assert(trim_start(c@.subrange(lo as int, hi as int)) == c@.subrange(a as int, hi as int));
    (a, b)
}

/// Value of a digit character.
pub open spec fn digit_val(c: char) -> int {
    c as int - '0' as int
}

/// Decimal value of a sequence of digits.
pub open spec fn digits_value(s: Seq<char>) -> int
    decreases s.len(),
{
    if s.len() == 0 {
        0
    } else {
        digits_value(s.drop_last()) * 10 + digit_val(s.last())
    }
}

/// `s` without one leading `+`.
pub open spec fn unsigned_part(s: Seq<char>) -> Seq<char> {
    if s.len() > 0 && s[0] == '+' {
        s.drop_first()
    } else {
        s
    }
}

/// Every character of `s` is an ASCII digit.
pub open spec fn all_digits(s: Seq<char>) -> bool {
    forall|i: int| 0 <= i < s.len() ==> '0' <= #[trigger] s[i] <= '9'
}

/// What `str::parse::<u32>` gives: an optional `+`, then one or more ASCII
/// digits whose value fits in `u32`.
pub open spec fn parse_u32_spec(s: Seq<char>) -> Option<u32> {
    if unsigned_part(s).len() > 0 && all_digits(unsigned_part(s)) && digits_value(unsigned_part(s)) <= u32::MAX {
        Some(digits_value(unsigned_part(s)) as u32)
    } else {
        None
    }
}

proof fn lemma_digits_nonneg(s: Seq<char>)
    requires
        all_digits(s),
    ensures
        digits_value(s) >= 0,
    decreases s.len(),
{
    if s.len() > 0 {
        assert(all_digits(s.drop_last())) by {
            assert forall|i: int| 0 <= i < s.drop_last().len() implies '0' <= #[trigger] s.drop_last()[i] <= '9' by {
                assert(s.drop_last()[i] == s[i]);
            }
        }
        lemma_digits_nonneg(s.drop_last());
    }
}

/// Decimal number in `s`, as `str::parse::<u32>` reads it.
pub(crate) fn parse_u32(s: &String) -> (r: Option<u32>)
    ensures
        r == parse_u32_spec(s@),
{
    let c = chars_of(s.as_str());
    assert(c@ == s@);
    let n = c.len();
    let start: usize = if n > 0 && c[0] == '+' { 1 } else { 0 };
    let ghost d = unsigned_part(c@);
    assert(d =~= c@.subrange(start as int, n as int));
    if start == n {
        return None;
    }
    let mut v: u64 = 0;
    let mut over = false;
    let mut k = start;
    while k < n
        invariant
            start <= k <= n,
            n == c@.len(),
            c@ == s@,
            d == unsigned_part(c@),
            d == c@.subrange(start as int, n as int),
            all_digits(c@.subrange(start as int, k as int)),
            !over ==> v == digits_value(c@.subrange(start as int, k as int)) && v <= u32::MAX,
            over ==> digits_value(c@.subrange(start as int, k as int)) > u32::MAX,
        decreases n - k,
    {
        let ch = c[k];
        if !('0' <= ch && ch <= '9') {
            assert(d[k - start] == ch);
            assert(!all_digits(d));
            return None;
        }
        let ghost prev = c@.subrange(start as int, k as int);
        let ghost next = c@.subrange(start as int, k + 1);
        proof {
            assert(next.drop_last() =~= prev);
            assert(next.last() == ch);
            lemma_digits_nonneg(prev);
            assert(all_digits(next)) by {
                assert forall|i: int| 0 <= i < next.len() implies '0' <= #[trigger] next[i] <= '9' by {
                    if i < prev.len() {
                        assert(next[i] == prev[i]);
                    }
                }
            }
            assert(digits_value(next) == digits_value(prev) * 10 + digit_val(ch));
        }
        if !over {
            v = v * 10 + (ch as u64 - '0' as u64);
            if v > 0xFFFF_FFFF {
                over = true;
            }
        }
        k = k + 1;
    }
    assert(c@.subrange(start as int, n as int) == d);
    if over {
        None
    } else {
        Some(v as u32)
    }
}

/// An error record as plain values: file, line, column, code, message.
pub type ErrorView = (Seq<char>, u32, u32, Seq<char>, Seq<char>);

/// The plain values of an error record.
pub open spec fn view_of(e: &ErrorInfo) -> ErrorView {
    (e.file_path@, e.line, e.column, e.error_code@, e.message@)
}

/// Group `i`, where it exists and took part in the match.
pub open spec fn group(g: Seq<Option<Seq<char>>>, i: int) -> Option<Seq<char>> {
    if 0 <= i < g.len() {
        g[i]
    } else {
        None
    }
}

/// A record from the groups of a match: the file, line and message groups,
/// the column group where there is one (else column 0), and the code group
/// where there is one (else an empty code). `None` where a group is missing
/// or a number does not fit in `u32`.
pub open spec fn record_of(
    g: Seq<Option<Seq<char>>>,
    file: int,
    line: int,
    column: Option<usize>,
    code: Option<usize>,
    message: int,
) -> Option<ErrorView> {
    if group(g, file) is Some && group(g, line) is Some && group(g, message) is Some && parse_u32_spec(
        group(g, line)->0,
    ) is Some && (column is Some ==> group(g, column->0 as int) is Some && parse_u32_spec(group(g, column->0 as int)->0) is Some) && (
    code is Some ==> group(g, code->0 as int) is Some) {
        Some(
            (
                group(g, file)->0,
                parse_u32_spec(group(g, line)->0)->0,
                match column {
                    Some(c) => parse_u32_spec(group(g, c as int)->0)->0,
                    None => 0u32,
                },
                match code {
                    Some(c) => group(g, c as int)->0,
                    None => Seq::empty(),
                },
                group(g, message)->0,
            ),
        )
    } else {
        None
    }
}

/// The GCC/Clang reading of a trimmed line.
pub open spec fn gcc_record(t: Seq<char>) -> Option<ErrorView> {
    match regex_groups(GCC_PATTERN@, t) {
        Some(g) => record_of(g, 1, 2, Some(3usize), None, 5),
        None => None,
    }
}

/// The Unity C# reading of a trimmed line.
pub open spec fn unity_record(t: Seq<char>) -> Option<ErrorView> {
    match regex_groups(UNITY_PATTERN@, t) {
        Some(g) => record_of(g, 1, 2, Some(3usize), Some(5usize), 6),
        None => None,
    }
}

/// The MSVC reading of a trimmed line.
pub open spec fn msvc_record(t: Seq<char>) -> Option<ErrorView> {
    match regex_groups(MSVC_PATTERN@, t) {
        Some(g) => record_of(g, 1, 2, None, Some(4usize), 5),
        None => None,
    }
}

/// The record of one line: trimmed, skipped when empty, else the first of
/// the GCC/Clang, Unity and MSVC readings that succeeds.
pub open spec fn line_record(line: Seq<char>) -> Option<ErrorView> {
    let t = trim(line);
    if t.len() == 0 {
        None
    } else if gcc_record(t) is Some {
        gcc_record(t)
    } else if unity_record(t) is Some {
        unity_record(t)
    } else {
        msvc_record(t)
    }
}

/// `s` cut at every `\n`: one more piece than there are newlines.
pub open spec fn pieces(s: Seq<char>) -> Seq<Seq<char>>
    decreases s.len(),
{
    if s.len() == 0 {
        seq![Seq::empty()]
    } else {
        let p = pieces(s.drop_last());
        if s.last() == '\n' {
            p.push(Seq::empty())
        } else {
            p.update(p.len() - 1, p.last().push(s.last()))
        }
    }
}

pub(crate) proof fn lemma_pieces_nonempty(s: Seq<char>)
    ensures
        pieces(s).len() > 0,
    decreases s.len(),
{
    if s.len() > 0 {
        lemma_pieces_nonempty(s.drop_last());
    }
}

/// The records of the lines in order, lines without one left out.
pub open spec fn records(lines: Seq<Seq<char>>) -> Seq<ErrorView>
    decreases lines.len(),
{
    if lines.len() == 0 {
        Seq::empty()
    } else {
        let p = records(lines.drop_last());
        match line_record(lines.last()) {
            Some(r) => p.push(r),
            None => p,
        }
    }
}

/// The error records of compiler output `s`.
pub open spec fn parsed(s: Seq<char>) -> Seq<ErrorView> {
    records(pieces(s))
}

/// Reads the groups `g` as a record, as `record_of` says.
fn build_record(
    g: &Vec<Option<String>>,
    file: usize,
    line: usize,
    column: Option<usize>,
    code: Option<usize>,
    message: usize,
) -> (r: Option<ErrorInfo>)
    ensures
        match r {
            Some(e) => record_of(groups_view(Some(*g))->0, file as int, line as int, column, code, message as int) == Some(view_of(&e)),
            None => record_of(groups_view(Some(*g))->0, file as int, line as int, column, code, message as int) is None,
        },
{
    let ghost gv = groups_view(Some(*g))->0;
    assert(gv.len() == g@.len());
    assert(forall|i: int| 0 <= i < g@.len() ==> #[trigger] gv[i] == match g@[i] {
        Some(s) => Some(s@),
        None => None,
    });
    let n = g.len();
    if file >= n || line >= n || message >= n {
        return None;
    }
    let f = match &g[file] {
        Some(f) => f,
        None => return None,
    };
    let l = match &g[line] {
        Some(l) => l,
        None => return None,
    };
    let m = match &g[message] {
        Some(m) => m,
        None => return None,
    };
    let line_no = match parse_u32(l) {
        Some(v) => v,
        None => return None,
    };
    let column_no: u32 = match column {
        Some(c) => {
            if c >= n {
                return None;
            }
            match &g[c] {
                Some(cs) => match parse_u32(cs) {
                    Some(v) => v,
                    None => return None,
                },
                None => return None,
            }
        },
        None => 0,
    };
    let code_text: String = match code {
        Some(c) => {
            if c >= n {
                return None;
            }
            match &g[c] {
                Some(cs) => cs.clone(),
                None => return None,
            }
        },
        None => String::new(),
    };
    Some(ErrorInfo { file_path: f.clone(), line: line_no, column: column_no, error_code: code_text, message: m.clone() })
}

/// The plain values of a list of error records.
pub open spec fn views(v: Seq<ErrorInfo>) -> Seq<ErrorView> {
    v.map_values(|e: ErrorInfo| view_of(&e))
}

/// Reads `t` with `pattern`, taking the groups as `record_of` says.
fn read_with(
    pattern: &str,
    t: &String,
    file: usize,
    line: usize,
    column: Option<usize>,
    code: Option<usize>,
    message: usize,
) -> (r: Option<ErrorInfo>)
    ensures
        match regex_groups(pattern@, t@) {
            None => r is None,
            Some(g) => match r {
                Some(e) => record_of(g, file as int, line as int, column, code, message as int) == Some(view_of(&e)),
                None => record_of(g, file as int, line as int, column, code, message as int) is None,
            },
        },
{
    match captures_of(pattern, t.as_str()) {
        None => None,
        Some(g) => build_record(&g, file, line, column, code, message),
    }
}

/// Appends the record of line `c[lo..hi]`, if it has one.
fn take_line(c: &Vec<char>, lo: usize, hi: usize, out: &mut Vec<ErrorInfo>)
    requires
        lo <= hi <= c@.len(),
    ensures
        views(final(out)@) == match line_record(c@.subrange(lo as int, hi as int)) {
            Some(r) => views(old(out)@).push(r),
            None => views(old(out)@),
        },
{
    let ghost before = out@;
    let (a, b) = trim_range(c, lo, hi);
    if a == b {
        return;
    }
    let t = string_of_range(c, a, b);
    let found = match read_with(GCC_PATTERN, &t, 1, 2, Some(3), None, 5) {
        Some(e) => Some(e),
        None => match read_with(UNITY_PATTERN, &t, 1, 2, Some(3), Some(5), 6) {
            Some(e) => Some(e),
            None => read_with(MSVC_PATTERN, &t, 1, 2, None, Some(4), 5),
        },
    };
    match found {
        Some(e) => {
            out.push(e);
            assert(views(out@) =~= views(before).push(view_of(&e)));
        },
        None => {},
    }
}

/// Parses compiler output into error records.
pub struct ErrorParser;

impl ErrorParser {
    /// A parser for the GCC/Clang, Unity C# and MSVC formats.
    pub fn new() -> ErrorParser {
        ErrorParser
    }

    /// The error records of `compiler_output`, one per line that reads as
    /// a diagnostic, in order.
    pub fn parse(&self, compiler_output: &str) -> (r: Vec<ErrorInfo>)
        ensures
            views(r@) == parsed(compiler_output@),
    {
        let c = chars_of(compiler_output);
        let n = c.len();
        let mut out: Vec<ErrorInfo> = Vec::new();
        let ghost mut done: Seq<Seq<char>> = Seq::empty();
        let mut start: usize = 0;
        let mut k: usize = 0;
        assert(c@.take(0) =~= Seq::<char>::empty());
        assert(c@.subrange(0, 0) =~= Seq::<char>::empty());
        assert(views(out@) =~= Seq::<ErrorView>::empty());
        while k < n
            invariant
                n == c@.len(),
                start <= k <= n,
                pieces(c@.take(k as int)) == done.push(c@.subrange(start as int, k as int)),
                views(out@) == records(done),
            decreases n - k,
        {
            let ghost p = c@.take(k as int);
            assert(c@.take(k + 1).drop_last() =~= p);
            assert(c@.take(k + 1).last() == c@[k as int]);
            if c[k] == '\n' {
                take_line(&c, start, k, &mut out);
                proof {
                    let x = c@.subrange(start as int, k as int);
                    assert(done.push(x).drop_last() =~= done);
                    done = done.push(x);
                    assert(c@.subrange(k + 1, k + 1) =~= Seq::<char>::empty());
                }
                start = k + 1;
            } else {
                proof {
                    assert(c@.subrange(start as int, k + 1) =~= c@.subrange(start as int, k as int).push(c@[k as int]));
                    let q = done.push(c@.subrange(start as int, k as int));
                    assert(q.update(q.len() - 1, q.last().push(c@[k as int])) =~= done.push(
                        c@.subrange(start as int, k + 1),
                    ));
                }
            }
            k = k + 1;
        }
        take_line(&c, start, n, &mut out);
        proof {
            let x = c@.subrange(start as int, n as int);
            assert(c@.take(n as int) =~= c@);
            assert(done.push(x).drop_last() =~= done);
            assert(c@ == compiler_output@);
        }
        out
    }
}

} // verus!
