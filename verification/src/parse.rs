use vstd::prelude::*;
use lalrpop_util::ParseError;
use crate::text::{dec, push_char, push_str, push_usize, string_of};

verus! {

#[verifier::external_type_specification]
#[verifier::external_body]
#[verifier::reject_recursive_types(L)]
#[verifier::reject_recursive_types(T)]
#[verifier::reject_recursive_types(E)]
pub struct ExParseError<L, T, E>(ParseError<L, T, E>);

/// Where a parse error lies, as the parser reports it.
pub enum ErrorPos {
    /// An invalid token ends at this offset.
    InvalidToken(usize),
    /// The input ended unexpectedly at this offset.
    UnrecognizedEof(usize),
    /// An unexpected token spans these offsets.
    UnrecognizedToken(usize, usize),
    /// An extra token spans these offsets.
    ExtraToken(usize, usize),
    /// An error of the grammar's own actions, without a place.
    User,
}

/// The variant of the `lalrpop_util::ParseError` `err` and the offsets it
/// holds.
#[verifier::external_body]
fn error_pos<T, E>(err: &ParseError<usize, T, E>) -> (r: ErrorPos) {
    match err {
        ParseError::InvalidToken { location } => ErrorPos::InvalidToken(*location),
        ParseError::UnrecognizedEof { location, .. } => ErrorPos::UnrecognizedEof(*location),
        ParseError::UnrecognizedToken { token, .. } => ErrorPos::UnrecognizedToken(token.0, token.2),
        ParseError::ExtraToken { token } => ErrorPos::ExtraToken(token.0, token.2),
        ParseError::User { .. } => ErrorPos::User,
    }
}

/// The offset an error is reported at: where its token starts, or 0 for
/// an error without a place.
pub open spec fn start_of(p: ErrorPos) -> usize {
    match p {
        ErrorPos::InvalidToken(l) => l,
        ErrorPos::UnrecognizedEof(l) => l,
        ErrorPos::UnrecognizedToken(a, _) => a,
        ErrorPos::ExtraToken(a, _) => a,
        ErrorPos::User => 0,
    }
}

/// The offset an error is reported at.
pub fn error_start(p: &ErrorPos) -> (r: usize)
    ensures
        r == start_of(*p),
{
    match p {
        ErrorPos::InvalidToken(l) => *l,
        ErrorPos::UnrecognizedEof(l) => *l,
        ErrorPos::UnrecognizedToken(a, _) => *a,
        ErrorPos::ExtraToken(a, _) => *a,
        ErrorPos::User => 0,
    }
}

/// How many bytes UTF-8 takes for `c`.
pub open spec fn utf8_len(c: char) -> nat {
    if (c as u32) < 0x80 {
        1
    } else if (c as u32) < 0x800 {
        2
    } else if (c as u32) < 0x10000 {
        3
    } else {
        4
    }
}

/// The byte offset of the `k`-th character of `s`.
pub open spec fn byte_pos(s: Seq<char>, k: int) -> nat
    decreases k,
{
    if k <= 0 || k > s.len() {
        0
    } else {
        byte_pos(s, k - 1) + utf8_len(s[k - 1])
    }
}

/// How many line breaks the first `k` characters of `s` hold.
pub open spec fn count_nl(s: Seq<char>, k: int) -> nat
    decreases k,
{
    if k <= 0 || k > s.len() {
        0
    } else {
        count_nl(s, k - 1) + if s[k - 1] == '\n' { 1nat } else { 0nat }
    }
}

/// Where the line of the `k`-th character of `s` starts: after the last
/// line break before it.
pub open spec fn line_start(s: Seq<char>, k: int) -> int
    decreases k,
{
    if k <= 0 || k > s.len() {
        0
    } else if s[k - 1] == '\n' {
        k
    } else {
        line_start(s, k - 1)
    }
}

/// Where the line that starts at `k` ends: at the next line break, or at
/// the end of `s`.
pub open spec fn line_end(s: Seq<char>, k: int) -> int
    decreases s.len() - k,
{
    if k < 0 || k >= s.len() {
        s.len() as int
    } else if s[k] == '\n' {
        k
    } else {
        line_end(s, k + 1)
    }
}

/// The character of `s` that starts at byte `offset`, or the length of `s`
/// when none does.
pub open spec fn char_at_offset(s: Seq<char>, offset: usize) -> int {
    if exists|k: int| 0 <= k < s.len() && byte_pos(s, k) == offset {
        choose|k: int| 0 <= k < s.len() && byte_pos(s, k) == offset
    } else {
        s.len() as int
    }
}

/// The line, the column and the text of the line where byte `offset` of
/// `s` lies; both count from 1.  Past the end, the place is the end of the
/// text, and the line shown is the last one that has a character.
pub open spec fn line_col(s: Seq<char>, offset: usize) -> (int, int, Seq<char>) {
    let k = char_at_offset(s, offset);
    let ls = if k < s.len() { line_start(s, k) } else { line_start(s, s.len() - 1) };
    ((1 + count_nl(s, k)) as int, 1 + k - line_start(s, k), if s.len() == 0 { Seq::empty() } else { s.subrange(ls, line_end(s, ls)) })
}

/// Byte offsets only grow along the text.
proof fn lemma_byte_pos_grows(s: Seq<char>, i: int, j: int)
    requires
        0 <= i < j <= s.len(),
    ensures
        byte_pos(s, i) < byte_pos(s, j),
    decreases j - i,
{
    if j - 1 > i {
        lemma_byte_pos_grows(s, i, j - 1);
    }
}

/// Line starts lie at or before the character and line ends after.
proof fn lemma_line_bounds(s: Seq<char>, k: int)
    requires
        0 <= k <= s.len(),
    ensures
        0 <= line_start(s, k) <= k,
        line_start(s, k) <= line_end(s, line_start(s, k)) <= s.len(),
    decreases k,
{
    if k > 0 && s[k - 1] != '\n' {
        lemma_line_bounds(s, k - 1);
    }
    lemma_line_end_bounds(s, line_start(s, k));
}

proof fn lemma_line_end_bounds(s: Seq<char>, k: int)
    requires
        0 <= k <= s.len(),
    ensures
        k <= line_end(s, k) <= s.len(),
    decreases s.len() - k,
{
    if k < s.len() && s[k] != '\n' {
        lemma_line_end_bounds(s, k + 1);
    }
}

/// No line break lies between the start of a character's line and the
/// character.
proof fn lemma_line_start_clear(s: Seq<char>, k: int)
    requires
        0 <= k <= s.len(),
    ensures
        forall|i: int| line_start(s, k) <= i < k ==> s[i] != '\n',
    decreases k,
{
    if k > 0 && s[k - 1] != '\n' {
        lemma_line_start_clear(s, k - 1);
    }
}

/// A line holds no line break, and a line with no break between `j` and
/// `k` ends where the line from `k` ends.
proof fn lemma_line_end_clear(s: Seq<char>, j: int, k: int)
    requires
        0 <= j <= k <= s.len(),
        forall|i: int| j <= i < k ==> s[i] != '\n',
    ensures
        line_end(s, j) == line_end(s, k),
        forall|i: int| j <= i < line_end(s, j) ==> s[i] != '\n',
    decreases s.len() - j,
{
    lemma_line_end_bounds(s, j);
    if j < k {
        lemma_line_end_clear(s, j + 1, k);
    } else if j < s.len() && s[j] != '\n' {
        lemma_line_end_clear(s, j + 1, j + 1);
    }
}

/// The place reported for the byte offset of a character points at it: the
/// line text holds no line break and has that character at the reported
/// column, and the line number is one more than the line breaks before it.
pub proof fn lemma_line_col_points(s: Seq<char>, k: int)
    requires
        0 <= k < s.len(),
        s[k] != '\n',
        byte_pos(s, k) <= usize::MAX,
    ensures
        ({
            let (line, col, text) = line_col(s, byte_pos(s, k) as usize);
            &&& 1 <= col <= text.len()
            &&& text[col - 1] == s[k]
            &&& forall|i: int| 0 <= i < text.len() ==> text[i] != '\n'
            &&& line == 1 + s.take(k).filter(|c: char| c == '\n').len()
        }),
{
    let off = byte_pos(s, k) as usize;
    assert(char_at_offset(s, off) == k) by {
        let j = choose|j: int| 0 <= j < s.len() && byte_pos(s, j) == off;
        if j < k {
            lemma_byte_pos_grows(s, j, k);
        } else if j > k {
            lemma_byte_pos_grows(s, k, j);
        }
    }
    lemma_line_bounds(s, k);
    let ls = line_start(s, k);
    lemma_line_start_clear(s, k);
    lemma_line_end_clear(s, ls, k);
    lemma_line_end_clear(s, k, k);
    lemma_line_end_bounds(s, k + 1);
    assert(line_end(s, k) == line_end(s, k + 1));
    lemma_count_nl_filter(s, k);
}

/// `count_nl` counts the line breaks.
proof fn lemma_count_nl_filter(s: Seq<char>, k: int)
    requires
        0 <= k <= s.len(),
    ensures
        count_nl(s, k) == s.take(k).filter(|c: char| c == '\n').len(),
    decreases k,
{
    let f = |c: char| c == '\n';
    if k > 0 {
        lemma_count_nl_filter(s, k - 1);
        let t = s.take(k);
        assert(t.drop_last() =~= s.take(k - 1));
        t.drop_last().lemma_filter_push(t.last(), f);
        assert(t =~= t.drop_last().push(t.last()));
    } else {
        assert(s.take(0).filter(f) =~= Seq::<char>::empty());
    }
}

/// The characters of `s`.
fn str_chars(s: &str) -> (r: Vec<char>)
    ensures
        r@ == s@,
{
    let n = s.unicode_len();
    let mut v: Vec<char> = Vec::new();
    let mut i: usize = 0;
    while i < n
        invariant
            i <= n,
            n == s@.len(),
            v@ == s@.take(i as int),
        decreases n - i,
    {
        let c = s.get_char(i);
        v.push(c);
        assert(v@ =~= s@.take(i + 1));
        i = i + 1;
    }
    assert(s@.take(n as int) =~= s@);
    v
}

fn utf8_width(c: char) -> (r: usize)
    ensures
        r == utf8_len(c),
{
    let u = c as u32;
    if u < 0x80 {
        1
    } else if u < 0x800 {
        2
    } else if u < 0x10000 {
        3
    } else {
        4
    }
}

/// The line, the column and the text of the line where byte `offset` of
/// `input` lies.
pub fn location_to_line_col(input: &str, offset: usize) -> (r: (usize, usize, String))
    requires
        input@.len() < usize::MAX,
    ensures
        r.0 == line_col(input@, offset).0,
        r.1 == line_col(input@, offset).1,
        r.2@ == line_col(input@, offset).2,
{
    let chars = str_chars(input);
    let ghost s = input@;
    let n = chars.len();
    let mut line: usize = 1;
    let mut col: usize = 1;
    let mut ls: usize = 0;
    let mut pos: usize = 0;
    let mut past = false;
    let mut k: usize = 0;
    while k < n
        invariant_except_break
            k > 0 ==> ls == line_start(s, k - 1),
        invariant
            k <= n,
            n == s.len(),
            n < usize::MAX,
            chars@ == s,
            line == 1 + count_nl(s, k as int),
            col == 1 + k - line_start(s, k as int),
            0 <= line_start(s, k as int) <= k,
            !past ==> pos == byte_pos(s, k as int),
            past ==> byte_pos(s, k as int) > usize::MAX,
            forall|j: int| 0 <= j < k ==> byte_pos(s, j) != offset,
            count_nl(s, k as int) <= k,
        ensures
            k <= n,
            line == 1 + count_nl(s, k as int),
            col == 1 + k - line_start(s, k as int),
            k < n ==> ls == line_start(s, k as int),
            k == n && n > 0 ==> ls == line_start(s, n - 1),
            k == char_at_offset(s, offset),
        decreases n - k,
    {
        proof {
            lemma_line_bounds(s, k as int);
        }
        if col == 1 {
            ls = k;
        }
        assert(ls == line_start(s, k as int)) by {
            if k > 0 && s[k - 1] != '\n' {
                assert(line_start(s, k as int) == line_start(s, k - 1));
            }
        }
        if !past && pos == offset {
            proof {
                assert(byte_pos(s, k as int) == offset);
                let c = char_at_offset(s, offset);
                assert(c == k) by {
                    if c != k {
                        if c < k {
                            lemma_byte_pos_grows(s, c, k as int);
                        } else {
                            lemma_byte_pos_grows(s, k as int, c);
                        }
                    }
                }
            }
            break;
        }
        if chars[k] == '\n' {
            line = line + 1;
            col = 1;
        } else {
            col = col + 1;
        }
        let w = utf8_width(chars[k]);
        if past || pos > usize::MAX - w {
            past = true;
        } else {
            pos = pos + w;
        }
        k = k + 1;
    }
    proof {
        if k == n {
            assert(!exists|j: int| 0 <= j < s.len() && byte_pos(s, j) == offset);
        }
    }
    let text = if n == 0 {
        String::new()
    } else {
        proof {
            if k < n {
                lemma_line_bounds(s, k as int);
            } else {
                lemma_line_bounds(s, n - 1);
            }
        }
        let mut e = ls;
        while e < n && chars[e] != '\n'
            invariant
                ls <= e <= n,
                n == s.len(),
                chars@ == s,
                line_end(s, ls as int) == line_end(s, e as int),
            decreases n - e,
        {
            e = e + 1;
        }
        string_of(&chars, ls, e)
    };
    (line, col, text)
}

/// The lines that report a parse error of `input` at byte `offset`: where
/// it lies, the text of the line, and a caret under the column.
pub open spec fn report_lines(input: Seq<char>, offset: usize) -> Seq<Seq<char>> {
    let (line, col, text) = line_col(input, offset);
    seq![
        "Error at line "@ + dec(line as nat) + ", col "@ + dec(col as nat),
        "ERR: "@ + text,
        "ERR: "@ + Seq::new(col as nat, |i: int| ' ') + seq!['^'],
    ]
}

/// The lines that report the parse error `err` of `input`.
pub fn parse_error_report<T, E>(input: &str, err: &ParseError<usize, T, E>) -> (r: Vec<String>)
    requires
        input@.len() < usize::MAX,
    ensures
        exists|p: ErrorPos| r@.map_values(|s: String| s@) == #[trigger] report_lines(input@, start_of(p)),
{
    let p = error_pos(err);
    report_at(input, error_start(&p))
}

/// The lines that report a parse error of `input` at byte `offset`.
pub fn report_at(input: &str, offset: usize) -> (r: Vec<String>)
    requires
        input@.len() < usize::MAX,
    ensures
        r@.map_values(|s: String| s@) == report_lines(input@, offset),
{
    let (line, col, text) = location_to_line_col(input, offset);
    let mut l1 = String::new();
    push_str(&mut l1, "Error at line ");
    push_usize(&mut l1, line);
    push_str(&mut l1, ", col ");
    push_usize(&mut l1, col);
    let mut l2 = String::new();
    push_str(&mut l2, "ERR: ");
    push_str(&mut l2, text.as_str());
    let mut l3 = String::new();
    push_str(&mut l3, "ERR: ");
    let ghost m = l3@;
    let mut i: usize = 0;
    while i < col
        invariant
            i <= col,
            l3@ == m + Seq::new(i as nat, |j: int| ' '),
        decreases col - i,
    {
        push_char(&mut l3, ' ');
        assert(l3@ =~= m + Seq::new((i + 1) as nat, |j: int| ' '));
        i = i + 1;
    }
    push_char(&mut l3, '^');
    let ghost (gl, gc, gt) = line_col(input@, offset);
    assert(l1@ == "Error at line "@ + dec(gl as nat) + ", col "@ + dec(gc as nat));
    assert(l2@ == "ERR: "@ + gt);
    assert(l3@ =~= "ERR: "@ + Seq::new(gc as nat, |j: int| ' ') + seq!['^']);
    let r = vec![l1, l2, l3];
    assert(r@.map_values(|s: String| s@) =~= report_lines(input@, offset));
    r
}

} // verus!
