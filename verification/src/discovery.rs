//! Discovery of aliases and functions in the text of a shell configuration file.

use vstd::prelude::*;

use crate::text::{
    chars_equal, chars_of, is_last_index, lemma_last_index_exists, lines_of, split_lines, contains_char, count_char, count_chars, find_char, join_first, join_with, rfind_char, take_at_most, first_index, is_first_index, lemma_trim_shape, last_index, is_ascii_alphabetic, is_ascii_alphanumeric, lines_view,
    opt_usize, spec_is_ascii_alphabetic, spec_is_ascii_alphanumeric, spec_is_whitespace, spec_trim, starts_with,
    string_from_chars, sub_chars, trim,
};

verus! {

/// A command found in a shell configuration: its name and what it expands to.
#[derive(Debug)]
pub struct Discovered {
    pub name: String,
    pub definition: String,
}

/// The characters of a `Discovered`.
pub struct DiscoveredView {
    pub name: Seq<char>,
    pub definition: Seq<char>,
}

impl View for Discovered {
    type V = DiscoveredView;

    open spec fn view(&self) -> DiscoveredView {
        DiscoveredView { name: self.name@, definition: self.definition@ }
    }
}

pub open spec fn opt_discovered_view(r: Option<Discovered>) -> Option<DiscoveredView> {
    match r {
        Some(d) => Some(d@),
        None => None,
    }
}

/// The keyword that opens an alias line, with its space.
pub open spec fn alias_keyword() -> Seq<char> {
    seq!['a', 'l', 'i', 'a', 's', ' ']
}

/// `value` is wrapped in a pair of double quotes or a pair of single quotes
/// (a lone quote character counts too: it both opens and closes).
pub open spec fn is_quoted(value: Seq<char>) -> bool {
    value.len() > 0 && ((value[0] == '"' && value.last() == '"') || (value[0] == '\''
        && value.last() == '\''))
}

/// The part of an alias line after `alias ` and up to the first `=`, and the
/// part after that `=`.
pub open spec fn alias_parts(line: Seq<char>) -> Option<(Seq<char>, Seq<char>)> {
    if !starts_with(line, alias_keyword()) {
        None
    } else {
        let rest = line.skip(6);
        match first_index(rest, '=') {
            None => None,
            Some(eq) => Some((rest.take(eq), rest.skip(eq + 1))),
        }
    }
}

/// An alias line whose value is a single quote character: taking the text
/// between the quotes would slice from 1 to 0.
pub open spec fn alias_slice_fails(line: Seq<char>) -> bool {
    match alias_parts(line) {
        Some((_, value)) => value.len() == 1 && is_quoted(value),
        None => false,
    }
}

/// `alias name=value` gives the command `name` expanding to `value`, without
/// the surrounding quotes when `value` is quoted.
pub open spec fn spec_parse_alias(line: Seq<char>) -> Option<DiscoveredView> {
    match alias_parts(line) {
        Some((name, value)) => Some(
            DiscoveredView {
                name,
                definition: if is_quoted(value) {
                    value.subrange(1, value.len() - 1)
                } else {
                    value
                },
            },
        ),
        None => None,
    }
}

/// Whether `line` begins with `alias `.
fn starts_with_alias(line: &[char]) -> (r: bool)
    ensures
        r == starts_with(line@, alias_keyword()),
{
    let r = line.len() >= 6 && line[0] == 'a' && line[1] == 'l' && line[2] == 'i' && line[3] == 'a'
        && line[4] == 's' && line[5] == ' ';
    proof {
        if r {
            assert(line@.take(6) =~= alias_keyword());
        }
        if line@.len() >= 6 && line@.take(6) == alias_keyword() {
            assert(line@.take(6)[0] == 'a');
            assert(line@.take(6)[1] == 'l');
            assert(line@.take(6)[2] == 'i');
            assert(line@.take(6)[3] == 'a');
            assert(line@.take(6)[4] == 's');
            assert(line@.take(6)[5] == ' ');
        }
    }
    r
}

/// Parses an (already trimmed) `alias name=value` line.
pub fn parse_alias(line: &[char]) -> (r: Option<Discovered>)
    requires
        !alias_slice_fails(line@),
    ensures
        opt_discovered_view(r) == spec_parse_alias(line@),
{
    if !starts_with_alias(line) {
        return None;
    }
    let rest = sub_chars(line, 6, line.len());
    assert(rest@ == line@.skip(6));
    let eq_pos = match find_char(&rest, '=') {
        Some(p) => p,
        None => return None,
    };
    let name = sub_chars(&rest, 0, eq_pos);
    let value = sub_chars(&rest, eq_pos + 1, rest.len());
    assert(name@ == rest@.take(eq_pos as int));
    assert(value@ == rest@.skip(eq_pos + 1));
    let vlen = value.len();
    let quoted = vlen > 0 && ((value[0] == '"' && value[vlen - 1] == '"') || (value[0] == '\''
        && value[vlen - 1] == '\''));
    let definition = if quoted {
        sub_chars(&value, 1, vlen - 1)
    } else {
        value
    };
    Some(Discovered { name: string_from_chars(&name), definition: string_from_chars(&definition) })
}

} // verus!

verus! {

/// `i` is the first position where `()` begins in `s`.
pub open spec fn is_first_parens(s: Seq<char>, i: int) -> bool {
    &&& 0 <= i && i + 1 < s.len()
    &&& s[i] == '(' && s[i + 1] == ')'
    &&& forall|k: int| 0 <= k < i ==> !(s[k] == '(' && #[trigger] s[k + 1] == ')')
}

/// The first position of `()` in `s`.
pub open spec fn find_parens(s: Seq<char>) -> Option<int> {
    if exists|i: int| is_first_parens(s, i) {
        Some(choose|i: int| is_first_parens(s, i))
    } else {
        None
    }
}

/// The shell's reserved words that can look like `word() {`.
pub open spec fn shell_keywords() -> Seq<Seq<char>> {
    seq![
        seq!['i', 'f'],
        seq!['t', 'h', 'e', 'n'],
        seq!['e', 'l', 's', 'e'],
        seq!['e', 'l', 'i', 'f'],
        seq!['f', 'i'],
        seq!['f', 'o', 'r'],
        seq!['w', 'h', 'i', 'l', 'e'],
        seq!['d', 'o'],
        seq!['d', 'o', 'n', 'e'],
        seq!['c', 'a', 's', 'e'],
        seq!['e', 's', 'a', 'c'],
    ]
}

/// A character allowed in a function name: an ASCII letter, digit or `_`.
pub open spec fn is_name_char(c: char) -> bool {
    spec_is_ascii_alphanumeric(c) || c == '_'
}

/// The name of the function that `line` starts (`name() {` or
/// `name () { ...`): the text before the first `()`, trimmed, when it is a
/// name that begins with a letter or `_` and is not a shell keyword, and the
/// text after the `()` begins with `{` once trimmed.
pub open spec fn spec_parse_function_start(line: Seq<char>) -> Option<Seq<char>> {
    match find_parens(line) {
        None => None,
        Some(p) => {
            let before = spec_trim(line.take(p));
            let after = spec_trim(line.skip(p + 2));
            if before.len() == 0 {
                None
            } else if !(spec_is_ascii_alphabetic(before[0]) || before[0] == '_') {
                None
            } else if !(forall|k: int| 0 <= k < before.len() ==> is_name_char(#[trigger] before[k])) {
                None
            } else if !(after.len() > 0 && after[0] == '{') {
                None
            } else if shell_keywords().contains(before) {
                None
            } else {
                Some(before)
            }
        },
    }
}

/// The first position of `()` in `s`.
fn find_parens_exec(s: &[char]) -> (r: Option<usize>)
    ensures
        opt_usize(r) == find_parens(s@),
        r matches Some(i) ==> is_first_parens(s@, i as int),
{
    let mut i: usize = 0;
    while i < s.len() && i + 1 < s.len()
        invariant
            i <= s@.len(),
            forall|k: int| 0 <= k < i ==> !(s@[k] == '(' && #[trigger] s@[k + 1] == ')'),
        decreases s@.len() - i,
    {
        if s[i] == '(' && s[i + 1] == ')' {
            assert(is_first_parens(s@, i as int));
            let ghost j = choose|j: int| is_first_parens(s@, j);
            assert(j == i) by {
                if j < i {
                    assert(s@[j] == '(' && s@[j + 1] == ')');
                }
                if i < j {
                    assert(s@[i as int] == '(' && s@[i + 1] == ')');
                }
            }
            return Some(i);
        }
        i = i + 1;
    }
    assert forall|j: int| !is_first_parens(s@, j) by {
        if is_first_parens(s@, j) {
            assert(j < i);
            assert(s@[j] == '(' && s@[j + 1] == ')');
        }
    }
    None
}

/// Whether `w` is one of `shell_keywords()`.
fn is_shell_keyword(w: &[char]) -> (r: bool)
    ensures
        r == shell_keywords().contains(w@),
{
    let keywords: Vec<Vec<char>> = vec![
        vec!['i', 'f'],
        vec!['t', 'h', 'e', 'n'],
        vec!['e', 'l', 's', 'e'],
        vec!['e', 'l', 'i', 'f'],
        vec!['f', 'i'],
        vec!['f', 'o', 'r'],
        vec!['w', 'h', 'i', 'l', 'e'],
        vec!['d', 'o'],
        vec!['d', 'o', 'n', 'e'],
        vec!['c', 'a', 's', 'e'],
        vec!['e', 's', 'a', 'c'],
    ];
    assert(lines_view(keywords@) =~= shell_keywords());
    let mut i: usize = 0;
    while i < keywords.len()
        invariant
            i <= keywords@.len(),
            lines_view(keywords@) == shell_keywords(),
            forall|k: int| 0 <= k < i ==> shell_keywords()[k] != w@,
        decreases keywords@.len() - i,
    {
        if chars_equal(&keywords[i], w) {
            assert(shell_keywords()[i as int] == w@);
            return true;
        }
        i = i + 1;
    }
    false
}

/// Whether every character of `w` is a name character.
fn all_name_chars(w: &[char]) -> (r: bool)
    ensures
        r == (forall|k: int| 0 <= k < w@.len() ==> is_name_char(#[trigger] w@[k])),
{
    let mut i: usize = 0;
    while i < w.len()
        invariant
            i <= w@.len(),
            forall|k: int| 0 <= k < i ==> is_name_char(#[trigger] w@[k]),
        decreases w@.len() - i,
    {
        if !(is_ascii_alphanumeric(w[i]) || w[i] == '_') {
            return false;
        }
        i = i + 1;
    }
    true
}

/// The name of the function that an (already trimmed) line starts, if it
/// starts one.
pub fn parse_function_start(line: &[char]) -> (r: Option<String>)
    ensures
        match r {
            Some(name) => spec_parse_function_start(line@) == Some(name@),
            None => spec_parse_function_start(line@) is None,
        },
{
    let paren_pos = match find_parens_exec(line) {
        Some(p) => p,
        None => return None,
    };
    assert(is_first_parens(line@, paren_pos as int));
    let head = sub_chars(line, 0, paren_pos);
    let before = trim(&head);
    assert(head@ == line@.take(paren_pos as int));
    if before.len() == 0 {
        return None;
    }
    let first = before[0];
    if !is_ascii_alphabetic(first) && first != '_' {
        return None;
    }
    if !all_name_chars(&before) {
        return None;
    }
    let len = line.len();
    let tail = sub_chars(line, paren_pos + 2, len);
    assert(tail@ == line@.skip(paren_pos + 2));
    let after = trim(&tail);
    if !(after.len() > 0 && after[0] == '{') {
        return None;
    }
    if is_shell_keyword(&before) {
        return None;
    }
    Some(string_from_chars(&before))
}

} // verus!

verus! {

/// On a line that starts a function, the first `{` is the one after `()`, and
/// no `}` comes before it.
pub proof fn lemma_function_start_brace(line: Seq<char>) -> (q: int)
    requires
        spec_parse_function_start(line) is Some,
    ensures
        is_first_index(line, '{', q),
        forall|k: int| 0 <= k <= q ==> #[trigger] line[k] != '}',
{
    let p0 = choose|i: int| is_first_parens(line, i);
    let head = line.take(p0);
    let tail = line.skip(p0 + 2);
    let (a, b) = lemma_trim_shape(head);
    let (c, d) = lemma_trim_shape(tail);
    let before = spec_trim(head);
    let after = spec_trim(tail);
    assert(after[0] == tail[c]);
    let q = p0 + 2 + c;
    assert(line[q] == '{');
    assert forall|k: int| 0 <= k < q implies #[trigger] line[k] != '{' && line[k] != '}' by {
        if k < p0 {
            assert(line[k] == head[k]);
            if a <= k < b {
                assert(head[k] == before[k - a]);
                assert(is_name_char(before[k - a]));
            }
        } else if k >= p0 + 2 {
            assert(line[k] == tail[k - p0 - 2]);
        }
    }
    q
}

/// A line with a `}` whose last `}` does not come after its first `{`:
/// taking the text between them would slice backwards. No line that starts a
/// function is one (`lemma_function_start_brace`).
pub open spec fn one_line_slice_fails(line: Seq<char>) -> bool {
    match (first_index(line, '{'), last_index(line, '}')) {
        (Some(p), Some(e)) => line.contains('}') && p + 1 > e,
        _ => false,
    }
}

/// On a line that starts a function, the text between the first `{` and the
/// last `}` can be taken.
pub proof fn lemma_function_start_slice(line: Seq<char>)
    requires
        spec_parse_function_start(line) is Some,
    ensures
        !one_line_slice_fails(line),
{
    let q = lemma_function_start_brace(line);
    if line.contains('}') {
        assert(line.contains('{'));
        let p = choose|i: int| is_first_index(line, '{', i);
        let _ = lemma_last_index_exists(line, '}');
        let e = choose|i: int| is_last_index(line, '}', i);
        assert(p == q) by {
            if p < q {
                assert(line[p] == '{');
            }
            if q < p {
                assert(line[q] == '{');
            }
        }
        assert(line[e] == '}');
    }
}

/// The text between the first `{` and the last `}` of a one-line function,
/// trimmed.
pub open spec fn one_line_body(line: Seq<char>) -> Seq<char> {
    match (first_index(line, '{'), last_index(line, '}')) {
        (Some(p), Some(e)) => if p + 1 <= e {
            spec_trim(line.subrange(p + 1, e))
        } else {
            Seq::empty()
        },
        _ => Seq::empty(),
    }
}

} // verus!

verus! {

/// Where the scan of a multi-line function body stops, the body lines it
/// kept, and whether the brace depth would have left `usize`.
pub struct BodyWalk {
    pub end: int,
    pub kept: Seq<Seq<char>>,
    pub overflow: bool,
}

/// The scan of a multi-line function body from line `k` at brace depth
/// `depth`: each line (trimmed) adds its `{` to the depth and then takes its
/// `}` off (never below 0); the scan stops after the line that brings the
/// depth to 0, or at the end of the file. A line is kept when the depth is
/// still above 0 after it and it is neither empty nor a comment.
pub open spec fn body_walk(lines: Seq<Seq<char>>, k: int, depth: int) -> BodyWalk
    decreases lines.len() - k,
{
    if k < 0 || k >= lines.len() || depth <= 0 {
        BodyWalk { end: k, kept: Seq::empty(), overflow: false }
    } else {
        let f = spec_trim(lines[k]);
        let opened = depth + count_char(f, '{');
        if opened > usize::MAX {
            BodyWalk { end: k, kept: Seq::empty(), overflow: true }
        } else {
            let closes = count_char(f, '}') as int;
            let d = if opened >= closes {
                opened - closes
            } else {
                0
            };
            let rest = body_walk(lines, k + 1, d);
            let keep = d > 0 && f.len() > 0 && f[0] != '#';
            BodyWalk {
                end: rest.end,
                kept: if keep {
                    seq![f] + rest.kept
                } else {
                    rest.kept
                },
                overflow: rest.overflow,
            }
        }
    }
}

pub proof fn lemma_body_walk_end(lines: Seq<Seq<char>>, k: int, depth: int)
    ensures
        body_walk(lines, k, depth).end >= k,
        body_walk(lines, k, depth).end <= lines.len() || body_walk(lines, k, depth).end == k,
    decreases lines.len() - k,
{
    if !(k < 0 || k >= lines.len() || depth <= 0) {
        let f = spec_trim(lines[k]);
        let opened = depth + count_char(f, '{');
        if opened <= usize::MAX {
            let closes = count_char(f, '}') as int;
            let d = if opened >= closes {
                opened - closes
            } else {
                0
            };
            lemma_body_walk_end(lines, k + 1, d);
        }
    }
}

/// The definition that the body of the function started on line `i`
/// (`line` is that line, trimmed) is summarised as: for a one-line function
/// the text between its braces; otherwise the first three kept body lines
/// joined with `"; "`.
pub open spec fn spec_function_body(line: Seq<char>, lines: Seq<Seq<char>>, i: int) -> Seq<char> {
    if line.contains('}') {
        one_line_body(line)
    } else {
        join_with(take_at_most(body_walk(lines, i + 1, 1).kept, 3), seq![';', ' '])
    }
}

/// The line after the function started on line `i`.
pub open spec fn spec_function_body_end(line: Seq<char>, lines: Seq<Seq<char>>, i: int) -> int {
    if line.contains('}') {
        i + 1
    } else {
        body_walk(lines, i + 1, 1).end
    }
}

/// The brace depth of the multi-line function started on line `i` would
/// leave `usize`.
pub open spec fn function_body_overflows(line: Seq<char>, lines: Seq<Seq<char>>, i: int) -> bool {
    !line.contains('}') && body_walk(lines, i + 1, 1).overflow
}

/// Scans a multi-line function body from line `start`; `None` exactly when
/// the brace depth would leave `usize`, else where the scan stopped and the
/// kept lines.
fn walk_body(lines: &Vec<Vec<char>>, start: usize) -> (r: Option<(usize, Vec<Vec<char>>)>)
    ensures
        ({
            let w = body_walk(lines_view(lines@), start as int, 1);
            match r {
                None => w.overflow,
                Some((end, kept)) => !w.overflow && end == w.end && lines_view(kept@) == w.kept,
            }
        }),
{
    let ghost all = lines_view(lines@);
    let mut body_lines: Vec<Vec<char>> = Vec::new();
    let mut depth: usize = 1;
    let mut k: usize = start;
    while k < lines.len() && depth > 0
        invariant
            all == lines_view(lines@),
            start <= k,
            ({
                let w = body_walk(all, start as int, 1);
                let rest = body_walk(all, k as int, depth as int);
                &&& w.end == rest.end
                &&& w.overflow == rest.overflow
                &&& w.kept == lines_view(body_lines@) + rest.kept
            }),
        decreases lines@.len() - k,
    {
        let fline = trim(&lines[k]);
        let opens = count_chars(&fline, '{');
        if opens > usize::MAX - depth {
            return None;
        }
        depth = depth + opens;
        let closes = count_chars(&fline, '}');
        depth = if depth >= closes {
            depth - closes
        } else {
            0
        };
        if depth > 0 && fline.len() > 0 && fline[0] != '#' {
            let ghost before = lines_view(body_lines@);
            let ghost f = fline@;
            body_lines.push(fline);
            proof {
                assert(lines_view(body_lines@) =~= before.push(f));
                let ghost rest = body_walk(all, k + 1, depth as int);
                assert(before + (seq![f] + rest.kept) =~= before.push(f) + rest.kept);
            }
        }
        k = k + 1;
    }
    proof {
        let w = body_walk(all, k as int, depth as int);
        assert(w.kept =~= Seq::<Seq<char>>::empty());
        assert(lines_view(body_lines@) + w.kept =~= lines_view(body_lines@));
    }
    Some((k, body_lines))
}

/// The definition of the function whose first (trimmed) line is `first_line`,
/// found on line `*i` of `lines`; `*i` moves to the line after the function.
pub fn extract_function_body(first_line: &[char], lines: &Vec<Vec<char>>, i: &mut usize) -> (r: Vec<char>)
    requires
        !one_line_slice_fails(first_line@),
        *old(i) < usize::MAX,
        !function_body_overflows(first_line@, lines_view(lines@), *old(i) as int),
    ensures
        r@ == spec_function_body(first_line@, lines_view(lines@), *old(i) as int),
        *final(i) == spec_function_body_end(first_line@, lines_view(lines@), *old(i) as int),
        forall|p: int, e: int|
            first_line@.contains('}') && is_first_index(first_line@, '{', p) && is_last_index(
                first_line@,
                '}',
                e,
            ) && p < e ==> r@ == spec_trim(first_line@.subrange(p + 1, e)) && *final(i) == *old(i)
                + 1,
{
    proof {
        assert forall|p: int, e: int|
            first_line@.contains('}') && is_first_index(first_line@, '{', p) && is_last_index(
                first_line@,
                '}',
                e,
            ) && p < e implies spec_function_body(first_line@, lines_view(lines@), *old(i) as int)
            == spec_trim(first_line@.subrange(p + 1, e)) && spec_function_body_end(
            first_line@,
            lines_view(lines@),
            *old(i) as int,
        ) == *old(i) + 1 by {
            lemma_one_line_function_body(first_line@, lines_view(lines@), *old(i) as int, p, e);
        }
    }
    // One-liner: name() { body; }
    if contains_char(first_line, '}') {
        *i = *i + 1;
        let start = find_char(first_line, '{');
        let end = rfind_char(first_line, '}');
        match (start, end) {
            (Some(s), Some(e)) => {
                let inner = sub_chars(first_line, s + 1, e);
                return trim(&inner);
            },
            _ => {
                return Vec::new();
            },
        }
    }
    // Multi-line function

    match walk_body(lines, *i + 1) {
        Some((end, body_lines)) => {
            *i = end;
            join_first(&body_lines, 3)
        },
        None => {
            *i = *i + 1;
            Vec::new()
        },
    }
}

} // verus!

verus! {

pub open spec fn prepend_found(d: DiscoveredView, rest: Option<Seq<DiscoveredView>>) -> Option<
    Seq<DiscoveredView>,
> {
    match rest {
        Some(s) => Some(seq![d] + s),
        None => None,
    }
}

/// The commands found from line `i` of a shell configuration on: blank lines
/// and comments are skipped, `alias` lines give an alias, a line that starts a
/// function gives the function (and the scan goes on after its body), and
/// every other line is skipped. `None` when the scan reaches an alias whose
/// value is a lone quote, or a function body whose brace depth would leave
/// `usize`: on such a file the discovery has no result.
pub open spec fn spec_scan_lines(lines: Seq<Seq<char>>, i: int) -> Option<Seq<DiscoveredView>>
    decreases lines.len() - i,
{
    if i < 0 || i >= lines.len() {
        Some(Seq::empty())
    } else {
        let line = spec_trim(lines[i]);
        if line.len() == 0 || line[0] == '#' {
            spec_scan_lines(lines, i + 1)
        } else if alias_slice_fails(line) {
            None
        } else {
            match spec_parse_alias(line) {
                Some(d) => prepend_found(d, spec_scan_lines(lines, i + 1)),
                None => match spec_parse_function_start(line) {
                    Some(name) => {
                        if function_body_overflows(line, lines, i) {
                            None
                        } else {
                            proof {
                                lemma_body_walk_end(lines, i + 1, 1);
                            }
                            prepend_found(
                                DiscoveredView {
                                    name,
                                    definition: spec_function_body(line, lines, i),
                                },
                                spec_scan_lines(lines, spec_function_body_end(line, lines, i)),
                            )
                        }
                    },
                    None => spec_scan_lines(lines, i + 1),
                },
            }
        }
    }
}

/// The commands found in the text of a shell configuration file.
pub open spec fn spec_parse_shell_text(content: Seq<char>) -> Option<Seq<DiscoveredView>> {
    spec_scan_lines(split_lines(content), 0)
}

pub open spec fn found_views(v: Seq<Discovered>) -> Seq<DiscoveredView> {
    v.map_values(|d: Discovered| d@)
}

pub open spec fn opt_found_views(r: Option<Vec<Discovered>>) -> Option<Seq<DiscoveredView>> {
    match r {
        Some(v) => Some(found_views(v@)),
        None => None,
    }
}

/// Whether an (already trimmed) line is an alias whose value is a lone quote.
fn alias_value_is_lone_quote(line: &[char]) -> (r: bool)
    ensures
        r == alias_slice_fails(line@),
{
    if !starts_with_alias(line) {
        return false;
    }
    let rest = sub_chars(line, 6, line.len());
    assert(rest@ == line@.skip(6));
    match find_char(&rest, '=') {
        Some(eq) => {
            assert(rest@.skip(eq + 1).len() == rest@.len() - eq - 1);
            if rest.len() - eq - 1 == 1 {
                let c = rest[eq + 1];
                assert(rest@.skip(eq + 1)[0] == c);
                c == '"' || c == '\''
            } else {
                false
            }
        },
        None => false,
    }
}

/// Finds the aliases and functions in the lines of a shell configuration.
/// `None` exactly when `spec_scan_lines` has no result.
pub fn parse_shell_lines(lines: &Vec<Vec<char>>) -> (r: Option<Vec<Discovered>>)
    ensures
        opt_found_views(r) == spec_scan_lines(lines_view(lines@), 0),
{
    let ghost all = lines_view(lines@);
    let mut out: Vec<Discovered> = Vec::new();
    let mut i: usize = 0;
    while i < lines.len()
        invariant
            all == lines_view(lines@),
            i <= lines@.len(),
            spec_scan_lines(all, 0) == (match spec_scan_lines(all, i as int) {
                Some(s) => Some(found_views(out@) + s),
                None => None,
            }),
        decreases lines@.len() - i,
    {
        let line = trim(&lines[i]);
        let ghost before = found_views(out@);
        if line.len() == 0 || line[0] == '#' {
            i = i + 1;
        } else if alias_value_is_lone_quote(&line) {
            return None;
        } else {
            match parse_alias(&line) {
                Some(cmd) => {
                    let ghost d = cmd@;
                    out.push(cmd);
                    proof {
                        assert(found_views(out@) =~= before.push(d));
                        match spec_scan_lines(all, i + 1) {
                            Some(s) => {
                                assert(before + (seq![d] + s) =~= before.push(d) + s);
                            },
                            None => {},
                        }
                    }
                    i = i + 1;
                },
                None => {
                    match parse_function_start(&line) {
                        Some(name) => {
                            if !contains_char(&line, '}') {
                                if walk_body(lines, i + 1).is_none() {
                                    return None;
                                }
                            }
                            proof {
                                lemma_body_walk_end(all, i + 1, 1);
                                lemma_function_start_slice(line@);
                            }
                            let definition = extract_function_body(&line, lines, &mut i);
                            let cmd = Discovered { name, definition: string_from_chars(&definition) };
                            let ghost d = cmd@;
                            out.push(cmd);
                            proof {
                                assert(found_views(out@) =~= before.push(d));
                                match spec_scan_lines(all, i as int) {
                                    Some(s) => {
                                        assert(before + (seq![d] + s) =~= before.push(d) + s);
                                    },
                                    None => {},
                                }
                            }
                        },
                        None => {
                            i = i + 1;
                        },
                    }
                },
            }
        }
    }
    proof {
        assert(found_views(out@) + Seq::<DiscoveredView>::empty() =~= found_views(out@));
    }
    Some(out)
}

/// Finds the aliases and functions in the text of a shell configuration
/// file. `None` exactly when `spec_parse_shell_text` has no result (a file on
/// which the discovery would fail).
pub fn parse_shell_text(content: &str) -> (r: Option<Vec<Discovered>>)
    ensures
        opt_found_views(r) == spec_parse_shell_text(content@),
{
    let chars = chars_of(content);
    let lines = lines_of(&chars);
    parse_shell_lines(&lines)
}

} // verus!

verus! {

/// The definition of a one-line function, said directly: on a line with a
/// `}`, it is the text strictly between the first `{` and the last `}`,
/// trimmed (so every `}` before the last one stays in it), and the scan goes
/// on at the next line.
pub proof fn lemma_one_line_function_body(
    line: Seq<char>,
    lines: Seq<Seq<char>>,
    i: int,
    p: int,
    e: int,
)
    requires
        line.contains('}'),
        is_first_index(line, '{', p),
        is_last_index(line, '}', e),
        p < e,
    ensures
        spec_function_body(line, lines, i) == spec_trim(line.subrange(p + 1, e)),
        spec_function_body_end(line, lines, i) == i + 1,
{
    assert(line.contains('{'));
    let p2 = choose|k: int| is_first_index(line, '{', k);
    let e2 = choose|k: int| is_last_index(line, '}', k);
    assert(p2 == p) by {
        if p2 < p {
            assert(line[p2] == '{');
        }
        if p < p2 {
            assert(line[p] == '{');
        }
    }
    assert(e2 == e) by {
        if e2 < e {
            assert(line[e] == '}');
        }
        if e < e2 {
            assert(line[e2] == '}');
        }
    }
}

/// On a line that starts a function and holds a `}`, the first `{` comes
/// before the last `}`, so the one-line rule above applies.
pub proof fn lemma_function_start_braces_ordered(line: Seq<char>, p: int, e: int)
    requires
        spec_parse_function_start(line) is Some,
        is_first_index(line, '{', p),
        is_last_index(line, '}', e),
    ensures
        p < e,
{
    let q = lemma_function_start_brace(line);
    assert(p == q) by {
        if p < q {
            assert(line[p] == '{');
        }
        if q < p {
            assert(line[q] == '{');
        }
    }
    assert(line[e] == '}');
}

} // verus!

verus! {

/// Alias lines, said directly: `alias NAME=VALUE` (with no `=` in `NAME`)
/// gives the command `NAME` whose definition is `VALUE`, without its outer
/// quotes when it is at least two characters long and begins and ends with
/// the same quote character (`"` or `'`), and `VALUE` as it is otherwise. A
/// line that does not begin with `alias `, or has no `=` after it, is no alias.
pub proof fn lemma_alias_line(name: Seq<char>, value: Seq<char>, other: Seq<char>)
    requires
        !name.contains('='),
        !(value.len() == 1 && (value[0] == '"' || value[0] == '\'')),
    ensures
        spec_parse_alias(seq!['a', 'l', 'i', 'a', 's', ' '] + name + seq!['='] + value) == Some(
            DiscoveredView {
                name,
                definition: if value.len() >= 2 && ((value[0] == '"' && value.last() == '"') || (
                value[0] == '\'' && value.last() == '\'')) {
                    value.subrange(1, value.len() - 1)
                } else {
                    value
                },
            },
        ),
        !starts_with(other, seq!['a', 'l', 'i', 'a', 's', ' ']) ==> spec_parse_alias(other) is None,
        starts_with(other, seq!['a', 'l', 'i', 'a', 's', ' ']) && !other.skip(6).contains('=')
            ==> spec_parse_alias(other) is None,
{
    let line = seq!['a', 'l', 'i', 'a', 's', ' '] + name + seq!['='] + value;
    assert(line.take(6) =~= alias_keyword());
    let rest = line.skip(6);
    assert(rest =~= name + seq!['='] + value);
    let k = name.len() as int;
    assert(rest[k] == '=');
    assert(rest.contains('='));
    assert forall|j: int| 0 <= j < k implies rest[j] != '=' by {
        assert(rest[j] == name[j]);
    }
    assert(is_first_index(rest, '=', k));
    let c = choose|i: int| is_first_index(rest, '=', i);
    assert(c == k) by {
        if c < k {
            assert(rest[c] == name[c]);
        }
    }
    assert(rest.take(k) =~= name);
    assert(rest.skip(k + 1) =~= value);
}

} // verus!

verus! {

/// Every character of `s` is whitespace (an empty `s` included).
pub open spec fn all_whitespace(s: Seq<char>) -> bool {
    forall|k: int| 0 <= k < s.len() ==> spec_is_whitespace(#[trigger] s[k])
}

proof fn lemma_trim_padded(pre: Seq<char>, x: Seq<char>, post: Seq<char>)
    requires
        all_whitespace(pre),
        all_whitespace(post),
        x.len() > 0,
        !spec_is_whitespace(x[0]),
        !spec_is_whitespace(x.last()),
    ensures
        spec_trim(pre + x + post) == x,
{
    let s = pre + x + post;
    let (a, b) = lemma_trim_shape(s);
    let lo = pre.len() as int;
    let hi = lo + x.len();
    assert(s[lo] == x[0]);
    assert(s[hi - 1] == x.last());
    assert(a <= lo);
    assert(b >= hi);
    if a < lo {
        assert(s[a] == pre[a]);
    }
    if b > hi {
        assert(s[b - 1] == post[b - 1 - hi]);
    }
    assert(s.subrange(a, b) =~= x);
}

proof fn lemma_trim_starts_with(pre: Seq<char>, c: char, rest: Seq<char>)
    requires
        all_whitespace(pre),
        !spec_is_whitespace(c),
    ensures
        spec_trim(pre + seq![c] + rest).len() > 0,
        spec_trim(pre + seq![c] + rest)[0] == c,
{
    let s = pre + seq![c] + rest;
    let (a, b) = lemma_trim_shape(s);
    let lo = pre.len() as int;
    assert(s[lo] == c);
    assert(a <= lo);
    assert(b > lo);
    if a < lo {
        assert(s[a] == pre[a]);
    }
}

/// Function lines, said directly: `NAME()` followed by optional whitespace
/// and `{` (with optional whitespace between `NAME` and `()`) starts the
/// function `NAME`, whatever follows the `{`, when `NAME` begins with an
/// ASCII letter or `_`, holds only ASCII letters, digits and `_`, and is not
/// a shell keyword. Whatever a line starts, its name is such a name.
pub proof fn lemma_function_start_line(
    name: Seq<char>,
    gap1: Seq<char>,
    gap2: Seq<char>,
    rest: Seq<char>,
    line: Seq<char>,
)
    requires
        name.len() > 0,
        spec_is_ascii_alphabetic(name[0]) || name[0] == '_',
        forall|k: int| 0 <= k < name.len() ==> is_name_char(#[trigger] name[k]),
        !shell_keywords().contains(name),
        all_whitespace(gap1),
        all_whitespace(gap2),
    ensures
        spec_parse_function_start(name + gap1 + seq!['(', ')'] + gap2 + seq!['{'] + rest) == Some(
            name,
        ),
        spec_parse_function_start(line) matches Some(n) ==> n.len() > 0 && (
        spec_is_ascii_alphabetic(n[0]) || n[0] == '_') && (forall|k: int|
            0 <= k < n.len() ==> is_name_char(#[trigger] n[k])) && !shell_keywords().contains(n),
{
    let l = name + gap1 + seq!['(', ')'] + gap2 + seq!['{'] + rest;
    let p = (name.len() + gap1.len()) as int;
    assert(l[p] == '(' && l[p + 1] == ')');
    assert forall|k: int| 0 <= k < p implies !(l[k] == '(' && #[trigger] l[k + 1] == ')') by {
        if k < name.len() {
            assert(l[k] == name[k]);
            assert(is_name_char(name[k]));
        } else {
            assert(l[k] == gap1[k - name.len()]);
        }
    }
    assert(is_first_parens(l, p));
    let c = choose|i: int| is_first_parens(l, i);
    assert(c == p) by {
        if c < p {
            assert(l[c] == '(' && l[c + 1] == ')');
        }
        if p < c {
            assert(l[p] == '(' && l[p + 1] == ')');
        }
    }
    assert(l.take(p) =~= Seq::<char>::empty() + name + gap1);
    assert(is_name_char(name[0]));
    assert(is_name_char(name.last()));
    lemma_trim_padded(Seq::<char>::empty(), name, gap1);
    assert(l.skip(p + 2) =~= gap2 + seq!['{'] + rest);
    lemma_trim_starts_with(gap2, '{', rest);
}

} // verus!

verus! {

/// The trimmed body lines of `ls` that a function body keeps: not empty and
/// not a `#` comment.
pub open spec fn kept_body_lines(ls: Seq<Seq<char>>) -> Seq<Seq<char>> {
    ls.map_values(trimmed()).filter(kept_line())
}

/// Trimming, as a function value.
pub open spec fn trimmed() -> spec_fn(Seq<char>) -> Seq<char> {
    |l: Seq<char>| spec_trim(l)
}

/// A trimmed body line is kept when it is neither empty nor a `#` comment.
pub open spec fn kept_line() -> spec_fn(Seq<char>) -> bool {
    |f: Seq<char>| f.len() > 0 && f[0] != '#'
}

} // verus!

verus! {

/// How the scan goes from one line to the next, said directly: past the last
/// line it finds nothing more; an empty (after trimming) or `#` line adds
/// nothing; an alias line puts its alias in front of what the following lines
/// give; a one-line function (`NAME() { ... }` with its `}` on the same line)
/// puts `NAME` with the trimmed text between its first `{` and last `}` in
/// front of what the following lines give; a function whose first line has
/// no `}` puts its name and body in front of what the lines after its body
/// give; any other line that is neither an alias nor starts a function adds
/// nothing. A scan that fails further on fails here too.
pub proof fn lemma_scan_step(lines: Seq<Seq<char>>, i: int)
    requires
        0 <= i < lines.len(),
    ensures
        spec_scan_lines(lines, lines.len() as int) == Some(Seq::<DiscoveredView>::empty()),
        ({
            let t = spec_trim(lines[i]);
            let after = spec_scan_lines(lines, i + 1);
            let here = spec_scan_lines(lines, i);
            &&& (t.len() == 0 || t[0] == '#') ==> here == after
            &&& (!alias_slice_fails(t) && spec_parse_alias(t) is Some) ==> here == match after {
                Some(s) => Some(seq![spec_parse_alias(t)->0] + s),
                None => None,
            }
            &&& (!starts_with(t, alias_keyword()) && t.len() > 0 && t[0] != '#'
                && spec_parse_function_start(t) is None) ==> here == after
            &&& forall|p: int, e: int|
                !starts_with(t, alias_keyword()) && spec_parse_function_start(t) is Some
                    && is_first_index(t, '{', p) && is_last_index(t, '}', e) ==> here == match after {
                    Some(s) => Some(
                        seq![
                            DiscoveredView {
                                name: spec_parse_function_start(t)->0,
                                definition: spec_trim(t.subrange(p + 1, e)),
                            },
                        ] + s,
                    ),
                    None => None,
                }
            &&& (!starts_with(t, alias_keyword()) && spec_parse_function_start(t) is Some
                && !t.contains('}') && !function_body_overflows(t, lines, i)) ==> here == match spec_scan_lines(
                lines,
                spec_function_body_end(t, lines, i),
            ) {
                Some(s) => Some(
                    seq![
                        DiscoveredView {
                            name: spec_parse_function_start(t)->0,
                            definition: spec_function_body(t, lines, i),
                        },
                    ] + s,
                ),
                None => None,
            }
        }),
{
    let t = spec_trim(lines[i]);
    if spec_parse_function_start(t) is Some {
        lemma_function_start_not_comment(t);
    }
    if !starts_with(t, alias_keyword()) {
        assert(alias_parts(t) is None);
    }
    if t.len() > 0 && t[0] == '#' {
        assert(!starts_with(t, alias_keyword())) by {
            if starts_with(t, alias_keyword()) {
                assert(t.take(6)[0] == 'a');
            }
        }
    }
    assert forall|p: int, e: int|
        !starts_with(t, alias_keyword()) && spec_parse_function_start(t) is Some && is_first_index(
            t,
            '{',
            p,
        ) && is_last_index(t, '}', e) implies spec_function_body(t, lines, i) == spec_trim(
        t.subrange(p + 1, e),
    ) && spec_function_body_end(t, lines, i) == i + 1 && !function_body_overflows(t, lines, i)
        && t.len() > 0 && t[0] != '#' by {
        lemma_function_start_braces_ordered(t, p, e);
        assert(t[e] == '}');
        assert(t.contains('}'));
        lemma_one_line_function_body(t, lines, i, p, e);
        lemma_function_start_brace(t);
        lemma_function_start_not_comment(t);
    }
}

/// A line that starts a function does not begin with `#`.
proof fn lemma_function_start_not_comment(t: Seq<char>)
    requires
        spec_parse_function_start(t) is Some,
    ensures
        t.len() > 0 && t[0] != '#',
{
    let pp = find_parens(t)->0;
    let x = t.take(pp);
    let (a, b) = lemma_trim_shape(x);
    assert(a < b);
    assert(spec_trim(x)[0] == x[a]);
    if a > 0 {
        assert(spec_is_whitespace(x[0]));
        assert(x[0] == t[0]);
    } else {
        assert(x[0] == t[0]);
    }
}

} // verus!

verus! {

/// The `{` of a line (trimmed) less its `}`.
pub open spec fn brace_delta(l: Seq<char>) -> int {
    count_char(spec_trim(l), '{') - count_char(spec_trim(l), '}')
}

/// The `{` less the `}` of the lines `a` up to (not including) `b`.
pub open spec fn brace_balance(lines: Seq<Seq<char>>, a: int, b: int) -> int
    decreases b - a,
{
    if a >= b {
        0
    } else {
        brace_delta(lines[a]) + brace_balance(lines, a + 1, b)
    }
}

proof fn lemma_balanced_walk(lines: Seq<Seq<char>>, k: int, c: int, d: int)
    requires
        0 <= k <= c < lines.len(),
        d > 0,
        forall|j: int| k <= j < c ==> d + #[trigger] brace_balance(lines, k, j + 1) > 0,
        d + brace_balance(lines, k, c + 1) <= 0,
        forall|j: int|
            k <= j <= c ==> d + #[trigger] brace_balance(lines, k, j) + count_char(
                spec_trim(lines[j]),
                '{',
            ) <= usize::MAX,
    ensures
        body_walk(lines, k, d) == (BodyWalk {
            end: c + 1,
            kept: kept_body_lines(lines.subrange(k, c)),
            overflow: false,
        }),
    decreases c - k,
{
    reveal(Seq::filter);
    let f = spec_trim(lines[k]);
    let pred = kept_line();
    let tr = trimmed();
    assert(brace_balance(lines, k, k) == 0);
    assert(brace_balance(lines, k, k + 1) == brace_delta(lines[k]) + brace_balance(lines, k + 1, k + 1));
    if k == c {
        let w = body_walk(lines, c + 1, 0);
        assert(w.end == c + 1 && w.kept == Seq::<Seq<char>>::empty() && !w.overflow);
        let e = lines.subrange(k, c).map_values(tr);
        assert(e =~= Seq::<Seq<char>>::empty());
        assert(e.filter(pred) =~= Seq::<Seq<char>>::empty());
    } else {
        let d1 = d + brace_delta(lines[k]);
        assert(d1 > 0);
        assert forall|j: int| k + 1 <= j < c implies d1 + #[trigger] brace_balance(lines, k + 1, j + 1) > 0 by {
            assert(brace_balance(lines, k, j + 1) == brace_delta(lines[k]) + brace_balance(lines, k + 1, j + 1));
            assert(d + brace_balance(lines, k, j + 1) > 0);
        }
        assert(brace_balance(lines, k, c + 1) == brace_delta(lines[k]) + brace_balance(lines, k + 1, c + 1));
        assert forall|j: int|
            k + 1 <= j <= c implies d1 + #[trigger] brace_balance(lines, k + 1, j) + count_char(
            spec_trim(lines[j]),
            '{',
        ) <= usize::MAX by {
            assert(brace_balance(lines, k, j) == brace_delta(lines[k]) + brace_balance(lines, k + 1, j));
            assert(d + brace_balance(lines, k, j) + count_char(spec_trim(lines[j]), '{') <= usize::MAX);
        }
        lemma_balanced_walk(lines, k + 1, c, d1);
        let m = lines.subrange(k, c).map_values(tr);
        let m1 = lines.subrange(k + 1, c).map_values(tr);
        assert(m =~= seq![f] + m1);
        Seq::filter_distributes_over_add(seq![f], m1, pred);
        let e = seq![f].drop_last();
        assert(e =~= Seq::<Seq<char>>::empty());
        assert(e.filter(pred) =~= Seq::<Seq<char>>::empty());
        assert(seq![f].filter(pred) =~= if pred(f) {
            seq![f]
        } else {
            Seq::<Seq<char>>::empty()
        });
        if !pred(f) {
            assert(Seq::<Seq<char>>::empty() + m1.filter(pred) =~= m1.filter(pred));
        }
    }
}

/// Multi-line functions with nested braces, said directly: when the line
/// that starts a function has no `}`, the brace depth (starting at 1 and
/// counting each later line's `{` up and its `}` down) stays above 0 until
/// line `c` brings it to 0 or below, and it never leaves `usize`, the
/// function ends with line `c`, and its definition is its first three body
/// lines before `c` (trimmed, with empty lines and `#` comments skipped)
/// joined with `"; "`.
pub proof fn lemma_nested_function(line: Seq<char>, lines: Seq<Seq<char>>, i: int, c: int)
    requires
        !line.contains('}'),
        0 <= i < c < lines.len(),
        forall|j: int| i < j < c ==> 1 + #[trigger] brace_balance(lines, i + 1, j + 1) > 0,
        1 + brace_balance(lines, i + 1, c + 1) <= 0,
        forall|j: int|
            i < j <= c ==> 1 + #[trigger] brace_balance(lines, i + 1, j) + count_char(
                spec_trim(lines[j]),
                '{',
            ) <= usize::MAX,
    ensures
        ({
            let kept = kept_body_lines(lines.subrange(i + 1, c));
            let sep = seq![';', ' '];
            &&& !function_body_overflows(line, lines, i)
            &&& spec_function_body_end(line, lines, i) == c + 1
            &&& spec_function_body(line, lines, i) == if kept.len() == 0 {
                Seq::<char>::empty()
            } else if kept.len() == 1 {
                kept[0]
            } else if kept.len() == 2 {
                kept[0] + sep + kept[1]
            } else {
                kept[0] + sep + kept[1] + sep + kept[2]
            }
        }),
{
    lemma_balanced_walk(lines, i + 1, c, 1);
    let kept = kept_body_lines(lines.subrange(i + 1, c));
    let t = take_at_most(kept, 3);
    let sep = seq![';', ' '];
    if kept.len() >= 3 {
        assert(t.len() == 3);
        assert(t.drop_last().drop_last() =~= seq![kept[0]]);
        assert(t.drop_last().last() == kept[1]);
        assert(join_with(t.drop_last().drop_last(), sep) == kept[0]);
        assert(join_with(t.drop_last(), sep) == kept[0] + sep + kept[1]);
    } else if kept.len() == 2 {
        assert(t.drop_last() =~= seq![kept[0]]);
        assert(join_with(t.drop_last(), sep) == kept[0]);
    }
}

} // verus!

verus! {

proof fn lemma_unclosed_walk(lines: Seq<Seq<char>>, k: int, d: int)
    requires
        0 <= k <= lines.len(),
        d > 0,
        forall|j: int| k <= j < lines.len() ==> d + #[trigger] brace_balance(lines, k, j + 1) > 0,
        forall|j: int|
            k <= j < lines.len() ==> d + #[trigger] brace_balance(lines, k, j) + count_char(
                spec_trim(lines[j]),
                '{',
            ) <= usize::MAX,
    ensures
        body_walk(lines, k, d) == (BodyWalk {
            end: lines.len() as int,
            kept: kept_body_lines(lines.subrange(k, lines.len() as int)),
            overflow: false,
        }),
    decreases lines.len() - k,
{
    reveal(Seq::filter);
    let n = lines.len() as int;
    let pred = kept_line();
    let tr = trimmed();
    if k == n {
        let e = lines.subrange(k, n).map_values(tr);
        assert(e =~= Seq::<Seq<char>>::empty());
        assert(e.filter(pred) =~= Seq::<Seq<char>>::empty());
    } else {
        let f = spec_trim(lines[k]);
        assert(brace_balance(lines, k, k) == 0);
        assert(brace_balance(lines, k, k + 1) == brace_delta(lines[k]) + brace_balance(lines, k + 1, k + 1));
        let d1 = d + brace_delta(lines[k]);
        assert(d1 > 0);
        assert forall|j: int| k + 1 <= j < n implies d1 + #[trigger] brace_balance(lines, k + 1, j + 1) > 0 by {
            assert(brace_balance(lines, k, j + 1) == brace_delta(lines[k]) + brace_balance(lines, k + 1, j + 1));
            assert(d + brace_balance(lines, k, j + 1) > 0);
        }
        assert forall|j: int|
            k + 1 <= j < n implies d1 + #[trigger] brace_balance(lines, k + 1, j) + count_char(
            spec_trim(lines[j]),
            '{',
        ) <= usize::MAX by {
            assert(brace_balance(lines, k, j) == brace_delta(lines[k]) + brace_balance(lines, k + 1, j));
            assert(d + brace_balance(lines, k, j) + count_char(spec_trim(lines[j]), '{') <= usize::MAX);
        }
        lemma_unclosed_walk(lines, k + 1, d1);
        let m = lines.subrange(k, n).map_values(tr);
        let m1 = lines.subrange(k + 1, n).map_values(tr);
        assert(m =~= seq![f] + m1);
        Seq::filter_distributes_over_add(seq![f], m1, pred);
        let e = seq![f].drop_last();
        assert(e =~= Seq::<Seq<char>>::empty());
        assert(e.filter(pred) =~= Seq::<Seq<char>>::empty());
        assert(seq![f].filter(pred) =~= if pred(f) {
            seq![f]
        } else {
            Seq::<Seq<char>>::empty()
        });
        if !pred(f) {
            assert(Seq::<Seq<char>>::empty() + m1.filter(pred) =~= m1.filter(pred));
        }
    }
}

/// A function whose braces never close: when the line that starts it has no
/// `}` and the brace depth stays above 0 (without leaving `usize`) to the end
/// of the file, the function runs to the end of the file, and its definition
/// is its first three body lines (trimmed, with empty lines and `#` comments
/// skipped) joined with `"; "`.
pub proof fn lemma_unclosed_function(line: Seq<char>, lines: Seq<Seq<char>>, i: int)
    requires
        !line.contains('}'),
        0 <= i < lines.len(),
        forall|j: int| i < j < lines.len() ==> 1 + #[trigger] brace_balance(lines, i + 1, j + 1) > 0,
        forall|j: int|
            i < j < lines.len() ==> 1 + #[trigger] brace_balance(lines, i + 1, j) + count_char(
                spec_trim(lines[j]),
                '{',
            ) <= usize::MAX,
    ensures
        ({
            let kept = kept_body_lines(lines.subrange(i + 1, lines.len() as int));
            let sep = seq![';', ' '];
            &&& !function_body_overflows(line, lines, i)
            &&& spec_function_body_end(line, lines, i) == lines.len()
            &&& spec_function_body(line, lines, i) == if kept.len() == 0 {
                Seq::<char>::empty()
            } else if kept.len() == 1 {
                kept[0]
            } else if kept.len() == 2 {
                kept[0] + sep + kept[1]
            } else {
                kept[0] + sep + kept[1] + sep + kept[2]
            }
        }),
{
    lemma_unclosed_walk(lines, i + 1, 1);
    let kept = kept_body_lines(lines.subrange(i + 1, lines.len() as int));
    let t = take_at_most(kept, 3);
    let sep = seq![';', ' '];
    if kept.len() >= 3 {
        assert(t.len() == 3);
        assert(t.drop_last().drop_last() =~= seq![kept[0]]);
        assert(t.drop_last().last() == kept[1]);
        assert(join_with(t.drop_last().drop_last(), sep) == kept[0]);
        assert(join_with(t.drop_last(), sep) == kept[0] + sep + kept[1]);
    } else if kept.len() == 2 {
        assert(t.drop_last() =~= seq![kept[0]]);
        assert(join_with(t.drop_last(), sep) == kept[0]);
    }
}

} // verus!
