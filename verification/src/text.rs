//! Character-level helpers shared by the parsers: Unicode whitespace,
//! trimming, searching, and conversions between `str` and `Vec<char>`.

use vstd::prelude::*;

verus! {

/// The characters that `char::is_whitespace` accepts: those with the Unicode
/// `White_Space` property.
pub open spec fn spec_is_whitespace(c: char) -> bool {
    let u = c as u32;
    ||| u == 0x20
    ||| 0x09 <= u <= 0x0d
    ||| u == 0x85
    ||| u == 0xa0
    ||| u == 0x1680
    ||| 0x2000 <= u <= 0x200a
    ||| u == 0x2028
    ||| u == 0x2029
    ||| u == 0x202f
    ||| u == 0x205f
    ||| u == 0x3000
}

/// Whether `c` is Unicode whitespace (the same set as `char::is_whitespace`).
pub fn is_whitespace(c: char) -> (r: bool)
    ensures
        r == spec_is_whitespace(c),
{
    let u = c as u32;
    u == 0x20 || (0x09 <= u && u <= 0x0d) || u == 0x85 || u == 0xa0 || u == 0x1680 || (0x2000
        <= u && u <= 0x200a) || u == 0x2028 || u == 0x2029 || u == 0x202f || u == 0x205f || u
        == 0x3000
}

} // verus!

verus! {

/// `s` without its leading whitespace.
pub open spec fn spec_trim_start(s: Seq<char>) -> Seq<char>
    decreases s.len(),
{
    if s.len() > 0 && spec_is_whitespace(s[0]) {
        spec_trim_start(s.drop_first())
    } else {
        s
    }
}

/// `s` without its trailing whitespace.
pub open spec fn spec_trim_end(s: Seq<char>) -> Seq<char>
    decreases s.len(),
{
    if s.len() > 0 && spec_is_whitespace(s.last()) {
        spec_trim_end(s.drop_last())
    } else {
        s
    }
}

/// `s` without leading and trailing whitespace, as `str::trim` gives it.
pub open spec fn spec_trim(s: Seq<char>) -> Seq<char> {
    spec_trim_end(spec_trim_start(s))
}

/// The characters of `s` in a vector.
pub fn chars_of(s: &str) -> (r: Vec<char>)
    ensures
        r@ == s@,
{
    broadcast use vstd::string::group_string_axioms;
    let mut r: Vec<char> = Vec::new();
    for c in it: s.chars()
        invariant
            r@ == it.seq().take(it.index() as int),
    {
        r.push(c);
    }
    r
}

} // verus!

verus! {

/// The characters `s[from..to]` in a new vector.
pub fn sub_chars(s: &[char], from: usize, to: usize) -> (r: Vec<char>)
    requires
        from <= to <= s@.len(),
    ensures
        r@ == s@.subrange(from as int, to as int),
{
    let mut r: Vec<char> = Vec::new();
    let mut k = from;
    while k < to
        invariant
            from <= k <= to <= s@.len(),
            r@ == s@.subrange(from as int, k as int),
        decreases to - k,
    {
        r.push(s[k]);
        k = k + 1;
    }
    r
}

/// The bounds `(start, end)` of `s` without its leading and trailing whitespace.
pub fn trim_bounds(s: &[char]) -> (r: (usize, usize))
    ensures
        r.0 <= r.1 <= s@.len(),
        s@.subrange(r.0 as int, r.1 as int) == spec_trim(s@),
{
    let len = s.len();
    let mut i: usize = 0;
    assert(s@.subrange(0, len as int) =~= s@);
    while i < len && is_whitespace(s[i])
        invariant
            i <= len == s@.len(),
            spec_trim_start(s@) == spec_trim_start(s@.subrange(i as int, len as int)),
        decreases len - i,
    {
        assert(s@.subrange(i as int, len as int).drop_first() =~= s@.subrange(
            i + 1,
            len as int,
        ));
        i = i + 1;
    }
    let ghost t = s@.subrange(i as int, len as int);
    assert(spec_trim_start(t) == t);
    let mut j: usize = len;
    while j > i && is_whitespace(s[j - 1])
        invariant
            i <= j <= len == s@.len(),
            t == s@.subrange(i as int, len as int),
            spec_trim_end(t) == spec_trim_end(s@.subrange(i as int, j as int)),
        decreases j,
    {
        assert(s@.subrange(i as int, j as int).drop_last() =~= s@.subrange(
            i as int,
            j - 1,
        ));
        j = j - 1;
    }
    (i, j)
}

/// `s` without leading and trailing whitespace (`str::trim`).
pub fn trim(s: &[char]) -> (r: Vec<char>)
    ensures
        r@ == spec_trim(s@),
{
    let (i, j) = trim_bounds(s);
    sub_chars(s, i, j)
}

} // verus!

verus! {

/// `i` is the first position of `c` in `s`.
pub open spec fn is_first_index(s: Seq<char>, c: char, i: int) -> bool {
    0 <= i < s.len() && s[i] == c && forall|k: int| 0 <= k < i ==> s[k] != c
}

/// `i` is the last position of `c` in `s`.
pub open spec fn is_last_index(s: Seq<char>, c: char, i: int) -> bool {
    0 <= i < s.len() && s[i] == c && forall|k: int| i < k < s.len() ==> s[k] != c
}

/// The first position of `c` in `s` (`str::find` with a character pattern,
/// counted in characters).
pub open spec fn first_index(s: Seq<char>, c: char) -> Option<int> {
    if s.contains(c) {
        Some(choose|i: int| is_first_index(s, c, i))
    } else {
        None
    }
}

/// The last position of `c` in `s` (`str::rfind`, counted in characters).
pub open spec fn last_index(s: Seq<char>, c: char) -> Option<int> {
    if s.contains(c) {
        Some(choose|i: int| is_last_index(s, c, i))
    } else {
        None
    }
}

/// How many times `c` occurs in `s`.
pub open spec fn count_char(s: Seq<char>, c: char) -> nat
    decreases s.len(),
{
    if s.len() == 0 {
        0
    } else {
        count_char(s.drop_last(), c) + (if s.last() == c { 1nat } else { 0 })
    }
}

/// The first position of `c` in `s`.
pub fn find_char(s: &[char], c: char) -> (r: Option<usize>)
    ensures
        r matches Some(i) ==> is_first_index(s@, c, i as int),
        opt_usize(r) == first_index(s@, c),
{
    let mut i: usize = 0;
    while i < s.len()
        invariant
            i <= s@.len(),
            forall|k: int| 0 <= k < i ==> s@[k] != c,
        decreases s@.len() - i,
    {
        if s[i] == c {
            assert(s@.contains(c));
            let ghost j = choose|j: int| is_first_index(s@, c, j);
            assert(is_first_index(s@, c, i as int));
            assert(j == i);
            return Some(i);
        }
        i = i + 1;
    }
    None
}

/// The last position of `c` in `s`.
pub fn rfind_char(s: &[char], c: char) -> (r: Option<usize>)
    ensures
        r matches Some(i) ==> is_last_index(s@, c, i as int),
        opt_usize(r) == last_index(s@, c),
{
    let mut i: usize = s.len();
    while i > 0
        invariant
            i <= s@.len(),
            forall|k: int| i <= k < s@.len() ==> s@[k] != c,
        decreases i,
    {
        if s[i - 1] == c {
            assert(s@.contains(c));
            let ghost j = choose|j: int| is_last_index(s@, c, j);
            assert(is_last_index(s@, c, i - 1));
            assert(j == i - 1);
            return Some(i - 1);
        }
        i = i - 1;
    }
    None
}

/// How many times `c` occurs in `s`.
pub fn count_chars(s: &[char], c: char) -> (r: usize)
    ensures
        r == count_char(s@, c),
        r <= s@.len(),
{
    let mut n: usize = 0;
    let mut i: usize = 0;
    while i < s.len()
        invariant
            i <= s@.len(),
            n == count_char(s@.take(i as int), c),
            n <= i,
        decreases s@.len() - i,
    {
        assert(s@.take(i + 1).drop_last() =~= s@.take(i as int));
        if s[i] == c {
            n = n + 1;
        }
        i = i + 1;
    }
    assert(s@.take(s@.len() as int) =~= s@);
    n
}

pub open spec fn opt_usize(r: Option<usize>) -> Option<int> {
    match r {
        Some(i) => Some(i as int),
        None => None,
    }
}

} // verus!

verus! {

/// The lines of `s`: the pieces between `'\n'` characters, where a final
/// `'\n'` ends the last line instead of starting an empty one. A `'\r'` before
/// a `'\n'` stays at the end of its line; every use of a line trims it off.
pub open spec fn split_lines(s: Seq<char>) -> Seq<Seq<char>>
    decreases s.len(),
{
    if s.len() == 0 {
        Seq::empty()
    } else {
        match first_index(s, '\n') {
            None => seq![s],
            Some(k) => {
                if 0 <= k < s.len() {
                    seq![s.take(k)] + split_lines(s.skip(k + 1))
                } else {
                    Seq::empty()
                }
            },
        }
    }
}

/// The characters of each line in `v`.
pub open spec fn lines_view(v: Seq<Vec<char>>) -> Seq<Seq<char>> {
    v.map_values(|l: Vec<char>| l@)
}

/// Splits `s` into its lines (see `split_lines`).
pub fn lines_of(s: &[char]) -> (r: Vec<Vec<char>>)
    ensures
        lines_view(r@) == split_lines(s@),
{
    let mut out: Vec<Vec<char>> = Vec::new();
    let mut cur: Vec<char> = Vec::new();
    let mut start: usize = 0;
    let mut i: usize = 0;
    assert(s@.skip(0) =~= s@);
    while i < s.len()
        invariant
            start <= i <= s@.len(),
            cur@ == s@.subrange(start as int, i as int),
            forall|k: int| start <= k < i ==> s@[k] != '\n',
            split_lines(s@) == lines_view(out@) + split_lines(s@.skip(start as int)),
        decreases s@.len() - i,
    {
        if s[i] == '\n' {
            proof {
                let rest = s@.skip(start as int);
                assert(is_first_index(rest, '\n', i - start));
                assert(rest.contains('\n'));
                let k = choose|k: int| is_first_index(rest, '\n', k);
                assert(k == i - start);
                assert(rest.take(i - start) =~= cur@);
                assert(rest.skip(i - start + 1) =~= s@.skip(i + 1));
            }
            let line = cur;
            let ghost before = lines_view(out@);
            out.push(line);
            assert(lines_view(out@) =~= before.push(cur@));
            cur = Vec::new();
            start = i + 1;
        } else {
            cur.push(s[i]);
        }
        i = i + 1;
    }
    proof {
        let rest = s@.skip(start as int);
        assert(rest =~= cur@);
        if rest.len() > 0 {
            assert(!rest.contains('\n'));
        }
    }
    if cur.len() > 0 {
        let ghost before = lines_view(out@);
        let ghost last = cur@;
        out.push(cur);
        assert(lines_view(out@) =~= before + seq![last]);
    } else {
        assert(lines_view(out@) =~= lines_view(out@) + Seq::<Seq<char>>::empty());
    }
    out
}

} // verus!

verus! {

/// Collects characters into a `String` (`FromIterator<char>` for `String`).
/// Claimed: the string holds exactly `chars`, in order.
#[verifier::external_body]
pub(crate) fn string_from_chars(chars: &[char]) -> (r: String)
    ensures
        r@ == chars@,
{
    chars.iter().collect()
}

/// `s` begins with `p`.
pub open spec fn starts_with(s: Seq<char>, p: Seq<char>) -> bool {
    p.len() <= s.len() && s.take(p.len() as int) == p
}

} // verus!

verus! {

/// `a` and `b` hold the same characters.
pub fn chars_equal(a: &[char], b: &[char]) -> (r: bool)
    ensures
        r == (a@ == b@),
{
    if a.len() != b.len() {
        return false;
    }
    let mut i: usize = 0;
    while i < a.len()
        invariant
            a@.len() == b@.len(),
            i <= a@.len(),
            forall|k: int| 0 <= k < i ==> a@[k] == b@[k],
        decreases a@.len() - i,
    {
        if a[i] != b[i] {
            return false;
        }
        i = i + 1;
    }
    assert(a@ =~= b@);
    true
}

/// An ASCII letter (`char::is_ascii_alphabetic`).
pub open spec fn spec_is_ascii_alphabetic(c: char) -> bool {
    ('a' as u32 <= c as u32 <= 'z' as u32) || ('A' as u32 <= c as u32 <= 'Z' as u32)
}

/// An ASCII letter or digit (`char::is_ascii_alphanumeric`).
pub open spec fn spec_is_ascii_alphanumeric(c: char) -> bool {
    spec_is_ascii_alphabetic(c) || ('0' as u32 <= c as u32 <= '9' as u32)
}

pub fn is_ascii_alphabetic(c: char) -> (r: bool)
    ensures
        r == spec_is_ascii_alphabetic(c),
{
    let u = c as u32;
    (97 <= u && u <= 122) || (65 <= u && u <= 90)
}

pub fn is_ascii_alphanumeric(c: char) -> (r: bool)
    ensures
        r == spec_is_ascii_alphanumeric(c),
{
    let u = c as u32;
    is_ascii_alphabetic(c) || (48 <= u && u <= 57)
}

} // verus!

verus! {

proof fn lemma_trim_start_shape(s: Seq<char>) -> (j: int)
    ensures
        0 <= j <= s.len(),
        spec_trim_start(s) == s.skip(j),
        forall|k: int| 0 <= k < j ==> spec_is_whitespace(#[trigger] s[k]),
        j < s.len() ==> !spec_is_whitespace(s[j]),
    decreases s.len(),
{
    if s.len() > 0 && spec_is_whitespace(s[0]) {
        let j0 = lemma_trim_start_shape(s.drop_first());
        assert(s.drop_first().skip(j0) =~= s.skip(j0 + 1));
        assert forall|k: int| 0 <= k < j0 + 1 implies spec_is_whitespace(#[trigger] s[k]) by {
            if k > 0 {
                assert(s[k] == s.drop_first()[k - 1]);
            }
        }
        j0 + 1
    } else {
        assert(s.skip(0) =~= s);
        0
    }
}

proof fn lemma_trim_end_shape(s: Seq<char>) -> (e: int)
    ensures
        0 <= e <= s.len(),
        spec_trim_end(s) == s.take(e),
        forall|k: int| e <= k < s.len() ==> spec_is_whitespace(#[trigger] s[k]),
        e > 0 ==> !spec_is_whitespace(s[e - 1]),
    decreases s.len(),
{
    if s.len() > 0 && spec_is_whitespace(s.last()) {
        let e0 = lemma_trim_end_shape(s.drop_last());
        assert(s.drop_last().take(e0) =~= s.take(e0));
        assert forall|k: int| e0 <= k < s.len() implies spec_is_whitespace(#[trigger] s[k]) by {
            if k < s.len() - 1 {
                assert(s[k] == s.drop_last()[k]);
            }
        }
        e0
    } else {
        assert(s.take(s.len() as int) =~= s);
        s.len() as int
    }
}

/// `trim` keeps a middle stretch `s[lo..hi]` and drops only whitespace around
/// it; the kept stretch neither starts nor ends with whitespace.
pub proof fn lemma_trim_shape(s: Seq<char>) -> (r: (int, int))
    ensures
        0 <= r.0 <= r.1 <= s.len(),
        spec_trim(s) == s.subrange(r.0, r.1),
        forall|k: int| 0 <= k < r.0 ==> spec_is_whitespace(#[trigger] s[k]),
        forall|k: int| r.1 <= k < s.len() ==> spec_is_whitespace(#[trigger] s[k]),
        r.0 < r.1 ==> !spec_is_whitespace(s[r.0]) && !spec_is_whitespace(s[r.1 - 1]),
{
    let j = lemma_trim_start_shape(s);
    let t = s.skip(j);
    let e = lemma_trim_end_shape(t);
    assert(t.take(e) =~= s.subrange(j, j + e));
    assert forall|k: int| j + e <= k < s.len() implies spec_is_whitespace(#[trigger] s[k]) by {
        assert(s[k] == t[k - j]);
    }
    if e > 0 {
        assert(s[j] == t[0]);
        assert(s[j + e - 1] == t[e - 1]);
    }
    (j, j + e)
}

} // verus!

verus! {

/// The parts joined, with `sep` between each two neighbours (`[T]::join`).
pub open spec fn join_with(parts: Seq<Seq<char>>, sep: Seq<char>) -> Seq<char>
    decreases parts.len(),
{
    if parts.len() == 0 {
        Seq::empty()
    } else if parts.len() == 1 {
        parts[0]
    } else {
        join_with(parts.drop_last(), sep) + sep + parts.last()
    }
}

/// The first `n` parts (all of them when there are fewer).
pub open spec fn take_at_most(parts: Seq<Seq<char>>, n: nat) -> Seq<Seq<char>> {
    if parts.len() <= n {
        parts
    } else {
        parts.take(n as int)
    }
}

/// Appends all of `b` to `a`.
pub fn push_all(a: &mut Vec<char>, b: &[char])
    ensures
        final(a)@ == old(a)@ + b@,
{
    let mut k: usize = 0;
    while k < b.len()
        invariant
            k <= b@.len(),
            a@ == old(a)@ + b@.take(k as int),
        decreases b@.len() - k,
    {
        a.push(b[k]);
        k = k + 1;
    }
    assert(b@.take(b@.len() as int) =~= b@);
}

/// The first `n` parts joined with `"; "`.
pub fn join_first(parts: &Vec<Vec<char>>, n: usize) -> (r: Vec<char>)
    ensures
        r@ == join_with(take_at_most(lines_view(parts@), n as nat), seq![';', ' ']),
{
    let count = if parts.len() <= n {
        parts.len()
    } else {
        n
    };
    let ghost all = lines_view(parts@);
    let mut r: Vec<char> = Vec::new();
    let mut k: usize = 0;
    while k < count
        invariant
            count <= parts@.len(),
            all == lines_view(parts@),
            take_at_most(all, n as nat) == all.take(count as int),
            k <= count,
            r@ == join_with(all.take(k as int), seq![';', ' ']),
        decreases count - k,
    {
        assert(all.take(k + 1).drop_last() =~= all.take(k as int));
        if k > 0 {
            r.push(';');
            r.push(' ');
        }
        push_all(&mut r, &parts[k]);
        proof {
            if k == 0 {
                assert(r@ =~= all.take(1)[0]);
            } else {
                assert(r@ =~= join_with(all.take(k as int), seq![';', ' ']) + seq![';', ' '] + all.take(
                    k + 1,
                ).last());
            }
        }
        k = k + 1;
    }
    proof {
        if parts@.len() <= n {
            assert(all.take(count as int) =~= all);
        }
    }
    r
}

} // verus!

verus! {

/// Whether `c` occurs in `s`.
pub fn contains_char(s: &[char], c: char) -> (r: bool)
    ensures
        r == s@.contains(c),
{
    match find_char(s, c) {
        Some(i) => true,
        None => false,
    }
}

} // verus!

verus! {

/// A character that occurs has a last position.
pub proof fn lemma_last_index_exists(s: Seq<char>, c: char) -> (i: int)
    requires
        s.contains(c),
    ensures
        is_last_index(s, c, i),
    decreases s.len(),
{
    if s.last() == c {
        (s.len() - 1) as int
    } else {
        let w = choose|w: int| 0 <= w < s.len() && s[w] == c;
        assert(s.drop_last()[w] == c);
        let j = lemma_last_index_exists(s.drop_last(), c);
        assert forall|k: int| j < k < s.len() implies s[k] != c by {
            if k < s.len() - 1 {
                assert(s[k] == s.drop_last()[k]);
            }
        }
        j
    }
}

} // verus!

verus! {

/// The text made of the lines `ls`, each followed by `'\n'`.
pub open spec fn lines_text(ls: Seq<Seq<char>>) -> Seq<char>
    decreases ls.len(),
{
    if ls.len() == 0 {
        Seq::empty()
    } else {
        ls[0] + seq!['\n'] + lines_text(ls.drop_first())
    }
}

/// Splitting into lines undoes writing lines out: lines without `'\n'`,
/// each ended by `'\n'`, split back into the same lines (empty ones
/// included).
pub proof fn lemma_split_lines_text(ls: Seq<Seq<char>>)
    requires
        forall|k: int| 0 <= k < ls.len() ==> !(#[trigger] ls[k]).contains('\n'),
    ensures
        split_lines(lines_text(ls)) == ls,
    decreases ls.len(),
{
    if ls.len() > 0 {
        let rest = ls.drop_first();
        assert forall|k: int| 0 <= k < rest.len() implies !(#[trigger] rest[k]).contains('\n') by {
            assert(rest[k] == ls[k + 1]);
        }
        lemma_split_lines_text(rest);
        let s = lines_text(ls);
        let l0 = ls[0];
        let n = l0.len() as int;
        assert(s[n] == '\n');
        assert forall|k: int| 0 <= k < n implies s[k] != '\n' by {
            assert(s[k] == l0[k]);
        }
        assert(is_first_index(s, '\n', n));
        assert(s.contains('\n'));
        let c = choose|i: int| is_first_index(s, '\n', i);
        assert(c == n) by {
            if c < n {
                assert(s[c] == l0[c]);
            }
        }
        assert(s.take(n) =~= l0);
        assert(s.skip(n + 1) =~= lines_text(rest));
        assert(seq![l0] + rest =~= ls);
    }
}

} // verus!
