//! Fuzzy matching of a search query against command names and descriptions.

use vstd::prelude::*;

verus! {

/// The longest lowered query that scoring accepts: every matched character adds
/// at most 8 to the score, so this bound keeps every score, and a name score
/// doubled plus a description score, within `i64`.
pub const MAX_QUERY_CHARS: u64 = 0x0555_5555_5555_5555;

/// What `str::to_lowercase` returns for a string with the characters `s`.
pub uninterp spec fn str_to_lowercase(s: Seq<char>) -> Seq<char>;

/// What `char::is_alphanumeric` returns for `c`.
pub uninterp spec fn char_is_alphanumeric(c: char) -> bool;

/// Calls `str::to_lowercase` and hands back the characters of the result.
/// Claimed: the result is `str_to_lowercase` of the input's characters, and the
/// lowercase of the empty string is empty. Nothing else is said of the Unicode
/// case mapping.
#[verifier::external_body]
fn lowercase_chars(s: &str) -> (r: Vec<char>)
    ensures
        r@ == str_to_lowercase(s@),
        s@.len() == 0 ==> r@.len() == 0,
{
    s.to_lowercase().chars().collect()
}

/// Calls `char::is_alphanumeric`. Claimed: the result is `char_is_alphanumeric(c)`;
/// the Unicode tables behind it are not stated.
#[verifier::external_body]
fn is_alphanumeric(c: char) -> (r: bool)
    ensures
        r == char_is_alphanumeric(c),
{
    c.is_alphanumeric()
}

/// The progress of a left-to-right scan of the target: how many query
/// characters have been matched, the score so far, and where the last match was.
pub struct ScanState {
    pub qi: int,
    pub score: int,
    pub last: Option<int>,
}

pub open spec fn scan_start() -> ScanState {
    ScanState { qi: 0, score: 0, last: None }
}

/// The points a match at target position `ti` earns when it is the match of
/// query character `qi`, after a previous match at `last`.
pub open spec fn match_points(alnum: Seq<bool>, ti: int, qi: int, last: Option<int>) -> int {
    1 + (if ti > 0 && last == Some(ti - 1) { 2int } else { 0 }) + (if ti == 0 || !alnum[ti
        - 1] {
        3int
    } else {
        0
    }) + (if ti == qi { 2int } else { 0 })
}

/// One step of the scan: target character `t[ti]` is compared with the next
/// unmatched query character.
pub open spec fn scan_step(
    q: Seq<char>,
    t: Seq<char>,
    alnum: Seq<bool>,
    ti: int,
    st: ScanState,
) -> ScanState {
    if st.qi < q.len() && t[ti] == q[st.qi] {
        ScanState {
            qi: st.qi + 1,
            score: st.score + match_points(alnum, ti, st.qi, st.last),
            last: Some(ti),
        }
    } else {
        st
    }
}

/// The scan after the first `n` target characters.
pub open spec fn scan_prefix(q: Seq<char>, t: Seq<char>, alnum: Seq<bool>, n: nat) -> ScanState
    decreases n,
{
    if n == 0 {
        scan_start()
    } else {
        scan_step(q, t, alnum, n - 1, scan_prefix(q, t, alnum, (n - 1) as nat))
    }
}

/// The score of query `q` against target `t`, whose characters' alphanumeric
/// flags are `alnum`: `None` when `q` is not matched in order, `Some(0)` for an
/// empty query.
pub open spec fn spec_fuzzy_score(q: Seq<char>, t: Seq<char>, alnum: Seq<bool>) -> Option<int> {
    if q.len() == 0 {
        Some(0)
    } else {
        let st = scan_prefix(q, t, alnum, t.len());
        if st.qi == q.len() {
            Some(st.score)
        } else {
            None
        }
    }
}

/// The alphanumeric flag of each character of `t`.
pub open spec fn alnum_flags(t: Seq<char>) -> Seq<bool> {
    Seq::new(t.len(), |i: int| char_is_alphanumeric(t[i]))
}

/// What `fuzzy_match(query, target)` returns: the score of the lowered query
/// against the lowered target, or `None` for a lowered query too long to score.
pub open spec fn spec_fuzzy_match(query: Seq<char>, target: Seq<char>) -> Option<int> {
    let q = str_to_lowercase(query);
    let t = str_to_lowercase(target);
    if q.len() > MAX_QUERY_CHARS {
        None
    } else {
        spec_fuzzy_score(q, t, alnum_flags(t))
    }
}

pub open spec fn opt_int(r: Option<i64>) -> Option<int> {
    match r {
        Some(s) => Some(s as int),
        None => None,
    }
}

/// What holds of every scan: the counters stay in range, the score is at most
/// 8 points per match, the last match is on the query character matched last,
/// and a scan that matched every character so far has matched them in place.
pub proof fn lemma_scan_bounds(q: Seq<char>, t: Seq<char>, alnum: Seq<bool>, n: nat)
    requires
        n <= t.len(),
    ensures
        ({
            let st = scan_prefix(q, t, alnum, n);
            &&& 0 <= st.qi <= q.len()
            &&& st.qi <= n
            &&& st.qi <= st.score <= 8 * st.qi
            &&& (st.last is None <==> st.qi == 0)
            &&& (st.last matches Some(l) ==> 0 <= l < n && t[l] == q[st.qi - 1])
            &&& (st.qi == n ==> (forall|k: int| 0 <= k < n ==> t[k] == q[k]))
            &&& (st.qi == n && n > 0 ==> st.last == Some(n - 1))
        }),
    decreases n,
{
    if n > 0 {
        lemma_scan_bounds(q, t, alnum, (n - 1) as nat);
    }
}

} // verus!

verus! {

/// Scores `query` against `target` (both already lowered); `alnum[i]` tells
/// whether `target[i]` is alphanumeric. Each in-order match of the next query
/// character earns 1 point, 2 more when it directly follows the previous match,
/// 3 more at a word start (the first character or one after a
/// non-alphanumeric one), and 2 more when the whole target so far matched the
/// query's prefix. `None` when not every query character is matched in order.
pub fn fuzzy_score(query: &[char], target: &[char], alnum: &[bool]) -> (r: Option<i64>)
    requires
        alnum@.len() == target@.len(),
        query@.len() <= MAX_QUERY_CHARS,
    ensures
        opt_int(r) == spec_fuzzy_score(query@, target@, alnum@),
{
    if query.len() == 0 {
        return Some(0);
    }
    let ghost q = query@;
    let ghost t = target@;
    let mut score: i64 = 0;
    let mut qi: usize = 0;
    let mut last_match: Option<usize> = None;
    let tlen = target.len();
    let mut ti: usize = 0;
    while ti < tlen
        invariant
            tlen == t.len() == alnum@.len(),
            q == query@,
            t == target@,
            q.len() <= MAX_QUERY_CHARS,
            ti <= tlen,
            ({
                let st = scan_prefix(q, t, alnum@, ti as nat);
                &&& st.qi == qi as int
                &&& st.score == score as int
                &&& st.last == (match last_match {
                    Some(l) => Some(l as int),
                    None => None,
                })
            }),
        decreases tlen - ti,
    {
        proof {
            lemma_scan_bounds(q, t, alnum@, ti as nat);
        }
        let tc = target[ti];
        if qi < query.len() && tc == query[qi] {
            qi = qi + 1;
            score = score + 1;
            if ti > 0 && last_match == Some(ti - 1) {
                score = score + 2;
            }
            if ti == 0 || !alnum[ti - 1] {
                score = score + 3;
            }
            if ti + 1 == qi {
                score = score + 2;
            }
            last_match = Some(ti);
        }
        ti = ti + 1;
    }
    if qi == query.len() {
        Some(score)
    } else {
        None
    }
}

/// The alphanumeric flag of each character of `t`.
fn alphanumeric_flags(t: &[char]) -> (r: Vec<bool>)
    ensures
        r@ == alnum_flags(t@),
{
    let mut r: Vec<bool> = Vec::new();
    let mut i: usize = 0;
    while i < t.len()
        invariant
            i <= t@.len(),
            r@ == alnum_flags(t@).take(i as int),
        decreases t@.len() - i,
    {
        let b = is_alphanumeric(t[i]);
        r.push(b);
        i = i + 1;
    }
    r
}

/// Fuzzy-matches `query` against `target`, ignoring case: the score of
/// `fuzzy_score` on their lowercase forms. `None` when the query's characters do
/// not all occur in order in the target (and, beyond any real input, when the
/// lowered query is longer than `MAX_QUERY_CHARS`).
pub fn fuzzy_match(query: &str, target: &str) -> (r: Option<i64>)
    ensures
        opt_int(r) == spec_fuzzy_match(query@, target@),
        query@.len() == 0 ==> r == Some(0i64),
        r matches Some(s) ==> 0 <= s <= 8 * MAX_QUERY_CHARS,
{
    let query_lower = lowercase_chars(query);
    let target_lower = lowercase_chars(target);
    if query_lower.len() as u64 > MAX_QUERY_CHARS {
        return None;
    }
    let flags = alphanumeric_flags(&target_lower);
    proof {
        lemma_score_bounds(query_lower@, target_lower@, flags@);
    }
    fuzzy_score(&query_lower, &target_lower, &flags)
}

/// Every score lies between 0 and 8 points per query character.
pub proof fn lemma_score_bounds(q: Seq<char>, t: Seq<char>, alnum: Seq<bool>)
    ensures
        spec_fuzzy_score(q, t, alnum) matches Some(s) ==> 0 <= s <= 8 * q.len(),
{
    lemma_scan_bounds(q, t, alnum, t.len());
}

} // verus!

verus! {

/// `pos` places each character of `q` on an equal character of `t`, at
/// strictly increasing positions.
pub open spec fn in_order_positions(q: Seq<char>, t: Seq<char>, pos: Seq<int>) -> bool {
    &&& pos.len() == q.len()
    &&& forall|j: int| 0 <= j < pos.len() ==> 0 <= #[trigger] pos[j] < t.len() && t[pos[j]] == q[j]
    &&& forall|j: int, k: int| 0 <= j < k < pos.len() ==> #[trigger] pos[j] < #[trigger] pos[k]
}

/// The characters of `q` occur in `t` in the same order (not necessarily next
/// to each other).
pub open spec fn occurs_in_order(q: Seq<char>, t: Seq<char>) -> bool {
    exists|pos: Seq<int>| in_order_positions(q, t, pos)
}

/// The target positions at which the scan of the first `n` target characters matched.
pub open spec fn scan_positions(q: Seq<char>, t: Seq<char>, alnum: Seq<bool>, n: nat) -> Seq<int>
    decreases n,
{
    if n == 0 {
        Seq::empty()
    } else {
        let prev = scan_positions(q, t, alnum, (n - 1) as nat);
        if scan_prefix(q, t, alnum, n).qi > scan_prefix(q, t, alnum, (n - 1) as nat).qi {
            prev.push(n - 1)
        } else {
            prev
        }
    }
}

proof fn lemma_scan_positions(q: Seq<char>, t: Seq<char>, alnum: Seq<bool>, n: nat)
    requires
        n <= t.len(),
    ensures
        ({
            let pos = scan_positions(q, t, alnum, n);
            let qi = scan_prefix(q, t, alnum, n).qi;
            &&& pos.len() == qi
            &&& forall|j: int| 0 <= j < qi ==> 0 <= #[trigger] pos[j] < n && t[pos[j]] == q[j]
            &&& forall|j: int, k: int| 0 <= j < k < qi ==> #[trigger] pos[j] < #[trigger] pos[k]
        }),
    decreases n,
{
    if n > 0 {
        lemma_scan_positions(q, t, alnum, (n - 1) as nat);
        lemma_scan_bounds(q, t, alnum, (n - 1) as nat);
    }
}

/// Every query character whose place in a given in-order placement lies
/// before `n` has been matched by the scan of the first `n` target characters.
proof fn lemma_scan_keeps_up(
    q: Seq<char>,
    t: Seq<char>,
    alnum: Seq<bool>,
    pos: Seq<int>,
    n: nat,
)
    requires
        n <= t.len(),
        in_order_positions(q, t, pos),
    ensures
        forall|j: int| 0 <= j < q.len() && #[trigger] pos[j] < n ==> j < scan_prefix(q, t, alnum, n).qi,
    decreases n,
{
    if n > 0 {
        let m = (n - 1) as nat;
        lemma_scan_keeps_up(q, t, alnum, pos, m);
        lemma_scan_bounds(q, t, alnum, m);
        assert forall|j: int| 0 <= j < q.len() && #[trigger] pos[j] < n implies j < scan_prefix(
            q,
            t,
            alnum,
            n,
        ).qi by {
            let before = scan_prefix(q, t, alnum, m);
            if pos[j] < m {
            } else {
                if j > 0 {
                    assert(pos[j - 1] < pos[j]);
                }
                if j < before.qi {
                } else {
                    assert(j == before.qi);
                    assert(t[m as int] == q[j]);
                }
            }
        }
    }
}

/// A query gets a score exactly when its characters occur in order in the target.
pub proof fn lemma_score_some_iff_in_order(q: Seq<char>, t: Seq<char>, alnum: Seq<bool>)
    requires
        alnum.len() == t.len(),
    ensures
        spec_fuzzy_score(q, t, alnum) is Some <==> occurs_in_order(q, t),
{
    let n = t.len();
    lemma_scan_bounds(q, t, alnum, n);
    if q.len() == 0 {
        let pos = Seq::<int>::empty();
        assert(in_order_positions(q, t, pos));
    } else {
        if spec_fuzzy_score(q, t, alnum) is Some {
            lemma_scan_positions(q, t, alnum, n);
            let pos = scan_positions(q, t, alnum, n);
            assert(in_order_positions(q, t, pos));
        }
        if occurs_in_order(q, t) {
            let pos = choose|pos: Seq<int>| in_order_positions(q, t, pos);
            lemma_scan_keeps_up(q, t, alnum, pos, n);
            assert(pos[q.len() - 1] < n);
        }
    }
}

} // verus!

verus! {

/// The points the `j`-th character of `q` earns when `q` is scored against itself.
pub open spec fn exact_points(fq: Seq<bool>, j: int) -> int {
    1 + (if j > 0 { 2int } else { 0 }) + (if j == 0 || !fq[j - 1] { 3int } else { 0 }) + 2
}

/// The score of the first `k` characters of a query scored against itself.
pub open spec fn exact_prefix_score(fq: Seq<bool>, k: nat) -> int
    decreases k,
{
    if k == 0 {
        0
    } else {
        exact_prefix_score(fq, (k - 1) as nat) + exact_points(fq, k - 1)
    }
}

proof fn lemma_scan_self(q: Seq<char>, n: nat)
    requires
        n <= q.len(),
    ensures
        scan_prefix(q, q, alnum_flags(q), n) == (ScanState {
            qi: n as int,
            score: exact_prefix_score(alnum_flags(q), n),
            last: if n > 0 { Some(n - 1) } else { None },
        }),
    decreases n,
{
    if n > 0 {
        lemma_scan_self(q, (n - 1) as nat);
    }
}

proof fn lemma_scan_below_exact(q: Seq<char>, t: Seq<char>, n: nat)
    requires
        n <= t.len(),
    ensures
        scan_prefix(q, t, alnum_flags(t), n).score <= exact_prefix_score(
            alnum_flags(q),
            scan_prefix(q, t, alnum_flags(t), n).qi as nat,
        ),
    decreases n,
{
    if n > 0 {
        let m = (n - 1) as nat;
        let ft = alnum_flags(t);
        let fq = alnum_flags(q);
        lemma_scan_below_exact(q, t, m);
        lemma_scan_bounds(q, t, ft, m);
        let st = scan_prefix(q, t, ft, m);
        let ti = m as int;
        if st.qi < q.len() && t[ti] == q[st.qi] {
            let j = st.qi;
            if ti == j {
                if j > 0 {
                    assert(t[j - 1] == q[j - 1]);
                }
                assert(match_points(ft, ti, j, st.last) == exact_points(fq, j));
            } else if st.last == Some(ti - 1) {
                assert(match_points(ft, ti, j, st.last) <= exact_points(fq, j));
            } else {
                assert(match_points(ft, ti, j, st.last) <= exact_points(fq, j));
            }
        }
    }
}

/// A query scores at least as high against itself as against any target it
/// matches: an exact match scores highest.
pub proof fn lemma_exact_score_highest(q: Seq<char>, t: Seq<char>)
    ensures
        spec_fuzzy_score(q, t, alnum_flags(t)) matches Some(s) ==> spec_fuzzy_score(
            q,
            q,
            alnum_flags(q),
        ) matches Some(e) && s <= e,
{
    if q.len() > 0 {
        lemma_scan_self(q, q.len());
        lemma_scan_below_exact(q, t, t.len());
    }
}

/// `fuzzy_match(query, query)` scores at least as high as
/// `fuzzy_match(query, target)` for every target that the query matches.
pub proof fn lemma_exact_match_scores_highest(query: Seq<char>, target: Seq<char>)
    ensures
        spec_fuzzy_match(query, target) matches Some(s) ==> spec_fuzzy_match(
            query,
            query,
        ) matches Some(e) && s <= e,
{
    lemma_exact_score_highest(str_to_lowercase(query), str_to_lowercase(target));
}

/// A query matches a target exactly when its lowercase characters occur in
/// order in the lowercase target (for any lowered query no longer than
/// `MAX_QUERY_CHARS`).
pub proof fn lemma_match_iff_in_order(query: Seq<char>, target: Seq<char>)
    ensures
        str_to_lowercase(query).len() <= MAX_QUERY_CHARS ==> (spec_fuzzy_match(
            query,
            target,
        ) is Some <==> occurs_in_order(str_to_lowercase(query), str_to_lowercase(target))),
{
    let t = str_to_lowercase(target);
    lemma_score_some_iff_in_order(str_to_lowercase(query), t, alnum_flags(t));
}

} // verus!
