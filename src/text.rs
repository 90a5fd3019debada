//! Character-level helpers shared by the parsers.
use vstd::prelude::*;

verus! {

broadcast use vstd::string::group_string_axioms;

/// The characters of `s`, one element per `char`.
pub fn chars_of(s: &str) -> (r: Vec<char>)
    ensures
        r@ == s@,
{
    let mut v: Vec<char> = Vec::new();
    for c in it: s.chars()
        invariant
            it.seq() == s@,
            v@ == it.seq().take(it.index() as int),
    {
        v.push(c);
    }
    v
}

/// A space or a tab: the characters that separate the fields of a line.
pub open spec fn is_ws(c: char) -> bool {
    c == ' ' || c == '\t'
}

/// The end of the run of characters starting at `i` that are whitespace
/// (`ws`) or that are not (`!ws`); `i` itself where no such run starts there.
#[verifier::opaque]
pub open spec fn run_end(s: Seq<char>, i: int, ws: bool) -> int
    decreases s.len() - i,
{
    if 0 <= i < s.len() && is_ws(s[i]) == ws {
        run_end(s, i + 1, ws)
    } else {
        i
    }
}

pub(crate) proof fn lemma_run_end_bounds(s: Seq<char>, i: int, ws: bool)
    requires
        0 <= i <= s.len(),
    ensures
        i <= run_end(s, i, ws) <= s.len(),
        forall|k: int| i <= k < run_end(s, i, ws) ==> is_ws(#[trigger] s[k]) == ws,
        run_end(s, i, ws) < s.len() ==> is_ws(s[run_end(s, i, ws)]) != ws,
    decreases s.len() - i,
{
    reveal(run_end);
    if i < s.len() && is_ws(s[i]) == ws {
        lemma_run_end_bounds(s, i + 1, ws);
    }
}

/// The run ends where the characters stop being of the kind asked for.
pub(crate) proof fn lemma_run_end_at(s: Seq<char>, i: int, j: int, ws: bool)
    requires
        0 <= i <= j <= s.len(),
        forall|k: int| i <= k < j ==> is_ws(#[trigger] s[k]) == ws,
        j == s.len() || is_ws(s[j]) != ws,
    ensures
        run_end(s, i, ws) == j,
    decreases j - i,
{
    reveal(run_end);
    if i < j {
        lemma_run_end_at(s, i + 1, j, ws);
    }
}

/// A run seen from an offset `p` into the text ends at the same place.
pub(crate) proof fn lemma_run_end_skip(s: Seq<char>, p: int, i: int, ws: bool)
    requires
        0 <= p <= s.len(),
        0 <= i <= s.len() - p,
    ensures
        run_end(s.skip(p), i, ws) + p == run_end(s, p + i, ws),
    decreases s.len() - p - i,
{
    reveal(run_end);
    if i < s.len() - p && is_ws(s[p + i]) == ws {
        lemma_run_end_skip(s, p, i + 1, ws);
    }
}

/// Where the run of whitespace (`ws`) or of other characters (`!ws`) that
/// starts at `i` in `cs` ends.
pub fn scan_run(cs: &Vec<char>, i: usize, ws: bool) -> (r: usize)
    requires
        i <= cs@.len(),
    ensures
        r == run_end(cs@, i as int, ws),
        i <= r <= cs@.len(),
{
    proof {
        lemma_run_end_bounds(cs@, i as int, ws);
    }
    let n = cs.len();
    let mut k: usize = i;
    while k < n && (cs[k] == ' ' || cs[k] == '\t') == ws
        invariant
            n == cs@.len(),
            i <= k <= n,
            run_end(cs@, i as int, ws) == run_end(cs@, k as int, ws),
        decreases n - k,
    {
        proof {
            reveal(run_end);
        }
        k = k + 1;
    }
    proof {
        reveal(run_end);
    }
    k
}

/// Splits `i` where its leading run of whitespace (`ws`) or of other
/// characters (`!ws`) ends: the rest, and the run.
pub fn take_run<'a>(i: &'a str, ws: bool) -> (r: (&'a str, &'a str))
    ensures
        r.1@ == i@.take(run_end(i@, 0, ws)),
        r.0@ == i@.skip(run_end(i@, 0, ws)),
{
    let cs = chars_of(i);
    let n = cs.len();
    let k = scan_run(&cs, 0, ws);
    (i.substring_char(k, n), i.substring_char(0, k))
}

} // verus!
