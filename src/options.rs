//! The comma-separated list of mount options.
use vstd::prelude::*;
use crate::error::ParseError;
use crate::escape::{decode, transform_escaped};
use crate::text::{chars_of, run_end, take_run};

verus! {

broadcast use vstd::string::group_string_axioms;

/// The pieces of `o` between its commas, in order; as many as there are
/// commas, plus one.
pub open spec fn split_commas(o: Seq<char>) -> Seq<Seq<char>>
    decreases o.len(),
{
    if o.len() == 0 {
        seq![Seq::empty()]
    } else {
        let r = split_commas(o.drop_last());
        if o.last() == ',' {
            r.push(Seq::empty())
        } else {
            r.update(r.len() - 1, r.last().push(o.last()))
        }
    }
}

/// A piece between commas that names an option: not empty, and well escaped.
pub open spec fn valid_piece(p: Seq<char>) -> bool {
    p.len() > 0 && decode(p) is Some
}

/// The decoded options of the token `o`, or `None` where a piece is empty or
/// holds a malformed escape.
pub open spec fn options_spec(o: Seq<char>) -> Option<Seq<Seq<char>>> {
    let ps = split_commas(o);
    if forall|j: int| 0 <= j < ps.len() ==> valid_piece(#[trigger] ps[j]) {
        Some(ps.map_values(|p: Seq<char>| decode(p)->0))
    } else {
        None
    }
}

/// The values of a list of strings.
pub open spec fn strings_view(v: Seq<String>) -> Seq<Seq<char>> {
    v.map_values(|s: String| s@)
}

proof fn lemma_split_commas_len(o: Seq<char>)
    ensures
        split_commas(o).len() >= 1,
    decreases o.len(),
{
    if o.len() > 0 {
        lemma_split_commas_len(o.drop_last());
    }
}

proof fn lemma_split_no_comma(o: Seq<char>)
    requires
        forall|k: int| 0 <= k < o.len() ==> o[k] != ',',
    ensures
        split_commas(o) == seq![o],
    decreases o.len(),
{
    if o.len() > 0 {
        lemma_split_no_comma(o.drop_last());
        assert(o.drop_last().push(o.last()) =~= o);
        assert(seq![o.drop_last()].update(0, o.drop_last().push(o.last())) =~= seq![o]);
    } else {
        assert(o =~= Seq::<char>::empty());
    }
}

/// A token without commas is a list of exactly one option: its decoded
/// value, where it is not empty and decodes.
pub proof fn lemma_options_single(o: Seq<char>)
    requires
        forall|k: int| 0 <= k < o.len() ==> o[k] != ',',
    ensures
        options_spec(o) == (if valid_piece(o) {
            Some(seq![decode(o)->0])
        } else {
            None
        }),
{
    lemma_split_no_comma(o);
    let ps = split_commas(o);
    assert(ps[0] == o);
    if valid_piece(o) {
        assert(ps.map_values(|p: Seq<char>| decode(p)->0) =~= seq![decode(o)->0]);
    }
}

/// One piece that does not decode, or is empty, fails the whole list.
pub proof fn lemma_options_bad_piece(o: Seq<char>, j: int)
    requires
        0 <= j < split_commas(o).len(),
        !valid_piece(split_commas(o)[j]),
    ensures
        options_spec(o) is None,
{
}

/// Splits the token `o` at its commas.
fn split_pieces(o: &str) -> (r: Vec<String>)
    ensures
        strings_view(r@) == split_commas(o@),
{
    let cs = chars_of(o);
    let n = cs.len();
    let mut pieces: Vec<String> = Vec::new();
    let mut start: usize = 0;
    let mut k: usize = 0;
    assert(o@.take(0) =~= Seq::<char>::empty());
    assert(strings_view(pieces@) =~= Seq::<Seq<char>>::empty());
    assert(o@.subrange(0, 0) =~= Seq::<char>::empty());
    while k < n
        invariant
            cs@ == o@,
            n == o@.len(),
            start <= k <= n,
            strings_view(pieces@).push(o@.subrange(start as int, k as int)) == split_commas(o@.take(k as int)),
        decreases n - k,
    {
        let ghost prev = o@.take(k as int);
        assert(o@.take(k + 1).drop_last() =~= prev);
        proof {
            lemma_split_commas_len(prev);
        }
        if cs[k] == ',' {
            let piece = String::from_str(o.substring_char(start, k));
            pieces.push(piece);
            k = k + 1;
            start = k;
            assert(strings_view(pieces@) =~= strings_view(pieces@.drop_last()).push(piece@));
            assert(o@.subrange(start as int, k as int) =~= Seq::<char>::empty());
        } else {
            assert(o@.subrange(start as int, k + 1) =~= o@.subrange(start as int, k as int).push(cs@[k as int]));
            k = k + 1;
            assert(strings_view(pieces@).push(o@.subrange(start as int, k as int))
                =~= split_commas(o@.take(k as int)));
        }
    }
    let piece = String::from_str(o.substring_char(start, n));
    pieces.push(piece);
    assert(o@.take(n as int) =~= o@);
    assert(strings_view(pieces@) =~= strings_view(pieces@.drop_last()).push(piece@));
    pieces
}

/// Reads the options that open `i`: its leading run of characters other than
/// spaces and tabs, split at commas, each piece decoded. Fails where that run
/// is empty, where a piece is empty, or where a piece holds a malformed escape.
pub fn mount_opts<'a>(i: &'a str) -> (r: Result<(&'a str, Vec<String>), ParseError>)
    ensures
        r is Ok <==> options_spec(i@.take(run_end(i@, 0, false))) is Some,
        r matches Ok((rest, opts)) ==> rest@ == i@.skip(run_end(i@, 0, false))
            && options_spec(i@.take(run_end(i@, 0, false))) == Some(strings_view(opts@)),
{
    let (rest, token) = take_run(i, false);
    let pieces = split_pieces(token);
    let ghost ps = split_commas(token@);
    let mut opts: Vec<String> = Vec::new();
    let mut j: usize = 0;
    while j < pieces.len()
        invariant
            strings_view(pieces@) == ps,
            ps == split_commas(token@),
            token@ == i@.take(run_end(i@, 0, false)),
            rest@ == i@.skip(run_end(i@, 0, false)),
            ps.len() == pieces@.len(),
            j <= pieces.len(),
            opts@.len() == j,
            forall|m: int| 0 <= m < j ==> valid_piece(#[trigger] ps[m]),
            forall|m: int| 0 <= m < j ==> decode(ps[m]) == Some(#[trigger] opts@[m]@),
        decreases pieces.len() - j,
    {
        assert(ps[j as int] == pieces@[j as int]@);
        if pieces[j].as_str().is_empty() {
            assert(!valid_piece(ps[j as int]));
            assert(options_spec(token@) is None);
            return Err(ParseError);
        }
        match transform_escaped(pieces[j].as_str()) {
            Ok((_, d)) => {
                opts.push(d);
            },
            Err(_) => {
                assert(!valid_piece(ps[j as int]));
                assert(options_spec(token@) is None);
                return Err(ParseError);
            },
        }
        j = j + 1;
    }
    assert(strings_view(opts@) =~= ps.map_values(|p: Seq<char>| decode(p)->0));
    Ok((rest, opts))
}

} // verus!
