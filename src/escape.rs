//! Decoding of the backslash escapes used in the mount table: `\040` stands
//! for a space and `\\` for a single backslash.
use vstd::prelude::*;
use crate::error::ParseError;
use crate::text::chars_of;

verus! {

broadcast use vstd::string::group_string_axioms;

/// `p` put in front of the decoded text `o`, if there is one.
pub open spec fn prepend(p: Seq<char>, o: Option<Seq<char>>) -> Option<Seq<char>> {
    match o {
        Some(r) => Some(p + r),
        None => None,
    }
}

/// The decoded value of `s` from index `i` on, or `None` where a backslash is
/// followed by anything but a backslash or `040`.
pub open spec fn decode_from(s: Seq<char>, i: int) -> Option<Seq<char>>
    decreases s.len() - i,
{
    if i < 0 || i >= s.len() {
        Some(Seq::empty())
    } else if s[i] != '\\' {
        prepend(seq![s[i]], decode_from(s, i + 1))
    } else if i + 1 < s.len() && s[i + 1] == '\\' {
        prepend(seq!['\\'], decode_from(s, i + 2))
    } else if i + 3 < s.len() && s[i + 1] == '0' && s[i + 2] == '4' && s[i + 3] == '0' {
        prepend(seq![' '], decode_from(s, i + 4))
    } else {
        None
    }
}

/// The decoded value of the whole token `s`.
pub open spec fn decode(s: Seq<char>) -> Option<Seq<char>> {
    decode_from(s, 0)
}

proof fn lemma_prepend_twice(a: Seq<char>, b: Seq<char>, o: Option<Seq<char>>)
    ensures
        prepend(a, prepend(b, o)) == prepend(a + b, o),
{
    if let Some(r) = o {
        assert(a + (b + r) =~= (a + b) + r);
    }
}

proof fn lemma_decode_from_plain(s: Seq<char>, i: int)
    requires
        0 <= i <= s.len(),
        forall|k: int| 0 <= k < s.len() ==> s[k] != '\\',
    ensures
        decode_from(s, i) == Some(s.skip(i)),
    decreases s.len() - i,
{
    if i < s.len() {
        lemma_decode_from_plain(s, i + 1);
        assert(seq![s[i]] + s.skip(i + 1) =~= s.skip(i));
    } else {
        assert(s.skip(i) =~= Seq::<char>::empty());
    }
}

/// A token that holds no backslash decodes to itself.
pub proof fn lemma_decode_plain(s: Seq<char>)
    requires
        forall|k: int| 0 <= k < s.len() ==> s[k] != '\\',
    ensures
        decode(s) == Some(s),
{
    lemma_decode_from_plain(s, 0);
    assert(s.skip(0) =~= s);
}

/// Recognises the escape body `040` at the start of `i` and yields a space.
pub fn escaped_space<'a>(i: &'a str) -> (r: Result<(&'a str, &'a str), ParseError>)
    ensures
        r is Ok <==> (i@.len() >= 3 && i@[0] == '0' && i@[1] == '4' && i@[2] == '0'),
        r matches Ok((rest, out)) ==> rest@ == i@.skip(3) && out@ == seq![' '],
{
    let cs = chars_of(i);
    let n = cs.len();
    if n >= 3 && cs[0] == '0' && cs[1] == '4' && cs[2] == '0' {
        let rest = i.substring_char(3, n);
        proof {
            reveal_strlit(" ");
            assert(rest@ =~= i@.skip(3));
            assert(" "@ =~= seq![' ']);
        }
        Ok((rest, " "))
    } else {
        Err(ParseError)
    }
}

/// Recognises a backslash at the start of `i` and yields it.
pub fn escaped_backslash<'a>(i: &'a str) -> (r: Result<(&'a str, &'a str), ParseError>)
    ensures
        r is Ok <==> (i@.len() >= 1 && i@[0] == '\\'),
        r matches Ok((rest, out)) ==> rest@ == i@.skip(1) && out@ == seq!['\\'],
{
    let cs = chars_of(i);
    let n = cs.len();
    if n >= 1 && cs[0] == '\\' {
        let rest = i.substring_char(1, n);
        proof {
            reveal_strlit("\\");
            assert(rest@ =~= i@.skip(1));
            assert("\\"@ =~= seq!['\\']);
        }
        Ok((rest, "\\"))
    } else {
        Err(ParseError)
    }
}

/// Decodes the whole token `i`. Runs without a backslash are copied as they
/// are; each backslash must start `\\` or `\040`.
pub fn transform_escaped<'a>(i: &'a str) -> (r: Result<(&'a str, String), ParseError>)
    ensures
        r is Ok <==> decode(i@) is Some,
        r matches Ok((rest, out)) ==> rest@.len() == 0 && decode(i@) == Some(out@),
{
    let cs = chars_of(i);
    let n = cs.len();
    let mut out = String::new();
    let mut start: usize = 0;
    let mut k: usize = 0;
    while k < n
        invariant
            cs@ == i@,
            n == i@.len(),
            start <= k <= n,
            decode(i@) == prepend(out@ + i@.subrange(start as int, k as int), decode_from(i@, k as int)),
        decreases n - k,
    {
        if cs[k] != '\\' {
            proof {
                lemma_prepend_twice(out@ + i@.subrange(start as int, k as int), seq![cs@[k as int]], decode_from(i@, k + 1));
                assert(out@ + i@.subrange(start as int, k as int) + seq![cs@[k as int]]
                    =~= out@ + i@.subrange(start as int, k + 1));
            }
            k = k + 1;
        } else {
            out.append(i.substring_char(start, k));
            let tail = i.substring_char(k + 1, n);
            assert(i@.subrange(k + 1, n as int) == tail@);
            match escaped_backslash(tail) {
                Ok((_, lit)) => {
                    proof {
                        lemma_prepend_twice(out@, lit@, decode_from(i@, k + 2));
                    }
                    out.append(lit);
                    k = k + 2;
                },
                Err(_) => match escaped_space(tail) {
                    Ok((_, lit)) => {
                        proof {
                            lemma_prepend_twice(out@, lit@, decode_from(i@, k + 4));
                        }
                        out.append(lit);
                        k = k + 4;
                    },
                    Err(_) => {
                        return Err(ParseError);
                    },
                },
            }
            start = k;
            assert(i@.subrange(start as int, k as int) =~= Seq::<char>::empty());
            assert(out@ + Seq::<char>::empty() =~= out@);
        }
    }
    out.append(i.substring_char(start, n));
    assert(i@.subrange(start as int, n as int) == i@.subrange(start as int, k as int));
    Ok((i.substring_char(n, n), out))
}

} // verus!
