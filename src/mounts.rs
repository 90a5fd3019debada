//! Turning the lines of a mount table, as a line source hands them over, into
//! records, and records into the text that `mount` prints.
use vstd::prelude::*;
use crate::error::ParseError;
use crate::line::{parse_line, parse_line_spec, Mount, MountView};

verus! {

broadcast use vstd::string::group_string_axioms;

/// Why no record came for a line: the source could not read it (`Read`,
/// with the source's own error), or it did not follow the grammar (`Parse`).
#[derive(Debug)]
pub enum MountsError<E> {
    Read(E),
    Parse(ParseError),
}

/// The item that iteration yields for what the line source handed over:
/// nothing once the source has ended, the source's error where it could not
/// read a line, and otherwise the line's record or a parse error.
pub fn next_mount<E>(line: Option<Result<String, E>>) -> (r: Option<Result<Mount, MountsError<E>>>)
    ensures
        line is None <==> r is None,
        match line {
            None => true,
            Some(Err(e)) => r == Some(Err::<Mount, MountsError<E>>(MountsError::Read(e))),
            Some(Ok(l)) => match parse_line_spec(l@) {
                Some(v) => r matches Some(Ok(m)) && m@ == v,
                None => r matches Some(Err(MountsError::Parse(_))),
            },
        },
{
    match line {
        Some(Ok(l)) => match parse_line(l.as_str()) {
            Ok((_, m)) => Some(Ok(m)),
            Err(e) => Some(Err(MountsError::Parse(e))),
        },
        Some(Err(e)) => Some(Err(MountsError::Read(e))),
        None => None,
    }
}

/// The options joined by commas, in order.
pub open spec fn join_commas(opts: Seq<Seq<char>>) -> Seq<char>
    decreases opts.len(),
{
    if opts.len() == 0 {
        Seq::empty()
    } else if opts.len() == 1 {
        opts[0]
    } else {
        join_commas(opts.drop_last()) + seq![','] + opts.last()
    }
}

/// The line that `mount` prints for a record:
/// `<device> on <mount_point> type <fs_type> (<opt1>,<opt2>,...)`.
pub open spec fn display_spec(v: MountView) -> Seq<char> {
    v.device + " on "@ + v.mount_point + " type "@ + v.file_system_type + " ("@ + join_commas(
        v.options,
    ) + ")"@
}

/// `s` does not hold the character `c`.
pub open spec fn lacks(s: Seq<char>, c: char) -> bool {
    forall|k: int| 0 <= k < s.len() ==> s[k] != c
}

/// `s` holds none of the characters that frame the options in the display
/// form: `(`, `)` and `,`.
pub open spec fn lacks_delimiters(s: Seq<char>) -> bool {
    lacks(s, '(') && lacks(s, ')') && lacks(s, ',')
}

/// In `x + sep`, `sep` first occurs at the end of `x`.
pub open spec fn sep_first_after(x: Seq<char>, sep: Seq<char>) -> bool {
    forall|k: int| 0 <= k < x.len() ==> #[trigger] (x + sep).subrange(k, k + sep.len()) != sep
}

/// A record whose display form can be read back: no field holds `(`, `)` or
/// `,`; there is at least one option; the file system type holds no space;
/// and the first ` on ` of the display form is the one after the device.
pub open spec fn display_readable(v: MountView) -> bool {
    &&& lacks_delimiters(v.device)
    &&& lacks_delimiters(v.mount_point)
    &&& lacks_delimiters(v.file_system_type)
    &&& v.options.len() > 0
    &&& forall|j: int| 0 <= j < v.options.len() ==> lacks_delimiters(#[trigger] v.options[j])
    &&& lacks(v.file_system_type, ' ')
    &&& sep_first_after(v.device, " on "@)
}

/// Splitting at the last `c` gives back both sides.
proof fn lemma_split_last(x1: Seq<char>, y1: Seq<char>, x2: Seq<char>, y2: Seq<char>, c: char)
    requires
        x1 + seq![c] + y1 == x2 + seq![c] + y2,
        lacks(y1, c),
        lacks(y2, c),
    ensures
        x1 == x2,
        y1 == y2,
{
    let s = x1 + seq![c] + y1;
    let t = x2 + seq![c] + y2;
    assert(s.len() == x1.len() + 1 + y1.len());
    assert(t.len() == x2.len() + 1 + y2.len());
    assert(s.len() == t.len());
    if y1.len() < y2.len() {
        let i = x1.len() as int;
        assert(s[i] == c);
        assert(t[i] == y2[i - x2.len() - 1]);
    } else if y2.len() < y1.len() {
        let i = x2.len() as int;
        assert(t[i] == c);
        assert(s[i] == y1[i - x1.len() - 1]);
    }
    assert(x1.len() == x2.len());
    assert forall|k: int| 0 <= k < x1.len() implies x1[k] == x2[k] by {
        assert(s[k] == x1[k]);
        assert(t[k] == x2[k]);
    }
    assert forall|k: int| 0 <= k < y1.len() implies y1[k] == y2[k] by {
        assert(s[x1.len() + 1 + k] == y1[k]);
        assert(t[x2.len() + 1 + k] == y2[k]);
    }
    assert(x1 =~= x2);
    assert(y1 =~= y2);
}

/// Splitting at the first `sep` gives back both sides.
proof fn lemma_split_first(x1: Seq<char>, y1: Seq<char>, x2: Seq<char>, y2: Seq<char>, sep: Seq<char>)
    requires
        x1 + sep + y1 == x2 + sep + y2,
        sep_first_after(x1, sep),
        sep_first_after(x2, sep),
    ensures
        x1 == x2,
        y1 == y2,
{
    let s = x1 + sep + y1;
    let t = x2 + sep + y2;
    assert(s.len() == x1.len() + sep.len() + y1.len());
    assert(t.len() == x2.len() + sep.len() + y2.len());
    assert(s.len() == t.len());
    if x1.len() < x2.len() {
        let k = x1.len() as int;
        assert(s.subrange(k, k + sep.len()) =~= sep);
        assert((x2 + sep).subrange(k, k + sep.len()) =~= t.subrange(k, k + sep.len()));
    } else if x2.len() < x1.len() {
        let k = x2.len() as int;
        assert(t.subrange(k, k + sep.len()) =~= sep);
        assert((x1 + sep).subrange(k, k + sep.len()) =~= s.subrange(k, k + sep.len()));
    }
    assert forall|k: int| 0 <= k < x1.len() implies x1[k] == x2[k] by {
        assert(s[k] == x1[k]);
        assert(t[k] == x2[k]);
    }
    assert forall|k: int| 0 <= k < y1.len() implies y1[k] == y2[k] by {
        assert(s[x1.len() + sep.len() + k] == y1[k]);
        assert(t[x2.len() + sep.len() + k] == y2[k]);
    }
    assert(x1 =~= x2);
    assert(y1 =~= y2);
}

/// Options that lack a character other than `,` give a joined text that lacks it.
proof fn lemma_join_lacks(opts: Seq<Seq<char>>, c: char)
    requires
        c != ',',
        forall|j: int| 0 <= j < opts.len() ==> lacks(#[trigger] opts[j], c),
    ensures
        lacks(join_commas(opts), c),
    decreases opts.len(),
{
    if opts.len() > 1 {
        lemma_join_lacks(opts.drop_last(), c);
        assert(lacks(opts[opts.len() - 1], c));
    } else if opts.len() == 1 {
        assert(lacks(opts[0], c));
    }
}

/// Joining at least one option without commas loses nothing.
proof fn lemma_join_injective(a: Seq<Seq<char>>, b: Seq<Seq<char>>)
    requires
        a.len() > 0,
        b.len() > 0,
        forall|j: int| 0 <= j < a.len() ==> lacks(#[trigger] a[j], ','),
        forall|j: int| 0 <= j < b.len() ==> lacks(#[trigger] b[j], ','),
        join_commas(a) == join_commas(b),
    ensures
        a == b,
    decreases a.len(),
{
    if a.len() == 1 && b.len() == 1 {
        assert(a =~= b);
    } else if a.len() == 1 {
        assert(lacks(a[0], ','));
        let i = join_commas(b.drop_last()).len() as int;
        assert(join_commas(b)[i] == ',');
    } else if b.len() == 1 {
        assert(lacks(b[0], ','));
        let i = join_commas(a.drop_last()).len() as int;
        assert(join_commas(a)[i] == ',');
    } else {
        assert(lacks(a[a.len() - 1], ','));
        assert(lacks(b[b.len() - 1], ','));
        lemma_split_last(join_commas(a.drop_last()), a.last(), join_commas(b.drop_last()), b.last(), ',');
        lemma_join_injective(a.drop_last(), b.drop_last());
        assert(a =~= a.drop_last().push(a.last()));
        assert(b =~= b.drop_last().push(b.last()));
    }
}

/// The display form of a readable record determines it: two such records
/// that display alike are the same, so device, mount point, file system type
/// and options can be read back from the line `mount` prints.
pub proof fn lemma_display_round_trip(a: MountView, b: MountView)
    requires
        display_readable(a),
        display_readable(b),
        display_spec(a) == display_spec(b),
    ensures
        a == b,
{
    reveal_strlit(" on ");
    reveal_strlit(" type ");
    reveal_strlit(" (");
    reveal_strlit(")");
    let on = " on "@;
    let ja = join_commas(a.options);
    let jb = join_commas(b.options);
    let pa = a.device + on + a.mount_point + " type "@ + a.file_system_type;
    let pb = b.device + on + b.mount_point + " type "@ + b.file_system_type;
    assert(display_spec(a) =~= (pa + seq![' ']) + seq!['('] + ja + seq![')']);
    assert(display_spec(b) =~= (pb + seq![' ']) + seq!['('] + jb + seq![')']);
    assert(((pa + seq![' ']) + seq!['('] + ja) =~= display_spec(a).drop_last());
    assert(((pb + seq![' ']) + seq!['('] + jb) =~= display_spec(b).drop_last());
    assert forall|j: int| 0 <= j < a.options.len() implies lacks(#[trigger] a.options[j], '(') by {
        assert(lacks_delimiters(a.options[j]));
    }
    assert forall|j: int| 0 <= j < b.options.len() implies lacks(#[trigger] b.options[j], '(') by {
        assert(lacks_delimiters(b.options[j]));
    }
    lemma_join_lacks(a.options, '(');
    lemma_join_lacks(b.options, '(');
    lemma_split_last(pa + seq![' '], ja, pb + seq![' '], jb, '(');
    assert forall|j: int| 0 <= j < a.options.len() implies lacks(#[trigger] a.options[j], ',') by {
        assert(lacks_delimiters(a.options[j]));
    }
    assert forall|j: int| 0 <= j < b.options.len() implies lacks(#[trigger] b.options[j], ',') by {
        assert(lacks_delimiters(b.options[j]));
    }
    lemma_join_injective(a.options, b.options);
    assert(pa =~= (pa + seq![' ']).drop_last());
    assert(pb =~= (pb + seq![' ']).drop_last());
    let qa = a.device + on + a.mount_point + seq![' ', 't', 'y', 'p', 'e'];
    let qb = b.device + on + b.mount_point + seq![' ', 't', 'y', 'p', 'e'];
    assert(pa =~= qa + seq![' '] + a.file_system_type);
    assert(pb =~= qb + seq![' '] + b.file_system_type);
    lemma_split_last(qa, a.file_system_type, qb, b.file_system_type, ' ');
    let ra = a.device + on + a.mount_point;
    let rb = b.device + on + b.mount_point;
    assert(ra =~= qa.subrange(0, qa.len() - 5));
    assert(rb =~= qb.subrange(0, qb.len() - 5));
    lemma_split_first(a.device, a.mount_point, b.device, b.mount_point, on);
}

impl Mount {
    /// The record as `mount` lists it, e.g.
    /// `/dev/sda1 on /mnt/disk type ext4 (ro,nosuid)`.
    pub fn to_string(&self) -> (r: String)
        ensures
            r@ == display_spec(self@),
    {
        let mut out = String::new();
        out.append(self.device.as_str());
        out.append(" on ");
        out.append(self.mount_point.as_str());
        out.append(" type ");
        out.append(self.file_system_type.as_str());
        out.append(" (");
        let ghost opts = self@.options;
        let mut j: usize = 0;
        let ghost before = out@;
        while j < self.options.len()
            invariant
                opts == self@.options,
                opts.len() == self.options@.len(),
                j <= self.options.len(),
                out@ == before + join_commas(opts.take(j as int)),
            decreases self.options.len() - j,
        {
            assert(opts[j as int] == self.options@[j as int]@);
            assert(opts.take(j + 1).drop_last() =~= opts.take(j as int));
            if j > 0 {
                out.append(",");
                proof {
                    reveal_strlit(",");
                }
            } else {
                assert(opts.take(j as int) =~= Seq::<Seq<char>>::empty());
            }
            out.append(self.options[j].as_str());
            j = j + 1;
            assert(out@ =~= before + join_commas(opts.take(j as int)));
        }
        out.append(")");
        assert(opts.take(j as int) =~= opts);
        out
    }
}

} // verus!
