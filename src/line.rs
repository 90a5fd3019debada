//! One line of the mount table, read into a [`Mount`].
use vstd::prelude::*;
use crate::error::ParseError;
use crate::escape::{decode, transform_escaped};
use crate::options::{mount_opts, options_spec, strings_view};
use crate::text::{
    chars_of, is_ws, lemma_run_end_at, lemma_run_end_bounds, lemma_run_end_skip, run_end, scan_run,
    take_run,
};

verus! {

broadcast use vstd::string::group_string_axioms;

/// Describes a mounted file system, see `man 8 mount`.
#[derive(Clone, Debug, Default)]
pub struct Mount {
    /// The device from which the file system is mounted, e.g. /dev/sda1
    pub device: String,
    /// Where in the root file system the device is mounted, e.g. /mnt/disk
    pub mount_point: String,
    /// The file system type, e.g. ext4
    pub file_system_type: String,
    /// The mount options in the order of the line, e.g. ["ro", "nosuid"]
    pub options: Vec<String>,
}

/// The value of a [`Mount`]: its four fields as text.
pub struct MountView {
    pub device: Seq<char>,
    pub mount_point: Seq<char>,
    pub file_system_type: Seq<char>,
    pub options: Seq<Seq<char>>,
}

impl View for Mount {
    type V = MountView;

    open spec fn view(&self) -> MountView {
        MountView {
            device: self.device@,
            mount_point: self.mount_point@,
            file_system_type: self.file_system_type@,
            options: strings_view(self.options@),
        }
    }
}

/// The record that the line `l` describes, or `None` where `l` does not
/// follow the grammar
/// `device ws mount_point ws fs_type ws options ws 0 ws 0 [ws]`,
/// `ws` being a run of spaces and tabs. Each `e` ends a field and the `s`
/// after it ends the whitespace that follows; `s4` and `s5` hold the zeros.
pub open spec fn parse_line_spec(l: Seq<char>) -> Option<MountView> {
    let e1 = run_end(l, 0, false);
    let s1 = run_end(l, e1, true);
    let e2 = run_end(l, s1, false);
    let s2 = run_end(l, e2, true);
    let e3 = run_end(l, s2, false);
    let s3 = run_end(l, e3, true);
    let e4 = run_end(l, s3, false);
    let s4 = run_end(l, e4, true);
    let s5 = run_end(l, s4 + 1, true);
    let s6 = run_end(l, s5 + 1, true);
    if 0 < e1 && e1 < s1 && s1 < e2 && e2 < s2 && s2 < e3 && e3 < s3 && e4 < s4 && s4 < l.len()
        && l[s4] == '0' && s4 + 1 < s5 && s5 < l.len() && l[s5] == '0' && s6 == l.len()
        && decode(l.subrange(0, e1)) is Some && decode(l.subrange(s1, e2)) is Some
        && options_spec(l.subrange(s3, e4)) is Some {
        Some(
            MountView {
                device: decode(l.subrange(0, e1))->0,
                mount_point: decode(l.subrange(s1, e2))->0,
                file_system_type: l.subrange(s2, e3),
                options: options_spec(l.subrange(s3, e4))->0,
            },
        )
    } else {
        None
    }
}

/// A field: one or more characters, none a space or a tab.
pub open spec fn is_word(s: Seq<char>) -> bool {
    s.len() > 0 && forall|k: int| 0 <= k < s.len() ==> !is_ws(#[trigger] s[k])
}

/// Spaces and tabs only, possibly none.
pub open spec fn is_blank(s: Seq<char>) -> bool {
    forall|k: int| 0 <= k < s.len() ==> is_ws(#[trigger] s[k])
}

/// The pieces a line is written from: four fields, the separators that
/// follow them and the trailing whitespace. The two zeros are implied.
pub struct LineParts {
    pub device: Seq<char>,
    pub gap1: Seq<char>,
    pub mount_point: Seq<char>,
    pub gap2: Seq<char>,
    pub fs_type: Seq<char>,
    pub gap3: Seq<char>,
    pub options: Seq<char>,
    pub gap4: Seq<char>,
    pub gap5: Seq<char>,
    pub trailing: Seq<char>,
}

impl LineParts {
    /// Fields are words, separators are non-empty runs of whitespace.
    pub open spec fn wf(self) -> bool {
        &&& is_word(self.device) && is_word(self.mount_point)
        &&& is_word(self.fs_type) && is_word(self.options)
        &&& is_blank(self.gap1) && self.gap1.len() > 0
        &&& is_blank(self.gap2) && self.gap2.len() > 0
        &&& is_blank(self.gap3) && self.gap3.len() > 0
        &&& is_blank(self.gap4) && self.gap4.len() > 0
        &&& is_blank(self.gap5) && self.gap5.len() > 0
        &&& is_blank(self.trailing)
    }

    /// The four fields, each followed by its separator.
    pub open spec fn head(self) -> Seq<char> {
        self.device + self.gap1 + self.mount_point + self.gap2 + self.fs_type + self.gap3
            + self.options + self.gap4
    }

    /// The whole line: the head, `0`, a separator, `0` and the trailing whitespace.
    pub open spec fn line(self) -> Seq<char> {
        self.head() + seq!['0'] + self.gap5 + seq!['0'] + self.trailing
    }

    /// The record the line stands for, where its fields decode.
    pub open spec fn record(self) -> Option<MountView> {
        if decode(self.device) is Some && decode(self.mount_point) is Some && options_spec(
            self.options,
        ) is Some {
            Some(
                MountView {
                    device: decode(self.device)->0,
                    mount_point: decode(self.mount_point)->0,
                    file_system_type: self.fs_type,
                    options: options_spec(self.options)->0,
                },
            )
        } else {
            None
        }
    }
}

/// A run that is known to lie at `a` in `l` ends where it is known to end.
proof fn lemma_segment(l: Seq<char>, a: int, part: Seq<char>, ws: bool)
    requires
        0 <= a,
        a + part.len() <= l.len(),
        l.subrange(a, a + part.len()) == part,
        forall|k: int| 0 <= k < part.len() ==> is_ws(#[trigger] part[k]) == ws,
        a + part.len() == l.len() || is_ws(l[a + part.len()]) != ws,
    ensures
        run_end(l, a, ws) == a + part.len(),
{
    assert forall|k: int| a <= k < a + part.len() implies is_ws(#[trigger] l[k]) == ws by {
        assert(l.subrange(a, a + part.len())[k - a] == l[k]);
    }
    lemma_run_end_at(l, a, a + part.len(), ws);
}

/// Where the fields and separators of a line that starts with `p.head()`
/// and a `0` begin and end.
proof fn lemma_head_positions(l: Seq<char>, p: LineParts)
    requires
        p.wf(),
        p.head().len() < l.len(),
        l.subrange(0, p.head().len() as int) == p.head(),
        l[p.head().len() as int] == '0',
    ensures
        ({
            let a1 = p.device.len() as int;
            let a2 = a1 + p.gap1.len();
            let a3 = a2 + p.mount_point.len();
            let a4 = a3 + p.gap2.len();
            let a5 = a4 + p.fs_type.len();
            let a6 = a5 + p.gap3.len();
            let a7 = a6 + p.options.len();
            let a8 = a7 + p.gap4.len();
            &&& run_end(l, 0, false) == a1
            &&& run_end(l, a1, true) == a2
            &&& run_end(l, a2, false) == a3
            &&& run_end(l, a3, true) == a4
            &&& run_end(l, a4, false) == a5
            &&& run_end(l, a5, true) == a6
            &&& run_end(l, a6, false) == a7
            &&& run_end(l, a7, true) == a8
            &&& a8 == p.head().len()
            &&& l.subrange(0, a1) == p.device
            &&& l.subrange(a2, a3) == p.mount_point
            &&& l.subrange(a4, a5) == p.fs_type
            &&& l.subrange(a6, a7) == p.options
        }),
{
    let h = p.head();
    let a1 = p.device.len() as int;
    let a2 = a1 + p.gap1.len();
    let a3 = a2 + p.mount_point.len();
    let a4 = a3 + p.gap2.len();
    let a5 = a4 + p.fs_type.len();
    let a6 = a5 + p.gap3.len();
    let a7 = a6 + p.options.len();
    let a8 = a7 + p.gap4.len();
    assert(h.len() == a8);
    assert forall|k: int| 0 <= k < a8 implies #[trigger] l[k] == h[k] by {
        assert(l.subrange(0, a8)[k] == l[k]);
    }
    assert(l.subrange(0, a1) =~= p.device);
    assert(l.subrange(a1, a2) =~= p.gap1);
    assert(l.subrange(a2, a3) =~= p.mount_point);
    assert(l.subrange(a3, a4) =~= p.gap2);
    assert(l.subrange(a4, a5) =~= p.fs_type);
    assert(l.subrange(a5, a6) =~= p.gap3);
    assert(l.subrange(a6, a7) =~= p.options);
    assert(l.subrange(a7, a8) =~= p.gap4);
    assert(l[a1] == p.gap1[0]);
    assert(l[a2] == p.mount_point[0]);
    assert(l[a3] == p.gap2[0]);
    assert(l[a4] == p.fs_type[0]);
    assert(l[a5] == p.gap3[0]);
    assert(l[a6] == p.options[0]);
    assert(l[a7] == p.gap4[0]);
    lemma_segment(l, 0, p.device, false);
    lemma_segment(l, a1, p.gap1, true);
    lemma_segment(l, a2, p.mount_point, false);
    lemma_segment(l, a3, p.gap2, true);
    lemma_segment(l, a4, p.fs_type, false);
    lemma_segment(l, a5, p.gap3, true);
    lemma_segment(l, a6, p.options, false);
    lemma_segment(l, a7, p.gap4, true);
}

/// A line written from well-formed parts, with both zeros and nothing after
/// the trailing whitespace, reads as exactly the record of its parts: the
/// device and mount point decoded, the file system type as written and the
/// options in order; it fails only where one of those does not decode.
pub proof fn lemma_parse_composed(p: LineParts)
    requires
        p.wf(),
    ensures
        parse_line_spec(p.line()) == p.record(),
{
    let l = p.line();
    let h = p.head().len() as int;
    assert(l.subrange(0, h) =~= p.head());
    lemma_head_positions(l, p);
    let s5 = h + 1 + p.gap5.len();
    assert(l.subrange(h + 1, s5) =~= p.gap5);
    lemma_segment(l, h + 1, p.gap5, true);
    assert(l.subrange(s5 + 1, l.len() as int) =~= p.trailing);
    lemma_segment(l, s5 + 1, p.trailing, true);
}

/// Anything but whitespace after the second `0` of a line makes it fail.
pub proof fn lemma_trailing_content_fails(p: LineParts, t: Seq<char>)
    requires
        p.wf(),
        t.len() > 0,
        !is_ws(t[0]),
    ensures
        parse_line_spec(p.line() + t) is None,
{
    let l = p.line() + t;
    let h = p.head().len() as int;
    assert(l.subrange(0, h) =~= p.head());
    lemma_head_positions(l, p);
    let s5 = h + 1 + p.gap5.len();
    assert(l.subrange(h + 1, s5) =~= p.gap5);
    lemma_segment(l, h + 1, p.gap5, true);
    let e = p.line().len() as int;
    assert(l.subrange(s5 + 1, e) =~= p.trailing);
    assert(l[e] == t[0]);
    lemma_segment(l, s5 + 1, p.trailing, true);
}

/// A line that stops after the first `0`, the second `0` missing, fails.
pub proof fn lemma_missing_zero_fails(p: LineParts, w: Seq<char>)
    requires
        p.wf(),
        is_blank(w),
    ensures
        parse_line_spec(p.head() + seq!['0'] + w) is None,
{
    let l = p.head() + seq!['0'] + w;
    let h = p.head().len() as int;
    assert(l.subrange(0, h) =~= p.head());
    lemma_head_positions(l, p);
    assert(l.subrange(h + 1, l.len() as int) =~= w);
    lemma_segment(l, h + 1, w, true);
}

/// Moving on by a run, seen from offset `p` of `l`, moves to where the run ends in `l`.
proof fn lemma_step(l: Seq<char>, p: int, ws: bool)
    requires
        0 <= p <= l.len(),
    ensures
        p <= run_end(l, p, ws) <= l.len(),
        run_end(l.skip(p), 0, ws) + p == run_end(l, p, ws),
        l.skip(p).skip(run_end(l.skip(p), 0, ws)) == l.skip(run_end(l, p, ws)),
        l.skip(p).take(run_end(l.skip(p), 0, ws)) == l.subrange(p, run_end(l, p, ws)),
{
    lemma_run_end_skip(l, p, 0, ws);
    lemma_run_end_bounds(l, p, ws);
    assert(l.skip(p).skip(run_end(l.skip(p), 0, ws)) =~= l.skip(run_end(l, p, ws)));
    assert(l.skip(p).take(run_end(l.skip(p), 0, ws)) =~= l.subrange(p, run_end(l, p, ws)));
}

/// Splits off the leading run of characters other than spaces and tabs;
/// fails where there is none.
pub fn not_whitespace<'a>(i: &'a str) -> (r: Result<(&'a str, &'a str), ParseError>)
    ensures
        r is Ok <==> run_end(i@, 0, false) > 0,
        r matches Ok((rest, tok)) ==> tok@ == i@.take(run_end(i@, 0, false))
            && rest@ == i@.skip(run_end(i@, 0, false)),
{
    let (rest, tok) = take_run(i, false);
    proof {
        lemma_run_end_bounds(i@, 0, false);
    }
    if tok.is_empty() {
        Err(ParseError)
    } else {
        Ok((rest, tok))
    }
}

/// Skips one or more spaces and tabs; fails where `i` starts otherwise.
fn space1<'a>(i: &'a str) -> (r: Result<&'a str, ParseError>)
    ensures
        r is Ok <==> run_end(i@, 0, true) > 0,
        r matches Ok(rest) ==> rest@ == i@.skip(run_end(i@, 0, true)),
{
    let (rest, tok) = take_run(i, true);
    proof {
        lemma_run_end_bounds(i@, 0, true);
    }
    if tok.is_empty() {
        Err(ParseError)
    } else {
        Ok(rest)
    }
}

/// Skips the character `0`; fails where `i` starts otherwise.
fn zero<'a>(i: &'a str) -> (r: Result<&'a str, ParseError>)
    ensures
        r is Ok <==> i@.len() > 0 && i@[0] == '0',
        r matches Ok(rest) ==> rest@ == i@.skip(1),
{
    let n = i.unicode_len();
    if n > 0 && i.get_char(0) == '0' {
        let rest = i.substring_char(1, n);
        assert(rest@ =~= i@.skip(1));
        Ok(rest)
    } else {
        Err(ParseError)
    }
}

/// Reads one line of the mount table into a [`Mount`]. The whole line must
/// follow the grammar, trailing spaces and tabs aside; the rest handed back is
/// then empty. Device and mount point are decoded, the file system type is
/// taken as it stands, and each option is decoded.
pub fn parse_line<'a>(i: &'a str) -> (r: Result<(&'a str, Mount), ParseError>)
    ensures
        r is Ok <==> parse_line_spec(i@) is Some,
        r matches Ok((rest, m)) ==> rest@.len() == 0 && parse_line_spec(i@) == Some(m@),
{
    let ghost l = i@;
    proof {
        lemma_step(l, 0, false);
        assert(l.skip(0) =~= l);
    }
    let ghost e1 = run_end(l, 0, false);
    let (i1, device_tok) = match not_whitespace(i) {
        Ok(x) => x,
        Err(e) => return Err(e),
    };
    let device = match transform_escaped(device_tok) {
        Ok((_, d)) => d,
        Err(e) => return Err(e),
    };
    proof {
        lemma_step(l, e1, true);
    }
    let ghost s1 = run_end(l, e1, true);
    let i2 = match space1(i1) {
        Ok(x) => x,
        Err(e) => return Err(e),
    };
    proof {
        lemma_step(l, s1, false);
    }
    let ghost e2 = run_end(l, s1, false);
    let (i3, mount_point_tok) = match not_whitespace(i2) {
        Ok(x) => x,
        Err(e) => return Err(e),
    };
    let mount_point = match transform_escaped(mount_point_tok) {
        Ok((_, d)) => d,
        Err(e) => return Err(e),
    };
    proof {
        lemma_step(l, e2, true);
    }
    let ghost s2 = run_end(l, e2, true);
    let i4 = match space1(i3) {
        Ok(x) => x,
        Err(e) => return Err(e),
    };
    proof {
        lemma_step(l, s2, false);
    }
    let ghost e3 = run_end(l, s2, false);
    let (i5, fs_tok) = match not_whitespace(i4) {
        Ok(x) => x,
        Err(e) => return Err(e),
    };
    proof {
        lemma_step(l, e3, true);
    }
    let ghost s3 = run_end(l, e3, true);
    let i6 = match space1(i5) {
        Ok(x) => x,
        Err(e) => return Err(e),
    };
    proof {
        lemma_step(l, s3, false);
    }
    let ghost e4 = run_end(l, s3, false);
    let (i7, options) = match mount_opts(i6) {
        Ok(x) => x,
        Err(e) => return Err(e),
    };
    proof {
        lemma_step(l, e4, true);
    }
    let ghost s4 = run_end(l, e4, true);
    let i8 = match space1(i7) {
        Ok(x) => x,
        Err(e) => return Err(e),
    };
    let i9 = match zero(i8) {
        Ok(x) => x,
        Err(e) => return Err(e),
    };
    proof {
        assert(l.skip(s4).skip(1) =~= l.skip(s4 + 1));
        lemma_step(l, s4 + 1, true);
    }
    let ghost s5 = run_end(l, s4 + 1, true);
    let i10 = match space1(i9) {
        Ok(x) => x,
        Err(e) => return Err(e),
    };
    let i11 = match zero(i10) {
        Ok(x) => x,
        Err(e) => return Err(e),
    };
    proof {
        assert(l.skip(s5).skip(1) =~= l.skip(s5 + 1));
        lemma_step(l, s5 + 1, true);
    }
    let (rest, _) = take_run(i11, true);
    if !rest.is_empty() {
        return Err(ParseError);
    }
    let m = Mount {
        device,
        mount_point,
        file_system_type: String::from_str(fs_tok),
        options,
    };
    Ok((rest, m))
}

/// Reads one line of the mount table, as [`parse_line`] does, by first
/// locating every field and separator of the line and only then decoding
/// the fields.
pub fn parse_line_alternate<'a>(i: &'a str) -> (r: Result<(&'a str, Mount), ParseError>)
    ensures
        r is Ok <==> parse_line_spec(i@) is Some,
        r matches Ok((rest, m)) ==> rest@.len() == 0 && parse_line_spec(i@) == Some(m@),
{
    let cs = chars_of(i);
    let n = cs.len();
    let e1 = scan_run(&cs, 0, false);
    let s1 = scan_run(&cs, e1, true);
    let e2 = scan_run(&cs, s1, false);
    let s2 = scan_run(&cs, e2, true);
    let e3 = scan_run(&cs, s2, false);
    let s3 = scan_run(&cs, e3, true);
    let e4 = scan_run(&cs, s3, false);
    let s4 = scan_run(&cs, e4, true);
    if !(0 < e1 && e1 < s1 && s1 < e2 && e2 < s2 && s2 < e3 && e3 < s3 && e4 < s4 && s4 < n
        && cs[s4] == '0') {
        return Err(ParseError);
    }
    let s5 = scan_run(&cs, s4 + 1, true);
    if !(s4 + 1 < s5 && s5 < n && cs[s5] == '0') {
        return Err(ParseError);
    }
    let s6 = scan_run(&cs, s5 + 1, true);
    if s6 != n {
        return Err(ParseError);
    }
    let device = match transform_escaped(i.substring_char(0, e1)) {
        Ok((_, d)) => d,
        Err(e) => return Err(e),
    };
    let mount_point = match transform_escaped(i.substring_char(s1, e2)) {
        Ok((_, d)) => d,
        Err(e) => return Err(e),
    };
    let options_tok = i.substring_char(s3, e4);
    proof {
        lemma_run_end_bounds(i@, s3 as int, false);
        assert forall|k: int| 0 <= k < options_tok@.len() implies !is_ws(
            #[trigger] options_tok@[k],
        ) by {
            assert(options_tok@[k] == i@[s3 + k]);
        }
        lemma_run_end_at(options_tok@, 0, options_tok@.len() as int, false);
        assert(options_tok@.take(options_tok@.len() as int) =~= options_tok@);
    }
    let options = match mount_opts(options_tok) {
        Ok((_, o)) => o,
        Err(e) => return Err(e),
    };
    let m = Mount {
        device,
        mount_point,
        file_system_type: String::from_str(i.substring_char(s2, e3)),
        options,
    };
    Ok((i.substring_char(n, n), m))
}

} // verus!
