//! Documents in their two dialects: Markdown with a TOML front matter, and
//! Org with `#+KEY: value` lines. Each splits its source into metadata and a
//! body, and renders the body to HTML with anchored headings.
use vstd::prelude::*;
use crate::metadata::{Metadata, ParseError, toml_outcome_ok, iso_date_of, opt_string_view, opt_date_view, opt_depth_view, parse_date, str_eq};
use crate::strutil::{chars_of, has_at, string_of, sub_vec};
use crate::html::{build_header_links, linked, occurs_at};
use crate::text::{remove_newline_between_cjk, remove_prettier_ignore_preceeding_code_block, reflowed, replaced_from, ignore_marker_before_fence, bare_fence};

verus! {

/// The end of the line that `i` lies on: the first line break at or after
/// `i`, or the end of the text.
pub open spec fn line_end(s: Seq<char>, i: int) -> int
    decreases s.len() - i,
{
    if i < 0 || i >= s.len() || s[i] == '\n' {
        if i < 0 { 0 } else { i }
    } else {
        line_end(s, i + 1)
    }
}

/// The first position at or after `i` that holds no line break.
pub open spec fn skip_breaks(s: Seq<char>, i: int) -> int
    decreases s.len() - i,
{
    if i < 0 || i >= s.len() || s[i] != '\n' {
        i
    } else {
        skip_breaks(s, i + 1)
    }
}

/// The first position at or after `i` that holds no space.
pub open spec fn skip_spaces(s: Seq<char>, i: int) -> int
    decreases s.len() - i,
{
    if i < 0 || i >= s.len() || s[i] != ' ' {
        i
    } else {
        skip_spaces(s, i + 1)
    }
}

/// `b`, moved back over the spaces that end `s[a..b]`.
pub open spec fn trim_spaces_end(s: Seq<char>, a: int, b: int) -> int
    decreases b - a,
{
    if b > a && 0 < b <= s.len() && s[b - 1] == ' ' {
        trim_spaces_end(s, a, b - 1)
    } else {
        b
    }
}

/// How much a leading comment line takes: a first line that opens with `<!--`
/// and closes with `-->`, with the line breaks after it; nothing otherwise.
pub open spec fn leading_comment_len(s: Seq<char>) -> int {
    let e = line_end(s, 0);
    if e < s.len() && e >= 7 && occurs_at(s, 0, "<!--"@) && occurs_at(s, e - 3, "-->"@) {
        skip_breaks(s, e)
    } else {
        0
    }
}

/// A first line `# TITLE` (one or more spaces after `#`, spaces after the
/// title ignored) followed by a line break: the title, and where the text
/// after the line breaks that follow it starts.
pub open spec fn title_line(r: Seq<char>) -> Option<(Seq<char>, int)> {
    let e = line_end(r, 0);
    let a = skip_spaces(r, 1);
    let b = trim_spaces_end(r, a, e);
    if e < r.len() && r.len() >= 2 && r[0] == '#' && r[1] == ' ' && a < b {
        Some((r.subrange(a, b), skip_breaks(r, e)))
    } else {
        None
    }
}

/// The first blank line: the first position at or after `i` where two line
/// breaks follow each other.
pub open spec fn blank_line_from(r: Seq<char>, i: int) -> Option<int>
    decreases r.len() - i,
{
    if i < 0 || i + 1 >= r.len() {
        None
    } else if r[i] == '\n' && r[i + 1] == '\n' {
        Some(i)
    } else {
        blank_line_from(r, i + 1)
    }
}

/// The text before the first blank line, and the text after it (empty where
/// there is no blank line).
pub open spec fn split_at_blank(r: Seq<char>) -> (Seq<char>, Seq<char>) {
    match blank_line_from(r, 0) {
        Some(k) => (r.subrange(0, k), r.subrange(k + 2, r.len() as int)),
        None => (r, Seq::empty()),
    }
}

/// `t` written as the inside of a TOML basic string: `"` and `\` escaped.
pub open spec fn toml_escaped(t: Seq<char>) -> Seq<char>
    decreases t.len(),
{
    if t.len() == 0 {
        Seq::empty()
    } else {
        let c = t.last();
        toml_escaped(t.drop_last()) + if c == '"' || c == '\\' { seq!['\\', c] } else { seq![c] }
    }
}

/// Where a scan for comment markers stands: in plain text, in the rest of a
/// line that holds a marker, or in the line breaks after such a line.
#[derive(Clone, Copy, PartialEq, Eq, Structural)]
pub enum MarkerScan {
    Text,
    Line,
    Breaks,
}

/// `b[i..]` without comment markers: from each `<!--` or `-->` to the end of
/// its line, with the line breaks that follow, is dropped.
pub open spec fn uncommented_from(b: Seq<char>, i: int, st: MarkerScan) -> Seq<char>
    decreases b.len() - i,
{
    if i < 0 || i >= b.len() {
        Seq::empty()
    } else if st == MarkerScan::Line {
        uncommented_from(b, i + 1, if b[i] == '\n' { MarkerScan::Breaks } else { MarkerScan::Line })
    } else if st == MarkerScan::Breaks && b[i] == '\n' {
        uncommented_from(b, i + 1, MarkerScan::Breaks)
    } else if occurs_at(b, i, "<!--"@) || occurs_at(b, i, "-->"@) {
        uncommented_from(b, i + 1, MarkerScan::Line)
    } else {
        seq![b[i]] + uncommented_from(b, i + 1, MarkerScan::Text)
    }
}

/// The front matter and the body of a Markdown source: a leading comment
/// line is dropped; a first line `# TITLE` becomes a `title` entry put ahead
/// of the front matter; the front matter runs to the first blank line, and
/// the body is what follows it.
pub open spec fn markdown_parts(s: Seq<char>) -> (Seq<char>, Seq<char>) {
    let r = s.subrange(leading_comment_len(s), s.len() as int);
    match title_line(r) {
        Some((t, next)) => {
            let (block, body) = split_at_blank(r.subrange(next, r.len() as int));
            ("title = \""@ + toml_escaped(t) + "\"\n"@ + block, body)
        },
        None => split_at_blank(r),
    }
}

/// The front matter of a Markdown source, with its comment markers dropped.
pub open spec fn markdown_front_matter(s: Seq<char>) -> Seq<char> {
    uncommented_from(markdown_parts(s).0, 0, MarkerScan::Text)
}

fn find_line_end(v: &Vec<char>, i: usize) -> (r: usize)
    requires
        i <= v@.len(),
    ensures
        r == line_end(v@, i as int),
        i <= r <= v@.len(),
{
    let mut k = i;
    while k < v.len() && v[k] != '\n'
        invariant
            i <= k <= v@.len(),
            line_end(v@, i as int) == line_end(v@, k as int),
        decreases v.len() - k,
    {
        k = k + 1;
    }
    k
}

fn find_skip_breaks(v: &Vec<char>, i: usize) -> (r: usize)
    requires
        i <= v@.len(),
    ensures
        r == skip_breaks(v@, i as int),
        i <= r <= v@.len(),
{
    let mut k = i;
    while k < v.len() && v[k] == '\n'
        invariant
            i <= k <= v@.len(),
            skip_breaks(v@, i as int) == skip_breaks(v@, k as int),
        decreases v.len() - k,
    {
        k = k + 1;
    }
    k
}

fn find_skip_spaces(v: &Vec<char>, i: usize) -> (r: usize)
    requires
        i <= v@.len(),
    ensures
        r == skip_spaces(v@, i as int),
        i <= r <= v@.len(),
{
    let mut k = i;
    while k < v.len() && v[k] == ' '
        invariant
            i <= k <= v@.len(),
            skip_spaces(v@, i as int) == skip_spaces(v@, k as int),
        decreases v.len() - k,
    {
        k = k + 1;
    }
    k
}

fn find_trim_end(v: &Vec<char>, a: usize, b: usize) -> (r: usize)
    requires
        b <= v@.len(),
    ensures
        r == trim_spaces_end(v@, a as int, b as int),
        r <= b,
        a <= b ==> a <= r,
{
    let mut k = b;
    while k > a && v[k - 1] == ' '
        invariant
            k <= b <= v@.len(),
            a <= b ==> a <= k,
            trim_spaces_end(v@, a as int, b as int) == trim_spaces_end(v@, a as int, k as int),
        decreases k,
    {
        k = k - 1;
    }
    k
}

fn find_blank(v: &Vec<char>, i: usize) -> (r: Option<usize>)
    ensures
        match r {
            Some(k) => blank_line_from(v@, i as int) == Some(k as int) && k + 2 <= v@.len(),
            None => blank_line_from(v@, i as int) is None,
        },
{
    let mut k = i;
    while k < v.len() && v.len() - k > 1
        invariant
            i <= k,
            blank_line_from(v@, i as int) == blank_line_from(v@, k as int),
        decreases v.len() - k,
    {
        if v[k] == '\n' && v[k + 1] == '\n' {
            return Some(k);
        }
        k = k + 1;
    }
    None
}

fn push_toml_escaped(out: &mut String, t: &Vec<char>)
    ensures
        final(out)@ == old(out)@ + toml_escaped(t@),
{
    let ghost start = out@;
    let mut k: usize = 0;
    while k < t.len()
        invariant
            k <= t@.len(),
            out@ == start + toml_escaped(t@.subrange(0, k as int)),
        decreases t.len() - k,
    {
        let c = t[k];
        if c == '"' || c == '\\' {
            out.push('\\');
        }
        out.push(c);
        proof {
            assert(t@.subrange(0, k + 1).drop_last() =~= t@.subrange(0, k as int));
        }
        k = k + 1;
        assert(out@ =~= start + toml_escaped(t@.subrange(0, k as int)));
    }
    assert(t@.subrange(0, t@.len() as int) =~= t@);
}

fn strip_comment_markers(v: &Vec<char>) -> (r: String)
    ensures
        r@ == uncommented_from(v@, 0, MarkerScan::Text),
{
    let open_mark = chars_of("<!--");
    let close_mark = chars_of("-->");
    let mut out = String::new();
    let mut st = MarkerScan::Text;
    let mut i: usize = 0;
    while i < v.len()
        invariant
            open_mark@ == "<!--"@,
            close_mark@ == "-->"@,
            i <= v@.len(),
            out@ + uncommented_from(v@, i as int, st) == uncommented_from(v@, 0, MarkerScan::Text),
        decreases v.len() - i,
    {
        let ghost out0 = out@;
        let ghost st0 = st;
        let c = v[i];
        if st == MarkerScan::Line {
            st = if c == '\n' { MarkerScan::Breaks } else { MarkerScan::Line };
        } else if st == MarkerScan::Breaks && c == '\n' {
        } else if has_at(v, i, &open_mark) || has_at(v, i, &close_mark) {
            st = MarkerScan::Line;
        } else {
            out.push(c);
            st = MarkerScan::Text;
        }
        i = i + 1;
        assert(out@ + uncommented_from(v@, i as int, st) =~= out0 + uncommented_from(v@, i - 1, st0));
    }
    out
}

fn split_blank(r: &Vec<char>) -> (out: (String, String))
    ensures
        out.0@ == split_at_blank(r@).0,
        out.1@ == split_at_blank(r@).1,
{
    let n = r.len();
    match find_blank(r, 0) {
        Some(k) => (string_of(r, 0, k), string_of(r, k + 2, n)),
        None => {
            let all = string_of(r, 0, r.len());
            assert(r@.subrange(0, r@.len() as int) =~= r@);
            (all, String::new())
        },
    }
}

/// Splits a Markdown source into its front matter (comment markers still in
/// it) and its body.
fn split_markdown(s: &str) -> (out: (String, String))
    ensures
        out.0@ == markdown_parts(s@).0,
        out.1@ == markdown_parts(s@).1,
{
    let v = chars_of(s);
    let open_mark = chars_of("<!--");
    let close_mark = chars_of("-->");
    proof {
        reveal_strlit("<!--");
        reveal_strlit("-->");
    }
    let e = find_line_end(&v, 0);
    let c = if e < v.len() && e >= 7 && has_at(&v, 0, &open_mark) && has_at(&v, e - 3, &close_mark) {
        find_skip_breaks(&v, e)
    } else {
        0
    };
    let r = sub_vec(&v, c, v.len());
    let e2 = find_line_end(&r, 0);
    if e2 < r.len() && r.len() >= 2 && r[0] == '#' && r[1] == ' ' {
        let a = find_skip_spaces(&r, 1);
        let b = find_trim_end(&r, a, e2);
        if a < b {
            let title = sub_vec(&r, a, b);
            let next = find_skip_breaks(&r, e2);
            let rest = sub_vec(&r, next, r.len());
            let (block, body) = split_blank(&rest);
            let mut front = String::new();
            front.append("title = \"");
            push_toml_escaped(&mut front, &title);
            front.append("\"\n");
            front.append(block.as_str());
            proof {
                assert(front@ =~= markdown_parts(s@).0);
            }
            return (front, body);
        }
    }
    split_blank(&r)
}

/// What reading a Markdown source gives: the metadata its front matter holds
/// and the body, or why the front matter could not be read.
pub open spec fn markdown_outcome_ok(r: Result<Markdown, ParseError>, s: Seq<char>) -> bool {
    let fm = markdown_front_matter(s);
    match r {
        Ok(md) => toml_outcome_ok(Ok(md.metadata), fm) && md.content@ == markdown_parts(s).1,
        Err(e) => toml_outcome_ok(Err(e), fm),
    }
}

/// A Markdown document: its metadata and its body.
#[derive(PartialEq, Eq, Debug, Clone)]
pub struct Markdown {
    pub metadata: Metadata,
    pub content: String,
}

impl Markdown {
    /// Splits a Markdown source into metadata and body.
    pub fn parse(s: &str) -> (r: Result<Markdown, ParseError>)
        ensures
            markdown_outcome_ok(r, s@),
    {
        let (front, body) = split_markdown(s);
        let fv = chars_of(front.as_str());
        let clean = strip_comment_markers(&fv);
        match Metadata::from_toml(clean.as_str()) {
            Ok(metadata) => Ok(Markdown { metadata, content: body }),
            Err(e) => Err(e),
        }
    }
}

impl std::str::FromStr for Markdown {
    type Err = ParseError;

    fn from_str(s: &str) -> Result<Markdown, ParseError> {
        Markdown::parse(s)
    }
}

proof fn lemma_line_end(s: Seq<char>, i: int)
    ensures
        0 <= i <= s.len() ==> i <= line_end(s, i) <= s.len(),
        0 <= i <= s.len() && line_end(s, i) < s.len() ==> s[line_end(s, i)] == '\n',
    decreases s.len() - i,
{
    if 0 <= i < s.len() && s[i] != '\n' {
        lemma_line_end(s, i + 1);
    }
}

/// The lines of `s[i..]`: split at line breaks, a carriage return before a
/// line break dropped, and no empty line after a final line break.
pub open spec fn lines_from(s: Seq<char>, i: int) -> Seq<Seq<char>>
    decreases s.len() - i
    via lines_from_decreases
{
    if i < 0 || i >= s.len() {
        Seq::empty()
    } else {
        let e = line_end(s, i);
        let line = if e < s.len() && e > i && s[e - 1] == '\r' {
            s.subrange(i, e - 1)
        } else {
            s.subrange(i, e)
        };
        seq![line] + if e < s.len() { lines_from(s, e + 1) } else { Seq::empty() }
    }
}

#[via_fn]
proof fn lines_from_decreases(s: Seq<char>, i: int) {
    lemma_line_end(s, i);
}

/// Lines joined with a line break between each two.
pub open spec fn joined(ls: Seq<Seq<char>>) -> Seq<char>
    decreases ls.len(),
{
    if ls.len() == 0 {
        Seq::empty()
    } else if ls.len() == 1 {
        ls[0]
    } else {
        joined(ls.drop_last()) + seq!['\n'] + ls.last()
    }
}

pub open spec fn lines_view(v: Seq<Vec<char>>) -> Seq<Seq<char>> {
    v.map_values(|l: Vec<char>| l@)
}

fn split_lines(v: &Vec<char>) -> (r: Vec<Vec<char>>)
    ensures
        lines_view(r@) == lines_from(v@, 0),
{
    let mut out: Vec<Vec<char>> = Vec::new();
    let mut i: usize = 0;
    while i < v.len()
        invariant
            i <= v@.len(),
            lines_view(out@) + lines_from(v@, i as int) == lines_from(v@, 0),
        decreases v.len() - i,
    {
        let ghost out0 = lines_view(out@);
        let ghost i0 = i as int;
        let e = find_line_end(v, i);
        proof {
            lemma_line_end(v@, i as int);
        }
        let line = if e < v.len() && e > i && v[e - 1] == '\r' {
            sub_vec(v, i, e - 1)
        } else {
            sub_vec(v, i, e)
        };
        out.push(line);
        i = if e < v.len() { e + 1 } else { e };
        assert(lines_view(out@) =~= out0.push(line@));
        assert(lines_view(out@) + lines_from(v@, i as int) =~= out0 + lines_from(v@, i0));
    }
    out
}

fn join_lines(ls: &Vec<Vec<char>>, from: usize) -> (r: String)
    requires
        from <= ls@.len(),
    ensures
        r@ == joined(lines_view(ls@).subrange(from as int, ls@.len() as int)),
{
    let mut out = String::new();
    let mut k: usize = from;
    while k < ls.len()
        invariant
            from <= k <= ls@.len(),
            out@ == joined(lines_view(ls@).subrange(from as int, k as int)),
        decreases ls.len() - k,
    {
        let ghost before = lines_view(ls@).subrange(from as int, k as int);
        if k > from {
            out.push('\n');
        }
        let line = &ls[k];
        let piece = string_of(line, 0, line.len());
        out.append(piece.as_str());
        k = k + 1;
        proof {
            let after = lines_view(ls@).subrange(from as int, k as int);
            assert(after.drop_last() =~= before);
            assert(line@.subrange(0, line@.len() as int) =~= line@);
            assert(out@ =~= joined(after));
        }
    }
    out
}

/// A character with the Unicode `White_Space` property.
pub open spec fn is_space_char(c: char) -> bool {
    let u = c as u32;
    (0x9 <= u && u <= 0xd) || u == 0x20 || u == 0x85 || u == 0xa0 || u == 0x1680 || (0x2000 <= u && u
        <= 0x200a) || u == 0x2028 || u == 0x2029 || u == 0x202f || u == 0x205f || u == 0x3000
}

fn space_char(c: char) -> (r: bool)
    ensures
        r == is_space_char(c),
{
    let u = c as u32;
    (0x9 <= u && u <= 0xd) || u == 0x20 || u == 0x85 || u == 0xa0 || u == 0x1680 || (0x2000 <= u && u
        <= 0x200a) || u == 0x2028 || u == 0x2029 || u == 0x202f || u == 0x205f || u == 0x3000
}

pub open spec fn skip_white(s: Seq<char>, i: int) -> int
    decreases s.len() - i,
{
    if i < 0 || i >= s.len() || !is_space_char(s[i]) {
        i
    } else {
        skip_white(s, i + 1)
    }
}

pub open spec fn trim_white_end(s: Seq<char>, a: int, b: int) -> int
    decreases b - a,
{
    if b > a && 0 < b <= s.len() && is_space_char(s[b - 1]) {
        trim_white_end(s, a, b - 1)
    } else {
        b
    }
}

/// `s` without the white space that begins and ends it.
pub open spec fn trimmed(s: Seq<char>) -> Seq<char> {
    let a = skip_white(s, 0);
    s.subrange(a, trim_white_end(s, a, s.len() as int))
}

fn trim_chars(v: &Vec<char>) -> (r: String)
    ensures
        r@ == trimmed(v@),
{
    let mut a: usize = 0;
    while a < v.len() && space_char(v[a])
        invariant
            a <= v@.len(),
            skip_white(v@, 0) == skip_white(v@, a as int),
        decreases v.len() - a,
    {
        a = a + 1;
    }
    let mut b: usize = v.len();
    while b > a && space_char(v[b - 1])
        invariant
            a <= b <= v@.len(),
            trim_white_end(v@, a as int, v@.len() as int) == trim_white_end(v@, a as int, b as int),
        decreases b,
    {
        b = b - 1;
    }
    string_of(v, a, b)
}

/// The upper-case form of a text under Unicode's case mappings.
pub uninterp spec fn upper_of(s: Seq<char>) -> Seq<char>;

/// Relies on `str::to_uppercase`: the upper-case form of `s`, which depends on
/// its characters alone.
#[verifier::external_body]
fn to_upper(s: &str) -> (r: String)
    ensures
        r@ == upper_of(s@),
{
    s.to_uppercase()
}

/// A header line of an Org document: it begins with `#+`.
pub open spec fn is_org_header(l: Seq<char>) -> bool {
    l.len() >= 2 && l[0] == '#' && l[1] == '+'
}

/// The first `:` in `s` at or after `i`.
pub open spec fn colon_from(s: Seq<char>, i: int) -> Option<int>
    decreases s.len() - i,
{
    if i < 0 || i >= s.len() {
        None
    } else if s[i] == ':' {
        Some(i)
    } else {
        colon_from(s, i + 1)
    }
}

/// The keyword (trimmed, in upper case) and the value (trimmed) of a header
/// line `#+KEY: value`; none for a line without a `:`.
pub open spec fn org_entry(l: Seq<char>) -> Option<(Seq<char>, Seq<char>)> {
    if is_org_header(l) {
        let rest = l.subrange(2, l.len() as int);
        match colon_from(rest, 0) {
            Some(c) => Some(
                (upper_of(trimmed(rest.subrange(0, c))), trimmed(rest.subrange(c + 1, rest.len() as int))),
            ),
            None => None,
        }
    } else {
        None
    }
}

/// The number of header lines that open `ls`, from `k` on.
pub open spec fn header_count(ls: Seq<Seq<char>>, k: int) -> int
    decreases ls.len() - k,
{
    if k < 0 || k >= ls.len() || !is_org_header(ls[k]) {
        k
    } else {
        header_count(ls, k + 1)
    }
}

/// The value the last of the header lines `hs` with the keyword `key` gives.
pub open spec fn org_value(hs: Seq<Seq<char>>, key: Seq<char>) -> Option<Seq<char>>
    decreases hs.len(),
{
    if hs.len() == 0 {
        None
    } else {
        match org_entry(hs.last()) {
            Some((k, v)) => if k == key { Some(v) } else { org_value(hs.drop_last(), key) },
            None => org_value(hs.drop_last(), key),
        }
    }
}

pub open spec fn org_flag(hs: Seq<Seq<char>>, key: Seq<char>) -> Option<bool> {
    match org_value(hs, key) {
        Some(v) => Some(v == "true"@),
        None => None,
    }
}

/// The metadata that the header lines `hs` give: the values of `TITLE`,
/// `AUTHOR`, `SLUG` and `TEMPLATE` as they stand, of `DATE` as a date (none
/// where it names none), of `DRAFT`, `PAGE` and `MATH` true exactly where
/// they read `true`; other keywords are ignored.
pub open spec fn org_metadata(m: Metadata, hs: Seq<Seq<char>>) -> bool {
    &&& m.title@ == (match org_value(hs, "TITLE"@) {
        Some(t) => t,
        None => Seq::empty(),
    })
    &&& opt_string_view(m.author) == org_value(hs, "AUTHOR"@)
    &&& opt_date_view(m.date) == (match org_value(hs, "DATE"@) {
        Some(v) => iso_date_of(v),
        None => None,
    })
    &&& m.update_date is None
    &&& opt_string_view(m.slug) == org_value(hs, "SLUG"@)
    &&& m.draft == org_flag(hs, "DRAFT"@)
    &&& opt_string_view(m.template) == org_value(hs, "TEMPLATE"@)
    &&& m.page == org_flag(hs, "PAGE"@)
    &&& m.math == org_flag(hs, "MATH"@)
    &&& m.toc == org_flag(hs, "TOC"@)
    &&& opt_depth_view(m.toc_depth) == (match org_value(hs, "TOC_DEPTH"@) {
        Some(v) => org_digit(v),
        None => None,
    })
}

/// The depth a `TOC_DEPTH` value gives: a single digit from 1 to 9.
pub open spec fn org_digit(v: Seq<char>) -> Option<int> {
    if v.len() == 1 && '1' <= v[0] && v[0] <= '9' {
        Some((v[0] as u32) - 48)
    } else {
        None
    }
}

/// `b` is `a` with what the header entry `key: value` (the keyword in upper
/// case) sets: `TITLE`, `AUTHOR`, `SLUG` and `TEMPLATE` take the value as it
/// stands, `DATE` the date it names (none where it names none), `DRAFT`,
/// `PAGE`, `MATH` and `TOC` whether it reads `true`, `TOC_DEPTH` the digit it
/// holds (none otherwise); any other keyword changes nothing.
pub open spec fn org_entry_applied(a: Metadata, b: Metadata, key: Seq<char>, value: Seq<char>) -> bool {
    &&& b.title@ == (if key == "TITLE"@ { value } else { a.title@ })
    &&& opt_string_view(b.author) == (if key == "AUTHOR"@ { Some(value) } else { opt_string_view(a.author) })
    &&& opt_date_view(b.date) == (if key == "DATE"@ { iso_date_of(value) } else { opt_date_view(a.date) })
    &&& b.update_date == a.update_date
    &&& opt_string_view(b.slug) == (if key == "SLUG"@ { Some(value) } else { opt_string_view(a.slug) })
    &&& b.draft == (if key == "DRAFT"@ { Some(value == "true"@) } else { a.draft })
    &&& opt_string_view(b.template) == (if key == "TEMPLATE"@ { Some(value) } else { opt_string_view(a.template) })
    &&& b.page == (if key == "PAGE"@ { Some(value == "true"@) } else { a.page })
    &&& b.math == (if key == "MATH"@ { Some(value == "true"@) } else { a.math })
    &&& b.toc == (if key == "TOC"@ { Some(value == "true"@) } else { a.toc })
    &&& opt_depth_view(b.toc_depth) == (if key == "TOC_DEPTH"@ { org_digit(value) } else { opt_depth_view(
        a.toc_depth,
    ) })
}

fn find_colon(v: &Vec<char>, i: usize) -> (r: Option<usize>)
    ensures
        match r {
            Some(c) => colon_from(v@, i as int) == Some(c as int) && i <= c < v@.len(),
            None => colon_from(v@, i as int) is None,
        },
{
    let mut k = i;
    while k < v.len()
        invariant
            i <= k,
            colon_from(v@, i as int) == colon_from(v@, k as int),
        decreases v.len() - k,
    {
        if v[k] == ':' {
            return Some(k);
        }
        k = k + 1;
    }
    None
}

fn org_line_entry(l: &Vec<char>) -> (r: Option<(String, String)>)
    ensures
        match r {
            Some((k, v)) => org_entry(l@) == Some((k@, v@)),
            None => org_entry(l@) is None,
        },
{
    if !(l.len() >= 2 && l[0] == '#' && l[1] == '+') {
        return None;
    }
    let rest = sub_vec(l, 2, l.len());
    match find_colon(&rest, 0) {
        Some(c) => {
            let key_part = sub_vec(&rest, 0, c);
            let value_part = sub_vec(&rest, c + 1, rest.len());
            let key = trim_chars(&key_part);
            let upper = to_upper(key.as_str());
            let value = trim_chars(&value_part);
            Some((upper, value))
        },
        None => None,
    }
}

proof fn lemma_org_value_push(hs: Seq<Seq<char>>, l: Seq<char>, key: Seq<char>)
    ensures
        org_value(hs.push(l), key) == match org_entry(l) {
            Some((k, v)) => if k == key { Some(v) } else { org_value(hs, key) },
            None => org_value(hs, key),
        },
{
    assert(hs.push(l).drop_last() =~= hs);
}

/// Gives `m` what the header entry `key: value` sets, `key` being the
/// keyword already in upper case.
pub fn apply_org_entry(m: &mut Metadata, key: &str, value: &str)
    ensures
        org_entry_applied(*old(m), *final(m), key@, value@),
{
    if str_eq(key, "TITLE") {
        m.title = String::from_str(value);
    }
    if str_eq(key, "AUTHOR") {
        m.author = Some(String::from_str(value));
    }
    if str_eq(key, "DATE") {
        m.date = parse_date(value);
    }
    if str_eq(key, "SLUG") {
        m.slug = Some(String::from_str(value));
    }
    if str_eq(key, "DRAFT") {
        m.draft = Some(str_eq(value, "true"));
    }
    if str_eq(key, "TEMPLATE") {
        m.template = Some(String::from_str(value));
    }
    if str_eq(key, "PAGE") {
        m.page = Some(str_eq(value, "true"));
    }
    if str_eq(key, "MATH") {
        m.math = Some(str_eq(value, "true"));
    }
    if str_eq(key, "TOC") {
        m.toc = Some(str_eq(value, "true"));
    }
    if str_eq(key, "TOC_DEPTH") {
        let v = chars_of(value);
        m.toc_depth = if v.len() == 1 && '1' <= v[0] && v[0] <= '9' {
            Some(((v[0] as u32) - 48) as usize)
        } else {
            None
        };
    }
}

/// Gives `m` what the header line `l` sets.
fn apply_org_line(m: &mut Metadata, l: &Vec<char>, Ghost(hs): Ghost<Seq<Seq<char>>>)
    requires
        org_metadata(*old(m), hs),
    ensures
        org_metadata(*final(m), hs.push(l@)),
{
    proof {
        lemma_org_value_push(hs, l@, "TITLE"@);
        lemma_org_value_push(hs, l@, "AUTHOR"@);
        lemma_org_value_push(hs, l@, "DATE"@);
        lemma_org_value_push(hs, l@, "SLUG"@);
        lemma_org_value_push(hs, l@, "DRAFT"@);
        lemma_org_value_push(hs, l@, "TEMPLATE"@);
        lemma_org_value_push(hs, l@, "PAGE"@);
        lemma_org_value_push(hs, l@, "MATH"@);
        lemma_org_value_push(hs, l@, "TOC"@);
        lemma_org_value_push(hs, l@, "TOC_DEPTH"@);
    }
    if let Some((key, value)) = org_line_entry(l) {
        apply_org_entry(m, key.as_str(), value.as_str());
    }
}

/// An Org document: its metadata and its body.
#[derive(PartialEq, Eq, Debug, Clone)]
pub struct Org {
    pub metadata: Metadata,
    pub content: String,
}

/// Where the body of an Org document starts among its lines: after the
/// header lines, and after the empty line that ends them if there is one.
pub open spec fn org_body_start(ls: Seq<Seq<char>>) -> int {
    let n = header_count(ls, 0);
    if n < ls.len() && ls[n].len() == 0 { n + 1 } else { n }
}

/// Whether the header lines give a title that is not empty.
pub open spec fn org_has_title(hs: Seq<Seq<char>>) -> bool {
    org_value(hs, "TITLE"@) matches Some(t) && t.len() > 0
}

/// What reading an Org source gives: the header lines that open it (lines
/// beginning with `#+`) make the metadata, and the lines of the body, joined
/// by line breaks, the body; a source whose header gives no title (or an
/// empty one) is refused.
pub open spec fn org_outcome_ok(r: Result<Org, ParseError>, s: Seq<char>) -> bool {
    let ls = lines_from(s, 0);
    match r {
        Ok(o) => org_has_title(ls.subrange(0, header_count(ls, 0))) && org_parsed(o, s),
        Err(e) => !org_has_title(ls.subrange(0, header_count(ls, 0))) && e is MissingTitle,
    }
}

/// The metadata and body that an Org source gives (see `org_outcome_ok`).
pub open spec fn org_parsed(o: Org, s: Seq<char>) -> bool {
    let ls = lines_from(s, 0);
    &&& org_metadata(o.metadata, ls.subrange(0, header_count(ls, 0)))
    &&& o.content@ == joined(ls.subrange(org_body_start(ls), ls.len() as int))
}

proof fn lemma_header_count(ls: Seq<Seq<char>>, k: int)
    requires
        0 <= k <= ls.len(),
    ensures
        k <= header_count(ls, k) <= ls.len(),
    decreases ls.len() - k,
{
    if k < ls.len() && is_org_header(ls[k]) {
        lemma_header_count(ls, k + 1);
    }
}

impl Org {
    /// Splits an Org source into metadata and body.
    pub fn parse(s: &str) -> (r: Result<Org, ParseError>)
        ensures
            org_outcome_ok(r, s@),
    {
        let v = chars_of(s);
        let lines = split_lines(&v);
        let ghost ls = lines_from(s@, 0);
        let mut m = Metadata::default();
        let mut k: usize = 0;
        proof {
            assert(ls.subrange(0, 0) =~= Seq::<Seq<char>>::empty());
            assert(lines_view(lines@).len() == lines@.len());
        }
        while k < lines.len() && lines[k].len() >= 2 && lines[k][0] == '#' && lines[k][1] == '+'
            invariant
                ls == lines_view(lines@),
                k <= lines@.len(),
                header_count(ls, 0) == header_count(ls, k as int),
                org_metadata(m, ls.subrange(0, k as int)),
            decreases lines.len() - k,
        {
            proof {
                assert(ls[k as int] == lines@[k as int]@);
                assert(ls.subrange(0, k + 1) =~= ls.subrange(0, k as int).push(lines@[k as int]@));
            }
            apply_org_line(&mut m, &lines[k], Ghost(ls.subrange(0, k as int)));
            k = k + 1;
        }
        proof {
            assert(k < ls.len() ==> ls[k as int] == lines@[k as int]@);
        }
        let start = if k < lines.len() && lines[k].len() == 0 { k + 1 } else { k };
        if m.title.as_str().is_empty() {
            return Err(ParseError::MissingTitle);
        }
        let content = join_lines(&lines, start);
        Ok(Org { metadata: m, content })
    }
}

impl std::str::FromStr for Org {
    type Err = ParseError;

    fn from_str(s: &str) -> Result<Org, ParseError> {
        Org::parse(s)
    }
}

/// The HTML that CommonMark (with footnotes, strikethrough, tables and task
/// lists) gives for a Markdown text.
pub uninterp spec fn markdown_html_of(s: Seq<char>) -> Seq<char>;

/// Relies on pulldown_cmark's `Parser::new_ext` and `html::push_html`, with
/// footnotes, strikethrough, tables and task lists enabled: the HTML for the
/// Markdown text `s`, which depends on `s` alone.
#[verifier::external_body]
fn markdown_to_html(s: &str) -> (r: String)
    ensures
        r@ == markdown_html_of(s@),
{
    let mut opts = pulldown_cmark::Options::empty();
    opts.insert(pulldown_cmark::Options::ENABLE_FOOTNOTES);
    opts.insert(pulldown_cmark::Options::ENABLE_STRIKETHROUGH);
    opts.insert(pulldown_cmark::Options::ENABLE_TABLES);
    opts.insert(pulldown_cmark::Options::ENABLE_TASKLISTS);
    let mut html = String::new();
    pulldown_cmark::html::push_html(&mut html, pulldown_cmark::Parser::new_ext(s, opts));
    html
}

/// The HTML that orgize's default export gives for an Org text.
pub uninterp spec fn org_html_of(s: Seq<char>) -> Seq<char>;

/// Relies on orgize's `Org::parse` and `Org::write_html` with the default
/// handler: the HTML for the Org text `s`, which depends on `s` alone (empty
/// should the export fail).
#[verifier::external_body]
fn org_to_html(s: &str) -> (r: String)
    ensures
        r@ == org_html_of(s@),
{
    let mut out: Vec<u8> = Vec::new();
    match orgize::Org::parse(s).write_html(&mut out) {
        Ok(()) => String::from_utf8(out).unwrap_or_default(),
        Err(_) => String::new(),
    }
}

/// A Markdown body as it goes to the renderer: wraps after wide characters
/// joined, formatter markers before code fences removed.
pub open spec fn markdown_prepared(content: Seq<char>) -> Seq<char> {
    replaced_from(reflowed(content), 0, ignore_marker_before_fence(), bare_fence())
}

impl Markdown {
    /// The body prepared for rendering (see `markdown_prepared`).
    pub fn pre_process_content(&self) -> (r: String)
        ensures
            r@ == markdown_prepared(self.content@),
    {
        let s = remove_newline_between_cjk(self.content.as_str());
        remove_prettier_ignore_preceeding_code_block(s.as_str())
    }

    /// Anchors the headings of the HTML the renderer gave.
    pub fn post_process_markdown_html(html: &str) -> (r: String)
        ensures
            r@ == linked(html@),
    {
        build_header_links(html)
    }

    /// The body as HTML, with self-linking headings.
    pub fn render(&self) -> (r: String)
        ensures
            r@ == linked(markdown_html_of(markdown_prepared(self.content@))),
    {
        let content = self.pre_process_content();
        let html = markdown_to_html(content.as_str());
        Markdown::post_process_markdown_html(html.as_str())
    }
}

impl Org {
    /// The body as HTML, with self-linking headings.
    pub fn render(&self) -> (r: String)
        ensures
            r@ == linked(org_html_of(reflowed(self.content@))),
    {
        let s = remove_newline_between_cjk(self.content.as_str());
        let html = org_to_html(s.as_str());
        build_header_links(html.as_str())
    }
}

} // verus!
