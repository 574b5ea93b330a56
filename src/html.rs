//! Heading anchors: identifiers derived from heading text, de-duplicated per
//! document, and headings rewritten into self-linking anchors; and the table
//! of contents built from the rewritten headings.
use vstd::prelude::*;
use crate::strutil::{chars_of, has_at, string_of};

verus! {

/// Whether `p` occurs in `s` at position `i`.
pub open spec fn occurs_at(s: Seq<char>, i: int, p: Seq<char>) -> bool {
    0 <= i && i + p.len() <= s.len() && s.subrange(i, i + p.len()) == p
}

/// `s[i..]` with the entities `&lt;`, `&gt;`, `&amp;`, `&#39;` and `&quot;`
/// decoded to the characters they stand for.
pub open spec fn decoded_from(s: Seq<char>, i: int) -> Seq<char>
    decreases s.len() - i,
{
    if i < 0 || i >= s.len() {
        Seq::empty()
    } else if i + 4 <= s.len() && occurs_at(s, i, "&lt;"@) {
        seq!['<'] + decoded_from(s, i + 4)
    } else if i + 4 <= s.len() && occurs_at(s, i, "&gt;"@) {
        seq!['>'] + decoded_from(s, i + 4)
    } else if i + 5 <= s.len() && occurs_at(s, i, "&amp;"@) {
        seq!['&'] + decoded_from(s, i + 5)
    } else if i + 5 <= s.len() && occurs_at(s, i, "&#39;"@) {
        seq!['\''] + decoded_from(s, i + 5)
    } else if i + 6 <= s.len() && occurs_at(s, i, "&quot;"@) {
        seq!['"'] + decoded_from(s, i + 6)
    } else {
        seq![s[i]] + decoded_from(s, i + 1)
    }
}

/// `s[i..]` without markup tags: everything from a `<` up to and including
/// the next `>` is dropped (`inside` says whether a tag is open at `i`).
pub open spec fn untagged_from(s: Seq<char>, i: int, inside: bool) -> Seq<char>
    decreases s.len() - i,
{
    if i < 0 || i >= s.len() {
        Seq::empty()
    } else if inside {
        untagged_from(s, i + 1, s[i] != '>')
    } else if s[i] == '<' {
        untagged_from(s, i + 1, true)
    } else {
        seq![s[i]] + untagged_from(s, i + 1, false)
    }
}

pub open spec fn is_ascii_alnum(c: char) -> bool {
    ('a' <= c && c <= 'z') || ('A' <= c && c <= 'Z') || ('0' <= c && c <= '9')
}

/// An ASCII letter or digit in lower case; any other character becomes a space.
pub open spec fn id_char(c: char) -> char {
    if 'A' <= c && c <= 'Z' {
        ((c as u8) + 32) as char
    } else if is_ascii_alnum(c) {
        c
    } else {
        ' '
    }
}

/// The words of `s[i..]` (runs of characters other than a space) joined by
/// single hyphens; `started` says whether a word was already emitted and
/// `gap` whether spaces followed it.
pub open spec fn hyphenated_from(s: Seq<char>, i: int, started: bool, gap: bool) -> Seq<char>
    decreases s.len() - i,
{
    if i < 0 || i >= s.len() {
        Seq::empty()
    } else if s[i] == ' ' {
        hyphenated_from(s, i + 1, started, started)
    } else {
        (if gap { seq!['-'] } else { Seq::empty() }) + seq![s[i]] + hyphenated_from(s, i + 1, true, false)
    }
}

/// The identifier derived from a heading's text: entities decoded, tags
/// stripped, letters and digits lower-cased, every other character a
/// separator, words joined by hyphens; `a` when no word is left.
pub open spec fn id_of_title(t: Seq<char>) -> Seq<char> {
    let words = hyphenated_from(
        untagged_from(decoded_from(t, 0), 0, false).map_values(|c: char| id_char(c)),
        0,
        false,
        false,
    );
    if words.len() == 0 { seq!['a'] } else { words }
}

fn decode_entities(v: &Vec<char>) -> (r: Vec<char>)
    ensures
        r@ == decoded_from(v@, 0),
{
    let lt = chars_of("&lt;");
    let gt = chars_of("&gt;");
    let amp = chars_of("&amp;");
    let apos = chars_of("&#39;");
    let quot = chars_of("&quot;");
    proof {
        reveal_strlit("&lt;");
        reveal_strlit("&gt;");
        reveal_strlit("&amp;");
        reveal_strlit("&#39;");
        reveal_strlit("&quot;");
    }
    let mut out: Vec<char> = Vec::new();
    let mut i: usize = 0;
    while i < v.len()
        invariant
            i <= v@.len(),
            lt@ == "&lt;"@, gt@ == "&gt;"@, amp@ == "&amp;"@, apos@ == "&#39;"@, quot@ == "&quot;"@,
            lt@.len() == 4, gt@.len() == 4, amp@.len() == 5, apos@.len() == 5, quot@.len() == 6,
            out@ + decoded_from(v@, i as int) == decoded_from(v@, 0),
        decreases v.len() - i,
    {
        let ghost out0 = out@;
        let ghost i0 = i as int;
        if has_at(v, i, &lt) {
            out.push('<');
            i = i + 4;
        } else if has_at(v, i, &gt) {
            out.push('>');
            i = i + 4;
        } else if has_at(v, i, &amp) {
            out.push('&');
            i = i + 5;
        } else if has_at(v, i, &apos) {
            out.push('\'');
            i = i + 5;
        } else if has_at(v, i, &quot) {
            out.push('"');
            i = i + 6;
        } else {
            out.push(v[i]);
            i = i + 1;
        }
        assert(out@ + decoded_from(v@, i as int) =~= out0 + decoded_from(v@, i0));
    }
    out
}

fn strip_tags(v: &Vec<char>) -> (r: Vec<char>)
    ensures
        r@ == untagged_from(v@, 0, false),
{
    let mut out: Vec<char> = Vec::new();
    let mut inside = false;
    let mut i: usize = 0;
    while i < v.len()
        invariant
            i <= v@.len(),
            out@ + untagged_from(v@, i as int, inside) == untagged_from(v@, 0, false),
        decreases v.len() - i,
    {
        let ghost out0 = out@;
        let ghost inside0 = inside;
        let c = v[i];
        if inside {
            inside = c != '>';
        } else if c == '<' {
            inside = true;
        } else {
            out.push(c);
        }
        i = i + 1;
        assert(out@ + untagged_from(v@, i as int, inside) =~= out0 + untagged_from(v@, i - 1, inside0));
    }
    out
}

fn to_id_char(c: char) -> (r: char)
    ensures
        r == id_char(c),
{
    if 'A' <= c && c <= 'Z' {
        ((c as u8) + 32) as char
    } else if ('a' <= c && c <= 'z') || ('0' <= c && c <= '9') {
        c
    } else {
        ' '
    }
}

fn map_id_chars(v: &Vec<char>) -> (r: Vec<char>)
    ensures
        r@ == v@.map_values(|c: char| id_char(c)),
{
    let mut out: Vec<char> = Vec::new();
    let mut i: usize = 0;
    while i < v.len()
        invariant
            i <= v@.len(),
            out@ == v@.subrange(0, i as int).map_values(|c: char| id_char(c)),
        decreases v.len() - i,
    {
        out.push(to_id_char(v[i]));
        i = i + 1;
        assert(out@ =~= v@.subrange(0, i as int).map_values(|c: char| id_char(c)));
    }
    assert(v@.subrange(0, v@.len() as int) =~= v@);
    out
}

fn hyphenate(v: &Vec<char>) -> (r: Vec<char>)
    ensures
        r@ == hyphenated_from(v@, 0, false, false),
{
    let mut out: Vec<char> = Vec::new();
    let mut started = false;
    let mut gap = false;
    let mut i: usize = 0;
    while i < v.len()
        invariant
            i <= v@.len(),
            out@ + hyphenated_from(v@, i as int, started, gap) == hyphenated_from(v@, 0, false, false),
        decreases v.len() - i,
    {
        let ghost out0 = out@;
        let ghost started0 = started;
        let ghost gap0 = gap;
        let c = v[i];
        if c == ' ' {
            gap = started;
        } else {
            if gap {
                out.push('-');
            }
            out.push(c);
            started = true;
            gap = false;
        }
        i = i + 1;
        assert(out@ + hyphenated_from(v@, i as int, started, gap) =~= out0 + hyphenated_from(v@, i - 1, started0, gap0));
    }
    out
}

/// The identifier derived from a heading's text (see `id_of_title`).
pub fn id_from_title(title: &str) -> (r: String)
    ensures
        r@ == id_of_title(title@),
{
    let v = chars_of(title);
    let decoded = decode_entities(&v);
    let bare = strip_tags(&decoded);
    let mapped = map_id_chars(&bare);
    let words = hyphenate(&mapped);
    if words.len() == 0 {
        let mut r = String::new();
        r.push('a');
        proof {
            assert(r@ =~= seq!['a']);
        }
        r
    } else {
        string_of(&words, 0, words.len())
    }
}

/// The decimal digits of `n`.
pub open spec fn decimal(n: nat) -> Seq<char>
    decreases n,
{
    if n < 10 {
        seq![digit_char(n)]
    } else {
        decimal(n / 10).push(digit_char(n % 10))
    }
}

pub open spec fn digit_char(d: nat) -> char {
    ((d % 10) as u8 + 48u8) as char
}

fn push_decimal(out: &mut String, n: usize)
    ensures
        final(out)@ == old(out)@ + decimal(n as nat),
    decreases n,
{
    if n >= 10 {
        push_decimal(out, n / 10);
    }
    out.push(((n % 10) as u8 + 48u8) as char);
    proof {
        assert(final(out)@ =~= old(out)@ + decimal(n as nat));
    }
}

/// How many times `x` occurs in `seen`.
pub open spec fn occurrences(seen: Seq<Seq<char>>, x: Seq<char>) -> nat
    decreases seen.len(),
{
    if seen.len() == 0 {
        0
    } else {
        occurrences(seen.drop_last(), x) + if seen.last() == x { 1nat } else { 0nat }
    }
}

/// The identifiers a document's headings have asked for so far, in document
/// order. It belongs to one document: each rewrite starts a fresh one.
pub struct IdCounter {
    seen: Vec<String>,
}

impl View for IdCounter {
    type V = Seq<Seq<char>>;

    closed spec fn view(&self) -> Seq<Seq<char>> {
        self.seen@.map_values(|s: String| s@)
    }
}

impl IdCounter {
    pub fn new() -> (r: IdCounter)
        ensures
            r@ == Seq::<Seq<char>>::empty(),
    {
        let r = IdCounter { seen: Vec::new() };
        proof {
            assert(r@ =~= Seq::<Seq<char>>::empty());
        }
        r
    }

    /// How many times `id` was asked for before.
    pub fn count(&self, id: &String) -> (r: usize)
        ensures
            r == occurrences(self@, id@),
    {
        let mut n: usize = 0;
        let mut k: usize = 0;
        while k < self.seen.len()
            invariant
                k <= self.seen@.len(),
                n <= k,
                n == occurrences(self@.subrange(0, k as int), id@),
            decreases self.seen.len() - k,
        {
            proof {
                assert(self@.subrange(0, k + 1).drop_last() =~= self@.subrange(0, k as int));
            }
            if self.seen[k] == *id {
                n = n + 1;
            }
            k = k + 1;
        }
        proof {
            assert(self@.subrange(0, k as int) =~= self@);
        }
        n
    }

    /// Records that `id` was asked for once more.
    pub fn record(&mut self, id: String)
        ensures
            final(self)@ == old(self)@.push(id@),
    {
        self.seen.push(id);
        proof {
            assert(final(self)@ =~= old(self)@.push(id@));
        }
    }
}

pub open spec fn opt_view(id: Option<&str>) -> Option<Seq<char>> {
    match id {
        Some(d) => Some(d@),
        None => None,
    }
}

/// The identifier a heading asks for: the one it declares, or else the one
/// derived from its text.
pub open spec fn base_id(title: Seq<char>, declared: Option<Seq<char>>) -> Seq<char> {
    match declared {
        Some(d) => d,
        None => id_of_title(title),
    }
}

/// The identifier a heading receives: the one it asks for the first time,
/// with `-N` appended the (N+1)-th time.
pub open spec fn unique_id(base: Seq<char>, seen: Seq<Seq<char>>) -> Seq<char> {
    let n = occurrences(seen, base);
    if n == 0 {
        base
    } else {
        base + seq!['-'] + decimal(n)
    }
}

/// A self-linking heading.
pub open spec fn heading_html(level: nat, id: Seq<char>, title: Seq<char>) -> Seq<char> {
    "<h"@ + decimal(level) + " id=\""@ + id + "\"><a class=\"self-link\" href=\"#"@ + id + "\">"@
        + title + "</a></h"@ + decimal(level) + ">"@
}

/// Rewrites one heading into a self-linking heading with a unique identifier,
/// and records the identifier it asked for.
pub fn wrap_header_with_link(level: usize, title: &str, id: Option<&str>, id_counter: &mut IdCounter) -> (r: String)
    ensures
        r@ == heading_html(
            level as nat,
            unique_id(base_id(title@, opt_view(id)), old(id_counter)@),
            title@,
        ),
        final(id_counter)@ == old(id_counter)@.push(base_id(title@, opt_view(id))),
{
    let base: String = match id {
        Some(d) => String::from_str(d),
        None => id_from_title(title),
    };
    let n = id_counter.count(&base);
    let mut uid = base.clone();
    if n > 0 {
        uid.push('-');
        push_decimal(&mut uid, n);
    }
    id_counter.record(base);
    let mut r = String::new();
    r.append("<h");
    push_decimal(&mut r, level);
    r.append(" id=\"");
    r.append(uid.as_str());
    r.append("\"><a class=\"self-link\" href=\"#");
    r.append(uid.as_str());
    r.append("\">");
    r.append(title);
    r.append("</a></h");
    push_decimal(&mut r, level);
    r.append(">");
    proof {
        assert(r@ =~= heading_html(
            level as nat,
            unique_id(base_id(title@, opt_view(id)), old(id_counter)@),
            title@,
        ));
    }
    r
}

/// A closing heading tag `</hD>` (D an ASCII digit) at position `k`.
pub open spec fn close_tag_at(s: Seq<char>, k: int) -> bool {
    0 <= k && k + 5 <= s.len() && s[k] == '<' && s[k + 1] == '/' && s[k + 2] == 'h' && '0' <= s[k + 3]
        && s[k + 3] <= '9' && s[k + 4] == '>'
}

/// Where a heading's text that starts at `j` ends: the first closing heading
/// tag on the same line.
pub open spec fn title_end_from(s: Seq<char>, j: int) -> Option<int>
    decreases s.len() - j,
{
    if j < 0 || j >= s.len() {
        None
    } else if close_tag_at(s, j) {
        Some(j)
    } else if s[j] == '\n' {
        None
    } else {
        title_end_from(s, j + 1)
    }
}

/// Where a declared identifier that starts at `j` ends: the first `">` on the
/// same line.
pub open spec fn id_end_from(s: Seq<char>, j: int) -> Option<int>
    decreases s.len() - j,
{
    if j < 0 || j + 1 >= s.len() {
        None
    } else if s[j] == '"' && s[j + 1] == '>' {
        Some(j)
    } else if s[j] == '\n' {
        None
    } else {
        id_end_from(s, j + 1)
    }
}

/// A heading element found in a text: its level, the range of its declared
/// identifier if it has one, and the range of its inner text. The closing tag
/// starts at `title_end` and is five characters long.
pub struct Heading {
    pub level: int,
    pub id: Option<(int, int)>,
    pub title_start: int,
    pub title_end: int,
}

/// A heading element as the scanner reports it (see `Heading`).
#[derive(Clone, Copy)]
struct HeadingSpan {
    level: usize,
    id: Option<(usize, usize)>,
    title_start: usize,
    title_end: usize,
}

impl View for HeadingSpan {
    type V = Heading;

    closed spec fn view(&self) -> Heading {
        Heading {
            level: self.level as int,
            id: match self.id {
                Some((a, b)) => Some((a as int, b as int)),
                None => None,
            },
            title_start: self.title_start as int,
            title_end: self.title_end as int,
        }
    }
}

/// The heading element that starts at position `i`, if one does:
/// `<hL>TEXT</hD>` or `<hL id="ID">TEXT</hD>`, with `L` a digit from 1 to 9,
/// `D` any digit, and the element on one line. The text runs to the first
/// closing tag, the identifier to the first `">`.
pub open spec fn heading_at(s: Seq<char>, i: int) -> Option<Heading> {
    if 0 <= i && i + 3 <= s.len() && s[i] == '<' && s[i + 1] == 'h' && '1' <= s[i + 2] && s[i + 2] <= '9' {
        let level = (s[i + 2] as u32) - 48;
        let p = i + 3;
        let with_id = if p + 5 <= s.len() && occurs_at(s, p, " id=\""@) {
            match id_end_from(s, p + 5) {
                Some(k) => match title_end_from(s, k + 2) {
                    Some(t) => Some(Heading { level, id: Some((p + 5, k)), title_start: k + 2, title_end: t }),
                    None => None,
                },
                None => None,
            }
        } else {
            None
        };
        if with_id is Some {
            with_id
        } else if p < s.len() && s[p] == '>' {
            match title_end_from(s, p + 1) {
                Some(t) => Some(Heading { level, id: None, title_start: p + 1, title_end: t }),
                None => None,
            }
        } else {
            None
        }
    } else {
        None
    }
}

proof fn lemma_title_end(s: Seq<char>, j: int)
    ensures
        title_end_from(s, j) matches Some(t) ==> j <= t && close_tag_at(s, t),
    decreases s.len() - j,
{
    if 0 <= j < s.len() && !close_tag_at(s, j) && s[j] != '\n' {
        lemma_title_end(s, j + 1);
    }
}

proof fn lemma_id_end(s: Seq<char>, j: int)
    ensures
        id_end_from(s, j) matches Some(k) ==> j <= k && k + 2 <= s.len(),
    decreases s.len() - j,
{
    if 0 <= j && j + 1 < s.len() && !(s[j] == '"' && s[j + 1] == '>') && s[j] != '\n' {
        lemma_id_end(s, j + 1);
    }
}

/// The ranges of a heading found at `i` lie within the text, after `i`.
pub proof fn lemma_heading_bounds(s: Seq<char>, i: int)
    ensures
        heading_at(s, i) matches Some(h) ==> {
            &&& i + 3 <= h.title_start <= h.title_end
            &&& h.title_end + 5 <= s.len()
            &&& close_tag_at(s, h.title_end as int)
            &&& 1 <= h.level <= 9
            &&& (h.id matches Some((a, b)) ==> i + 3 <= a <= b && b + 2 == h.title_start)
        },
{
    let p = i + 3;
    if 0 <= i && i + 3 <= s.len() {
        lemma_title_end(s, p + 1);
        lemma_id_end(s, p + 5);
        if let Some(k) = id_end_from(s, p + 5) {
            lemma_title_end(s, k + 2);
        }
    }
}

/// The text of a heading found in `s`.
pub open spec fn title_of(s: Seq<char>, h: Heading) -> Seq<char> {
    s.subrange(h.title_start, h.title_end)
}

/// The identifier a heading found in `s` declares, if any.
pub open spec fn declared_id_of(s: Seq<char>, h: Heading) -> Option<Seq<char>> {
    match h.id {
        Some((a, b)) => Some(s.subrange(a, b)),
        None => None,
    }
}

/// `s[i..]` with each heading element rewritten into a self-linking heading
/// with a unique identifier, `seen` holding the identifiers asked for before
/// `i`; everything else is kept as it is.
pub open spec fn linked_from(s: Seq<char>, i: int, seen: Seq<Seq<char>>) -> Seq<char>
    decreases s.len() - i
    via linked_from_decreases
{
    if i < 0 || i >= s.len() {
        Seq::empty()
    } else {
        match heading_at(s, i) {
            Some(h) => {
                let base = base_id(title_of(s, h), declared_id_of(s, h));
                heading_html(h.level as nat, unique_id(base, seen), title_of(s, h))
                    + linked_from(s, h.title_end + 5, seen.push(base))
            },
            None => seq![s[i]] + linked_from(s, i + 1, seen),
        }
    }
}

/// The whole text with its headings rewritten into self-linking headings.
pub open spec fn linked(s: Seq<char>) -> Seq<char> {
    linked_from(s, 0, Seq::empty())
}

#[via_fn]
proof fn linked_from_decreases(s: Seq<char>, i: int, seen: Seq<Seq<char>>) {
    lemma_heading_bounds(s, i);
}

fn find_title_end(v: &Vec<char>, j: usize) -> (r: Option<usize>)
    ensures
        match r {
            Some(t) => title_end_from(v@, j as int) == Some(t as int),
            None => title_end_from(v@, j as int) is None,
        },
{
    let mut k: usize = j;
    while k < v.len()
        invariant
            j <= k,
            title_end_from(v@, j as int) == title_end_from(v@, k as int),
        decreases v.len() - k,
    {
        if v.len() - k >= 5 && v[k] == '<' && v[k + 1] == '/' && v[k + 2] == 'h' && '0' <= v[k + 3] && v[k + 3]
            <= '9' && v[k + 4] == '>' {
            return Some(k);
        }
        if v[k] == '\n' {
            return None;
        }
        k = k + 1;
    }
    None
}

fn find_id_end(v: &Vec<char>, j: usize) -> (r: Option<usize>)
    ensures
        match r {
            Some(t) => id_end_from(v@, j as int) == Some(t as int),
            None => id_end_from(v@, j as int) is None,
        },
{
    let mut k: usize = j;
    while k < v.len() && v.len() - k > 1
        invariant
            j <= k,
            id_end_from(v@, j as int) == id_end_from(v@, k as int),
        decreases v.len() - k,
    {
        if v[k] == '"' && v[k + 1] == '>' {
            return Some(k);
        }
        if v[k] == '\n' {
            return None;
        }
        k = k + 1;
    }
    None
}

/// Finds the heading element that starts at position `i`, if one does.
fn scan_heading(v: &Vec<char>, i: usize, id_open: &Vec<char>) -> (r: Option<HeadingSpan>)
    requires
        id_open@ == " id=\""@,
    ensures
        match r {
            Some(h) => heading_at(v@, i as int) == Some(h@),
            None => heading_at(v@, i as int) is None,
        },
{
    proof {
        reveal_strlit(" id=\"");
        lemma_heading_bounds(v@, i as int);
    }
    if !(i < v.len() && v.len() - i >= 3 && v[i] == '<' && v[i + 1] == 'h' && '1' <= v[i + 2] && v[i + 2] <= '9') {
        return None;
    }
    let level = ((v[i + 2] as u32) - 48) as usize;
    let p = i + 3;
    if v.len() - p >= 5 && has_at(v, p, id_open) {
        if let Some(k) = find_id_end(v, p + 5) {
            proof {
                lemma_id_end(v@, p + 5);
            }
            if let Some(t) = find_title_end(v, k + 2) {
                return Some(HeadingSpan { level, id: Some((p + 5, k)), title_start: k + 2, title_end: t });
            }
        }
    }
    if p < v.len() && v[p] == '>' {
        if let Some(t) = find_title_end(v, p + 1) {
            return Some(HeadingSpan { level, id: None, title_start: p + 1, title_end: t });
        }
    }
    None
}

/// Rewrites every heading element of an HTML text into a self-linking
/// heading with an identifier unique within the text.
pub fn build_header_links(html: &str) -> (r: String)
    ensures
        r@ == linked(html@),
{
    let v = chars_of(html);
    let id_open = chars_of(" id=\"");
    let mut counter = IdCounter::new();
    let mut out = String::new();
    let mut i: usize = 0;
    while i < v.len()
        invariant
            v@ == html@,
            id_open@ == " id=\""@,
            i <= v@.len(),
            out@ + linked_from(v@, i as int, counter@) == linked(html@),
        decreases v.len() - i,
    {
        let ghost out0 = out@;
        let ghost seen0 = counter@;
        let ghost i0 = i as int;
        proof {
            lemma_heading_bounds(v@, i as int);
        }
        match scan_heading(&v, i, &id_open) {
            Some(h) => {
                let title = string_of(&v, h.title_start, h.title_end);
                let declared: Option<String> = match h.id {
                    Some((a, b)) => Some(string_of(&v, a, b)),
                    None => None,
                };
                let declared_ref: Option<&str> = match &declared {
                    Some(d) => Some(d.as_str()),
                    None => None,
                };
                proof {
                    assert(opt_view(declared_ref) == declared_id_of(v@, h@));
                }
                let piece = wrap_header_with_link(h.level, title.as_str(), declared_ref, &mut counter);
                out.append(piece.as_str());
                i = h.title_end + 5;
            },
            None => {
                out.push(v[i]);
                i = i + 1;
            },
        }
        assert(out@ + linked_from(v@, i as int, counter@) =~= out0 + linked_from(v@, i0, seen0));
    }
    out
}

/// `n` copies of `p`, one after the other.
pub open spec fn repeated(p: Seq<char>, n: nat) -> Seq<char>
    decreases n,
{
    if n == 0 {
        Seq::empty()
    } else {
        repeated(p, (n - 1) as nat) + p
    }
}

/// Whether a heading of `level` belongs in a table of contents limited to
/// `max_level` (no limit: every level).
pub open spec fn in_toc(level: int, max_level: Option<usize>) -> bool {
    match max_level {
        Some(m) => level <= m,
        None => true,
    }
}

/// What moves the nesting from depth `prev` to the depth of a heading of
/// `level`: one list opened per level of increase (each level skipped gets an
/// item of its own to hold the deeper list), one list and its item closed per
/// level of decrease, and the previous item at the same depth closed.
pub open spec fn toc_step(prev: int, level: int) -> Seq<char> {
    if level > prev {
        "<ol>"@ + repeated("<li><ol>"@, (level - prev - 1) as nat)
    } else if level < prev {
        repeated("</li></ol>"@, (prev - level) as nat) + "</li>"@
    } else {
        "</li>"@
    }
}

/// The text a table of contents shows for a heading: its inner text without
/// the self-link that wraps it.
pub open spec fn entry_text(s: Seq<char>, h: Heading) -> Seq<char> {
    let t = title_of(s, h);
    match declared_id_of(s, h) {
        Some(d) => {
            let pre = "<a class=\"self-link\" href=\"#"@ + d + "\">"@;
            if t.len() >= pre.len() + 4 && t.subrange(0, pre.len() as int) == pre && t.subrange(
                t.len() - 4,
                t.len() as int,
            ) == "</a>"@ {
                t.subrange(pre.len() as int, t.len() - 4)
            } else {
                t
            }
        },
        None => t,
    }
}

/// An entry of a table of contents, left open for a nested list.
pub open spec fn toc_item(id: Option<Seq<char>>, text: Seq<char>) -> Seq<char> {
    match id {
        Some(d) => "<li><a href=\"#"@ + d + "\">"@ + text + "</a>"@,
        None => "<li>"@ + text,
    }
}

/// The table of contents of the headings of `s[i..]`, the nesting being at
/// depth `prev` at `i`; every list still open is closed at the end.
pub open spec fn toc_from(s: Seq<char>, i: int, prev: int, max_level: Option<usize>) -> Seq<char>
    decreases s.len() - i
    via toc_from_decreases
{
    if i < 0 || i >= s.len() {
        repeated("</li></ol>"@, prev as nat)
    } else {
        match heading_at(s, i) {
            Some(h) => if in_toc(h.level, max_level) {
                toc_step(prev, h.level) + toc_item(declared_id_of(s, h), entry_text(s, h)) + toc_from(
                    s,
                    h.title_end + 5,
                    h.level,
                    max_level,
                )
            } else {
                toc_from(s, h.title_end + 5, prev, max_level)
            },
            None => toc_from(s, i + 1, prev, max_level),
        }
    }
}

/// The table of contents of a whole text.
pub open spec fn toc_of(s: Seq<char>, max_level: Option<usize>) -> Seq<char> {
    toc_from(s, 0, 0, max_level)
}

#[via_fn]
proof fn toc_from_decreases(s: Seq<char>, i: int, prev: int, max_level: Option<usize>) {
    lemma_heading_bounds(s, i);
}

fn push_repeated(out: &mut String, p: &str, n: usize)
    ensures
        final(out)@ == old(out)@ + repeated(p@, n as nat),
{
    let ghost start = out@;
    let mut k: usize = 0;
    while k < n
        invariant
            k <= n,
            out@ == start + repeated(p@, k as nat),
        decreases n - k,
    {
        out.append(p);
        k = k + 1;
        assert(out@ =~= start + repeated(p@, k as nat));
    }
}

/// The self-link wrapper of a heading's text.
fn self_link_prefix(id: &Vec<char>) -> (r: Vec<char>)
    ensures
        r@ == "<a class=\"self-link\" href=\"#"@ + id@ + "\">"@,
{
    let mut r = chars_of("<a class=\"self-link\" href=\"#");
    let ghost a = r@;
    let mut k: usize = 0;
    while k < id.len()
        invariant
            k <= id@.len(),
            r@ == a + id@.subrange(0, k as int),
        decreases id.len() - k,
    {
        r.push(id[k]);
        k = k + 1;
        assert(r@ =~= a + id@.subrange(0, k as int));
    }
    let mut tail = chars_of("\">");
    r.append(&mut tail);
    assert(id@.subrange(0, id@.len() as int) =~= id@);
    r
}

/// The range of `v` that a table of contents shows for the heading `h`.
fn entry_text_range(v: &Vec<char>, h: HeadingSpan, link_close: &Vec<char>) -> (r: (usize, usize))
    requires
        link_close@ == "</a>"@,
        link_close@.len() == 4,
        h.title_start <= h.title_end <= v@.len(),
        h.id matches Some((a, b)) ==> a <= b <= v@.len(),
    ensures
        r.0 <= r.1 <= v@.len(),
        v@.subrange(r.0 as int, r.1 as int) == entry_text(v@, h@),
{
    let start = h.title_start;
    let end = h.title_end;
    let ghost t = v@.subrange(start as int, end as int);
    match h.id {
        Some((a, b)) => {
            let d = string_of(v, a, b);
            let dv = chars_of(d.as_str());
            let pre = self_link_prefix(&dv);
            if end - start >= pre.len() && end - start - pre.len() >= 4 {
                proof {
                    assert(t.subrange(0, pre@.len() as int) =~= v@.subrange(start as int, start + pre@.len()));
                    assert(t.subrange(t.len() - 4, t.len() as int) =~= v@.subrange(end - 4, end as int));
                    assert(t.subrange(pre@.len() as int, t.len() - 4) =~= v@.subrange(start + pre@.len(), end - 4));
                }
                if has_at(v, start, &pre) && has_at(v, end - 4, link_close) {
                    return (start + pre.len(), end - 4);
                }
            }
            (start, end)
        },
        None => (start, end),
    }
}

/// Appends what moves the nesting from depth `prev` to `level`.
fn push_toc_step(out: &mut String, prev: usize, level: usize)
    ensures
        final(out)@ == old(out)@ + toc_step(prev as int, level as int),
{
    if level > prev {
        out.append("<ol>");
        push_repeated(out, "<li><ol>", level - prev - 1);
    } else if level < prev {
        push_repeated(out, "</li></ol>", prev - level);
        out.append("</li>");
    } else {
        out.append("</li>");
    }
    proof {
        assert(final(out)@ =~= old(out)@ + toc_step(prev as int, level as int));
    }
}

/// Appends the entry of a table of contents for the heading `h`.
fn push_toc_item(out: &mut String, v: &Vec<char>, h: HeadingSpan, link_close: &Vec<char>)
    requires
        link_close@ == "</a>"@,
        link_close@.len() == 4,
        h.title_start <= h.title_end <= v@.len(),
        h.id matches Some((a, b)) ==> a <= b <= v@.len(),
    ensures
        final(out)@ == old(out)@ + toc_item(declared_id_of(v@, h@), entry_text(v@, h@)),
{
    let (start, end) = entry_text_range(v, h, link_close);
    let text = string_of(v, start, end);
    match h.id {
        Some((a, b)) => {
            let d = string_of(v, a, b);
            out.append("<li><a href=\"#");
            out.append(d.as_str());
            out.append("\">");
            out.append(text.as_str());
            out.append("</a>");
        },
        None => {
            out.append("<li>");
            out.append(text.as_str());
        },
    }
    proof {
        assert(final(out)@ =~= old(out)@ + toc_item(declared_id_of(v@, h@), entry_text(v@, h@)));
    }
}

/// Builds a nested ordered list of the headings of an HTML text whose
/// headings were already rewritten, keeping those up to `max_level`.
pub fn build_toc(html: &str, max_level: Option<usize>) -> (r: String)
    ensures
        r@ == toc_of(html@, max_level),
{
    let v = chars_of(html);
    let id_open = chars_of(" id=\"");
    let link_close = chars_of("</a>");
    proof {
        reveal_strlit("</a>");
    }
    let mut out = String::new();
    let mut prev: usize = 0;
    let mut i: usize = 0;
    while i < v.len()
        invariant
            v@ == html@,
            id_open@ == " id=\""@,
            link_close@ == "</a>"@,
            link_close@.len() == 4,
            i <= v@.len(),
            out@ + toc_from(v@, i as int, prev as int, max_level) == toc_of(html@, max_level),
        decreases v.len() - i,
    {
        let ghost out0 = out@;
        let ghost prev0 = prev as int;
        let ghost i0 = i as int;
        proof {
            lemma_heading_bounds(v@, i as int);
        }
        match scan_heading(&v, i, &id_open) {
            Some(h) => {
                let keep = match max_level {
                    Some(m) => h.level <= m,
                    None => true,
                };
                if keep {
                    push_toc_step(&mut out, prev, h.level);
                    push_toc_item(&mut out, &v, h, &link_close);
                    prev = h.level;
                }
                i = h.title_end + 5;
            },
            None => {
                i = i + 1;
            },
        }
        assert(out@ + toc_from(v@, i as int, prev as int, max_level) =~= out0 + toc_from(v@, i0, prev0, max_level));
    }
    push_repeated(&mut out, "</li></ol>", prev);
    out
}

proof fn lemma_digit_char_injective(a: nat, b: nat)
    requires
        a < 10,
        b < 10,
        digit_char(a) == digit_char(b),
    ensures
        a == b,
{
    assert(((a % 10) as u8 + 48u8) as char as u32 == (a % 10) + 48);
    assert(((b % 10) as u8 + 48u8) as char as u32 == (b % 10) + 48);
}

proof fn lemma_decimal_injective(a: nat, b: nat)
    requires
        decimal(a) == decimal(b),
    ensures
        a == b,
    decreases a + b,
{
    let da = decimal(a);
    let db = decimal(b);
    if a < 10 && b < 10 {
        assert(da == seq![digit_char(a)]);
        assert(db == seq![digit_char(b)]);
        assert(da[0] == db[0]);
        assert(seq![digit_char(a)][0] == digit_char(a));
        assert(digit_char(a) == digit_char(b));
        lemma_digit_char_injective(a, b);
    } else if a >= 10 && b >= 10 {
        assert(da == decimal(a / 10).push(digit_char(a % 10)));
        assert(db == decimal(b / 10).push(digit_char(b % 10)));
        assert(da.last() == db.last());
        assert(da.last() == digit_char(a % 10));
        assert(db.last() == digit_char(b % 10));
        assert(da.drop_last() =~= decimal(a / 10));
        assert(db.drop_last() =~= decimal(b / 10));
        lemma_digit_char_injective(a % 10, b % 10);
        lemma_decimal_injective(a / 10, b / 10);
    } else {
        if a < 10 {
            lemma_decimal_len(b / 10);
            assert(da == seq![digit_char(a)]);
            assert(db == decimal(b / 10).push(digit_char(b % 10)));
        } else {
            lemma_decimal_len(a / 10);
            assert(db == seq![digit_char(b)]);
            assert(da == decimal(a / 10).push(digit_char(a % 10)));
        }
        assert(da.len() != db.len());
    }
}

proof fn lemma_decimal_len(n: nat)
    ensures
        decimal(n).len() >= 1,
    decreases n,
{
    if n >= 10 {
        lemma_decimal_len(n / 10);
    }
}

/// Each request for an identifier counts once for that identifier and not
/// at all for any other, in the order the headings come.
pub proof fn lemma_request_counts(seen: Seq<Seq<char>>, base: Seq<char>, other: Seq<char>)
    ensures
        occurrences(seen.push(base), base) == occurrences(seen, base) + 1,
        other != base ==> occurrences(seen.push(other), base) == occurrences(seen, base),
{
    assert(seen.push(base).drop_last() =~= seen);
    assert(seen.push(other).drop_last() =~= seen);
}

/// In a document whose first `k` headings all asked for `base`, the next
/// heading that asks for it receives `base` itself where `k` is 0, and
/// `base-k` otherwise: N such headings receive `base`, `base-1`, ...,
/// `base-(N-1)`.
pub proof fn lemma_repeated_requests(base: Seq<char>, k: nat)
    ensures
        unique_id(base, Seq::new(k, |i: int| base)) == if k == 0 {
            base
        } else {
            base + seq!['-'] + decimal(k)
        },
    decreases k,
{
    lemma_occurrences_repeated(base, k);
}

proof fn lemma_occurrences_repeated(base: Seq<char>, k: nat)
    ensures
        occurrences(Seq::new(k, |i: int| base), base) == k,
    decreases k,
{
    if k > 0 {
        lemma_occurrences_repeated(base, (k - 1) as nat);
        assert(Seq::new(k, |i: int| base).drop_last() =~= Seq::new((k - 1) as nat, |i: int| base));
    }
}

/// Headings that ask for the same identifier after different numbers of
/// earlier requests for it receive different identifiers.
pub proof fn lemma_same_base_distinct_ids(base: Seq<char>, s1: Seq<Seq<char>>, s2: Seq<Seq<char>>)
    requires
        occurrences(s1, base) != occurrences(s2, base),
    ensures
        unique_id(base, s1) != unique_id(base, s2),
{
    let n1 = occurrences(s1, base);
    let n2 = occurrences(s2, base);
    lemma_decimal_len(n1);
    lemma_decimal_len(n2);
    if n1 != 0 && n2 != 0 {
        let t1 = unique_id(base, s1);
        let t2 = unique_id(base, s2);
        if t1 == t2 {
            if decimal(n1).len() == decimal(n2).len() {
                assert(t1.subrange(base.len() + 1 as int, t1.len() as int) =~= decimal(n1));
                assert(t2.subrange(base.len() + 1 as int, t2.len() as int) =~= decimal(n2));
                lemma_decimal_injective(n1, n2);
            }
        }
    } else {
        assert(unique_id(base, s1).len() != unique_id(base, s2).len());
    }
}

/// The markup of a table of contents, tag by tag: list and item tags, and
/// the entry (link and text) that an item shows.
pub enum TocTag {
    OpenList,
    OpenItem,
    CloseItem,
    CloseList,
    Entry(Seq<char>),
}

pub open spec fn tag_text(t: TocTag) -> Seq<char> {
    match t {
        TocTag::OpenList => "<ol>"@,
        TocTag::OpenItem => "<li>"@,
        TocTag::CloseItem => "</li>"@,
        TocTag::CloseList => "</ol>"@,
        TocTag::Entry(x) => x,
    }
}

/// The text of a sequence of tags.
pub open spec fn tags_text(ts: Seq<TocTag>) -> Seq<char>
    decreases ts.len(),
{
    if ts.len() == 0 {
        Seq::empty()
    } else {
        tags_text(ts.drop_last()) + tag_text(ts.last())
    }
}

/// `n` copies of the tags `p`.
pub open spec fn repeated_tags(p: Seq<TocTag>, n: nat) -> Seq<TocTag>
    decreases n,
{
    if n == 0 {
        Seq::empty()
    } else {
        repeated_tags(p, (n - 1) as nat) + p
    }
}

pub open spec fn step_tags(prev: int, level: int) -> Seq<TocTag> {
    if level > prev {
        seq![TocTag::OpenList] + repeated_tags(seq![TocTag::OpenItem, TocTag::OpenList], (level - prev - 1) as nat)
    } else if level < prev {
        repeated_tags(seq![TocTag::CloseItem, TocTag::CloseList], (prev - level) as nat) + seq![TocTag::CloseItem]
    } else {
        seq![TocTag::CloseItem]
    }
}

pub open spec fn entry_of(id: Option<Seq<char>>, text: Seq<char>) -> Seq<char> {
    match id {
        Some(d) => "<a href=\"#"@ + d + "\">"@ + text + "</a>"@,
        None => text,
    }
}

/// The tags of the table of contents of `s[i..]` (see `toc_from`).
pub open spec fn toc_tags_from(s: Seq<char>, i: int, prev: int, max_level: Option<usize>) -> Seq<TocTag>
    decreases s.len() - i
    via toc_tags_from_decreases
{
    if i < 0 || i >= s.len() {
        repeated_tags(seq![TocTag::CloseItem, TocTag::CloseList], prev as nat)
    } else {
        match heading_at(s, i) {
            Some(h) => if in_toc(h.level, max_level) {
                step_tags(prev, h.level) + seq![
                    TocTag::OpenItem,
                    TocTag::Entry(entry_of(declared_id_of(s, h), entry_text(s, h))),
                ] + toc_tags_from(s, h.title_end + 5, h.level, max_level)
            } else {
                toc_tags_from(s, h.title_end + 5, prev, max_level)
            },
            None => toc_tags_from(s, i + 1, prev, max_level),
        }
    }
}

#[via_fn]
proof fn toc_tags_from_decreases(s: Seq<char>, i: int, prev: int, max_level: Option<usize>) {
    lemma_heading_bounds(s, i);
}

proof fn lemma_tags_text_concat(a: Seq<TocTag>, b: Seq<TocTag>)
    ensures
        tags_text(a + b) == tags_text(a) + tags_text(b),
    decreases b.len(),
{
    if b.len() == 0 {
        assert(a + b =~= a);
        assert(tags_text(a) + tags_text(b) =~= tags_text(a));
    } else {
        lemma_tags_text_concat(a, b.drop_last());
        assert((a + b).drop_last() =~= a + b.drop_last());
        assert(tags_text(a + b) =~= tags_text(a) + tags_text(b));
    }
}

proof fn lemma_tags_text_repeated(p: Seq<TocTag>, n: nat)
    ensures
        tags_text(repeated_tags(p, n)) == repeated(tags_text(p), n),
    decreases n,
{
    if n > 0 {
        lemma_tags_text_repeated(p, (n - 1) as nat);
        lemma_tags_text_concat(repeated_tags(p, (n - 1) as nat), p);
    } else {
        assert(tags_text(Seq::<TocTag>::empty()) == Seq::<char>::empty());
    }
}

proof fn lemma_tags_text_pair(a: TocTag, b: TocTag)
    ensures
        tags_text(seq![a, b]) == tag_text(a) + tag_text(b),
{
    assert(seq![a, b].drop_last() =~= seq![a]);
    assert(seq![a].drop_last() =~= Seq::<TocTag>::empty());
    assert(tags_text(Seq::<TocTag>::empty()) == Seq::<char>::empty());
    assert(seq![a].last() == a);
    assert(tags_text(seq![a]) =~= tag_text(a));
}

proof fn lemma_tags_text_one(a: TocTag)
    ensures
        tags_text(seq![a]) == tag_text(a),
{
    assert(seq![a].drop_last() =~= Seq::<TocTag>::empty());
    assert(tags_text(Seq::<TocTag>::empty()) == Seq::<char>::empty());
    assert(seq![a].last() == a);
    assert(tags_text(seq![a]) =~= tag_text(a));
}

proof fn lemma_step_text(prev: int, level: int)
    ensures
        tags_text(step_tags(prev, level)) == toc_step(prev, level),
{
    lemma_tags_text_pair(TocTag::OpenItem, TocTag::OpenList);
    lemma_tags_text_pair(TocTag::CloseItem, TocTag::CloseList);
    lemma_tags_text_one(TocTag::OpenList);
    lemma_tags_text_one(TocTag::CloseItem);
    reveal_strlit("<li><ol>");
    reveal_strlit("<li>");
    reveal_strlit("<ol>");
    reveal_strlit("</li></ol>");
    reveal_strlit("</li>");
    reveal_strlit("</ol>");
    assert("<li>"@ + "<ol>"@ =~= "<li><ol>"@);
    assert("</li>"@ + "</ol>"@ =~= "</li></ol>"@);
    if level > prev {
        let k = (level - prev - 1) as nat;
        lemma_tags_text_repeated(seq![TocTag::OpenItem, TocTag::OpenList], k);
        lemma_tags_text_concat(seq![TocTag::OpenList], repeated_tags(seq![TocTag::OpenItem, TocTag::OpenList], k));
    } else if level < prev {
        let k = (prev - level) as nat;
        lemma_tags_text_repeated(seq![TocTag::CloseItem, TocTag::CloseList], k);
        lemma_tags_text_concat(repeated_tags(seq![TocTag::CloseItem, TocTag::CloseList], k), seq![TocTag::CloseItem]);
    }
}

/// The tags of a table of contents make exactly its text.
pub proof fn lemma_toc_text(s: Seq<char>, i: int, prev: int, max_level: Option<usize>)
    ensures
        tags_text(toc_tags_from(s, i, prev, max_level)) == toc_from(s, i, prev, max_level),
    decreases s.len() - i,
{
    lemma_tags_text_pair(TocTag::CloseItem, TocTag::CloseList);
    reveal_strlit("</li></ol>");
    reveal_strlit("</li>");
    reveal_strlit("</ol>");
    assert("</li>"@ + "</ol>"@ =~= "</li></ol>"@);
    if i < 0 || i >= s.len() {
        lemma_tags_text_repeated(seq![TocTag::CloseItem, TocTag::CloseList], prev as nat);
    } else {
        lemma_heading_bounds(s, i);
        match heading_at(s, i) {
            Some(h) => {
                lemma_toc_text(s, h.title_end + 5, h.level, max_level);
                lemma_toc_text(s, h.title_end + 5, prev, max_level);
                if in_toc(h.level, max_level) {
                    let e = TocTag::Entry(entry_of(declared_id_of(s, h), entry_text(s, h)));
                    let st = step_tags(prev, h.level);
                    let rest = toc_tags_from(s, h.title_end + 5, h.level, max_level);
                    lemma_step_text(prev, h.level);
                    lemma_tags_text_pair(TocTag::OpenItem, e);
                    lemma_tags_text_concat(st, seq![TocTag::OpenItem, e]);
                    lemma_tags_text_concat(st + seq![TocTag::OpenItem, e], rest);
                    reveal_strlit("<li>");
                    reveal_strlit("<li><a href=\"#");
                    reveal_strlit("<a href=\"#");
                    assert("<li>"@ + "<a href=\"#"@ =~= "<li><a href=\"#"@);
                    assert(tag_text(TocTag::OpenItem) + tag_text(e) =~= toc_item(
                        declared_id_of(s, h),
                        entry_text(s, h),
                    ));
                }
            },
            None => {
                lemma_toc_text(s, i + 1, prev, max_level);
            },
        }
    }
}

/// An element left open in a table of contents.
pub enum OpenTag {
    List,
    Item,
}

/// The open elements after one more tag, or none where the tag does not fit:
/// a list opens at the top or inside an item, an item only inside a list, an
/// entry stands only inside an item, and each close tag closes the innermost
/// open element of its kind.
pub open spec fn tag_step(t: TocTag, open: Seq<OpenTag>) -> Option<Seq<OpenTag>> {
    let top_item = open.len() > 0 && open.last() == OpenTag::Item;
    let top_list = open.len() > 0 && open.last() == OpenTag::List;
    match t {
        TocTag::OpenList => if open.len() == 0 || top_item { Some(open.push(OpenTag::List)) } else { None },
        TocTag::OpenItem => if top_list { Some(open.push(OpenTag::Item)) } else { None },
        TocTag::CloseItem => if top_item { Some(open.drop_last()) } else { None },
        TocTag::CloseList => if top_list { Some(open.drop_last()) } else { None },
        TocTag::Entry(_) => if top_item { Some(open) } else { None },
    }
}

/// The open elements after the tags `ts`, starting from `open`; none where
/// a tag does not fit.
pub open spec fn run_tags(ts: Seq<TocTag>, open: Seq<OpenTag>) -> Option<Seq<OpenTag>>
    decreases ts.len(),
{
    if ts.len() == 0 {
        Some(open)
    } else {
        match tag_step(ts[0], open) {
            Some(next) => run_tags(ts.drop_first(), next),
            None => None,
        }
    }
}

/// A list and its item, open `n` times one inside the other.
pub open spec fn nested(n: nat) -> Seq<OpenTag>
    decreases n,
{
    if n == 0 {
        Seq::empty()
    } else {
        nested((n - 1) as nat).push(OpenTag::List).push(OpenTag::Item)
    }
}

proof fn lemma_run_concat(a: Seq<TocTag>, b: Seq<TocTag>, open: Seq<OpenTag>)
    ensures
        run_tags(a + b, open) == match run_tags(a, open) {
            Some(mid) => run_tags(b, mid),
            None => None,
        },
    decreases a.len(),
{
    if a.len() > 0 {
        assert((a + b).drop_first() =~= a.drop_first() + b);
        assert((a + b)[0] == a[0]);
        if let Some(next) = tag_step(a[0], open) {
            lemma_run_concat(a.drop_first(), b, next);
        }
    } else {
        assert(a + b =~= b);
    }
}

proof fn lemma_run_pair(x: TocTag, y: TocTag, open: Seq<OpenTag>)
    ensures
        run_tags(seq![x, y], open) == match tag_step(x, open) {
            Some(mid) => tag_step(y, mid),
            None => None,
        },
{
    assert(seq![x, y].drop_first() =~= seq![y]);
    assert(seq![y].drop_first() =~= Seq::<TocTag>::empty());
    if let Some(mid) = tag_step(x, open) {
        if let Some(last) = tag_step(y, mid) {
            assert(run_tags(seq![y], mid) == run_tags(Seq::<TocTag>::empty(), last));
        }
    }
}

proof fn lemma_run_one(x: TocTag, open: Seq<OpenTag>)
    ensures
        run_tags(seq![x], open) == tag_step(x, open),
{
    assert(seq![x].drop_first() =~= Seq::<TocTag>::empty());
    assert(seq![x][0] == x);
    if let Some(next) = tag_step(x, open) {
        assert(run_tags(Seq::<TocTag>::empty(), next) == Some(next));
    }
}

/// Opening `k` further levels from an open list inside `n` levels.
proof fn lemma_run_open(n: nat, k: nat)
    ensures
        run_tags(repeated_tags(seq![TocTag::OpenItem, TocTag::OpenList], k), nested(n).push(OpenTag::List))
            == Some(nested(n + k).push(OpenTag::List)),
    decreases k,
{
    if k > 0 {
        lemma_run_open(n, (k - 1) as nat);
        let p = seq![TocTag::OpenItem, TocTag::OpenList];
        lemma_run_concat(repeated_tags(p, (k - 1) as nat), p, nested(n).push(OpenTag::List));
        lemma_run_pair(TocTag::OpenItem, TocTag::OpenList, nested((n + k - 1) as nat).push(OpenTag::List));
        assert(nested(n + k) == nested((n + k - 1) as nat).push(OpenTag::List).push(OpenTag::Item));
    } else {
        assert(repeated_tags(seq![TocTag::OpenItem, TocTag::OpenList], 0) =~= Seq::<TocTag>::empty());
    }
}

/// Closing `k` of `n` open levels.
proof fn lemma_run_close(n: nat, k: nat)
    requires
        k <= n,
    ensures
        run_tags(repeated_tags(seq![TocTag::CloseItem, TocTag::CloseList], k), nested(n)) == Some(
            nested((n - k) as nat),
        ),
    decreases k,
{
    if k > 0 {
        lemma_run_close(n, (k - 1) as nat);
        let p = seq![TocTag::CloseItem, TocTag::CloseList];
        lemma_run_concat(repeated_tags(p, (k - 1) as nat), p, nested(n));
        let m = (n - k + 1) as nat;
        lemma_run_pair(TocTag::CloseItem, TocTag::CloseList, nested(m));
        assert(nested(m) == nested((m - 1) as nat).push(OpenTag::List).push(OpenTag::Item));
        assert(nested(m).drop_last() =~= nested((m - 1) as nat).push(OpenTag::List));
        assert(nested(m).drop_last().drop_last() =~= nested((m - 1) as nat));
    } else {
        assert(repeated_tags(seq![TocTag::CloseItem, TocTag::CloseList], 0) =~= Seq::<TocTag>::empty());
    }
}

/// The tags for one heading of `level` (at least 1), from `prev` open levels,
/// leave `level` levels open.
proof fn lemma_run_heading(prev: nat, level: nat, e: Seq<char>)
    requires
        level >= 1,
    ensures
        run_tags(step_tags(prev as int, level as int) + seq![TocTag::OpenItem, TocTag::Entry(e)], nested(prev))
            == Some(nested(level)),
{
    let st = step_tags(prev as int, level as int);
    let item = seq![TocTag::OpenItem, TocTag::Entry(e)];
    lemma_run_concat(st, item, nested(prev));
    if level > prev {
        let k = (level - prev - 1) as nat;
        let opens = repeated_tags(seq![TocTag::OpenItem, TocTag::OpenList], k);
        lemma_run_concat(seq![TocTag::OpenList], opens, nested(prev));
        lemma_run_one(TocTag::OpenList, nested(prev));
        if prev > 0 {
            assert(nested(prev) == nested((prev - 1) as nat).push(OpenTag::List).push(OpenTag::Item));
        }
        lemma_run_open(prev, k);
        lemma_run_pair(TocTag::OpenItem, TocTag::Entry(e), nested(prev + k).push(OpenTag::List));
        assert(nested(level) == nested((level - 1) as nat).push(OpenTag::List).push(OpenTag::Item));
    } else {
        let k = (prev - level) as nat;
        let closes = repeated_tags(seq![TocTag::CloseItem, TocTag::CloseList], k);
        let m = level;
        if level < prev {
            lemma_run_concat(closes, seq![TocTag::CloseItem], nested(prev));
            lemma_run_close(prev, k);
        }
        lemma_run_one(TocTag::CloseItem, nested(m));
        assert(nested(m) == nested((m - 1) as nat).push(OpenTag::List).push(OpenTag::Item));
        assert(nested(m).drop_last() =~= nested((m - 1) as nat).push(OpenTag::List));
        lemma_run_pair(TocTag::OpenItem, TocTag::Entry(e), nested((m - 1) as nat).push(OpenTag::List));
    }
}

/// A table of contents is always a well-formed nested list, fully closed:
/// its tags fit one after the other, every list in an item or at the top,
/// every item in a list, and nothing is left open at the end; with no
/// heading it is empty.
pub proof fn lemma_toc_well_formed(s: Seq<char>, max_level: Option<usize>)
    ensures
        run_tags(toc_tags_from(s, 0, 0, max_level), Seq::empty()) == Some(Seq::<OpenTag>::empty()),
        tags_text(toc_tags_from(s, 0, 0, max_level)) == toc_of(s, max_level),
{
    lemma_toc_closes(s, 0, 0, max_level);
    assert(nested(0) == Seq::<OpenTag>::empty());
    lemma_toc_text(s, 0, 0, max_level);
}

proof fn lemma_toc_closes(s: Seq<char>, i: int, prev: nat, max_level: Option<usize>)
    ensures
        run_tags(toc_tags_from(s, i, prev as int, max_level), nested(prev)) == Some(Seq::<OpenTag>::empty()),
    decreases s.len() - i,
{
    if i < 0 || i >= s.len() {
        lemma_run_close(prev, prev);
        assert(nested(0) == Seq::<OpenTag>::empty());
    } else {
        lemma_heading_bounds(s, i);
        match heading_at(s, i) {
            Some(h) => {
                if in_toc(h.level, max_level) {
                    let level = h.level as nat;
                    let e = entry_of(declared_id_of(s, h), entry_text(s, h));
                    let head = step_tags(prev as int, h.level) + seq![TocTag::OpenItem, TocTag::Entry(e)];
                    lemma_toc_closes(s, h.title_end + 5, level, max_level);
                    lemma_run_heading(prev, level, e);
                    lemma_run_concat(head, toc_tags_from(s, h.title_end + 5, h.level, max_level), nested(prev));
                } else {
                    lemma_toc_closes(s, h.title_end + 5, prev, max_level);
                }
            },
            None => {
                lemma_toc_closes(s, i + 1, prev, max_level);
            },
        }
    }
}

/// The identifiers that the headings of `s[i..]` ask for, in document order.
pub open spec fn requests_from(s: Seq<char>, i: int) -> Seq<Seq<char>>
    decreases s.len() - i
    via requests_from_decreases
{
    if i < 0 || i >= s.len() {
        Seq::empty()
    } else {
        match heading_at(s, i) {
            Some(h) => seq![base_id(title_of(s, h), declared_id_of(s, h))] + requests_from(s, h.title_end + 5),
            None => requests_from(s, i + 1),
        }
    }
}

#[via_fn]
proof fn requests_from_decreases(s: Seq<char>, i: int) {
    lemma_heading_bounds(s, i);
}

/// The identifiers that the headings of `s[i..]` receive, in document order,
/// `seen` holding those asked for before `i`.
pub open spec fn ids_from(s: Seq<char>, i: int, seen: Seq<Seq<char>>) -> Seq<Seq<char>>
    decreases s.len() - i
    via ids_from_decreases
{
    if i < 0 || i >= s.len() {
        Seq::empty()
    } else {
        match heading_at(s, i) {
            Some(h) => {
                let base = base_id(title_of(s, h), declared_id_of(s, h));
                seq![unique_id(base, seen)] + ids_from(s, h.title_end + 5, seen.push(base))
            },
            None => ids_from(s, i + 1, seen),
        }
    }
}

#[via_fn]
proof fn ids_from_decreases(s: Seq<char>, i: int, seen: Seq<Seq<char>>) {
    lemma_heading_bounds(s, i);
}

/// `s[i..]` with its headings rewritten into self-linking headings that take
/// the identifiers `ids`, the first heading the first identifier, and so on;
/// everything else kept.
pub open spec fn placed_from(s: Seq<char>, i: int, ids: Seq<Seq<char>>) -> Seq<char>
    decreases s.len() - i
    via placed_from_decreases
{
    if i < 0 || i >= s.len() {
        Seq::empty()
    } else {
        match heading_at(s, i) {
            Some(h) => heading_html(h.level as nat, ids[0], title_of(s, h)) + placed_from(
                s,
                h.title_end + 5,
                ids.drop_first(),
            ),
            None => seq![s[i]] + placed_from(s, i + 1, ids),
        }
    }
}

#[via_fn]
proof fn placed_from_decreases(s: Seq<char>, i: int, ids: Seq<Seq<char>>) {
    lemma_heading_bounds(s, i);
}

proof fn lemma_linked_placed(s: Seq<char>, i: int, seen: Seq<Seq<char>>)
    ensures
        linked_from(s, i, seen) == placed_from(s, i, ids_from(s, i, seen)),
    decreases s.len() - i,
{
    if 0 <= i < s.len() {
        lemma_heading_bounds(s, i);
        match heading_at(s, i) {
            Some(h) => {
                let base = base_id(title_of(s, h), declared_id_of(s, h));
                let rest = ids_from(s, h.title_end + 5, seen.push(base));
                lemma_linked_placed(s, h.title_end + 5, seen.push(base));
                assert((seq![unique_id(base, seen)] + rest).drop_first() =~= rest);
            },
            None => {
                lemma_linked_placed(s, i + 1, seen);
            },
        }
    }
}

proof fn lemma_ids_requests(s: Seq<char>, i: int, seen: Seq<Seq<char>>)
    ensures
        ids_from(s, i, seen).len() == requests_from(s, i).len(),
        forall|k: int|
            0 <= k < ids_from(s, i, seen).len() ==> #[trigger] ids_from(s, i, seen)[k] == unique_id(
                requests_from(s, i)[k],
                seen + requests_from(s, i).subrange(0, k),
            ),
    decreases s.len() - i,
{
    if 0 <= i < s.len() {
        lemma_heading_bounds(s, i);
        match heading_at(s, i) {
            Some(h) => {
                let base = base_id(title_of(s, h), declared_id_of(s, h));
                let next = h.title_end + 5;
                lemma_ids_requests(s, next, seen.push(base));
                let req = requests_from(s, i);
                let req2 = requests_from(s, next);
                let ids = ids_from(s, i, seen);
                assert forall|k: int| 0 <= k < ids.len() implies #[trigger] ids[k] == unique_id(
                    req[k],
                    seen + req.subrange(0, k),
                ) by {
                    if k == 0 {
                        assert(seen + req.subrange(0, 0) =~= seen);
                    } else {
                        assert(ids[k] == ids_from(s, next, seen.push(base))[k - 1]);
                        assert(req[k] == req2[k - 1]);
                        assert(seen + req.subrange(0, k) =~= seen.push(base) + req2.subrange(0, k - 1));
                    }
                }
            },
            None => {
                lemma_ids_requests(s, i + 1, seen);
            },
        }
    }
}

proof fn lemma_occurrences_prefix(r: Seq<Seq<char>>, x: Seq<char>, j: int, k: int)
    requires
        0 <= j <= k <= r.len(),
    ensures
        occurrences(r.subrange(0, j), x) <= occurrences(r.subrange(0, k), x),
        j < k && r[j] == x ==> occurrences(r.subrange(0, j), x) < occurrences(r.subrange(0, k), x),
    decreases k - j,
{
    if j < k {
        lemma_occurrences_prefix(r, x, j, k - 1);
        assert(r.subrange(0, k).drop_last() =~= r.subrange(0, k - 1));
        if j == k - 1 {
            assert(r.subrange(0, k).last() == r[j]);
        }
    }
}

/// The headings of a text, in document order, each receive the identifier
/// they ask for (their declared one, or the one derived from their text)
/// the first time, and with `-N` appended the (N+1)-th time: N headings that
/// ask for `d` receive `d`, `d-1`, ..., `d-(N-1)`. The rewritten text places
/// these identifiers on the headings in order, and headings that ask for the
/// same identifier receive pairwise different ones.
pub proof fn lemma_heading_ids(s: Seq<char>)
    ensures
        linked(s) == placed_from(s, 0, ids_from(s, 0, Seq::empty())),
        ids_from(s, 0, Seq::empty()).len() == requests_from(s, 0).len(),
        forall|k: int|
            0 <= k < requests_from(s, 0).len() ==> {
                let d = requests_from(s, 0)[k];
                let n = occurrences(requests_from(s, 0).subrange(0, k), d);
                #[trigger] ids_from(s, 0, Seq::empty())[k] == if n == 0 {
                    d
                } else {
                    d + seq!['-'] + decimal(n)
                }
            },
        forall|j: int, k: int|
            0 <= j < k < requests_from(s, 0).len() && requests_from(s, 0)[j] == requests_from(s, 0)[k]
                ==> ids_from(s, 0, Seq::empty())[j] != ids_from(s, 0, Seq::empty())[k],
{
    let req = requests_from(s, 0);
    let ids = ids_from(s, 0, Seq::empty());
    lemma_linked_placed(s, 0, Seq::empty());
    lemma_ids_requests(s, 0, Seq::empty());
    assert forall|k: int| 0 <= k < req.len() implies #[trigger] ids[k] == unique_id(req[k], req.subrange(0, k)) by {
        assert(Seq::<Seq<char>>::empty() + req.subrange(0, k) =~= req.subrange(0, k));
    }
    assert forall|j: int, k: int| 0 <= j < k < req.len() && req[j] == req[k] implies ids[j] != ids[k] by {
        assert(ids[j] == unique_id(req[j], req.subrange(0, j)));
        assert(ids[k] == unique_id(req[k], req.subrange(0, k)));
        lemma_occurrences_prefix(req, req[k], j, k);
        lemma_same_base_distinct_ids(req[k], req.subrange(0, j), req.subrange(0, k));
    }
}

} // verus!
