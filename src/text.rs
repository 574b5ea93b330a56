//! Transforms applied to a document body before markup rendering.
use vstd::prelude::*;
use crate::strutil::{chars_of, has_at};

verus! {

/// The column width of a character, as the Unicode width tables give it
/// (`None` for a control character).
pub uninterp spec fn display_width(c: char) -> Option<usize>;

/// Relies on `unicode_width::UnicodeWidthChar::width`: the displayed width of
/// `c` in columns, `None` for control characters; printable ASCII is one column.
#[verifier::external_body]
fn char_width(c: char) -> (r: Option<usize>)
    ensures
        r == display_width(c),
        (c as u32) < 0x20 ==> r is None,
        0x20 <= (c as u32) < 0x7f ==> r == Some(1usize),
{
    unicode_width::UnicodeWidthChar::width(c)
}

/// How the reflow scan sees one character.
#[derive(Clone, Copy)]
pub enum CharClass {
    Newline,
    Space,
    Wide,
    Narrow,
}

pub open spec fn class_of(c: char) -> CharClass {
    if c == '\n' {
        CharClass::Newline
    } else if c == ' ' {
        CharClass::Space
    } else {
        match display_width(c) {
            Some(w) => if w >= 2 { CharClass::Wide } else { CharClass::Narrow },
            None => CharClass::Narrow,
        }
    }
}

fn classify(c: char) -> (r: CharClass)
    ensures
        r == class_of(c),
{
    if c == '\n' {
        CharClass::Newline
    } else if c == ' ' {
        CharClass::Space
    } else {
        match char_width(c) {
            Some(w) => if w >= 2 { CharClass::Wide } else { CharClass::Narrow },
            None => CharClass::Narrow,
        }
    }
}

/// State of the reflow scan: after an ordinary character, right after a wide
/// character, or after a wide character followed by a line break and spaces
/// (which are held back).
#[derive(Clone, Copy)]
pub enum ReflowState {
    Plain,
    AfterWide,
    Held,
}

/// Output of the reflow scan over `s[i..]`, where `cls` gives the class of
/// each character, started in state `st` with the characters `held` held
/// back; a held line break at the end of the text is kept.
pub open spec fn reflow_from(s: Seq<char>, cls: Seq<CharClass>, i: int, st: ReflowState, held: Seq<char>) -> Seq<
    char,
>
    decreases s.len() - i,
{
    if i < 0 || i >= s.len() || i >= cls.len() {
        if st is Held { held } else { Seq::empty() }
    } else {
        let c = s[i];
        match st {
            ReflowState::Plain => match cls[i] {
                CharClass::Wide => seq![c] + reflow_from(s, cls, i + 1, ReflowState::AfterWide, Seq::empty()),
                _ => seq![c] + reflow_from(s, cls, i + 1, ReflowState::Plain, Seq::empty()),
            },
            ReflowState::AfterWide => match cls[i] {
                CharClass::Newline => reflow_from(s, cls, i + 1, ReflowState::Held, seq![c]),
                CharClass::Wide => seq![c] + reflow_from(s, cls, i + 1, ReflowState::AfterWide, Seq::empty()),
                _ => seq![c] + reflow_from(s, cls, i + 1, ReflowState::Plain, Seq::empty()),
            },
            ReflowState::Held => match cls[i] {
                CharClass::Space => reflow_from(s, cls, i + 1, ReflowState::Held, held.push(c)),
                CharClass::Wide => seq![c] + reflow_from(s, cls, i + 1, ReflowState::AfterWide, Seq::empty()),
                _ => held + seq![c] + reflow_from(s, cls, i + 1, ReflowState::Plain, Seq::empty()),
            },
        }
    }
}

/// The class of each character of `s`.
pub open spec fn classes_of(s: Seq<char>) -> Seq<CharClass> {
    s.map_values(|c: char| class_of(c))
}

/// The text with every line break that follows a wide character and precedes
/// another wide character removed, together with the spaces that indent the
/// continued line. Breaks followed by a narrow character, by a further line
/// break, or by nothing at the end of the text are kept as they are.
pub open spec fn reflowed(s: Seq<char>) -> Seq<char> {
    reflow_from(s, classes_of(s), 0, ReflowState::Plain, Seq::empty())
}

/// The reflow scan over `s`, given the class of each of its characters.
pub fn reflow_with_classes(s: &str, classes: &Vec<CharClass>) -> (r: String)
    requires
        classes@.len() == s@.len(),
    ensures
        r@ == reflow_from(s@, classes@, 0, ReflowState::Plain, Seq::empty()),
{
    let v = chars_of(s);
    let ghost cls = classes@;
    let mut out = String::new();
    let mut held = String::new();
    let mut st = ReflowState::Plain;
    let mut i: usize = 0;
    while i < v.len()
        invariant
            v@ == s@,
            cls == classes@,
            cls.len() == v@.len(),
            i <= v@.len(),
            out@ + reflow_from(v@, cls, i as int, st, held@) == reflow_from(s@, cls, 0, ReflowState::Plain, Seq::empty()),
        decreases v.len() - i,
    {
        let c = v[i];
        let ghost st0 = st;
        let ghost held0 = held@;
        let ghost out0 = out@;
        match st {
            ReflowState::Plain => {
                out.push(c);
                st = match classes[i] {
                    CharClass::Wide => ReflowState::AfterWide,
                    _ => ReflowState::Plain,
                };
                held = String::new();
            },
            ReflowState::AfterWide => {
                match classes[i] {
                    CharClass::Newline => {
                        held = String::new();
                        held.push(c);
                        st = ReflowState::Held;
                    },
                    CharClass::Wide => {
                        out.push(c);
                        held = String::new();
                    },
                    _ => {
                        out.push(c);
                        held = String::new();
                        st = ReflowState::Plain;
                    },
                }
            },
            ReflowState::Held => {
                match classes[i] {
                    CharClass::Space => {
                        held.push(c);
                    },
                    CharClass::Wide => {
                        out.push(c);
                        held = String::new();
                        st = ReflowState::AfterWide;
                    },
                    _ => {
                        out.append(held.as_str());
                        out.push(c);
                        held = String::new();
                        st = ReflowState::Plain;
                    },
                }
            },
        }
        proof {
            let step = out@.subrange(out0.len() as int, out@.len() as int);
            assert(out@ == out0 + step);
            assert(reflow_from(v@, cls, i as int, st0, held0) == step + reflow_from(v@, cls, i + 1, st, held@));
            assert(out@ + reflow_from(v@, cls, i + 1, st, held@) =~= out0 + reflow_from(v@, cls, i as int, st0, held0));
        }
        i = i + 1;
    }
    match st {
        ReflowState::Held => {
            out.append(held.as_str());
        },
        _ => {},
    }
    proof {
        assert(out@ =~= reflow_from(s@, cls, 0, ReflowState::Plain, Seq::empty()));
    }
    out
}

/// Joins lines hard-wrapped after wide (CJK) characters.
pub fn remove_newline_between_cjk(s: &str) -> (r: String)
    ensures
        r@ == reflowed(s@),
{
    let v = chars_of(s);
    let mut classes: Vec<CharClass> = Vec::new();
    let mut i: usize = 0;
    while i < v.len()
        invariant
            v@ == s@,
            i <= v@.len(),
            classes@ == v@.subrange(0, i as int).map_values(|c: char| class_of(c)),
        decreases v.len() - i,
    {
        classes.push(classify(v[i]));
        i = i + 1;
        assert(classes@ =~= v@.subrange(0, i as int).map_values(|c: char| class_of(c)));
    }
    assert(v@.subrange(0, v@.len() as int) =~= v@);
    reflow_with_classes(s, &classes)
}

/// `s[i..]` with each occurrence of `pat` replaced by `rep`, occurrences taken
/// from the left and without overlap.
pub open spec fn replaced_from(s: Seq<char>, i: int, pat: Seq<char>, rep: Seq<char>) -> Seq<char>
    decreases s.len() - i,
{
    if i < 0 || i >= s.len() {
        Seq::empty()
    } else if pat.len() > 0 && i + pat.len() <= s.len() && s.subrange(i, i + pat.len()) == pat {
        rep + replaced_from(s, i + pat.len(), pat, rep)
    } else {
        seq![s[i]] + replaced_from(s, i + 1, pat, rep)
    }
}

/// A formatter's "ignore the next block" marker line standing between a line
/// break and a code fence.
pub open spec fn ignore_marker_before_fence() -> Seq<char> {
    "\n<!-- prettier-ignore -->\n```"@
}

/// What the marker and the line breaks around it become: one line break
/// before the fence.
pub open spec fn bare_fence() -> Seq<char> {
    "\n```"@
}

/// Replaces every occurrence of `pat` (non-empty) in `v` by `rep`.
fn replace_all(v: &Vec<char>, pat: &Vec<char>, rep: &str) -> (r: String)
    requires
        pat@.len() > 0,
    ensures
        r@ == replaced_from(v@, 0, pat@, rep@),
{
    let mut out = String::new();
    let mut i: usize = 0;
    while i < v.len()
        invariant
            pat@.len() > 0,
            i <= v@.len(),
            out@ + replaced_from(v@, i as int, pat@, rep@) == replaced_from(v@, 0, pat@, rep@),
        decreases v.len() - i,
    {
        let ghost out0 = out@;
        let ghost i0 = i as int;
        if has_at(v, i, pat) {
            out.append(rep);
            i = i + pat.len();
        } else {
            out.push(v[i]);
            i = i + 1;
        }
        assert(out@ + replaced_from(v@, i as int, pat@, rep@) =~= out0 + replaced_from(v@, i0, pat@, rep@));
    }
    out
}

/// Removes a formatter's ignore marker line that directly precedes a code
/// fence, leaving a single line break before the fence.
pub fn remove_prettier_ignore_preceeding_code_block(s: &str) -> (r: String)
    ensures
        r@ == replaced_from(s@, 0, ignore_marker_before_fence(), bare_fence()),
{
    let v = chars_of(s);
    let pat = chars_of("\n<!-- prettier-ignore -->\n```");
    proof {
        reveal_strlit("\n<!-- prettier-ignore -->\n```");
    }
    replace_all(&v, &pat, "\n```")
}

} // verus!
