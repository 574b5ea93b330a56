//! The metadata a document declares, and how a front-matter table becomes one.
use vstd::prelude::*;
use crate::strutil::chars_of;

verus! {

/// A calendar date.
#[derive(Clone, Copy, Debug, PartialEq, Eq, Structural)]
pub struct Date {
    pub year: i32,
    pub month: u32,
    pub day: u32,
}

/// The calendar date that a text names under chrono's `%Y-%m-%d` parsing
/// (which also admits signed or longer years, unpadded fields and spaces):
/// year, month and day, if the text names a date that exists.
pub uninterp spec fn iso_date_of(s: Seq<char>) -> Option<(i32, u32, u32)>;

pub open spec fn date_view(d: Date) -> (i32, u32, u32) {
    (d.year, d.month, d.day)
}

/// Relies on chrono's `FromStr` for `NaiveDate` (year, month and day joined by
/// `-`): the date that `s` names, if any; chrono gives months from 1 to 12 and
/// days from 1 to 31.
#[verifier::external_body]
pub(crate) fn parse_date(s: &str) -> (r: Option<Date>)
    ensures
        match r {
            Some(d) => iso_date_of(s@) == Some(date_view(d)) && 1 <= d.month <= 12 && 1 <= d.day <= 31,
            None => iso_date_of(s@) is None,
        },
{
    match s.parse::<chrono::NaiveDate>() {
        Ok(d) => Some(
            Date {
                year: chrono::Datelike::year(&d),
                month: chrono::Datelike::month(&d),
                day: chrono::Datelike::day(&d),
            },
        ),
        Err(_) => None,
    }
}

/// One top-level entry of a front-matter table: its key, and its value if
/// the value is a string, a boolean, or an integer.
pub struct TableEntry {
    pub key: String,
    pub text: Option<String>,
    pub flag: Option<bool>,
    pub number: Option<i64>,
}

pub type EntryView = (Seq<char>, Option<Seq<char>>, Option<bool>, Option<i64>);

pub open spec fn opt_string_view(o: Option<String>) -> Option<Seq<char>> {
    match o {
        Some(s) => Some(s@),
        None => None,
    }
}

impl View for TableEntry {
    type V = EntryView;

    open spec fn view(&self) -> EntryView {
        (self.key@, opt_string_view(self.text), self.flag, self.number)
    }
}

pub open spec fn entries_view(v: Seq<TableEntry>) -> Seq<EntryView> {
    v.map_values(|e: TableEntry| e@)
}

/// The top-level entries of a TOML document, if the text is one.
pub uninterp spec fn toml_entries_of(s: Seq<char>) -> Option<Seq<EntryView>>;

/// Relies on `toml::from_str` into a `toml::Table`: the entries of the table
/// that `s` holds, or `None` where `s` is no TOML document.
#[verifier::external_body]
pub(crate) fn toml_entries(s: &str) -> (r: Option<Vec<TableEntry>>)
    ensures
        match r {
            Some(v) => toml_entries_of(s@) == Some(entries_view(v@)),
            None => toml_entries_of(s@) is None,
        },
{
    match toml::from_str::<toml::Table>(s) {
        Ok(t) => Some(
            t.into_iter().map(
                |(k, v)| TableEntry { key: k, text: v.as_str().map(String::from), flag: v.as_bool(), number: v.as_integer() },
            ).collect(),
        ),
        Err(_) => None,
    }
}

/// The properties a document declares.
#[derive(PartialEq, Eq, Debug, Clone)]
pub struct Metadata {
    pub page: Option<bool>,
    pub title: String,
    pub author: Option<String>,
    pub date: Option<Date>,
    pub update_date: Option<Date>,
    pub slug: Option<String>,
    pub math: Option<bool>,
    pub draft: Option<bool>,
    pub template: Option<String>,
    pub toc: Option<bool>,
    pub toc_depth: Option<usize>,
}

impl Default for Metadata {
    fn default() -> (r: Metadata)
        ensures
            r.title@ == Seq::<char>::empty(),
            r.page is None && r.author is None && r.date is None && r.update_date is None,
            r.slug is None && r.math is None && r.draft is None && r.template is None,
            r.toc is None && r.toc_depth is None,
    {
        Metadata {
            page: None,
            title: String::new(),
            author: None,
            date: None,
            update_date: None,
            slug: None,
            math: None,
            draft: None,
            template: None,
            toc: None,
            toc_depth: None,
        }
    }
}

/// The properties of the front-matter table, and how each is written.
#[derive(Clone, Copy, PartialEq, Eq, Structural)]
pub enum Field {
    Page,
    Title,
    Author,
    Date,
    UpdateDate,
    Slug,
    Math,
    Draft,
    Template,
    Toc,
    TocDepth,
}

pub open spec fn field_named(key: Seq<char>) -> Option<Field> {
    if key == "page"@ {
        Some(Field::Page)
    } else if key == "title"@ {
        Some(Field::Title)
    } else if key == "author"@ {
        Some(Field::Author)
    } else if key == "date"@ {
        Some(Field::Date)
    } else if key == "update_date"@ {
        Some(Field::UpdateDate)
    } else if key == "slug"@ {
        Some(Field::Slug)
    } else if key == "math"@ {
        Some(Field::Math)
    } else if key == "draft"@ {
        Some(Field::Draft)
    } else if key == "template"@ {
        Some(Field::Template)
    } else if key == "toc"@ {
        Some(Field::Toc)
    } else if key == "toc_depth"@ {
        Some(Field::TocDepth)
    } else {
        None
    }
}

/// Whether the value of an entry for `f` has the form `f` takes: a boolean
/// for a flag, a string naming a date for a date, a string otherwise.
pub open spec fn value_fits(f: Field, e: EntryView) -> bool {
    match f {
        Field::Page | Field::Math | Field::Draft | Field::Toc => e.2 is Some,
        Field::TocDepth => e.3 matches Some(n) && 1 <= n <= 9,
        Field::Date | Field::UpdateDate => e.1 is Some && iso_date_of(e.1->0) is Some,
        _ => e.1 is Some,
    }
}

pub open spec fn entry_fits(e: EntryView) -> bool {
    match field_named(e.0) {
        Some(f) => value_fits(f, e),
        None => false,
    }
}

/// The first entry of `es` that names no property or gives one a value of
/// the wrong form.
pub open spec fn first_misfit(es: Seq<EntryView>) -> Option<int>
    decreases es.len(),
{
    if es.len() == 0 {
        None
    } else {
        match first_misfit(es.drop_last()) {
            Some(j) => Some(j),
            None => if entry_fits(es.last()) { None } else { Some(es.len() - 1) },
        }
    }
}

/// The last entry of `es` for the key `key`.
pub open spec fn lookup(es: Seq<EntryView>, key: Seq<char>) -> Option<EntryView>
    decreases es.len(),
{
    if es.len() == 0 {
        None
    } else if es.last().0 == key {
        Some(es.last())
    } else {
        lookup(es.drop_last(), key)
    }
}

pub open spec fn text_field(es: Seq<EntryView>, key: Seq<char>) -> Option<Seq<char>> {
    match lookup(es, key) {
        Some(e) => e.1,
        None => None,
    }
}

pub open spec fn flag_field(es: Seq<EntryView>, key: Seq<char>) -> Option<bool> {
    match lookup(es, key) {
        Some(e) => e.2,
        None => None,
    }
}

/// The depth limit of a table of contents that the entries give.
pub open spec fn depth_field(es: Seq<EntryView>) -> Option<int> {
    match lookup(es, "toc_depth"@) {
        Some(e) => match e.3 {
            Some(n) => Some(n as int),
            None => None,
        },
        None => None,
    }
}

pub open spec fn opt_depth_view(d: Option<usize>) -> Option<int> {
    match d {
        Some(x) => Some(x as int),
        None => None,
    }
}

pub open spec fn date_field(es: Seq<EntryView>, key: Seq<char>) -> Option<(i32, u32, u32)> {
    match text_field(es, key) {
        Some(t) => iso_date_of(t),
        None => None,
    }
}

pub open spec fn opt_date_view(d: Option<Date>) -> Option<(i32, u32, u32)> {
    match d {
        Some(x) => Some(date_view(x)),
        None => None,
    }
}

/// Each property of `m` holds what the entries give it; the title is empty
/// where none is given.
pub open spec fn metadata_from(m: Metadata, es: Seq<EntryView>) -> bool {
    &&& m.page == flag_field(es, "page"@)
    &&& m.title@ == (match text_field(es, "title"@) {
        Some(t) => t,
        None => Seq::empty(),
    })
    &&& opt_string_view(m.author) == text_field(es, "author"@)
    &&& opt_date_view(m.date) == date_field(es, "date"@)
    &&& opt_date_view(m.update_date) == date_field(es, "update_date"@)
    &&& opt_string_view(m.slug) == text_field(es, "slug"@)
    &&& m.math == flag_field(es, "math"@)
    &&& m.draft == flag_field(es, "draft"@)
    &&& opt_string_view(m.template) == text_field(es, "template"@)
    &&& m.toc == flag_field(es, "toc"@)
    &&& opt_depth_view(m.toc_depth) == depth_field(es)
}

/// Why a document's source could not be read into metadata and a body.
#[derive(PartialEq, Eq, Debug, Clone)]
pub enum ParseError {
    /// The front matter is no TOML table.
    Syntax,
    /// An entry names no property.
    UnknownKey(String),
    /// An entry gives a property a value of the wrong form.
    InvalidValue(String),
    /// No entry gives a title, or the title is empty.
    MissingTitle,
}

fn same_chars(a: &Vec<char>, b: &Vec<char>) -> (r: bool)
    ensures
        r == (a@ == b@),
{
    if a.len() != b.len() {
        return false;
    }
    let mut k: usize = 0;
    while k < a.len()
        invariant
            a@.len() == b@.len(),
            k <= a@.len(),
            forall|j: int| 0 <= j < k ==> a@[j] == b@[j],
        decreases a.len() - k,
    {
        if a[k] != b[k] {
            return false;
        }
        k = k + 1;
    }
    assert(a@ =~= b@);
    true
}

/// Whether `a` and `b` hold the same characters.
pub(crate) fn str_eq(a: &str, b: &str) -> (r: bool)
    ensures
        r == (a@ == b@),
{
    same_chars(&chars_of(a), &chars_of(b))
}

fn field_of(key: &str) -> (r: Option<Field>)
    ensures
        r == field_named(key@),
{
    if str_eq(key, "page") {
        Some(Field::Page)
    } else if str_eq(key, "title") {
        Some(Field::Title)
    } else if str_eq(key, "author") {
        Some(Field::Author)
    } else if str_eq(key, "date") {
        Some(Field::Date)
    } else if str_eq(key, "update_date") {
        Some(Field::UpdateDate)
    } else if str_eq(key, "slug") {
        Some(Field::Slug)
    } else if str_eq(key, "math") {
        Some(Field::Math)
    } else if str_eq(key, "draft") {
        Some(Field::Draft)
    } else if str_eq(key, "template") {
        Some(Field::Template)
    } else if str_eq(key, "toc") {
        Some(Field::Toc)
    } else if str_eq(key, "toc_depth") {
        Some(Field::TocDepth)
    } else {
        None
    }
}

proof fn lemma_literals_differ()
    ensures
        "page"@ != "title"@, "page"@ != "author"@, "page"@ != "date"@, "page"@ != "update_date"@,
        "page"@ != "slug"@, "page"@ != "math"@, "page"@ != "draft"@, "page"@ != "template"@,
        "title"@ != "author"@, "title"@ != "date"@, "title"@ != "update_date"@, "title"@ != "slug"@,
        "title"@ != "math"@, "title"@ != "draft"@, "title"@ != "template"@,
        "author"@ != "date"@, "author"@ != "update_date"@, "author"@ != "slug"@, "author"@ != "math"@,
        "author"@ != "draft"@, "author"@ != "template"@,
        "date"@ != "update_date"@, "date"@ != "slug"@, "date"@ != "math"@, "date"@ != "draft"@,
        "date"@ != "template"@,
        "update_date"@ != "slug"@, "update_date"@ != "math"@, "update_date"@ != "draft"@,
        "update_date"@ != "template"@,
        "slug"@ != "math"@, "slug"@ != "draft"@, "slug"@ != "template"@,
        "math"@ != "draft"@, "math"@ != "template"@,
        "draft"@ != "template"@,
        "toc"@ != "page"@, "toc"@ != "title"@, "toc"@ != "author"@, "toc"@ != "date"@, "toc"@ != "update_date"@,
        "toc"@ != "slug"@, "toc"@ != "math"@, "toc"@ != "draft"@, "toc"@ != "template"@, "toc"@ != "toc_depth"@,
        "toc_depth"@ != "page"@, "toc_depth"@ != "title"@, "toc_depth"@ != "author"@, "toc_depth"@ != "date"@,
        "toc_depth"@ != "update_date"@, "toc_depth"@ != "slug"@, "toc_depth"@ != "math"@, "toc_depth"@ != "draft"@,
        "toc_depth"@ != "template"@,
{
    reveal_strlit("toc");
    reveal_strlit("toc_depth");
    assert("toc"@.len() != "toc_depth"@.len());
    reveal_strlit("page");
    reveal_strlit("title");
    reveal_strlit("author");
    reveal_strlit("date");
    reveal_strlit("update_date");
    reveal_strlit("slug");
    reveal_strlit("math");
    reveal_strlit("draft");
    reveal_strlit("template");
    assert("page"@[0] != "title"@[0]);
    assert("page"@[0] != "author"@[0]);
    assert("page"@[0] != "date"@[0]);
    assert("page"@[0] != "update_date"@[0]);
    assert("page"@[0] != "slug"@[0]);
    assert("page"@[0] != "math"@[0]);
    assert("page"@[0] != "draft"@[0]);
    assert("page"@[0] != "template"@[0]);
    assert("title"@[0] != "author"@[0]);
    assert("title"@[0] != "date"@[0]);
    assert("title"@[0] != "update_date"@[0]);
    assert("title"@[0] != "slug"@[0]);
    assert("title"@[0] != "math"@[0]);
    assert("title"@.len() != "draft"@.len() || "title"@[0] != "draft"@[0]);
    assert("title"@[1] != "template"@[1]);
    assert("author"@[0] != "date"@[0]);
    assert("author"@[0] != "update_date"@[0]);
    assert("author"@[0] != "slug"@[0]);
    assert("author"@[0] != "math"@[0]);
    assert("author"@[0] != "draft"@[0]);
    assert("author"@[0] != "template"@[0]);
    assert("date"@[0] != "update_date"@[0]);
    assert("date"@[0] != "slug"@[0]);
    assert("date"@[0] != "math"@[0]);
    assert("date"@[1] != "draft"@[1]);
    assert("date"@[0] != "template"@[0]);
    assert("update_date"@[0] != "slug"@[0]);
    assert("update_date"@[0] != "math"@[0]);
    assert("update_date"@[0] != "draft"@[0]);
    assert("update_date"@[0] != "template"@[0]);
    assert("slug"@[0] != "math"@[0]);
    assert("slug"@[0] != "draft"@[0]);
    assert("slug"@[0] != "template"@[0]);
    assert("math"@[0] != "draft"@[0]);
    assert("math"@[0] != "template"@[0]);
    assert("draft"@[0] != "template"@[0]);
}

proof fn lemma_lookup_push(es: Seq<EntryView>, e: EntryView, key: Seq<char>)
    ensures
        lookup(es.push(e), key) == if e.0 == key { Some(e) } else { lookup(es, key) },
{
    assert(es.push(e).drop_last() =~= es);
}

/// Gives `m` the property that the entry `e` (for the property `f`) sets;
/// false, with `m` unchanged, where the value has the wrong form.
fn apply_entry(m: &mut Metadata, e: &TableEntry, f: Field, Ghost(es): Ghost<Seq<EntryView>>) -> (ok: bool)
    requires
        field_named(e@.0) == Some(f),
        metadata_from(*old(m), es),
    ensures
        ok == value_fits(f, e@),
        ok ==> metadata_from(*final(m), es.push(e@)),
{
    proof {
        lemma_literals_differ();
        lemma_lookup_push(es, e@, "page"@);
        lemma_lookup_push(es, e@, "title"@);
        lemma_lookup_push(es, e@, "author"@);
        lemma_lookup_push(es, e@, "date"@);
        lemma_lookup_push(es, e@, "update_date"@);
        lemma_lookup_push(es, e@, "slug"@);
        lemma_lookup_push(es, e@, "math"@);
        lemma_lookup_push(es, e@, "draft"@);
        lemma_lookup_push(es, e@, "template"@);
        lemma_lookup_push(es, e@, "toc"@);
        lemma_lookup_push(es, e@, "toc_depth"@);
    }
    match f {
        Field::Page | Field::Math | Field::Draft | Field::Toc => {
            match e.flag {
                Some(b) => {
                    match f {
                        Field::Page => m.page = Some(b),
                        Field::Math => m.math = Some(b),
                        Field::Draft => m.draft = Some(b),
                        _ => m.toc = Some(b),
                    }
                    true
                },
                None => false,
            }
        },
        Field::TocDepth => {
            match e.number {
                Some(n) => {
                    if 1 <= n && n <= 9 {
                        m.toc_depth = Some(n as usize);
                        true
                    } else {
                        false
                    }
                },
                None => false,
            }
        },
        Field::Date | Field::UpdateDate => {
            match &e.text {
                Some(t) => match parse_date(t.as_str()) {
                    Some(d) => {
                        match f {
                            Field::Date => m.date = Some(d),
                            _ => m.update_date = Some(d),
                        }
                        true
                    },
                    None => false,
                },
                None => false,
            }
        },
        _ => {
            match &e.text {
                Some(t) => {
                    let v = t.clone();
                    match f {
                        Field::Title => m.title = v,
                        Field::Author => m.author = Some(v),
                        Field::Slug => m.slug = Some(v),
                        _ => m.template = Some(v),
                    }
                    true
                },
                None => false,
            }
        },
    }
}

proof fn lemma_misfit_prefix(es: Seq<EntryView>, k: int, n: int)
    requires
        0 <= k <= n <= es.len(),
        first_misfit(es.subrange(0, k)) is Some,
    ensures
        first_misfit(es.subrange(0, n)) == first_misfit(es.subrange(0, k)),
    decreases n - k,
{
    if n > k {
        lemma_misfit_prefix(es, k, n - 1);
        assert(es.subrange(0, n).drop_last() =~= es.subrange(0, n - 1));
    }
}

/// Whether the entries give a title that is not empty.
pub open spec fn has_title(es: Seq<EntryView>) -> bool {
    text_field(es, "title"@) matches Some(t) && t.len() > 0
}

/// What reading the entries of a front-matter table gives: the metadata, or
/// the first entry that names no property or gives one a wrongly formed
/// value, or the want of a title.
pub open spec fn entries_outcome_ok(r: Result<Metadata, ParseError>, es: Seq<EntryView>) -> bool {
    match r {
        Ok(m) => first_misfit(es) is None && has_title(es) && metadata_from(m, es),
        Err(ParseError::UnknownKey(k)) => first_misfit(es) matches Some(j) && field_named(es[j].0) is None && k@
            == es[j].0,
        Err(ParseError::InvalidValue(k)) => first_misfit(es) matches Some(j) && field_named(es[j].0) is Some
            && k@ == es[j].0,
        Err(ParseError::MissingTitle) => first_misfit(es) is None && !has_title(es),
        Err(ParseError::Syntax) => false,
    }
}

impl Metadata {
    /// Reads the entries of a front-matter table into metadata.
    pub fn from_entries(entries: &Vec<TableEntry>) -> (r: Result<Metadata, ParseError>)
        ensures
            entries_outcome_ok(r, entries_view(entries@)),
    {
        let ghost ev = entries_view(entries@);
        let mut m = Metadata::default();
        let mut k: usize = 0;
        proof {
            assert(ev.subrange(0, 0) =~= Seq::<EntryView>::empty());
        }
        while k < entries.len()
            invariant
                ev == entries_view(entries@),
                k <= entries@.len(),
                first_misfit(ev.subrange(0, k as int)) is None,
                metadata_from(m, ev.subrange(0, k as int)),
            decreases entries.len() - k,
        {
            let e = &entries[k];
            proof {
                assert(ev[k as int] == e@);
                assert(ev.subrange(0, k + 1) =~= ev.subrange(0, k as int).push(e@));
                assert(ev.subrange(0, k + 1).drop_last() =~= ev.subrange(0, k as int));
            }
            match field_of(e.key.as_str()) {
                None => {
                    proof {
                        lemma_misfit_prefix(ev, k + 1, ev.len() as int);
                        assert(ev.subrange(0, ev.len() as int) =~= ev);
                    }
                    return Err(ParseError::UnknownKey(e.key.clone()));
                },
                Some(f) => {
                    if !apply_entry(&mut m, e, f, Ghost(ev.subrange(0, k as int))) {
                        proof {
                            lemma_misfit_prefix(ev, k + 1, ev.len() as int);
                            assert(ev.subrange(0, ev.len() as int) =~= ev);
                        }
                        return Err(ParseError::InvalidValue(e.key.clone()));
                    }
                },
            }
            k = k + 1;
        }
        proof {
            assert(ev.subrange(0, k as int) =~= ev);
        }
        if m.title.as_str().is_empty() {
            return Err(ParseError::MissingTitle);
        }
        Ok(m)
    }
}

/// What reading a TOML front-matter text gives.
pub open spec fn toml_outcome_ok(r: Result<Metadata, ParseError>, s: Seq<char>) -> bool {
    match toml_entries_of(s) {
        None => r matches Err(ParseError::Syntax),
        Some(es) => entries_outcome_ok(r, es),
    }
}

impl Metadata {
    /// Reads a TOML front-matter text into metadata.
    pub fn from_toml(s: &str) -> (r: Result<Metadata, ParseError>)
        ensures
            toml_outcome_ok(r, s@),
    {
        match toml_entries(s) {
            None => Err(ParseError::Syntax),
            Some(entries) => Metadata::from_entries(&entries),
        }
    }
}

impl std::str::FromStr for Metadata {
    type Err = ParseError;

    fn from_str(s: &str) -> Result<Metadata, ParseError> {
        Metadata::from_toml(s)
    }
}

} // verus!
