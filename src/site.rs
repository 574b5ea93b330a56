//! A site build: where each document's page goes, the entries built from
//! documents, the site-wide configuration, and the decisions of a build
//! (which documents are articles, the date check, draft filtering, ordering,
//! and the index of articles by year).
use vstd::prelude::*;
use vstd::multiset::Multiset;
use crate::document::{Markdown, Org, markdown_html_of, markdown_prepared, org_html_of};
use crate::html::{build_toc, linked, toc_of};
use crate::metadata::{Date, Metadata, ParseError, opt_string_view, str_eq, toml_entries,
    toml_entries_of, EntryView, entries_view};
use crate::strutil::{chars_of, string_of, sub_vec};
use crate::text::reflowed;

verus! {

broadcast use vstd::seq_lib::group_to_multiset_ensures;

/// The position of the last `c` among the first `n` characters of `s`, or -1.
pub open spec fn last_index_before(s: Seq<char>, c: char, n: int) -> int
    decreases n,
{
    if n <= 0 || n > s.len() {
        -1
    } else if s[n - 1] == c {
        n - 1
    } else {
        last_index_before(s, c, n - 1)
    }
}

/// The last component of a slash-separated path.
pub open spec fn file_name(p: Seq<char>) -> Seq<char> {
    let t = without_tail(p);
    t.subrange(last_index_before(t, '/', t.len() as int) + 1, t.len() as int)
}

/// A path without the trailing slashes and `.` components that name no
/// further component.
pub open spec fn without_tail(p: Seq<char>) -> Seq<char>
    decreases p.len(),
{
    if p.len() >= 1 && p.last() == '/' {
        without_tail(p.drop_last())
    } else if p.len() >= 2 && p.last() == '.' && p[p.len() - 2] == '/' {
        without_tail(p.subrange(0, p.len() - 2))
    } else {
        p
    }
}

/// The directory part of a slash-separated path: what stands before its last
/// slash (empty where there is none).
pub open spec fn dir_of(p: Seq<char>) -> Seq<char> {
    let k = last_index_before(p, '/', p.len() as int);
    if k < 0 { Seq::empty() } else { p.subrange(0, k) }
}

/// Whether the last component of a path has an extension: a dot after its
/// first character (the component `..` has none).
pub open spec fn has_extension(p: Seq<char>) -> bool {
    let name = file_name(p);
    last_index_before(name, '.', name.len() as int) > 0 && name != ".."@
}

/// The last component of a path without its extension.
pub open spec fn file_stem(p: Seq<char>) -> Seq<char> {
    let name = file_name(p);
    if has_extension(p) {
        name.subrange(0, last_index_before(name, '.', name.len() as int))
    } else {
        name
    }
}

/// The URL of a slug: empty for an empty slug or `index`; the slug itself
/// where it ends with a slash or has an extension; else the slug and a slash.
pub open spec fn url_of_slug(slug: Seq<char>) -> Seq<char> {
    if slug.len() == 0 || slug == "index"@ {
        Seq::empty()
    } else if slug.last() == '/' {
        slug
    } else if !has_extension(slug) {
        slug.push('/')
    } else {
        slug
    }
}

/// The output file of a URL: the URL itself, or `index.html` inside it where
/// the URL is empty or ends with a slash.
pub open spec fn filename_of_url(url: Seq<char>) -> Seq<char> {
    if url.len() == 0 || url.last() == '/' {
        url + "index.html"@
    } else {
        url
    }
}

/// A path `rel` appended to the directory `dir`: `rel` alone where `dir` is
/// empty or `rel` is absolute.
pub open spec fn path_join(dir: Seq<char>, rel: Seq<char>) -> Seq<char> {
    if dir.len() == 0 || (rel.len() > 0 && rel[0] == '/') {
        rel
    } else {
        dir + seq!['/'] + rel
    }
}

fn last_index(v: &Vec<char>, c: char, n: usize) -> (r: Option<usize>)
    requires
        n <= v@.len(),
    ensures
        match r {
            Some(k) => last_index_before(v@, c, n as int) == k && k < n,
            None => last_index_before(v@, c, n as int) == -1,
        },
{
    let mut k = n;
    while k > 0
        invariant
            k <= n <= v@.len(),
            last_index_before(v@, c, n as int) == last_index_before(v@, c, k as int),
        decreases k,
    {
        if v[k - 1] == c {
            return Some(k - 1);
        }
        k = k - 1;
    }
    None
}

fn is_dot_dot(name: &Vec<char>) -> (r: bool)
    ensures
        r == (name@ == ".."@),
{
    proof {
        reveal_strlit("..");
    }
    if name.len() == 2 && name[0] == '.' && name[1] == '.' {
        assert(name@ =~= ".."@);
        true
    } else {
        false
    }
}

/// The last component of the path `v`, and where it starts.
fn name_of(v: &Vec<char>) -> (r: Vec<char>)
    ensures
        r@ == file_name(v@),
{
    let mut k = v.len();
    assert(v@.subrange(0, k as int) =~= v@);
    while (k >= 1 && v[k - 1] == '/') || (k >= 2 && v[k - 1] == '.' && v[k - 2] == '/')
        invariant
            k <= v@.len(),
            without_tail(v@) == without_tail(v@.subrange(0, k as int)),
        decreases k,
    {
        let ghost t = v@.subrange(0, k as int);
        if v[k - 1] == '/' {
            assert(t.drop_last() =~= v@.subrange(0, k - 1));
            k = k - 1;
        } else {
            assert(t.subrange(0, t.len() - 2) =~= v@.subrange(0, k - 2));
            k = k - 2;
        }
    }
    let t = sub_vec(v, 0, k);
    let start = match last_index(&t, '/', t.len()) {
        Some(j) => j + 1,
        None => 0,
    };
    sub_vec(&t, start, t.len())
}

fn vec_has_extension(v: &Vec<char>) -> (r: bool)
    ensures
        r == has_extension(v@),
{
    let name = name_of(v);
    match last_index(&name, '.', name.len()) {
        Some(d) => d > 0 && !is_dot_dot(&name),
        None => false,
    }
}

/// The URL of a slug (see `url_of_slug`).
pub fn slug_to_url(slug: &str) -> (r: String)
    ensures
        r@ == url_of_slug(slug@),
{
    let v = chars_of(slug);
    if v.len() == 0 || str_eq(slug, "index") {
        return String::new();
    }
    let mut r = string_of(&v, 0, v.len());
    proof {
        assert(v@.subrange(0, v@.len() as int) =~= v@);
    }
    if v[v.len() - 1] != '/' && !vec_has_extension(&v) {
        r.push('/');
    }
    r
}

/// The output file of a URL (see `filename_of_url`).
pub fn url_to_filename(url: &str) -> (r: String)
    ensures
        r@ == filename_of_url(url@),
{
    let v = chars_of(url);
    let mut r = string_of(&v, 0, v.len());
    proof {
        assert(v@.subrange(0, v@.len() as int) =~= v@);
    }
    if v.len() == 0 || v[v.len() - 1] == '/' {
        r.append("index.html");
    }
    r
}

/// A Markdown document and its path relative to the source directory.
pub struct MarkdownFile {
    pub relative_path: String,
    pub markdown: Markdown,
}

/// An Org document and its path relative to the source directory.
pub struct OrgFile {
    pub relative_path: String,
    pub org: Org,
}

/// A document found in the source directory, in either dialect.
pub enum SourceFile {
    Markdown(MarkdownFile),
    Org(OrgFile),
}

/// The path of a source document.
pub open spec fn source_path(src: SourceFile) -> Seq<char> {
    match src {
        SourceFile::Markdown(f) => f.relative_path@,
        SourceFile::Org(f) => f.relative_path@,
    }
}

/// The metadata of a source document.
pub open spec fn source_metadata(src: SourceFile) -> Metadata {
    match src {
        SourceFile::Markdown(f) => f.markdown.metadata,
        SourceFile::Org(f) => f.org.metadata,
    }
}

/// The HTML body of a source document, as its dialect renders it.
pub open spec fn rendered_content(src: SourceFile) -> Seq<char> {
    match src {
        SourceFile::Markdown(f) => linked(markdown_html_of(markdown_prepared(f.markdown.content@))),
        SourceFile::Org(f) => linked(org_html_of(reflowed(f.org.content@))),
    }
}

pub open spec fn flag_or_false(b: Option<bool>) -> bool {
    match b {
        Some(x) => x,
        None => false,
    }
}

/// Whether a source document is a page rather than an article.
pub open spec fn is_page_source(src: SourceFile) -> bool {
    flag_or_false(source_metadata(src).page)
}

/// The slug of a document: the one its metadata gives, or else the stem of
/// its file name.
pub open spec fn slug_of(path: Seq<char>, declared: Option<Seq<char>>) -> Seq<char> {
    match declared {
        Some(s) => s,
        None => file_stem(path),
    }
}

/// A rendered document, ready to be written or listed.
#[derive(PartialEq, Eq, Debug)]
pub struct Article {
    pub title: String,
    pub slug: String,
    pub author: Option<String>,
    pub date: Option<Date>,
    pub update_date: Option<Date>,
    pub draft: bool,
    pub url: String,
    pub page: bool,
    pub math: bool,
    pub template: Option<String>,
    pub content: String,
    pub toc_html: Option<String>,
}

/// `a` is the entry built from `src`: the metadata copied, the slug
/// resolved, the URL made of the document's directory and the slug's URL,
/// the body rendered, and, where the metadata asks for one, the table of
/// contents of the rendered body up to the depth it gives.
pub open spec fn article_from(a: Article, src: SourceFile) -> bool {
    let m = source_metadata(src);
    let p = source_path(src);
    let slug = slug_of(p, opt_string_view(m.slug));
    &&& a.title@ == m.title@
    &&& a.slug@ == slug
    &&& opt_string_view(a.author) == opt_string_view(m.author)
    &&& a.date == m.date
    &&& a.update_date == m.update_date
    &&& a.draft == flag_or_false(m.draft)
    &&& a.url@ == path_join(dir_of(p), url_of_slug(slug))
    &&& a.page == flag_or_false(m.page)
    &&& a.math == flag_or_false(m.math)
    &&& opt_string_view(a.template) == opt_string_view(m.template)
    &&& a.content@ == rendered_content(src)
    &&& opt_string_view(a.toc_html) == if flag_or_false(m.toc) {
        Some(toc_of(rendered_content(src), m.toc_depth))
    } else {
        None
    }
}

fn stem_of(p: &Vec<char>) -> (r: String)
    ensures
        r@ == file_stem(p@),
{
    let name = name_of(p);
    if vec_has_extension(p) {
        let d = last_index(&name, '.', name.len());
        match d {
            Some(d) => string_of(&name, 0, d),
            None => string_of(&name, 0, name.len()),
        }
    } else {
        let r = string_of(&name, 0, name.len());
        assert(name@.subrange(0, name@.len() as int) =~= name@);
        r
    }
}

fn url_for(p: &Vec<char>, slug: &str) -> (r: String)
    ensures
        r@ == path_join(dir_of(p@), url_of_slug(slug@)),
{
    let u = slug_to_url(slug);
    let uv = chars_of(u.as_str());
    match last_index(p, '/', p.len()) {
        Some(k) => {
            if k == 0 || (uv.len() > 0 && uv[0] == '/') {
                u
            } else {
                let mut r = string_of(p, 0, k);
                r.push('/');
                r.append(u.as_str());
                r
            }
        },
        None => u,
    }
}

fn opt_clone(o: &Option<String>) -> (r: Option<String>)
    ensures
        opt_string_view(r) == opt_string_view(*o),
{
    match o {
        Some(s) => Some(s.clone()),
        None => None,
    }
}

fn unwrap_flag(b: Option<bool>) -> (r: bool)
    ensures
        r == flag_or_false(b),
{
    match b {
        Some(x) => x,
        None => false,
    }
}

impl Article {
    /// Renders a source document into an entry.
    pub fn new(source_file: SourceFile) -> (r: Article)
        ensures
            article_from(r, source_file),
    {
        let content = match &source_file {
            SourceFile::Markdown(f) => f.markdown.render(),
            SourceFile::Org(f) => f.org.render(),
        };
        let (path, m) = match &source_file {
            SourceFile::Markdown(f) => (&f.relative_path, &f.markdown.metadata),
            SourceFile::Org(f) => (&f.relative_path, &f.org.metadata),
        };
        let pv = chars_of(path.as_str());
        let slug = match &m.slug {
            Some(s) => s.clone(),
            None => stem_of(&pv),
        };
        let url = url_for(&pv, slug.as_str());
        let toc_html = if unwrap_flag(m.toc) {
            Some(build_toc(content.as_str(), m.toc_depth))
        } else {
            None
        };
        Article {
            title: m.title.clone(),
            slug,
            author: opt_clone(&m.author),
            date: m.date,
            update_date: m.update_date,
            draft: unwrap_flag(m.draft),
            url,
            page: unwrap_flag(m.page),
            math: unwrap_flag(m.math),
            template: opt_clone(&m.template),
            content,
            toc_html,
        }
    }

    /// The name of the template that renders this entry: its own, or else
    /// `page` for a page and `article` for an article.
    pub fn template_name(&self) -> (r: &str)
        ensures
            r@ == match self.template {
                Some(t) => t@,
                None => if self.page { "page"@ } else { "article"@ },
            },
    {
        match &self.template {
            Some(t) => t.as_str(),
            None => if self.page { "page" } else { "article" },
        }
    }
}

/// Why a build stops.
#[derive(PartialEq, Eq, Debug)]
pub enum BuildError {
    /// An article (the path of its source is given) has no date.
    MissingDate(String),
}

/// Whether a source document is an article without a date.
pub open spec fn undated_article(src: SourceFile) -> bool {
    !is_page_source(src) && source_metadata(src).date is None
}

/// The first article of `ss` without a date.
pub open spec fn first_undated(ss: Seq<SourceFile>) -> Option<int>
    decreases ss.len(),
{
    if ss.len() == 0 {
        None
    } else {
        match first_undated(ss.drop_last()) {
            Some(j) => Some(j),
            None => if undated_article(ss.last()) { Some(ss.len() - 1) } else { None },
        }
    }
}

/// The articles of `ss`, in their order.
pub open spec fn articles_of(ss: Seq<SourceFile>) -> Seq<SourceFile>
    decreases ss.len(),
{
    if ss.len() == 0 {
        Seq::empty()
    } else if is_page_source(ss.last()) {
        articles_of(ss.drop_last())
    } else {
        articles_of(ss.drop_last()).push(ss.last())
    }
}

/// The pages of `ss`, in their order.
pub open spec fn pages_of(ss: Seq<SourceFile>) -> Seq<SourceFile>
    decreases ss.len(),
{
    if ss.len() == 0 {
        Seq::empty()
    } else if is_page_source(ss.last()) {
        pages_of(ss.drop_last()).push(ss.last())
    } else {
        pages_of(ss.drop_last())
    }
}

/// The source documents of a build, split into articles and pages.
pub struct Classified {
    pub articles: Vec<SourceFile>,
    pub pages: Vec<SourceFile>,
}

proof fn lemma_first_undated_prefix(ss: Seq<SourceFile>, k: int, n: int)
    requires
        0 <= k <= n <= ss.len(),
        first_undated(ss.subrange(0, k)) is Some,
    ensures
        first_undated(ss.subrange(0, n)) == first_undated(ss.subrange(0, k)),
    decreases n - k,
{
    if n > k {
        lemma_first_undated_prefix(ss, k, n - 1);
        assert(ss.subrange(0, n).drop_last() =~= ss.subrange(0, n - 1));
    }
}

fn is_page_file(src: &SourceFile) -> (r: bool)
    ensures
        r == is_page_source(*src),
{
    match src {
        SourceFile::Markdown(f) => unwrap_flag(f.markdown.metadata.page),
        SourceFile::Org(f) => unwrap_flag(f.org.metadata.page),
    }
}

/// Splits the source documents of a build into articles and pages, in their
/// order. Every article must have a date: the first one without a date stops
/// the build, whatever the other documents hold.
pub fn classify_sources(sources: Vec<SourceFile>) -> (r: Result<Classified, BuildError>)
    ensures
        match r {
            Ok(c) => first_undated(sources@) is None && c.articles@ == articles_of(sources@) && c.pages@ == pages_of(
                sources@,
            ),
            Err(BuildError::MissingDate(p)) => first_undated(sources@) matches Some(j) && p@ == source_path(
                sources@[j],
            ),
        },
{
    let mut k: usize = 0;
    proof {
        assert(sources@.subrange(0, 0) =~= Seq::<SourceFile>::empty());
    }
    while k < sources.len()
        invariant
            k <= sources@.len(),
            first_undated(sources@.subrange(0, k as int)) is None,
        decreases sources.len() - k,
    {
        let src = &sources[k];
        proof {
            assert(sources@.subrange(0, k + 1).drop_last() =~= sources@.subrange(0, k as int));
        }
        let undated = match src {
            SourceFile::Markdown(f) => !unwrap_flag(f.markdown.metadata.page) && f.markdown.metadata.date.is_none(),
            SourceFile::Org(f) => !unwrap_flag(f.org.metadata.page) && f.org.metadata.date.is_none(),
        };
        if undated {
            proof {
                lemma_first_undated_prefix(sources@, k + 1, sources@.len() as int);
                assert(sources@.subrange(0, sources@.len() as int) =~= sources@);
            }
            let p = match src {
                SourceFile::Markdown(f) => f.relative_path.clone(),
                SourceFile::Org(f) => f.relative_path.clone(),
            };
            return Err(BuildError::MissingDate(p));
        }
        k = k + 1;
    }
    proof {
        assert(sources@.subrange(0, k as int) =~= sources@);
    }
    let ghost all = sources@;
    let mut rest = sources;
    let total = rest.len();
    let mut articles: Vec<SourceFile> = Vec::new();
    let mut pages: Vec<SourceFile> = Vec::new();
    let mut taken: usize = 0;
    proof {
        assert(all.subrange(0, 0) =~= Seq::<SourceFile>::empty());
        assert(all.subrange(0, all.len() as int) =~= all);
    }
    while rest.len() > 0
        invariant
            taken + rest@.len() == all.len(),
            all.len() == total,
            rest@ == all.subrange(taken as int, all.len() as int),
            articles@ == articles_of(all.subrange(0, taken as int)),
            pages@ == pages_of(all.subrange(0, taken as int)),
        decreases rest.len(),
    {
        let src = rest.remove(0);
        proof {
            assert(all.subrange(0, taken + 1).drop_last() =~= all.subrange(0, taken as int));
            assert(all[taken as int] == src);
            assert(rest@ =~= all.subrange(taken + 1, all.len() as int));
        }
        if is_page_file(&src) {
            pages.push(src);
        } else {
            articles.push(src);
        }
        taken = taken + 1;
    }
    proof {
        assert(all.subrange(0, taken as int) =~= all);
    }
    Ok(Classified { articles, pages })
}

/// Whether date `a` is no later than date `b`; a missing date comes before
/// every date.
pub open spec fn date_le(a: Option<Date>, b: Option<Date>) -> bool {
    match (a, b) {
        (None, _) => true,
        (Some(_), None) => false,
        (Some(x), Some(y)) => x.year < y.year || (x.year == y.year && (x.month < y.month || (x.month
            == y.month && x.day <= y.day))),
    }
}

fn date_le_exec(a: Option<Date>, b: Option<Date>) -> (r: bool)
    ensures
        r == date_le(a, b),
{
    match (a, b) {
        (None, _) => true,
        (Some(_), None) => false,
        (Some(x), Some(y)) => x.year < y.year || (x.year == y.year && (x.month < y.month || (x.month
            == y.month && x.day <= y.day))),
    }
}

/// Entries ordered from the newest date to the oldest.
pub open spec fn newest_first(s: Seq<Article>) -> bool {
    forall|i: int, j: int| 0 <= i < j < s.len() ==> date_le(s[j].date, s[i].date)
}

/// Whether an entry stays in the list of articles: always where drafts are
/// kept, else only where it is no draft.
pub open spec fn stays(a: Article, keep_drafts: bool) -> bool {
    keep_drafts || !a.draft
}

/// The entries of `s` that stay, in their order.
pub open spec fn kept(s: Seq<Article>, keep_drafts: bool) -> Seq<Article>
    decreases s.len(),
{
    if s.len() == 0 {
        Seq::empty()
    } else if stays(s.last(), keep_drafts) {
        kept(s.drop_last(), keep_drafts).push(s.last())
    } else {
        kept(s.drop_last(), keep_drafts)
    }
}

/// Whether an entry is listed and written: always where drafts are kept,
/// else only where it is no draft.
pub fn is_listed(article: &Article, keep_drafts: bool) -> (r: bool)
    ensures
        r == stays(*article, keep_drafts),
{
    keep_drafts || !article.draft
}

fn drop_drafts(articles: Vec<Article>, keep_drafts: bool) -> (r: Vec<Article>)
    ensures
        r@ == kept(articles@, keep_drafts),
{
    let ghost all = articles@;
    let mut rest = articles;
    let total = rest.len();
    let mut out: Vec<Article> = Vec::new();
    let mut taken: usize = 0;
    proof {
        assert(all.subrange(0, 0) =~= Seq::<Article>::empty());
        assert(all.subrange(0, all.len() as int) =~= all);
    }
    while rest.len() > 0
        invariant
            taken + rest@.len() == all.len(),
            all.len() == total,
            rest@ == all.subrange(taken as int, all.len() as int),
            out@ == kept(all.subrange(0, taken as int), keep_drafts),
        decreases rest.len(),
    {
        let a = rest.remove(0);
        proof {
            assert(all.subrange(0, taken + 1).drop_last() =~= all.subrange(0, taken as int));
            assert(all[taken as int] == a);
            assert(rest@ =~= all.subrange(taken + 1, all.len() as int));
        }
        if is_listed(&a, keep_drafts) {
            out.push(a);
        }
        taken = taken + 1;
    }
    proof {
        assert(all.subrange(0, taken as int) =~= all);
    }
    out
}

proof fn lemma_date_le_trans(a: Option<Date>, b: Option<Date>, c: Option<Date>)
    requires
        date_le(a, b),
        date_le(b, c),
    ensures
        date_le(a, c),
{
}

/// The position of the last entry of `pool` with the latest date.
fn latest(pool: &Vec<Article>) -> (m: usize)
    requires
        pool@.len() > 0,
    ensures
        m < pool@.len(),
        forall|k: int| 0 <= k < pool@.len() ==> date_le(pool@[k].date, pool@[m as int].date),
{
    let mut m: usize = 0;
    let mut j: usize = 1;
    while j < pool.len()
        invariant
            1 <= j <= pool@.len(),
            m < j,
            forall|k: int| 0 <= k < j ==> date_le(pool@[k].date, pool@[m as int].date),
        decreases pool.len() - j,
    {
        if date_le_exec(pool[m].date, pool[j].date) {
            proof {
                assert forall|k: int| 0 <= k < j implies date_le(pool@[k].date, pool@[j as int].date) by {
                    lemma_date_le_trans(pool@[k].date, pool@[m as int].date, pool@[j as int].date);
                }
            }
            m = j;
        }
        j = j + 1;
    }
    m
}

/// The articles of a build as its index lists them: drafts dropped unless
/// they are kept, newest first.
pub fn select_articles(articles: Vec<Article>, keep_drafts: bool) -> (r: Vec<Article>)
    ensures
        r@.to_multiset() == kept(articles@, keep_drafts).to_multiset(),
        newest_first(r@),
{
    let mut pool = drop_drafts(articles, keep_drafts);
    let ghost target = pool@.to_multiset();
    let mut out: Vec<Article> = Vec::new();
    while pool.len() > 0
        invariant
            out@.to_multiset().add(pool@.to_multiset()) == target,
            newest_first(out@),
            forall|i: int, j: int| 0 <= i < out@.len() && 0 <= j < pool@.len() ==> date_le(pool@[j].date, out@[i].date),
        decreases pool.len(),
    {
        let m = latest(&pool);
        let ghost before = pool@;
        let a = pool.remove(m);
        proof {
            assert(pool@ == before.remove(m as int));
            assert forall|j: int| 0 <= j < pool@.len() implies date_le(pool@[j].date, a.date) by {
                if j < m {
                    assert(pool@[j] == before[j]);
                } else {
                    assert(pool@[j] == before[j + 1]);
                }
            }
        }
        out.push(a);
        proof {
            assert(out@.to_multiset().add(pool@.to_multiset()) =~= target);
            assert forall|i: int, j: int| 0 <= i < out@.len() && 0 <= j < pool@.len() implies date_le(
                pool@[j].date,
                out@[i].date,
            ) by {
                if i < out@.len() - 1 {
                    if j < m {
                        assert(pool@[j] == before[j]);
                    } else {
                        assert(pool@[j] == before[j + 1]);
                    }
                }
            }
        }
    }
    proof {
        assert(pool@.to_multiset() =~= Multiset::empty());
        assert(out@.to_multiset() =~= target);
    }
    out
}

/// The articles of one year, by their positions in the list of articles.
pub struct YearGroup {
    pub year: i32,
    pub articles: Vec<usize>,
}

pub open spec fn group_view(g: YearGroup) -> (i32, Seq<usize>) {
    (g.year, g.articles@)
}

pub open spec fn groups_view(gs: Seq<YearGroup>) -> Seq<(i32, Seq<usize>)> {
    gs.map_values(|g: YearGroup| group_view(g))
}

/// The positions of all groups, one group after the other.
pub open spec fn flat(gs: Seq<(i32, Seq<usize>)>) -> Seq<usize>
    decreases gs.len(),
{
    if gs.len() == 0 {
        Seq::empty()
    } else {
        flat(gs.drop_last()) + gs.last().1
    }
}

/// The positions of the dated entries of `s`, in order.
pub open spec fn dated_positions(s: Seq<Article>) -> Seq<usize>
    decreases s.len(),
{
    if s.len() == 0 {
        Seq::empty()
    } else if s.last().date is Some {
        dated_positions(s.drop_last()).push((s.len() - 1) as usize)
    } else {
        dated_positions(s.drop_last())
    }
}

/// Every position in `ps` holds an entry of `s` dated in `year`.
pub open spec fn all_in_year(ps: Seq<usize>, s: Seq<Article>, year: i32) -> bool {
    forall|k: int| 0 <= k < ps.len() ==> ps[k] < s.len() && (s[ps[k] as int].date matches Some(d) && d.year == year)
}

/// `gs` is the index by year of the entries `s`: one non-empty group per
/// year, years from the latest to the earliest, each group holding exactly
/// the entries of its year, and all groups together the dated entries in
/// their order.
pub open spec fn year_index(gs: Seq<(i32, Seq<usize>)>, s: Seq<Article>) -> bool {
    &&& forall|g: int, h: int| 0 <= g < h < gs.len() ==> gs[g].0 > gs[h].0
    &&& forall|g: int| 0 <= g < gs.len() ==> gs[g].1.len() > 0 && all_in_year(#[trigger] gs[g].1, s, gs[g].0)
    &&& flat(gs) == dated_positions(s)
}

/// Groups articles listed newest first by the year of their date.
pub fn articles_by_year(articles: &Vec<Article>) -> (r: Vec<YearGroup>)
    requires
        newest_first(articles@),
    ensures
        year_index(groups_view(r@), articles@),
{
    let ghost s = articles@;
    let mut done: Vec<YearGroup> = Vec::new();
    let mut cur: Vec<usize> = Vec::new();
    let mut cur_year: i32 = 0;
    let mut i: usize = 0;
    proof {
        assert(s.subrange(0, 0) =~= Seq::<Article>::empty());
        assert(groups_view(done@) =~= Seq::<(i32, Seq<usize>)>::empty());
    }
    while i < articles.len()
        invariant
            s == articles@,
            newest_first(s),
            i <= s.len(),
            flat(groups_view(done@)) + cur@ == dated_positions(s.subrange(0, i as int)),
            cur@.len() == 0 ==> done@.len() == 0,
            all_in_year(cur@, s, cur_year),
            forall|k: int| 0 <= k < cur@.len() ==> cur@[k] < i,
            forall|g: int, h: int| 0 <= g < h < done@.len() ==> done@[g].year > done@[h].year,
            forall|g: int| 0 <= g < done@.len() ==> done@[g].year > cur_year,
            forall|g: int| 0 <= g < done@.len() ==> done@[g].articles@.len() > 0 && all_in_year(
                #[trigger] done@[g].articles@,
                s,
                done@[g].year,
            ),
        decreases articles.len() - i,
    {
        let ghost gv0 = groups_view(done@);
        let ghost cur0 = cur@;
        proof {
            assert(s.subrange(0, i + 1).drop_last() =~= s.subrange(0, i as int));
        }
        match articles[i].date {
            Some(d) => {
                if cur.len() > 0 && d.year == cur_year {
                    cur.push(i);
                    proof {
                        assert(flat(groups_view(done@)) + cur@ =~= (flat(gv0) + cur0).push(i));
                    }
                } else {
                    if cur.len() > 0 {
                        proof {
                            let j = cur@[0] as int;
                            assert(date_le(s[i as int].date, s[j].date));
                        }
                        let g = YearGroup { year: cur_year, articles: cur };
                        done.push(g);
                        proof {
                            assert(groups_view(done@) =~= gv0.push((cur_year, cur0)));
                            assert(groups_view(done@).drop_last() =~= gv0);
                        }
                    }
                    cur = Vec::new();
                    cur.push(i);
                    cur_year = d.year;
                    proof {
                        assert(flat(groups_view(done@)) + cur@ =~= (flat(gv0) + cur0).push(i));
                    }
                }
            },
            None => {},
        }
        i = i + 1;
    }
    proof {
        assert(s.subrange(0, i as int) =~= s);
    }
    if cur.len() > 0 {
        let ghost gv0 = groups_view(done@);
        let ghost cur0 = cur@;
        let g = YearGroup { year: cur_year, articles: cur };
        done.push(g);
        proof {
            assert(groups_view(done@) =~= gv0.push((cur_year, cur0)));
            assert(groups_view(done@).drop_last() =~= gv0);
        }
    } else {
        proof {
            assert(cur@ =~= Seq::<usize>::empty());
            assert(flat(groups_view(done@)) + cur@ =~= flat(groups_view(done@)));
        }
    }
    done
}

/// The articles of a build and their index by year.
pub struct ArticleIndex {
    pub articles: Vec<Article>,
    pub by_year: Vec<YearGroup>,
}

/// Builds the list of articles that pages show (drafts dropped unless kept,
/// newest first) and its index by year.
pub fn article_index(articles: Vec<Article>, keep_drafts: bool) -> (r: ArticleIndex)
    ensures
        r.articles@.to_multiset() == kept(articles@, keep_drafts).to_multiset(),
        newest_first(r.articles@),
        year_index(groups_view(r.by_year@), r.articles@),
{
    let selected = select_articles(articles, keep_drafts);
    let by_year = articles_by_year(&selected);
    ArticleIndex { articles: selected, by_year }
}

/// The mapping that a list of key-value pairs gives, a later pair winning
/// over an earlier one for the same key.
pub open spec fn pairs_map(s: Seq<(Seq<char>, Seq<char>)>) -> Map<Seq<char>, Seq<char>>
    decreases s.len(),
{
    if s.len() == 0 {
        Map::empty()
    } else {
        pairs_map(s.drop_last()).insert(s.last().0, s.last().1)
    }
}

pub open spec fn pair_view(p: (String, String)) -> (Seq<char>, Seq<char>) {
    (p.0@, p.1@)
}

proof fn lemma_pairs_map_concat(a: Seq<(Seq<char>, Seq<char>)>, b: Seq<(Seq<char>, Seq<char>)>)
    ensures
        pairs_map(a + b) == pairs_map(a).union_prefer_right(pairs_map(b)),
    decreases b.len(),
{
    if b.len() == 0 {
        assert(a + b =~= a);
        assert(pairs_map(a).union_prefer_right(pairs_map(b)) =~= pairs_map(a));
    } else {
        lemma_pairs_map_concat(a, b.drop_last());
        assert((a + b).drop_last() =~= a + b.drop_last());
        assert(pairs_map(a + b) =~= pairs_map(a).union_prefer_right(pairs_map(b)));
    }
}

/// The site-wide configuration: string properties by name.
pub struct Config {
    entries: Vec<(String, String)>,
}

impl View for Config {
    type V = Map<Seq<char>, Seq<char>>;

    closed spec fn view(&self) -> Map<Seq<char>, Seq<char>> {
        pairs_map(self.entries@.map_values(|p: (String, String)| pair_view(p)))
    }
}

/// The first entry of a table whose value is no string.
pub open spec fn first_non_text(es: Seq<EntryView>) -> Option<int>
    decreases es.len(),
{
    if es.len() == 0 {
        None
    } else {
        match first_non_text(es.drop_last()) {
            Some(j) => Some(j),
            None => if es.last().1 is None { Some(es.len() - 1) } else { None },
        }
    }
}

/// The mapping of the string entries of a table.
pub open spec fn text_map(es: Seq<EntryView>) -> Map<Seq<char>, Seq<char>>
    decreases es.len(),
{
    if es.len() == 0 {
        Map::empty()
    } else {
        match es.last().1 {
            Some(v) => text_map(es.drop_last()).insert(es.last().0, v),
            None => text_map(es.drop_last()),
        }
    }
}

proof fn lemma_first_non_text_prefix(es: Seq<EntryView>, k: int, n: int)
    requires
        0 <= k <= n <= es.len(),
        first_non_text(es.subrange(0, k)) is Some,
    ensures
        first_non_text(es.subrange(0, n)) == first_non_text(es.subrange(0, k)),
    decreases n - k,
{
    if n > k {
        lemma_first_non_text_prefix(es, k, n - 1);
        assert(es.subrange(0, n).drop_last() =~= es.subrange(0, n - 1));
    }
}

impl Config {
    pub fn new() -> (r: Config)
        ensures
            r@ == Map::<Seq<char>, Seq<char>>::empty(),
    {
        let r = Config { entries: Vec::new() };
        proof {
            assert(r.entries@.map_values(|p: (String, String)| pair_view(p)) =~= Seq::empty());
        }
        r
    }

    /// Sets the property `key` to `value`.
    pub fn insert(&mut self, key: String, value: String)
        ensures
            final(self)@ == old(self)@.insert(key@, value@),
    {
        let ghost before = self.entries@.map_values(|p: (String, String)| pair_view(p));
        let ghost kv = (key@, value@);
        self.entries.push((key, value));
        proof {
            let after = self.entries@.map_values(|p: (String, String)| pair_view(p));
            assert(after =~= before.push(kv));
            assert(after.drop_last() =~= before);
        }
    }

    /// Reads a TOML table of strings: not a table gives `Syntax`, and an entry
    /// whose value is no string `InvalidValue` with its key.
    pub fn read(text: &str) -> (r: Result<Config, ParseError>)
        ensures
            match toml_entries_of(text@) {
                None => r matches Err(ParseError::Syntax),
                Some(es) => match first_non_text(es) {
                    Some(j) => r matches Err(ParseError::InvalidValue(k)) && k@ == es[j].0,
                    None => r matches Ok(c) && c@ == text_map(es),
                },
            },
    {
        let entries = match toml_entries(text) {
            None => return Err(ParseError::Syntax),
            Some(v) => v,
        };
        let ghost es = entries_view(entries@);
        let mut c = Config::new();
        let mut k: usize = 0;
        proof {
            assert(es.subrange(0, 0) =~= Seq::<EntryView>::empty());
        }
        while k < entries.len()
            invariant
                es == entries_view(entries@),
                toml_entries_of(text@) == Some(es),
                k <= entries@.len(),
                first_non_text(es.subrange(0, k as int)) is None,
                c@ == text_map(es.subrange(0, k as int)),
            decreases entries.len() - k,
        {
            let e = &entries[k];
            proof {
                assert(es[k as int] == e@);
                assert(es.subrange(0, k + 1).drop_last() =~= es.subrange(0, k as int));
            }
            match &e.text {
                Some(v) => {
                    c.insert(e.key.clone(), v.clone());
                },
                None => {
                    proof {
                        assert(es.subrange(0, k + 1).last() == es[k as int]);
                        assert(first_non_text(es.subrange(0, k + 1)) == Some(k as int));
                        lemma_first_non_text_prefix(es, k + 1, es.len() as int);
                        assert(es.subrange(0, es.len() as int) =~= es);
                    }
                    return Err(ParseError::InvalidValue(e.key.clone()));
                },
            }
            k = k + 1;
        }
        proof {
            assert(es.subrange(0, k as int) =~= es);
        }
        Ok(c)
    }

    /// Adds the properties of `config`, which win over those of the same name
    /// here; `config` is left empty.
    pub fn extend(&mut self, config: &mut Config)
        ensures
            final(self)@ == old(self)@.union_prefer_right(old(config)@),
            final(config)@ == Map::<Seq<char>, Seq<char>>::empty(),
    {
        let ghost a = self.entries@.map_values(|p: (String, String)| pair_view(p));
        let ghost b = config.entries@.map_values(|p: (String, String)| pair_view(p));
        self.entries.append(&mut config.entries);
        proof {
            assert(self.entries@.map_values(|p: (String, String)| pair_view(p)) =~= a + b);
            lemma_pairs_map_concat(a, b);
            assert(config.entries@.map_values(|p: (String, String)| pair_view(p)) =~= Seq::empty());
        }
    }

    /// The value of the property `key`.
    pub fn get(&self, key: &str) -> (r: Option<String>)
        ensures
            match r {
                Some(v) => self@.contains_key(key@) && self@[key@] == v@,
                None => !self@.contains_key(key@),
            },
    {
        let ghost s = self.entries@.map_values(|p: (String, String)| pair_view(p));
        let mut k = self.entries.len();
        while k > 0
            invariant
                s == self.entries@.map_values(|p: (String, String)| pair_view(p)),
                k <= s.len(),
                forall|j: int| k <= j < s.len() ==> s[j].0 != key@,
            decreases k,
        {
            let p = &self.entries[k - 1];
            if str_eq(p.0.as_str(), key) {
                proof {
                    lemma_pairs_map_last_key(s, k - 1, key@);
                }
                return Some(p.1.clone());
            }
            k = k - 1;
        }
        proof {
            lemma_pairs_map_absent(s, key@);
        }
        None
    }

    /// All properties, as pairs of name and value; where a name occurs more
    /// than once the later pair wins.
    pub fn entries(&self) -> (r: &Vec<(String, String)>)
        ensures
            pairs_map(r@.map_values(|p: (String, String)| pair_view(p))) == self@,
    {
        &self.entries
    }
}

proof fn lemma_pairs_map_last_key(s: Seq<(Seq<char>, Seq<char>)>, i: int, key: Seq<char>)
    requires
        0 <= i < s.len(),
        s[i].0 == key,
        forall|j: int| i < j < s.len() ==> s[j].0 != key,
    ensures
        pairs_map(s).contains_key(key) && pairs_map(s)[key] == s[i].1,
    decreases s.len(),
{
    if i < s.len() - 1 {
        lemma_pairs_map_last_key(s.drop_last(), i, key);
    }
}

proof fn lemma_pairs_map_absent(s: Seq<(Seq<char>, Seq<char>)>, key: Seq<char>)
    requires
        forall|j: int| 0 <= j < s.len() ==> s[j].0 != key,
    ensures
        !pairs_map(s).contains_key(key),
    decreases s.len(),
{
    if s.len() > 0 {
        lemma_pairs_map_absent(s.drop_last(), key);
    }
}

/// Whether a regular expression matches somewhere in a text: none where the
/// pattern is no valid regular expression.
pub uninterp spec fn pattern_match_of(pattern: Seq<char>, text: Seq<char>) -> Option<bool>;

/// Relies on `regex::Regex::new` and `regex::Regex::is_match`: none where
/// `pattern` does not compile, else whether it matches somewhere in `text`;
/// the answer depends on the two texts alone.
#[verifier::external_body]
fn pattern_matches(pattern: &str, text: &str) -> (r: Option<bool>)
    ensures
        r == pattern_match_of(pattern@, text@),
{
    match regex::Regex::new(pattern) {
        Ok(re) => Some(re.is_match(text)),
        Err(_) => None,
    }
}

/// A site: its configuration, where its sources lie and where its output
/// goes, and the pattern that restricts a build to some documents.
pub struct Site {
    pub config: Config,
    pub root_dir: String,
    pub src_dir: String,
    pub out_dir: String,
    pub article_regex: Option<String>,
}

impl Site {
    /// A site rooted at `root_dir`, whose sources lie in its `src` directory.
    pub fn new(config: Config, root_dir: String, out_dir: String, article_regex: Option<String>) -> (r: Site)
        ensures
            r.config@ == config@,
            r.root_dir@ == root_dir@,
            r.src_dir@ == path_join(root_dir@, "src"@),
            r.out_dir@ == out_dir@,
            r.article_regex == article_regex,
    {
        let rv = chars_of(root_dir.as_str());
        let src_dir = if rv.len() == 0 {
            String::from_str("src")
        } else {
            let mut d = string_of(&rv, 0, rv.len());
            proof {
                assert(rv@.subrange(0, rv@.len() as int) =~= rv@);
                reveal_strlit("src");
            }
            d.push('/');
            d.append("src");
            d
        };
        Site { config, root_dir, src_dir, out_dir, article_regex }
    }

    /// Whether a build takes the document at `path`: every document where no
    /// pattern is set, else those whose path the pattern matches (none where
    /// the pattern does not compile).
    pub fn accepts(&self, path: &str) -> (r: bool)
        ensures
            r == match self.article_regex {
                None => true,
                Some(p) => pattern_match_of(p@, path@) == Some(true),
            },
    {
        match &self.article_regex {
            Some(p) => match pattern_matches(p.as_str(), path) {
                Some(b) => b,
                None => false,
            },
            None => true,
        }
    }

    /// Whether a build copies the other files of the source directory: only
    /// where it takes every document.
    pub fn copies_assets(&self) -> (r: bool)
        ensures
            r == self.article_regex is None,
    {
        self.article_regex.is_none()
    }

    /// Whether draft articles are kept: where the configuration sets
    /// `keep_drafts` to `true`.
    pub fn keeps_drafts(&self) -> (r: bool)
        ensures
            r == (self.config@.contains_key("keep_drafts"@) && self.config@["keep_drafts"@] == "true"@),
    {
        match self.config.get("keep_drafts") {
            Some(v) => str_eq(v.as_str(), "true"),
            None => false,
        }
    }

    /// Where the page of an entry is written.
    pub fn output_path(&self, article: &Article) -> (r: String)
        ensures
            r@ == path_join(self.out_dir@, filename_of_url(article.url@)),
    {
        let f = url_to_filename(article.url.as_str());
        let fv = chars_of(f.as_str());
        let ov = chars_of(self.out_dir.as_str());
        if ov.len() == 0 || (fv.len() > 0 && fv[0] == '/') {
            f
        } else {
            let mut r = string_of(&ov, 0, ov.len());
            proof {
                assert(ov@.subrange(0, ov@.len() as int) =~= ov@);
            }
            r.push('/');
            r.append(f.as_str());
            r
        }
    }
}

/// One article without a date stops the whole build, whatever the other
/// documents hold: the sources then have a first undated article, so
/// `classify_sources` returns `MissingDate` and hands back no document to
/// render or write.
pub proof fn lemma_undated_article_stops_build(sources: Seq<SourceFile>, i: int)
    requires
        0 <= i < sources.len(),
        undated_article(sources[i]),
    ensures
        first_undated(sources) matches Some(j) && j <= i && undated_article(sources[j]),
    decreases sources.len(),
{
    if i < sources.len() - 1 {
        lemma_undated_article_stops_build(sources.drop_last(), i);
    } else {
        lemma_first_undated_shape(sources.drop_last());
    }
    lemma_first_undated_shape(sources);
}

proof fn lemma_first_undated_shape(ss: Seq<SourceFile>)
    ensures
        first_undated(ss) matches Some(j) ==> 0 <= j < ss.len() && undated_article(ss[j]),
    decreases ss.len(),
{
    if ss.len() > 0 {
        lemma_first_undated_shape(ss.drop_last());
    }
}

/// A draft is left out of the articles that a build lists, and so of their
/// index by year, unless drafts are kept; where they are kept, every article
/// is listed.
pub proof fn lemma_drafts_left_out(s: Seq<Article>, a: Article, keep_drafts: bool)
    ensures
        !keep_drafts && a.draft ==> kept(s, keep_drafts).to_multiset().count(a) == 0,
        keep_drafts ==> kept(s, keep_drafts) == s,
    decreases s.len(),
{
    if s.len() > 0 {
        lemma_drafts_left_out(s.drop_last(), a, keep_drafts);
        if keep_drafts {
            assert(s.drop_last().push(s.last()) =~= s);
        }
    } else {
        assert(kept(s, keep_drafts).to_multiset() =~= Multiset::empty());
        assert(kept(s, keep_drafts) =~= s);
    }
}

proof fn lemma_dated_position(s: Seq<Article>, p: int)
    requires
        0 <= p < s.len(),
        s[p].date is Some,
    ensures
        dated_positions(s).contains(p as usize),
    decreases s.len(),
{
    if p < s.len() - 1 {
        lemma_dated_position(s.drop_last(), p);
        let d = dated_positions(s.drop_last());
        let j = choose|j: int| 0 <= j < d.len() && d[j] == p as usize;
        if s.last().date is Some {
            assert(dated_positions(s)[j] == p as usize);
        }
    } else {
        assert(dated_positions(s).last() == p as usize);
    }
}

proof fn lemma_flat_member(gs: Seq<(i32, Seq<usize>)>, p: usize)
    requires
        flat(gs).contains(p),
    ensures
        exists|g: int, k: int| 0 <= g < gs.len() && 0 <= k < gs[g].1.len() && gs[g].1[k] == p,
    decreases gs.len(),
{
    if gs.len() > 0 {
        let f = flat(gs.drop_last());
        let j = choose|j: int| 0 <= j < flat(gs).len() && flat(gs)[j] == p;
        if j < f.len() {
            assert(f[j] == p);
            lemma_flat_member(gs.drop_last(), p);
            let (g, k) = choose|g: int, k: int| 0 <= g < gs.drop_last().len() && 0 <= k < gs.drop_last()[g].1.len()
                && gs.drop_last()[g].1[k] == p;
            assert(gs[g] == gs.drop_last()[g]);
        } else {
            assert(gs.last().1[j - f.len()] == p);
            assert(gs[gs.len() - 1] == gs.last());
        }
    }
}

/// Every dated entry lies in the group of its year in an index by year.
pub proof fn lemma_dated_entry_in_its_year(gs: Seq<(i32, Seq<usize>)>, s: Seq<Article>, p: int)
    requires
        year_index(gs, s),
        s.len() <= usize::MAX,
        0 <= p < s.len(),
        s[p].date is Some,
    ensures
        exists|g: int, k: int|
            0 <= g < gs.len() && 0 <= k < gs[g].1.len() && gs[g].1[k] == p && gs[g].0 == s[p].date->0.year,
{
    lemma_dated_position(s, p);
    lemma_flat_member(gs, p as usize);
    let (g, k) = choose|g: int, k: int| 0 <= g < gs.len() && 0 <= k < gs[g].1.len() && gs[g].1[k] == p as usize;
    assert(all_in_year(gs[g].1, s, gs[g].0));
    assert(gs[g].1[k] as int == p);
    assert(s[gs[g].1[k] as int].date->0.year == gs[g].0);
}

/// Where drafts are kept, a dated draft given to `article_index` is among
/// the articles it lists and in the group of its year.
pub proof fn lemma_kept_draft_indexed(
    input: Seq<Article>,
    listed: Seq<Article>,
    gs: Seq<(i32, Seq<usize>)>,
    d: Article,
)
    requires
        listed.to_multiset() == kept(input, true).to_multiset(),
        year_index(gs, listed),
        listed.len() <= usize::MAX,
        input.contains(d),
        d.date is Some,
    ensures
        exists|p: int, g: int, k: int|
            0 <= p < listed.len() && listed[p] == d && 0 <= g < gs.len() && 0 <= k < gs[g].1.len() && gs[g].1[k]
                == p && gs[g].0 == d.date->0.year,
{
    lemma_drafts_left_out(input, d, true);
    assert(listed.to_multiset().count(d) > 0);
    assert(listed.contains(d));
    let p = choose|p: int| 0 <= p < listed.len() && listed[p] == d;
    lemma_dated_entry_in_its_year(gs, listed, p);
}

} // verus!
