//! One content file: its header parsed into [`PostMeta`], the remaining
//! body joined back into one string for the external markdown renderer,
//! and the two combined into a [`Post`].
//!
//! Header grammar, line by line until a line equal to `---` (which is
//! consumed) or the end of input: blank lines (after trimming) and lines
//! starting with `#` are skipped; every other line must contain `=`,
//! splitting at the first occurrence into a verbatim key and a trimmed
//! value. On duplicate keys the last occurrence wins.

use vstd::prelude::*;
use vstd::string::StrSliceExecFns;

use crate::date::{parse_date, MyDate};
use crate::text::{
    contains_ch, find_ch, find_char, lemma_find_ch, split_by_char, split_ch, str_eq, trim,
    trim_spec,
};

verus! {

/// A case-sensitive text label used as an index key.
#[derive(Debug, PartialEq, Eq, Hash)]
pub struct Tag(pub String);

impl View for Tag {
    type V = Seq<char>;

    open spec fn view(&self) -> Seq<char> {
        self.0@
    }
}

impl Clone for Tag {
    fn clone(&self) -> (r: Tag)
        ensures
            r == *self,
    {
        Tag(self.0.clone())
    }
}

impl Tag {
    /// The label's text.
    pub fn as_ref(&self) -> (r: &String)
        ensures
            r == &self.0,
    {
        &self.0
    }
}

/// Everything that can go wrong while parsing one content file or
/// assembling the collection.
#[derive(Debug, Clone, PartialEq, Eq)]
pub enum PostError {
    /// A date value does not match the pattern `Mon DD, YYYY`.
    DateFormat { text: String, path: String },
    /// A required header key is absent.
    MissingField { key: String, path: String },
    /// A header line has no `=` separator.
    MalformedLine { line: String, path: String },
    /// The `modified_date` key is present but its value is not a date.
    InvalidModifiedDate { path: String },
    /// Two documents share one slug.
    DuplicateSlug { slug: String, path_a: String, path_b: String },
}

/// One content file's header, fully parsed.
#[derive(Debug)]
pub struct PostMeta {
    /// Where the file came from; kept for diagnostics only.
    pub input_path: String,
    /// The URL fragment; unique across the whole collection.
    pub slug: String,
    pub author: String,
    pub title: String,
    pub blurb: Option<String>,
    pub created_date: MyDate,
    pub modified_date: Option<MyDate>,
    pub draft: bool,
    pub tags: Vec<Tag>,
    /// Position of the chronologically next document; set by the builder.
    pub newer_post: Option<usize>,
    /// Position of the chronologically previous document; set by the builder.
    pub older_post: Option<usize>,
}

/// A parsed document: header plus rendered body.
#[derive(Debug)]
pub struct Post {
    pub meta: PostMeta,
    pub rendered_html: String,
}

/// A line that ends the header region.
pub open spec fn is_end_line(l: Seq<char>) -> bool {
    l == "---"@
}

/// A line the header scan skips: blank after trimming, or a comment.
pub open spec fn is_skip_line(l: Seq<char>) -> bool {
    trim_spec(l).len() == 0 || (l.len() > 0 && l[0] == '#')
}

/// A line that holds a `=` separator.
pub open spec fn line_has_eq(l: Seq<char>) -> bool {
    contains_ch(l, '=')
}

/// The key of a header line: everything before the first `=`, verbatim.
pub open spec fn key_of(l: Seq<char>) -> Seq<char> {
    l.subrange(0, find_ch(l, '=') as int)
}

/// The value of a header line: everything after the first `=`, trimmed.
pub open spec fn val_of(l: Seq<char>) -> Seq<char> {
    trim_spec(l.subrange(find_ch(l, '=') as int + 1, l.len() as int))
}

/// Index of the first header-terminating line, or the input length.
pub open spec fn find_end(lines: Seq<Seq<char>>) -> nat
    decreases lines.len(),
{
    if lines.len() == 0 {
        0
    } else if is_end_line(lines[0]) {
        0
    } else {
        1 + find_end(lines.drop_first())
    }
}

/// Characterization of [`find_end`]: the least terminator index.
pub proof fn lemma_find_end(lines: Seq<Seq<char>>)
    ensures
        find_end(lines) <= lines.len(),
        forall|j: int| 0 <= j < find_end(lines) ==> !is_end_line(lines[j]),
        find_end(lines) < lines.len() ==> is_end_line(lines[find_end(lines) as int]),
    decreases lines.len(),
{
    if lines.len() > 0 && !is_end_line(lines[0]) {
        lemma_find_end(lines.drop_first());
        assert(forall|j: int|
            1 <= j < find_end(lines) ==> lines[j] == lines.drop_first()[j - 1]);
    }
}

/// [`find_end`] is pinned down by its characterization.
pub proof fn lemma_find_end_is(lines: Seq<Seq<char>>, i: int)
    requires
        0 <= i <= lines.len(),
        forall|j: int| 0 <= j < i ==> !is_end_line(lines[j]),
        i < lines.len() ==> is_end_line(lines[i]),
    ensures
        find_end(lines) == i,
{
    lemma_find_end(lines);
}

/// The header region: every line before the terminator.
pub open spec fn header_lines(lines: Seq<Seq<char>>) -> Seq<Seq<char>> {
    lines.subrange(0, find_end(lines) as int)
}

/// Index of the first line past the header, where the body begins.
pub open spec fn body_start(lines: Seq<Seq<char>>) -> nat {
    if find_end(lines) < lines.len() {
        find_end(lines) + 1
    } else {
        lines.len()
    }
}

/// The key/value lines of a header region, in order: skippable lines
/// removed, nothing else touched.
pub open spec fn kv_sel(ls: Seq<Seq<char>>) -> Seq<Seq<char>>
    decreases ls.len(),
{
    if ls.len() == 0 {
        Seq::empty()
    } else {
        let pre = kv_sel(ls.drop_last());
        if is_skip_line(ls.last()) {
            pre
        } else {
            pre.push(ls.last())
        }
    }
}

/// The key/value lines of the whole input's header.
pub open spec fn kv_lines(lines: Seq<Seq<char>>) -> Seq<Seq<char>> {
    kv_sel(header_lines(lines))
}

/// Index of the first line in `ls` without a `=`, or the length.
pub open spec fn find_bad(ls: Seq<Seq<char>>) -> nat
    decreases ls.len(),
{
    if ls.len() == 0 {
        0
    } else if !line_has_eq(ls[0]) {
        0
    } else {
        1 + find_bad(ls.drop_first())
    }
}

/// Characterization of [`find_bad`]: the least separator-free index.
pub proof fn lemma_find_bad(ls: Seq<Seq<char>>)
    ensures
        find_bad(ls) <= ls.len(),
        forall|j: int| 0 <= j < find_bad(ls) ==> line_has_eq(ls[j]),
        find_bad(ls) < ls.len() ==> !line_has_eq(ls[find_bad(ls) as int]),
    decreases ls.len(),
{
    if ls.len() > 0 && line_has_eq(ls[0]) {
        lemma_find_bad(ls.drop_first());
        assert(forall|j: int| 1 <= j < find_bad(ls) ==> ls[j] == ls.drop_first()[j - 1]);
    }
}

/// [`find_bad`] is pinned down by its characterization.
pub proof fn lemma_find_bad_is(ls: Seq<Seq<char>>, i: int)
    requires
        0 <= i <= ls.len(),
        forall|j: int| 0 <= j < i ==> line_has_eq(ls[j]),
        i < ls.len() ==> !line_has_eq(ls[i]),
    ensures
        find_bad(ls) == i,
{
    lemma_find_bad(ls);
}

/// Every key/value line of the header has a `=` separator.
pub open spec fn header_wellformed(lines: Seq<Seq<char>>) -> bool {
    forall|j: int| 0 <= j < kv_lines(lines).len() ==> line_has_eq(#[trigger] kv_lines(lines)[j])
}

/// The key/value pairs of the given key/value lines, in order.
pub open spec fn kv_map(ls: Seq<Seq<char>>) -> Seq<(Seq<char>, Seq<char>)> {
    Seq::new(ls.len(), |j: int| (key_of(ls[j]), val_of(ls[j])))
}

/// The key/value pairs of the whole input's header.
pub open spec fn kv_pairs(lines: Seq<Seq<char>>) -> Seq<(Seq<char>, Seq<char>)> {
    kv_map(kv_lines(lines))
}

/// The value bound to `key`, the last occurrence winning.
pub open spec fn lookup_kv(ps: Seq<(Seq<char>, Seq<char>)>, key: Seq<char>) -> Option<Seq<char>>
    decreases ps.len(),
{
    if ps.len() == 0 {
        None
    } else if ps.last().0 == key {
        Some(ps.last().1)
    } else {
        lookup_kv(ps.drop_last(), key)
    }
}

/// The raw `tags` value of a header: the bound value, or empty.
pub open spec fn raw_tags(lines: Seq<Seq<char>>) -> Seq<char> {
    match lookup_kv(kv_pairs(lines), "tags"@) {
        Some(v) => v,
        None => Seq::empty(),
    }
}

/// A header that parses without error: every key/value line has a
/// separator, the required keys are present, the creation date parses,
/// and `modified_date`, when present, parses too.
pub open spec fn header_ok(lines: Seq<Seq<char>>) -> bool {
    let ps = kv_pairs(lines);
    &&& header_wellformed(lines)
    &&& (match lookup_kv(ps, "modified_date"@) {
        Some(v) => parse_date(v) is Some,
        None => true,
    })
    &&& lookup_kv(ps, "slug"@) is Some
    &&& lookup_kv(ps, "author"@) is Some
    &&& lookup_kv(ps, "title"@) is Some
    &&& lookup_kv(ps, "created_date"@) is Some
    &&& parse_date(lookup_kv(ps, "created_date"@).unwrap()) is Some
}

/// The error reported for a header that fails to parse, in the order the
/// checks run: the first separator-free line, then an unparsable
/// `modified_date`, then each missing required key, then an unparsable
/// `created_date`.
pub open spec fn err_matches(e: PostError, lines: Seq<Seq<char>>, path: Seq<char>) -> bool {
    let ps = kv_pairs(lines);
    if !header_wellformed(lines) {
        &&& e matches PostError::MalformedLine { line, path: p }
        &&& line@ == kv_lines(lines)[find_bad(kv_lines(lines)) as int]
        &&& p@ == path
    } else if lookup_kv(ps, "modified_date"@) matches Some(v) && parse_date(v) is None {
        &&& e matches PostError::InvalidModifiedDate { path: p }
        &&& p@ == path
    } else if lookup_kv(ps, "slug"@) is None {
        &&& e matches PostError::MissingField { key, path: p }
        &&& key@ == "slug"@
        &&& p@ == path
    } else if lookup_kv(ps, "author"@) is None {
        &&& e matches PostError::MissingField { key, path: p }
        &&& key@ == "author"@
        &&& p@ == path
    } else if lookup_kv(ps, "title"@) is None {
        &&& e matches PostError::MissingField { key, path: p }
        &&& key@ == "title"@
        &&& p@ == path
    } else if lookup_kv(ps, "created_date"@) is None {
        &&& e matches PostError::MissingField { key, path: p }
        &&& key@ == "created_date"@
        &&& p@ == path
    } else if parse_date(lookup_kv(ps, "created_date"@).unwrap()) is None {
        &&& e matches PostError::DateFormat { text, path: p }
        &&& text@ == lookup_kv(ps, "created_date"@).unwrap()
        &&& p@ == path
    } else {
        false
    }
}

/// The parsed tags: the raw value split at commas, each piece trimmed.
pub open spec fn tags_match(tags: Seq<Tag>, lines: Seq<Seq<char>>) -> bool {
    let pieces = split_ch(raw_tags(lines), ',');
    &&& tags.len() == pieces.len()
    &&& forall|k: int| 0 <= k < pieces.len() ==> (#[trigger] tags[k])@ == trim_spec(pieces[k])
}

/// How a parsed [`PostMeta`] relates to the header it came from.
pub open spec fn meta_matches(m: PostMeta, lines: Seq<Seq<char>>, path: Seq<char>) -> bool {
    let ps = kv_pairs(lines);
    &&& m.input_path@ == path
    &&& Some(m.slug@) == lookup_kv(ps, "slug"@)
    &&& Some(m.author@) == lookup_kv(ps, "author"@)
    &&& Some(m.title@) == lookup_kv(ps, "title"@)
    &&& (match lookup_kv(ps, "description"@) {
        Some(v) => m.blurb matches Some(b) && b@ == v,
        None => m.blurb is None,
    })
    &&& m.created_date.valid()
    &&& Some(m.created_date) == parse_date(lookup_kv(ps, "created_date"@).unwrap())
    &&& (match lookup_kv(ps, "modified_date"@) {
        Some(v) => m.modified_date == parse_date(v),
        None => m.modified_date is None,
    })
    &&& m.draft == (lookup_kv(ps, "draft"@) == Some("true"@))
    &&& tags_match(m.tags@, lines)
    &&& m.newer_post is None
    &&& m.older_post is None
}

/// The value bound to `key` among the collected pairs, last wins.
fn lookup(kv: &Vec<(String, String)>, key: &str) -> (r: Option<String>)
    ensures
        match r {
            Some(v) => lookup_kv(views_of_pairs(kv@), key@) == Some(v@),
            None => lookup_kv(views_of_pairs(kv@), key@) is None,
        },
{
    let ghost ps = views_of_pairs(kv@);
    proof {
        assert(ps.subrange(0, ps.len() as int) =~= ps);
    }
    let mut j: usize = kv.len();
    while j > 0
        invariant
            j <= kv@.len(),
            ps == views_of_pairs(kv@),
            ps.len() == kv@.len(),
            lookup_kv(ps, key@) == lookup_kv(ps.subrange(0, j as int), key@),
        decreases j,
    {
        j -= 1;
        let hit = str_eq(kv[j].0.as_str(), key);
        proof {
            let upto = ps.subrange(0, j as int + 1);
            assert(upto.drop_last() =~= ps.subrange(0, j as int));
            assert(upto.last() == ps[j as int]);
        }
        if hit {
            return Some(kv[j].1.clone());
        }
    }
    proof {
        assert(ps.subrange(0, 0) =~= Seq::<(Seq<char>, Seq<char>)>::empty());
    }
    None
}

/// The views of collected key/value pairs.
pub open spec fn views_of_pairs(ps: Seq<(String, String)>) -> Seq<(Seq<char>, Seq<char>)> {
    Seq::new(ps.len(), |j: int| (ps[j].0@, ps[j].1@))
}

/// Selecting key/value lines distributes over concatenation.
pub proof fn lemma_kv_sel_concat(a: Seq<Seq<char>>, b: Seq<Seq<char>>)
    ensures
        kv_sel(a + b) == kv_sel(a) + kv_sel(b),
    decreases b.len(),
{
    if b.len() == 0 {
        assert(a + b =~= a);
        assert(kv_sel(a) + kv_sel(b) =~= kv_sel(a));
    } else {
        lemma_kv_sel_concat(a, b.drop_last());
        assert((a + b).drop_last() =~= a + b.drop_last());
        assert((a + b).last() == b.last());
        if is_skip_line(b.last()) {
            assert(kv_sel(a) + kv_sel(b) =~= kv_sel(a) + kv_sel(b.drop_last()));
        } else {
            assert(kv_sel(a) + kv_sel(b) =~= (kv_sel(a) + kv_sel(b.drop_last())).push(b.last()));
        }
    }
}

impl PostMeta {
    /// Parse the header region of one content file, given as its lines.
    /// On success, also returns the index of the line where the body
    /// begins (just past the `---` terminator, or the input length when
    /// no terminator occurs).
    ///
    /// The `draft` value counts as true only for the exact token
    /// `true`; any other value yields `false` without an error. The
    /// `tags` value (empty when the key is absent) splits at commas
    /// into trimmed labels, so an empty value yields one empty label.
    pub fn read_meta(input_path: &str, lines: &Vec<String>) -> (r: Result<
        (PostMeta, usize),
        PostError,
    >)
        ensures
            match r {
                Ok(ok) => {
                    &&& header_ok(lines.deep_view())
                    &&& meta_matches(ok.0, lines.deep_view(), input_path@)
                    &&& ok.1 as nat == body_start(lines.deep_view())
                },
                Err(e) => {
                    &&& !header_ok(lines.deep_view())
                    &&& err_matches(e, lines.deep_view(), input_path@)
                },
            },
    {
        let ghost lv = lines.deep_view();
        let mut kv: Vec<(String, String)> = Vec::new();
        let mut i: usize = 0;
        let mut end: usize = 0;
        let mut found_end = false;
        let ghost mut flt: Seq<Seq<char>> = Seq::empty();
        proof {
            assert(lv.subrange(0, 0) =~= Seq::<Seq<char>>::empty());
            assert(flt =~= kv_sel(lv.subrange(0, 0)));
            assert(views_of_pairs(kv@) =~~= kv_map(flt));
        }
        while i < lines.len() && !found_end
            invariant
                i <= lv.len(),
                lv == lines.deep_view(),
                lv.len() == lines@.len(),
                forall|j: int| 0 <= j < i ==> !is_end_line(#[trigger] lv[j]),
                found_end ==> i < lv.len() && end == i && is_end_line(lv[i as int]),
                flt == kv_sel(lv.subrange(0, i as int)),
                views_of_pairs(kv@) == kv_map(flt),
                forall|j: int| 0 <= j < flt.len() ==> line_has_eq(#[trigger] flt[j]),
            decreases lv.len() - i + (if found_end {
                0int
            } else {
                1int
            }),
        {
            let line: &String = &lines[i];
            proof {
                assert(lv[i as int] == lines@[i as int]@);
            }
            if str_eq(line.as_str(), "---") {
                found_end = true;
                end = i;
            } else {
                let ghost l = lv[i as int];
                let llen = line.as_str().unicode_len();
                let t = trim(line.as_str());
                let skip = t.as_str().unicode_len() == 0 || (llen > 0 && line.as_str().get_char(0)
                    == '#');
                proof {
                    assert(skip == is_skip_line(l));
                    assert(lv.subrange(0, i as int + 1).drop_last() =~= lv.subrange(0, i as int));
                    assert(lv.subrange(0, i as int + 1).last() == l);
                }
                if skip {
                    proof {
                        assert(kv_sel(lv.subrange(0, i as int + 1)) == flt);
                    }
                } else {
                    let eq_pos = find_char(line.as_str(), '=');
                    proof {
                        lemma_find_ch(l, '=');
                    }
                    if eq_pos == llen {
                        proof {
                            assert(!line_has_eq(l));
                            lemma_find_end(lv);
                            assert(find_end(lv) > i);
                            let rest = lv.subrange(i as int + 1, find_end(lv) as int);
                            assert(header_lines(lv) =~= lv.subrange(0, i as int + 1) + rest);
                            lemma_kv_sel_concat(lv.subrange(0, i as int + 1), rest);
                            assert(kv_lines(lv) == flt.push(l) + kv_sel(rest));
                            assert(kv_lines(lv)[flt.len() as int] == l);
                            assert(forall|j: int|
                                0 <= j < flt.len() ==> kv_lines(lv)[j] == flt[j]);
                            lemma_find_bad_is(kv_lines(lv), flt.len() as int);
                            assert(!header_wellformed(lv));
                        }
                        return Err(
                            PostError::MalformedLine {
                                line: line.clone(),
                                path: input_path.to_owned(),
                            },
                        );
                    }
                    let key = line.as_str().substring_char(0, eq_pos).to_owned();
                    let value = trim(line.as_str().substring_char(eq_pos + 1, llen));
                    proof {
                        assert(key@ == key_of(l));
                        assert(value@ == val_of(l));
                    }
                    let ghost prev_kv = kv@;
                    let ghost prev_flt = flt;
                    kv.push((key, value));
                    proof {
                        flt = flt.push(l);
                        assert(kv_sel(lv.subrange(0, i as int + 1)) == flt);
                        assert(kv@ =~= prev_kv.push(kv@[prev_kv.len() as int]));
                        assert(kv@[prev_kv.len() as int].0@ == key_of(l));
                        assert(kv@[prev_kv.len() as int].1@ == val_of(l));
                        assert(views_of_pairs(prev_kv).len() == prev_kv.len());
                        assert(kv_map(prev_flt).len() == prev_flt.len());
                        assert(prev_kv.len() == prev_flt.len());
                        assert forall|j: int| 0 <= j < flt.len() implies views_of_pairs(kv@)[j]
                            == kv_map(flt)[j] by {
                            if j < prev_flt.len() {
                                assert(views_of_pairs(prev_kv)[j] == kv_map(prev_flt)[j]);
                                assert(kv@[j] == prev_kv[j]);
                                assert(flt[j] == prev_flt[j]);
                            }
                        }
                        assert(views_of_pairs(kv@) =~= kv_map(flt));
                    }
                }
                i += 1;
            }
        }
        let rest: usize = if found_end {
            end + 1
        } else {
            lines.len()
        };
        proof {
            if found_end {
                lemma_find_end_is(lv, end as int);
            } else {
                lemma_find_end_is(lv, lv.len() as int);
            }
            assert(header_lines(lv) =~= lv.subrange(0, i as int));
            assert(kv_lines(lv) == flt);
            assert(header_wellformed(lv));
            assert(kv_pairs(lv) == views_of_pairs(kv@));
            assert(rest as nat == body_start(lv));
        }
        let modified_date: Option<MyDate> = match lookup(&kv, "modified_date") {
            Some(v) => match MyDate::from_str(v.as_str()) {
                Ok(d) => Some(d),
                Err(_e) => {
                    return Err(PostError::InvalidModifiedDate { path: input_path.to_owned() });
                },
            },
            None => None,
        };
        let slug = match lookup(&kv, "slug") {
            Some(v) => v,
            None => {
                return Err(
                    PostError::MissingField { key: "slug".to_owned(), path: input_path.to_owned() },
                );
            },
        };
        let author = match lookup(&kv, "author") {
            Some(v) => v,
            None => {
                return Err(
                    PostError::MissingField {
                        key: "author".to_owned(),
                        path: input_path.to_owned(),
                    },
                );
            },
        };
        let title = match lookup(&kv, "title") {
            Some(v) => v,
            None => {
                return Err(
                    PostError::MissingField {
                        key: "title".to_owned(),
                        path: input_path.to_owned(),
                    },
                );
            },
        };
        let blurb = lookup(&kv, "description");
        let created_raw = match lookup(&kv, "created_date") {
            Some(v) => v,
            None => {
                return Err(
                    PostError::MissingField {
                        key: "created_date".to_owned(),
                        path: input_path.to_owned(),
                    },
                );
            },
        };
        let created_date = match MyDate::from_str(created_raw.as_str()) {
            Ok(d) => d,
            Err(e) => {
                return Err(PostError::DateFormat { text: e.text, path: input_path.to_owned() });
            },
        };
        let draft = match lookup(&kv, "draft") {
            Some(v) => str_eq(v.as_str(), "true"),
            None => false,
        };
        let tags_value = match lookup(&kv, "tags") {
            Some(v) => v,
            None => String::new(),
        };
        let pieces = split_by_char(tags_value.as_str(), ',');
        let ghost pv = pieces.deep_view();
        let mut tags: Vec<Tag> = Vec::new();
        let mut k: usize = 0;
        while k < pieces.len()
            invariant
                k <= pieces@.len(),
                pv == pieces.deep_view(),
                pv.len() == pieces@.len(),
                tags@.len() == k,
                forall|j: int| 0 <= j < k ==> (#[trigger] tags@[j])@ == trim_spec(pv[j]),
            decreases pieces@.len() - k,
        {
            let t = Tag(trim(pieces[k].as_str()));
            tags.push(t);
            k += 1;
        }
        let meta = PostMeta {
            input_path: input_path.to_owned(),
            slug,
            author,
            title,
            blurb,
            created_date,
            modified_date,
            draft,
            tags,
            newer_post: None,
            older_post: None,
        };
        proof {
            assert(raw_tags(lv) == tags_value@);
            assert(tags_match(meta.tags@, lv));
        }
        Ok((meta, rest))
    }
}

impl Post {
    /// The document body: the lines after the header, joined with
    /// newlines, ready for the external markdown renderer.
    pub fn read_body(lines: &Vec<String>, start: usize) -> (r: String)
        requires
            start <= lines@.len(),
        ensures
            r@ == crate::text::join_nl(
                lines.deep_view().subrange(start as int, lines@.len() as int),
            ),
    {
        crate::text::join_lines(lines, start)
    }

    /// Pair a parsed header with the externally rendered body, stored
    /// verbatim.
    pub fn assemble(meta: PostMeta, rendered_html: String) -> (p: Post)
        ensures
            p.meta == meta,
            p.rendered_html == rendered_html,
    {
        Post { meta, rendered_html }
    }
}

} // verus!
