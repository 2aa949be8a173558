//! Projects: the project schema (posts plus optional link, link label
//! and route), the per-entry parse, and the sorted project index.

use vstd::prelude::*;
use crate::blog::IndexError;
use crate::blog::doc_ids;
use crate::blog::find_dup;
use crate::blog::spec_first_dup;
use crate::categories::insert_tags;
use crate::categories::lemma_insert_all_props;
use crate::categories::spec_insert_all;
use crate::categories::strictly_ascending;
use crate::content::ParseError;
use crate::content::SplitOutcome;
use crate::content::get_read_time;
use crate::content::spec_read_time;
use crate::content::spec_split_frontmatter;
use crate::content::split_frontmatter;
use crate::fields::FieldValue;
use crate::fields::FieldValueV;
use crate::fields::dflt_str;
use crate::fields::field_views;
use crate::fields::lemma_lookup_at;
use crate::fields::opt_str;
use crate::fields::spec_dflt_str;
use crate::json::enc_artifact;
use crate::json::enc_record_items;
use crate::json::encode_record;
use crate::json::lemma_artifact_round_trip;
use crate::json::parse_artifact;
use crate::json::parse_artifact_records;
use crate::json::record_views;
use crate::text::clone_strings;
use crate::fields::req_list;
use crate::fields::req_str;
use crate::fields::spec_opt_str;
use crate::fields::spec_req_list;
use crate::fields::spec_req_str;
use crate::normalize::normalize_image_url;
use crate::normalize::spec_normalize;
use crate::seqs::lemma_filter_none;
use crate::seqs::lemma_filter_singleton;
use crate::text::lemma_lex_connected;
use crate::text::lemma_lex_transitive;
use crate::text::lex_le;
use crate::text::lex_lt;
use crate::text::spec_trim;
use crate::text::str_eq;
use crate::text::str_le;
use crate::text::str_views;
use crate::text::trim;
use crate::yaml::parse_block;
use crate::yaml::spec_parse_block;

verus! {

/// Metadata for a project, parsed from a document's metadata block.
#[derive(Clone, Debug, PartialEq)]
pub struct ProjectMeta {
    pub id: String,
    pub title: String,
    pub date: String,
    pub author: String,
    pub description: String,
    pub image_url: String,
    pub tags: Vec<String>,
    pub link: Option<String>,
    pub link_text: Option<String>,
    pub route: Option<String>,
}

/// The mathematical shape of a [`ProjectMeta`].
pub struct ProjectMetaV {
    pub id: Seq<char>,
    pub title: Seq<char>,
    pub date: Seq<char>,
    pub author: Seq<char>,
    pub description: Seq<char>,
    pub image_url: Seq<char>,
    pub tags: Seq<Seq<char>>,
    pub link: Option<Seq<char>>,
    pub link_text: Option<Seq<char>>,
    pub route: Option<Seq<char>>,
}

/// The view of an optional string.
pub open spec fn opt_view(s: Option<String>) -> Option<Seq<char>> {
    match s {
        Some(x) => Some(x@),
        None => None,
    }
}

impl View for ProjectMeta {
    type V = ProjectMetaV;

    open spec fn view(&self) -> ProjectMetaV {
        ProjectMetaV {
            id: self.id@,
            title: self.title@,
            date: self.date@,
            author: self.author@,
            description: self.description@,
            image_url: self.image_url@,
            tags: str_views(self.tags@),
            link: opt_view(self.link),
            link_text: opt_view(self.link_text),
            route: opt_view(self.route),
        }
    }
}

/// A complete project entry: its metadata and its markdown body.
#[derive(Clone, Debug, PartialEq)]
pub struct Project {
    pub meta: ProjectMeta,
    pub content: String,
}

/// The mathematical shape of a [`Project`].
pub struct ProjectV {
    pub meta: ProjectMetaV,
    pub content: Seq<char>,
}

impl View for Project {
    type V = ProjectV;

    open spec fn view(&self) -> ProjectV {
        ProjectV { meta: self.meta@, content: self.content@ }
    }
}

impl Project {
    /// Estimates the reading time of the project body.
    pub fn get_read_time(&self) -> (r: String)
        ensures
            r@ == spec_read_time(self.content@),
    {
        get_read_time(self.content.as_str())
    }
}

/// The first field of the project schema that is missing or has the
/// wrong shape, if any, in the fixed order the schema is checked.
pub open spec fn spec_project_err(fields: Seq<(Seq<char>, FieldValueV)>) -> Option<Seq<char>> {
    if spec_req_str(fields, "title"@) is None {
        Some("title"@)
    } else if spec_req_str(fields, "date"@) is None {
        Some("date"@)
    } else if spec_req_str(fields, "author"@) is None {
        Some("author"@)
    } else if spec_req_str(fields, "description"@) is None {
        Some("description"@)
    } else if spec_req_str(fields, "image_url"@) is None {
        Some("image_url"@)
    } else if spec_req_list(fields, "tags"@) is None {
        Some("tags"@)
    } else if spec_opt_str(fields, "link"@) is None {
        Some("link"@)
    } else if spec_opt_str(fields, "link_text"@) is None {
        Some("link_text"@)
    } else if spec_opt_str(fields, "route"@) is None {
        Some("route"@)
    } else {
        None
    }
}

/// The project metadata read from a field record; the `id` is taken
/// from the caller, never from the record.
pub open spec fn spec_project_meta(
    fields: Seq<(Seq<char>, FieldValueV)>,
    id: Seq<char>,
) -> ProjectMetaV {
    ProjectMetaV {
        id: id,
        title: spec_req_str(fields, "title"@).unwrap_or(Seq::empty()),
        date: spec_req_str(fields, "date"@).unwrap_or(Seq::empty()),
        author: spec_req_str(fields, "author"@).unwrap_or(Seq::empty()),
        description: spec_req_str(fields, "description"@).unwrap_or(Seq::empty()),
        image_url: spec_req_str(fields, "image_url"@).unwrap_or(Seq::empty()),
        tags: spec_req_list(fields, "tags"@).unwrap_or(Seq::empty()),
        link: spec_opt_str(fields, "link"@).unwrap_or(None),
        link_text: spec_opt_str(fields, "link_text"@).unwrap_or(None),
        route: spec_opt_str(fields, "route"@).unwrap_or(None),
    }
}

/// Applies the project schema to a field record.  The `id` of the
/// result is empty; callers overwrite it.
pub fn project_from_fields(fields: &Vec<(String, FieldValue)>) -> (r: Result<
    ProjectMeta,
    ParseError,
>)
    ensures
        match spec_project_err(field_views(fields@)) {
            Some(n) => r matches Err(ParseError::SchemaValidationError(f)) && f@ == n,
            None => r matches Ok(m) && m@ == spec_project_meta(
                field_views(fields@),
                Seq::empty(),
            ),
        },
{
    let title = match req_str(fields, "title") {
        Some(t) => t,
        None => {
            return Err(ParseError::SchemaValidationError("title".to_owned()));
        },
    };
    let date = match req_str(fields, "date") {
        Some(t) => t,
        None => {
            return Err(ParseError::SchemaValidationError("date".to_owned()));
        },
    };
    let author = match req_str(fields, "author") {
        Some(t) => t,
        None => {
            return Err(ParseError::SchemaValidationError("author".to_owned()));
        },
    };
    let description = match req_str(fields, "description") {
        Some(t) => t,
        None => {
            return Err(ParseError::SchemaValidationError("description".to_owned()));
        },
    };
    let image_url = match req_str(fields, "image_url") {
        Some(t) => t,
        None => {
            return Err(ParseError::SchemaValidationError("image_url".to_owned()));
        },
    };
    let tags = match req_list(fields, "tags") {
        Some(t) => t,
        None => {
            return Err(ParseError::SchemaValidationError("tags".to_owned()));
        },
    };
    let link = match opt_str(fields, "link") {
        Some(t) => t,
        None => {
            return Err(ParseError::SchemaValidationError("link".to_owned()));
        },
    };
    let link_text = match opt_str(fields, "link_text") {
        Some(t) => t,
        None => {
            return Err(ParseError::SchemaValidationError("link_text".to_owned()));
        },
    };
    let route = match opt_str(fields, "route") {
        Some(t) => t,
        None => {
            return Err(ParseError::SchemaValidationError("route".to_owned()));
        },
    };
    Ok(
        ProjectMeta {
            id: String::new(),
            title,
            date,
            author,
            description,
            image_url,
            tags,
            link,
            link_text,
            route,
        },
    )
}

/// How parsing a whole project document turns out.
pub enum ProjOutcome {
    /// The metadata (with an empty `id`) and the trimmed body.
    Meta(ProjectMetaV, Seq<char>),
    /// The document does not begin with `---`.
    Missing,
    /// No second `---` follows the metadata block.
    Malformed,
    /// The metadata block does not fit the schema; the payload names
    /// the field at fault, or reads `frontmatter` when the block itself
    /// cannot be read.
    Schema(Seq<char>),
}

/// The outcome of parsing a document against the project schema.
pub open spec fn spec_parse_project(s: Seq<char>) -> ProjOutcome {
    match spec_split_frontmatter(s) {
        SplitOutcome::Missing => ProjOutcome::Missing,
        SplitOutcome::Malformed => ProjOutcome::Malformed,
        SplitOutcome::Parts(m, b) => match spec_parse_block(m) {
            Option::None => ProjOutcome::Schema("frontmatter"@),
            Option::Some(fields) => match spec_project_err(fields) {
                Some(n) => ProjOutcome::Schema(n),
                None => ProjOutcome::Meta(spec_project_meta(fields, Seq::empty()), spec_trim(b)),
            },
        },
    }
}

/// Project metadata relabelled under a given `id`.
pub open spec fn spec_project_with_id(m: ProjectMetaV, id: Seq<char>) -> ProjectMetaV {
    ProjectMetaV {
        id: id,
        title: m.title,
        date: m.date,
        author: m.author,
        description: m.description,
        image_url: m.image_url,
        tags: m.tags,
        link: m.link,
        link_text: m.link_text,
        route: m.route,
    }
}

/// Parses a document into a project, overwriting the `id` with the
/// given one.  The body keeps its raw image reference: normalization
/// belongs to index building, not to document parsing.
pub fn parse_project_full(content: &str, id: String) -> (r: Result<Project, ParseError>)
    ensures
        match spec_parse_project(content@) {
            ProjOutcome::Meta(m, b) => r matches Ok(p) && p.meta@ == spec_project_with_id(
                m,
                id@,
            ) && p.content@ == b,
            ProjOutcome::Missing => r == Err::<Project, ParseError>(
                ParseError::MissingFrontmatter,
            ),
            ProjOutcome::Malformed => r == Err::<Project, ParseError>(
                ParseError::MalformedFrontmatter,
            ),
            ProjOutcome::Schema(n) => r matches Err(ParseError::SchemaValidationError(f))
                && f@ == n,
        },
{
    let (meta_block, body) = match split_frontmatter(content) {
        Ok(p) => p,
        Err(e) => {
            return Err(e);
        },
    };
    let fields = match parse_block(meta_block.as_str()) {
        Some(f) => f,
        None => {
            return Err(ParseError::SchemaValidationError("frontmatter".to_owned()));
        },
    };
    match project_from_fields(&fields) {
        Ok(meta) => {
            let with_id = ProjectMeta {
                id: id,
                title: meta.title,
                date: meta.date,
                author: meta.author,
                description: meta.description,
                image_url: meta.image_url,
                tags: meta.tags,
                link: meta.link,
                link_text: meta.link_text,
                route: meta.route,
            };
            Ok(Project { meta: with_id, content: trim(body.as_str()) })
        },
        Err(e) => Err(e),
    }
}

/// The index entry read from one document: the parsed metadata with the
/// `id` overwritten and the image reference normalized for the
/// `projects` collection, or nothing when the document does not parse.
pub open spec fn spec_project_entry(text: Seq<char>, id: Seq<char>) -> Option<ProjectMetaV> {
    match spec_parse_project(text) {
        ProjOutcome::Meta(m, _b) => Some(
            ProjectMetaV {
                id: id,
                title: m.title,
                date: m.date,
                author: m.author,
                description: m.description,
                image_url: spec_normalize(m.image_url, "projects"@, id),
                tags: m.tags,
                link: m.link,
                link_text: m.link_text,
                route: m.route,
            },
        ),
        _ => None,
    }
}

/// Parses one document into a project index entry: the `id` is the
/// given one and the image reference is normalized for the `projects`
/// collection.
pub fn parse_project_meta(content: &str, id: &str) -> (r: Option<ProjectMeta>)
    ensures
        match r {
            Some(m) => spec_project_entry(content@, id@) == Some(m@),
            None => spec_project_entry(content@, id@) is None,
        },
{
    match parse_project_full(content, id.to_owned()) {
        Err(_) => None,
        Ok(p) => {
            let meta = p.meta;
            let image_url = normalize_image_url(meta.image_url.as_str(), "projects", id);
            Some(
                ProjectMeta {
                    id: meta.id,
                    title: meta.title,
                    date: meta.date,
                    author: meta.author,
                    description: meta.description,
                    image_url: image_url,
                    tags: meta.tags,
                    link: meta.link,
                    link_text: meta.link_text,
                    route: meta.route,
                },
            )
        },
    }
}

/// The views of a sequence of project metadata.
pub open spec fn project_views(s: Seq<ProjectMeta>) -> Seq<ProjectMetaV> {
    s.map_values(|e: ProjectMeta| e@)
}

/// The entries carrying a given date.
pub open spec fn with_date(d: Seq<char>) -> spec_fn(ProjectMetaV) -> bool {
    |e: ProjectMetaV| e.date == d
}

/// Sorted by date, newest first: every later entry's date compares at
/// or below every earlier one's.
pub open spec fn sorted_by_date_desc(s: Seq<ProjectMetaV>) -> bool {
    forall|i: int, j: int| 0 <= i < j < s.len() ==> lex_le(#[trigger] s[j].date, #[trigger] s[i].date)
}

/// An entry placed into a date-descending sequence, before the first
/// entry whose date compares at or below its own.
pub open spec fn spec_insert_desc(e: ProjectMetaV, s: Seq<ProjectMetaV>) -> Seq<ProjectMetaV>
    decreases s.len(),
{
    if s.len() > 0 && !lex_le(s[0].date, e.date) {
        seq![s[0]] + spec_insert_desc(e, s.drop_first())
    } else {
        seq![e] + s
    }
}

/// Where [`spec_insert_desc`] places its entry.
pub open spec fn spec_insert_pos(e: ProjectMetaV, s: Seq<ProjectMetaV>) -> int
    decreases s.len(),
{
    if s.len() > 0 && !lex_le(s[0].date, e.date) {
        1 + spec_insert_pos(e, s.drop_first())
    } else {
        0
    }
}

/// The shape of an insertion: the entry stands at its position, between
/// the strictly newer prefix and the rest.
pub proof fn lemma_insert_desc_shape(e: ProjectMetaV, s: Seq<ProjectMetaV>)
    ensures
        0 <= spec_insert_pos(e, s) <= s.len(),
        spec_insert_desc(e, s) == s.subrange(0, spec_insert_pos(e, s)) + seq![e] + s.subrange(
            spec_insert_pos(e, s),
            s.len() as int,
        ),
        forall|k: int| 0 <= k < spec_insert_pos(e, s) ==> !lex_le(#[trigger] s[k].date, e.date),
        spec_insert_pos(e, s) < s.len() ==> lex_le(s[spec_insert_pos(e, s)].date, e.date),
    decreases s.len(),
{
    if s.len() > 0 && !lex_le(s[0].date, e.date) {
        lemma_insert_desc_shape(e, s.drop_first());
        let rest = s.drop_first();
        let p = spec_insert_pos(e, rest);
        assert(s.subrange(0, p + 1) =~= seq![s[0]] + rest.subrange(0, p));
        assert(s.subrange(p + 1, s.len() as int) =~= rest.subrange(p, rest.len() as int));
        assert(seq![s[0]] + (rest.subrange(0, p) + seq![e] + rest.subrange(
            p,
            rest.len() as int,
        )) =~= s.subrange(0, p + 1) + seq![e] + s.subrange(p + 1, s.len() as int));
        assert forall|k: int| 0 <= k < spec_insert_pos(e, s) implies !lex_le(
            #[trigger] s[k].date,
            e.date,
        ) by {
            if k > 0 {
                assert(s[k] == rest[k - 1]);
            }
        }
    } else {
        assert(s.subrange(0, 0) =~= Seq::<ProjectMetaV>::empty());
        assert(s.subrange(0, s.len() as int) =~= s);
        assert(Seq::<ProjectMetaV>::empty() + seq![e] + s =~= seq![e] + s);
    }
}

/// Inserting keeps a date-descending sequence date-descending.
pub proof fn lemma_insert_desc_sorted(e: ProjectMetaV, s: Seq<ProjectMetaV>)
    requires
        sorted_by_date_desc(s),
    ensures
        sorted_by_date_desc(spec_insert_desc(e, s)),
{
    lemma_insert_desc_shape(e, s);
    let p = spec_insert_pos(e, s);
    let out = spec_insert_desc(e, s);
    assert forall|i: int, j: int| 0 <= i < j < out.len() implies lex_le(
        #[trigger] out[j].date,
        #[trigger] out[i].date,
    ) by {
        if i < p {
            assert(out[i] == s[i]);
            assert(!lex_le(s[i].date, e.date));
            if !lex_lt(e.date, s[i].date) {
                lemma_lex_connected(s[i].date, e.date);
            }
            assert(lex_le(e.date, s[i].date));
        }
        if j > p {
            assert(out[j] == s[j - 1]);
        }
        if i == p && j > p {
            assert(lex_le(s[j - 1].date, s[p].date));
            assert(lex_le(s[p].date, e.date));
            if lex_lt(s[j - 1].date, s[p].date) && lex_lt(s[p].date, e.date) {
                lemma_lex_transitive(s[j - 1].date, s[p].date, e.date);
            }
        }
        if i < p && j == p {
            assert(lex_le(e.date, s[i].date));
        }
        if i < p && j > p {
            assert(lex_le(s[j - 1].date, s[i].date));
        }
    }
}

/// Inserting an entry adds it in front of the equal-dated entries
/// already present, and changes no other date's entries.
pub proof fn lemma_insert_desc_filter(e: ProjectMetaV, s: Seq<ProjectMetaV>, d: Seq<char>)
    ensures
        spec_insert_desc(e, s).filter(with_date(d)) == (if e.date == d {
            seq![e]
        } else {
            Seq::<ProjectMetaV>::empty()
        }) + s.filter(with_date(d)),
{
    lemma_insert_desc_shape(e, s);
    let p = spec_insert_pos(e, s);
    let pre = s.subrange(0, p);
    let suf = s.subrange(p, s.len() as int);
    let pred = with_date(d);
    Seq::filter_distributes_over_add(pre + seq![e], suf, pred);
    Seq::filter_distributes_over_add(pre, seq![e], pred);
    Seq::filter_distributes_over_add(pre, suf, pred);
    assert(s =~= pre + suf);
    lemma_filter_singleton(e, pred);
    if e.date == d {
        assert forall|k: int| 0 <= k < pre.len() implies !pred(pre[k]) by {
            assert(pre[k] == s[k]);
            assert(!lex_le(s[k].date, e.date));
        }
        lemma_filter_none(pre, pred);
        assert(spec_insert_desc(e, s).filter(pred) =~= seq![e] + s.filter(pred));
    } else {
        assert(spec_insert_desc(e, s).filter(pred) =~= s.filter(pred));
        assert((if e.date == d {
            seq![e]
        } else {
            Seq::<ProjectMetaV>::empty()
        }) + s.filter(pred) =~= s.filter(pred));
    }
}

/// The entries of a sequence sorted by date, newest first, entries of
/// equal date keeping their order.
pub open spec fn spec_sort_desc(s: Seq<ProjectMetaV>) -> Seq<ProjectMetaV>
    decreases s.len(),
{
    if s.len() == 0 {
        s
    } else {
        spec_insert_desc(s[0], spec_sort_desc(s.drop_first()))
    }
}

/// A sorted index is ordered by date, newest first.
pub proof fn lemma_sort_desc_sorted(s: Seq<ProjectMetaV>)
    ensures
        sorted_by_date_desc(spec_sort_desc(s)),
    decreases s.len(),
{
    if s.len() > 0 {
        lemma_sort_desc_sorted(s.drop_first());
        lemma_insert_desc_sorted(s[0], spec_sort_desc(s.drop_first()));
    }
}

/// Sorting keeps the entries of each date in their original order, and
/// so keeps exactly the original entries.
pub proof fn lemma_sort_desc_stable(s: Seq<ProjectMetaV>, d: Seq<char>)
    ensures
        spec_sort_desc(s).filter(with_date(d)) == s.filter(with_date(d)),
    decreases s.len(),
{
    let pred = with_date(d);
    if s.len() > 0 {
        let rest = s.drop_first();
        lemma_sort_desc_stable(rest, d);
        lemma_insert_desc_filter(s[0], spec_sort_desc(rest), d);
        assert(s =~= seq![s[0]] + rest);
        Seq::filter_distributes_over_add(seq![s[0]], rest, pred);
        lemma_filter_singleton(s[0], pred);
        if s[0].date == d {
            assert(spec_sort_desc(s).filter(pred) =~= seq![s[0]] + rest.filter(pred));
            assert(s.filter(pred) =~= seq![s[0]] + rest.filter(pred));
        } else {
            assert(spec_sort_desc(s).filter(pred) =~= rest.filter(pred));
            assert(s.filter(pred) =~= rest.filter(pred));
        }
    }
}

/// Sorting keeps the number of entries.
pub proof fn lemma_sort_desc_len(s: Seq<ProjectMetaV>)
    ensures
        spec_sort_desc(s).len() == s.len(),
    decreases s.len(),
{
    if s.len() > 0 {
        lemma_sort_desc_len(s.drop_first());
        lemma_insert_desc_shape(s[0], spec_sort_desc(s.drop_first()));
    }
}

/// Sorts project metadata by date, newest first; entries of equal date
/// keep their order.
#[verifier::loop_isolation(false)]
pub fn sort_by_date_desc(projects: Vec<ProjectMeta>) -> (r: Vec<ProjectMeta>)
    ensures
        project_views(r@) == spec_sort_desc(project_views(projects@)),
{
    let ghost orig = project_views(projects@);
    let mut stack = projects;
    let mut out: Vec<ProjectMeta> = Vec::new();
    proof {
        assert(project_views(stack@) =~= orig.subrange(0, stack@.len() as int));
        assert(orig.skip(stack@.len() as int) =~= Seq::<ProjectMetaV>::empty());
        assert(project_views(out@) =~= Seq::<ProjectMetaV>::empty());
    }
    loop
        invariant
            stack@.len() <= orig.len(),
            project_views(stack@) == orig.subrange(0, stack@.len() as int),
            project_views(out@) == spec_sort_desc(orig.skip(stack@.len() as int)),
        decreases stack@.len(),
    {
        let ghost k = stack@.len() as int;
        let ghost old_stack = stack@;
        let e = match stack.pop() {
            Some(e) => e,
            None => {
                proof {
                    assert(stack@.len() == 0);
                    assert(project_views(out@) == spec_sort_desc(orig.skip(0)));
                    assert(orig.skip(0) =~= orig);
                    assert(project_views(out@) == spec_sort_desc(orig));
                }
                return out;
            },
        };
        let ghost ev = e@;
        let ghost old_out = project_views(out@);
        proof {
            assert(stack@ == old_stack.subrange(0, k - 1));
            assert forall|q: int| 0 <= q < k - 1 implies project_views(stack@)[q] == orig[q] by {
                assert(project_views(stack@)[q] == stack@[q]@);
                assert(stack@[q] == old_stack[q]);
                assert(project_views(old_stack)[q] == old_stack[q]@);
                assert(project_views(old_stack)[q] == orig.subrange(0, k)[q]);
            }
            assert(project_views(stack@) =~= orig.subrange(0, k - 1));
            assert(project_views(old_stack)[k - 1] == old_stack[k - 1]@);
            assert(project_views(old_stack)[k - 1] == orig.subrange(0, k)[k - 1]);
            assert(ev == orig[k - 1]);
            assert(orig.skip(k - 1)[0] == orig[k - 1]);
            assert(orig.skip(k - 1).drop_first() =~= orig.skip(k));
            lemma_insert_desc_shape(ev, old_out);
        }
        let mut p: usize = 0;
        while p < out.len() && !str_le(out[p].date.as_str(), e.date.as_str())
            invariant
                p <= out@.len(),
                old_out == project_views(out@),
                old_out.len() == out@.len(),
                forall|q: int| 0 <= q < p ==> !lex_le(#[trigger] old_out[q].date, ev.date),
            decreases out@.len() - p,
        {
            proof {
                assert(old_out[p as int] == out@[p as int]@);
                assert(!lex_le(out@[p as int].date@, e.date@));
                assert(out@[p as int]@.date == out@[p as int].date@);
                assert(ev.date == e.date@);
                assert(!lex_le(old_out[p as int].date, ev.date));
            }
            p = p + 1;
        }
        proof {
            if p < out@.len() {
                assert(old_out[p as int] == out@[p as int]@);
            }
            assert(spec_insert_pos(ev, old_out) == p as int) by {
                lemma_insert_pos_bound(ev, old_out, p as int);
            }
        }
        out.insert(p, e);
        proof {
            assert forall|j: int| 0 <= j < project_views(out@).len() implies project_views(out@)[j]
                == spec_insert_desc(ev, old_out)[j] by {
                assert(project_views(out@)[j] == out@[j]@);
                let pre = old_out.subrange(0, p as int);
                let suf = old_out.subrange(p as int, old_out.len() as int);
                assert(spec_insert_desc(ev, old_out) == pre + seq![ev] + suf);
                if j < p as int {
                    assert(out@[j]@ == old_out[j]);
                } else if j == p as int {
                    assert(out@[j]@ == ev);
                } else {
                    assert(out@[j]@ == old_out[j - 1]);
                }
            }
            assert(project_views(out@) =~= spec_insert_desc(ev, old_out));
        }
    }
}

/// The insertion position is where the scan stopped: every earlier
/// entry is strictly newer, and the entry there (if any) is not.
proof fn lemma_insert_pos_bound(e: ProjectMetaV, s: Seq<ProjectMetaV>, p: int)
    requires
        0 <= p <= s.len(),
        forall|q: int| 0 <= q < p ==> !lex_le(#[trigger] s[q].date, e.date),
        p < s.len() ==> lex_le(s[p].date, e.date),
    ensures
        spec_insert_pos(e, s) == p,
    decreases s.len(),
{
    if s.len() > 0 && !lex_le(s[0].date, e.date) {
        assert(p > 0);
        let rest = s.drop_first();
        assert forall|q: int| 0 <= q < p - 1 implies !lex_le(
            #[trigger] rest[q].date,
            e.date,
        ) by {
            assert(rest[q] == s[q + 1]);
        }
        if p - 1 < rest.len() {
            assert(rest[p - 1] == s[p]);
        }
        lemma_insert_pos_bound(e, rest, p - 1);
    } else {
        assert(p == 0);
    }
}

/// A view of a sequence grows at the end as the sequence does.
proof fn lemma_project_views_push(s: Seq<ProjectMeta>, e: ProjectMeta)
    ensures
        project_views(s.push(e)) == project_views(s).push(e@),
{
    assert(project_views(s.push(e)) =~= project_views(s).push(e@));
}

/// The index entries read from documents given as `(id, text)` pairs,
/// in input order: each document that parses contributes one entry, and
/// the rest are skipped.
pub open spec fn spec_doc_entries(docs: Seq<(String, String)>) -> Seq<ProjectMetaV>
    decreases docs.len(),
{
    if docs.len() == 0 {
        Seq::empty()
    } else {
        match spec_project_entry(docs[0].1@, docs[0].0@) {
            Some(m) => seq![m] + spec_doc_entries(docs.drop_first()),
            None => spec_doc_entries(docs.drop_first()),
        }
    }
}

/// Builds the project index from documents given as `(id, text)` pairs:
/// documents that do not parse are skipped (one bad file never blocks
/// the others), the `id` is the given one, image references are
/// normalized, and the result is sorted by date, newest first, entries
/// of equal date keeping input order.
#[verifier::loop_isolation(false)]
pub fn get_all_projects(docs: &Vec<(String, String)>) -> (r: Vec<ProjectMeta>)
    ensures
        project_views(r@) == spec_sort_desc(spec_doc_entries(docs@)),
{
    let ghost dv = docs@;
    let mut entries: Vec<ProjectMeta> = Vec::new();
    let mut k: usize = 0;
    proof {
        assert(dv.skip(0) =~= dv);
        assert(project_views(entries@) =~= Seq::<ProjectMetaV>::empty());
        assert(Seq::<ProjectMetaV>::empty() + spec_doc_entries(dv) =~= spec_doc_entries(dv));
    }
    while k < docs.len()
        invariant
            k <= dv.len(),
            dv == docs@,
            spec_doc_entries(dv) == project_views(entries@) + spec_doc_entries(
                dv.skip(k as int),
            ),
        decreases dv.len() - k,
    {
        proof {
            assert(dv.skip(k as int)[0] == dv[k as int]);
            assert(dv.skip(k as int).drop_first() =~= dv.skip(k as int + 1));
        }
        let ghost old_entries = entries@;
        match parse_project_meta(docs[k].1.as_str(), docs[k].0.as_str()) {
            Some(m) => {
                let ghost mv = m@;
                entries.push(m);
                proof {
                    lemma_project_views_push(old_entries, entries@[entries@.len() - 1]);
                    assert(project_views(entries@) =~= project_views(old_entries).push(mv));
                    assert(project_views(old_entries) + (seq![mv] + spec_doc_entries(
                        dv.skip(k as int + 1),
                    )) =~= project_views(old_entries).push(mv) + spec_doc_entries(
                        dv.skip(k as int + 1),
                    ));
                }
            },
            None => {},
        }
        k = k + 1;
    }
    proof {
        assert(dv.skip(k as int).len() == 0);
        assert(project_views(entries@) + spec_doc_entries(dv.skip(k as int)) =~= project_views(
            entries@,
        ));
    }
    sort_by_date_desc(entries)
}

/// Builds the project index, failing when two documents share an
/// identifier; otherwise as [`get_all_projects`].
pub fn build_project_index(docs: &Vec<(String, String)>) -> (r: Result<Vec<ProjectMeta>, IndexError>)
    ensures
        match spec_first_dup(doc_ids(docs@), 0) {
            Some(d) => r matches Err(IndexError::DuplicateId(x)) && x@ == d,
            None => r matches Ok(v) && project_views(v@) == spec_sort_desc(
                spec_doc_entries(docs@),
            ),
        },
{
    match find_dup(docs) {
        Some(d) => Err(IndexError::DuplicateId(d)),
        None => Ok(get_all_projects(docs)),
    }
}

/// The text of the first document with a given identifier.
pub open spec fn spec_find_doc(docs: Seq<(String, String)>, id: Seq<char>) -> Option<Seq<char>>
    decreases docs.len(),
{
    if docs.len() == 0 {
        None
    } else if docs[0].0@ == id {
        Some(docs[0].1@)
    } else {
        spec_find_doc(docs.drop_first(), id)
    }
}

/// Retrieves one project by identifier from documents given as
/// `(id, text)` pairs.  Absence of the document, or a document that
/// does not parse, is `None`: a recoverable not-found, never a fault.
#[verifier::loop_isolation(false)]
pub fn get_project_by_id(docs: &Vec<(String, String)>, id: &str) -> (r: Option<Project>)
    ensures
        match spec_find_doc(docs@, id@) {
            None => r is None,
            Some(text) => match spec_parse_project(text) {
                ProjOutcome::Meta(m, b) => r matches Some(p) && p.meta@ == spec_project_with_id(
                    m,
                    id@,
                ) && p.content@ == b,
                _ => r is None,
            },
        },
{
    let ghost dv = docs@;
    let mut k: usize = 0;
    proof {
        assert(dv.skip(0) =~= dv);
    }
    while k < docs.len()
        invariant
            k <= dv.len(),
            dv == docs@,
            spec_find_doc(dv, id@) == spec_find_doc(dv.skip(k as int), id@),
        decreases dv.len() - k,
    {
        proof {
            assert(dv.skip(k as int)[0] == dv[k as int]);
            assert(dv.skip(k as int).drop_first() =~= dv.skip(k as int + 1));
        }
        if str_eq(docs[k].0.as_str(), id) {
            return match parse_project_full(docs[k].1.as_str(), id.to_owned()) {
                Ok(p) => Some(p),
                Err(_) => None,
            };
        }
        k = k + 1;
    }
    proof {
        assert(dv.skip(k as int).len() == 0);
    }
    None
}

/// The categories accumulated from the tag lists of a sequence of
/// entries, starting from `acc`.
pub open spec fn spec_categories_from(entries: Seq<ProjectMetaV>, acc: Seq<Seq<char>>) -> Seq<
    Seq<char>,
>
    decreases entries.len(),
{
    if entries.len() == 0 {
        acc
    } else {
        spec_categories_from(entries.drop_first(), spec_insert_all(entries[0].tags, acc))
    }
}

/// The distinct tags of a sequence of entries, strictly ascending.
pub open spec fn spec_categories(entries: Seq<ProjectMetaV>) -> Seq<Seq<char>> {
    spec_categories_from(entries, Seq::empty())
}

/// Every tag of every entry.
pub open spec fn spec_tag_union(entries: Seq<ProjectMetaV>) -> Set<Seq<char>> {
    Set::new(
        |t: Seq<char>|
            exists|i: int| 0 <= i < entries.len() && (#[trigger] entries[i].tags).contains(t),
    )
}

/// Accumulating categories keeps the list strictly ascending and adds
/// exactly the entries' tags to its members.
pub proof fn lemma_categories_from_props(entries: Seq<ProjectMetaV>, acc: Seq<Seq<char>>)
    requires
        strictly_ascending(acc),
    ensures
        strictly_ascending(spec_categories_from(entries, acc)),
        spec_categories_from(entries, acc).to_set() == acc.to_set() + spec_tag_union(entries),
    decreases entries.len(),
{
    if entries.len() == 0 {
        assert(spec_tag_union(entries) =~= Set::<Seq<char>>::empty());
        assert(spec_categories_from(entries, acc).to_set() =~= acc.to_set() + spec_tag_union(
            entries,
        ));
    } else {
        let rest = entries.drop_first();
        lemma_insert_all_props(entries[0].tags, acc);
        lemma_categories_from_props(rest, spec_insert_all(entries[0].tags, acc));
        assert(spec_categories_from(entries, acc).to_set() =~= acc.to_set() + spec_tag_union(
            entries,
        )) by {
            assert forall|t: Seq<char>| spec_tag_union(entries).contains(t) implies
                entries[0].tags.to_set().contains(t) || spec_tag_union(rest).contains(t) by {
                let i = choose|i: int|
                    0 <= i < entries.len() && (#[trigger] entries[i].tags).contains(t);
                if i > 0 {
                    assert(rest[i - 1] == entries[i]);
                    assert(spec_tag_union(rest).contains(t));
                }
            }
            assert forall|t: Seq<char>| spec_tag_union(rest).contains(t) implies spec_tag_union(
                entries,
            ).contains(t) by {
                let i = choose|i: int| 0 <= i < rest.len() && (#[trigger] rest[i].tags).contains(
                    t,
                );
                assert(entries[i + 1] == rest[i]);
                assert((entries[i + 1].tags).contains(t));
            }
            assert forall|t: Seq<char>| entries[0].tags.to_set().contains(t) implies
                spec_tag_union(entries).contains(t) by {
                assert((entries[0].tags).contains(t));
            }
        }
    }
}

/// The distinct tags of an index are strictly ascending, free of
/// duplicates, and together are exactly the tags its entries carry.
pub proof fn lemma_categories_props(entries: Seq<ProjectMetaV>)
    ensures
        strictly_ascending(spec_categories(entries)),
        spec_categories(entries).to_set() == spec_tag_union(entries),
{
    lemma_categories_from_props(entries, Seq::empty());
    assert(Seq::<Seq<char>>::empty().to_set() =~= Set::<Seq<char>>::empty());
    assert(Set::<Seq<char>>::empty() + spec_tag_union(entries) =~= spec_tag_union(entries));
}

/// Derives the distinct categories of a list of projects, sorted
/// ascending, without duplicates.
#[verifier::loop_isolation(false)]
pub fn derive_categories(projects: &Vec<ProjectMeta>) -> (r: Vec<String>)
    ensures
        str_views(r@) == spec_categories(project_views(projects@)),
        strictly_ascending(str_views(r@)),
{
    let ghost pv = project_views(projects@);
    let mut acc: Vec<String> = Vec::new();
    let mut k: usize = 0;
    proof {
        assert(pv.skip(0) =~= pv);
        assert(str_views(acc@) =~= Seq::<Seq<char>>::empty());
    }
    while k < projects.len()
        invariant
            k <= pv.len(),
            pv == project_views(projects@),
            pv.len() == projects@.len(),
            strictly_ascending(str_views(acc@)),
            spec_categories_from(pv.skip(k as int), str_views(acc@)) == spec_categories(pv),
        decreases pv.len() - k,
    {
        proof {
            assert(pv[k as int] == projects@[k as int]@);
            assert(pv.skip(k as int)[0] == pv[k as int]);
            assert(pv.skip(k as int).drop_first() =~= pv.skip(k as int + 1));
        }
        insert_tags(&mut acc, &projects[k].tags);
        k = k + 1;
    }
    proof {
        assert(pv.skip(k as int).len() == 0);
    }
    acc
}

/// Builds the project index from documents and derives its categories.
pub fn get_all_categories(docs: &Vec<(String, String)>) -> (r: Vec<String>)
    ensures
        str_views(r@) == spec_categories(spec_sort_desc(spec_doc_entries(docs@))),
        strictly_ascending(str_views(r@)),
{
    let posts = get_all_projects(docs);
    derive_categories(&posts)
}

/// The field value an optional string stands for in the artifact:
/// `null` when absent.
pub open spec fn opt_field(o: Option<Seq<char>>) -> FieldValueV {
    match o {
        Some(s) => FieldValueV::Str(s),
        None => FieldValueV::Null,
    }
}

/// Builds the field value of an optional string.
fn opt_field_value(o: &Option<String>) -> (r: FieldValue)
    ensures
        r@ == opt_field(opt_view(*o)),
{
    match o {
        Some(s) => FieldValue::Str(s.clone()),
        None => FieldValue::Null,
    }
}

/// The fields a project entry carries in the index artifact, in the
/// order they are written.
pub open spec fn project_fields(m: ProjectMetaV) -> Seq<(Seq<char>, FieldValueV)> {
    seq![
        ("id"@, FieldValueV::Str(m.id)),
        ("title"@, FieldValueV::Str(m.title)),
        ("date"@, FieldValueV::Str(m.date)),
        ("author"@, FieldValueV::Str(m.author)),
        ("description"@, FieldValueV::Str(m.description)),
        ("image_url"@, FieldValueV::Str(m.image_url)),
        ("tags"@, FieldValueV::List(m.tags)),
        ("link"@, opt_field(m.link)),
        ("link_text"@, opt_field(m.link_text)),
        ("route"@, opt_field(m.route)),
    ]
}

/// The records of a whole project index.
pub open spec fn project_records(entries: Seq<ProjectMetaV>) -> Seq<
    Seq<(Seq<char>, FieldValueV)>,
> {
    entries.map_values(|m: ProjectMetaV| project_fields(m))
}

/// Builds the field record of one project entry.
fn project_fields_vec(m: &ProjectMeta) -> (r: Vec<(String, FieldValue)>)
    ensures
        field_views(r@) == project_fields(m@),
{
    let mut r: Vec<(String, FieldValue)> = Vec::new();
    r.push(("id".to_owned(), FieldValue::Str(m.id.clone())));
    r.push(("title".to_owned(), FieldValue::Str(m.title.clone())));
    r.push(("date".to_owned(), FieldValue::Str(m.date.clone())));
    r.push(("author".to_owned(), FieldValue::Str(m.author.clone())));
    r.push(("description".to_owned(), FieldValue::Str(m.description.clone())));
    r.push(("image_url".to_owned(), FieldValue::Str(m.image_url.clone())));
    r.push(("tags".to_owned(), FieldValue::List(clone_strings(&m.tags))));
    r.push(("link".to_owned(), opt_field_value(&m.link)));
    r.push(("link_text".to_owned(), opt_field_value(&m.link_text)));
    r.push(("route".to_owned(), opt_field_value(&m.route)));
    proof {
        assert(field_views(r@) =~= project_fields(m@));
    }
    r
}

/// Writes the records of a project index from position `k` on, joined
/// by commas.
#[verifier::loop_isolation(false)]
fn encode_project_records_from(projects: &Vec<ProjectMeta>, k: usize) -> (r: String)
    requires
        k <= projects@.len(),
    ensures
        r@ == enc_record_items(project_records(project_views(projects@)).skip(k as int)),
    decreases projects@.len() - k,
{
    let ghost rs = project_records(project_views(projects@));
    if k >= projects.len() {
        let r = String::new();
        proof {
            assert(rs.skip(k as int).len() == 0);
            assert(r@ =~= enc_record_items(rs.skip(k as int)));
        }
        return r;
    }
    proof {
        assert(rs.skip(k as int)[0] == rs[k as int]);
        assert(project_views(projects@)[k as int] == projects@[k as int]@);
    }
    let fields = project_fields_vec(&projects[k]);
    let mut acc = encode_record(&fields);
    if k + 1 < projects.len() {
        proof {
            reveal_strlit(",");
            assert(rs.skip(k as int).drop_first() =~= rs.skip(k as int + 1));
        }
        acc.append(",");
        let rest = encode_project_records_from(projects, k + 1);
        acc.append(rest.as_str());
        proof {
            assert(acc@ =~= enc_record_items(rs.skip(k as int)));
        }
    } else {
        proof {
            assert(rs.skip(k as int).len() == 1);
        }
    }
    acc
}

/// Writes a project index as its persisted artifact: one array of
/// entry records, in index order.
pub fn encode_project_index(projects: &Vec<ProjectMeta>) -> (r: String)
    ensures
        r@ == enc_artifact(project_records(project_views(projects@))),
{
    let mut acc = String::new();
    acc.append("[");
    let items = encode_project_records_from(projects, 0);
    acc.append(items.as_str());
    acc.append("]");
    proof {
        reveal_strlit("[");
        reveal_strlit("]");
        assert(project_records(project_views(projects@)).skip(0) =~= project_records(
            project_views(projects@),
        ));
        assert(acc@ =~= enc_artifact(project_records(project_views(projects@))));
    }
    acc
}

/// The project entry an artifact record stands for: the `id` defaults
/// to empty when absent, the link fields may be absent or `null`, and
/// every other field is required.
pub open spec fn json_project_of_fields(fields: Seq<(Seq<char>, FieldValueV)>) -> Option<
    ProjectMetaV,
> {
    if spec_dflt_str(fields, "id"@) is None || spec_req_str(fields, "title"@) is None
        || spec_req_str(fields, "date"@) is None || spec_req_str(fields, "author"@) is None
        || spec_req_str(fields, "description"@) is None || spec_req_str(
        fields,
        "image_url"@,
    ) is None || spec_req_list(fields, "tags"@) is None || spec_opt_str(
        fields,
        "link"@,
    ) is None || spec_opt_str(fields, "link_text"@) is None || spec_opt_str(
        fields,
        "route"@,
    ) is None {
        None
    } else {
        Some(
            ProjectMetaV {
                id: spec_dflt_str(fields, "id"@).unwrap_or(Seq::empty()),
                title: spec_req_str(fields, "title"@).unwrap_or(Seq::empty()),
                date: spec_req_str(fields, "date"@).unwrap_or(Seq::empty()),
                author: spec_req_str(fields, "author"@).unwrap_or(Seq::empty()),
                description: spec_req_str(fields, "description"@).unwrap_or(Seq::empty()),
                image_url: spec_req_str(fields, "image_url"@).unwrap_or(Seq::empty()),
                tags: spec_req_list(fields, "tags"@).unwrap_or(Seq::empty()),
                link: spec_opt_str(fields, "link"@).unwrap_or(None),
                link_text: spec_opt_str(fields, "link_text"@).unwrap_or(None),
                route: spec_opt_str(fields, "route"@).unwrap_or(None),
            },
        )
    }
}

/// Reads one artifact record as a project entry.
fn project_of_record(fields: &Vec<(String, FieldValue)>) -> (r: Option<ProjectMeta>)
    ensures
        match r {
            Some(m) => json_project_of_fields(field_views(fields@)) == Some(m@),
            None => json_project_of_fields(field_views(fields@)) is None,
        },
{
    let id = match dflt_str(fields, "id") {
        Some(t) => t,
        None => {
            return None;
        },
    };
    let title = match req_str(fields, "title") {
        Some(t) => t,
        None => {
            return None;
        },
    };
    let date = match req_str(fields, "date") {
        Some(t) => t,
        None => {
            return None;
        },
    };
    let author = match req_str(fields, "author") {
        Some(t) => t,
        None => {
            return None;
        },
    };
    let description = match req_str(fields, "description") {
        Some(t) => t,
        None => {
            return None;
        },
    };
    let image_url = match req_str(fields, "image_url") {
        Some(t) => t,
        None => {
            return None;
        },
    };
    let tags = match req_list(fields, "tags") {
        Some(t) => t,
        None => {
            return None;
        },
    };
    let link = match opt_str(fields, "link") {
        Some(t) => t,
        None => {
            return None;
        },
    };
    let link_text = match opt_str(fields, "link_text") {
        Some(t) => t,
        None => {
            return None;
        },
    };
    let route = match opt_str(fields, "route") {
        Some(t) => t,
        None => {
            return None;
        },
    };
    Some(
        ProjectMeta {
            id,
            title,
            date,
            author,
            description,
            image_url,
            tags,
            link,
            link_text,
            route,
        },
    )
}

/// The project entries a sequence of artifact records stands for, all
/// or nothing.
pub open spec fn projects_of_records(rs: Seq<Seq<(Seq<char>, FieldValueV)>>) -> Option<
    Seq<ProjectMetaV>,
>
    decreases rs.len(),
{
    if rs.len() == 0 {
        Some(Seq::empty())
    } else {
        match json_project_of_fields(rs[0]) {
            None => None,
            Some(m) => match projects_of_records(rs.drop_first()) {
                None => None,
                Some(t) => Some(seq![m] + t),
            },
        }
    }
}

/// The project index an artifact text stands for, in the order
/// written.
pub open spec fn spec_parse_project_index(text: Seq<char>) -> Option<Seq<ProjectMetaV>> {
    match parse_artifact(text) {
        None => None,
        Some(rs) => projects_of_records(rs),
    }
}

/// Reads a project index artifact; `None` when the text is not an
/// array of well-formed entry records.
#[verifier::loop_isolation(false)]
pub fn parse_project_index(text: &str) -> (r: Option<Vec<ProjectMeta>>)
    ensures
        match r {
            Some(v) => spec_parse_project_index(text@) == Some(project_views(v@)),
            None => spec_parse_project_index(text@) is None,
        },
{
    let records = match parse_artifact_records(text) {
        None => {
            return None;
        },
        Some(rs) => rs,
    };
    let ghost rv = record_views(records@);
    let mut out: Vec<ProjectMeta> = Vec::new();
    let mut k: usize = 0;
    proof {
        assert(rv.skip(0) =~= rv);
        assert(project_views(out@) =~= Seq::<ProjectMetaV>::empty());
    }
    while k < records.len()
        invariant
            k <= records@.len(),
            rv == record_views(records@),
            rv.len() == records@.len(),
            match projects_of_records(rv.skip(k as int)) {
                Some(t) => projects_of_records(rv) == Some(project_views(out@) + t),
                None => projects_of_records(rv) is None,
            },
        decreases records@.len() - k,
    {
        proof {
            assert(rv.skip(k as int)[0] == rv[k as int]);
            assert(rv[k as int] == field_views(records@[k as int]@));
            assert(rv.skip(k as int).drop_first() =~= rv.skip(k as int + 1));
        }
        let m = match project_of_record(&records[k]) {
            None => {
                return None;
            },
            Some(m) => m,
        };
        let ghost old_out = out@;
        let ghost mv = m@;
        out.push(m);
        proof {
            lemma_project_views_push(old_out, out@[out@.len() - 1]);
            assert forall|t: Seq<ProjectMetaV>|
                projects_of_records(rv.skip(k as int + 1)) == Some(t) implies project_views(
                out@,
            ) + t =~= project_views(old_out) + (seq![mv] + t) by {
                assert(project_views(out@) =~= project_views(old_out) + seq![mv]);
            }
        }
        k = k + 1;
    }
    proof {
        assert(rv.skip(k as int).len() == 0);
        assert(projects_of_records(rv.skip(k as int)) == Some(Seq::<ProjectMetaV>::empty()));
        assert(project_views(out@) + Seq::<ProjectMetaV>::empty() =~= project_views(out@));
    }
    Some(out)
}

/// Reads a project index artifact and sorts it by date, newest first;
/// a text that does not parse yields the empty index, never a fault.
pub fn projects_from_artifact(text: &str) -> (r: Vec<ProjectMeta>)
    ensures
        match spec_parse_project_index(text@) {
            Some(entries) => project_views(r@) == spec_sort_desc(entries),
            None => r@ == Seq::<ProjectMeta>::empty(),
        },
{
    match parse_project_index(text) {
        None => Vec::new(),
        Some(v) => sort_by_date_desc(v),
    }
}

/// An artifact record written for a project entry reads back as
/// exactly that entry.
pub proof fn lemma_json_project_fields(m: ProjectMetaV)
    ensures
        json_project_of_fields(project_fields(m)) == Some(m),
{
    let fields = project_fields(m);
    reveal_strlit("id");
    reveal_strlit("title");
    reveal_strlit("date");
    reveal_strlit("author");
    reveal_strlit("description");
    reveal_strlit("image_url");
    reveal_strlit("tags");
    reveal_strlit("link");
    reveal_strlit("link_text");
    reveal_strlit("route");
    assert("id"@.len() == 2);
    assert("title"@.len() == 5);
    assert("date"@.len() == 4);
    assert("author"@.len() == 6);
    assert("description"@.len() == 11);
    assert("image_url"@.len() == 9);
    assert("tags"@.len() == 4);
    assert("link"@.len() == 4);
    assert("link_text"@.len() == 9);
    assert("route"@.len() == 5);
    assert("date"@[0] == 'd');
    assert("tags"@[0] == 't');
    assert("link"@[0] == 'l');
    assert("title"@[0] == 't');
    assert("route"@[0] == 'r');
    assert("image_url"@[0] == 'i');
    assert("link_text"@[0] == 'l');
    assert("link_text"@[1] == 'i');
    assert("image_url"@[1] == 'm');
    assert(fields[0] == ("id"@, FieldValueV::Str(m.id)));
    assert(fields[1] == ("title"@, FieldValueV::Str(m.title)));
    assert(fields[2] == ("date"@, FieldValueV::Str(m.date)));
    assert(fields[3] == ("author"@, FieldValueV::Str(m.author)));
    assert(fields[4] == ("description"@, FieldValueV::Str(m.description)));
    assert(fields[5] == ("image_url"@, FieldValueV::Str(m.image_url)));
    assert(fields[6] == ("tags"@, FieldValueV::List(m.tags)));
    assert(fields[7] == ("link"@, opt_field(m.link)));
    assert(fields[8] == ("link_text"@, opt_field(m.link_text)));
    assert(fields[9] == ("route"@, opt_field(m.route)));
    lemma_lookup_at(fields, "id"@, 0);
    lemma_lookup_at(fields, "title"@, 1);
    lemma_lookup_at(fields, "date"@, 2);
    lemma_lookup_at(fields, "author"@, 3);
    lemma_lookup_at(fields, "description"@, 4);
    lemma_lookup_at(fields, "image_url"@, 5);
    lemma_lookup_at(fields, "tags"@, 6);
    lemma_lookup_at(fields, "link"@, 7);
    lemma_lookup_at(fields, "link_text"@, 8);
    lemma_lookup_at(fields, "route"@, 9);
    assert(json_project_of_fields(fields) == Some(
        ProjectMetaV {
            id: m.id,
            title: m.title,
            date: m.date,
            author: m.author,
            description: m.description,
            image_url: m.image_url,
            tags: m.tags,
            link: m.link,
            link_text: m.link_text,
            route: m.route,
        },
    ));
    assert(m == ProjectMetaV {
        id: m.id,
        title: m.title,
        date: m.date,
        author: m.author,
        description: m.description,
        image_url: m.image_url,
        tags: m.tags,
        link: m.link,
        link_text: m.link_text,
        route: m.route,
    });
}

/// A sequence of records written for project entries reads back as
/// exactly those entries.
pub proof fn lemma_projects_of_records_round(entries: Seq<ProjectMetaV>)
    ensures
        projects_of_records(project_records(entries)) == Some(entries),
    decreases entries.len(),
{
    let rs = project_records(entries);
    if entries.len() == 0 {
        assert(rs.len() == 0);
        assert(Seq::<ProjectMetaV>::empty() =~= entries);
    } else {
        assert(rs[0] == project_fields(entries[0]));
        lemma_json_project_fields(entries[0]);
        assert(rs.drop_first() =~= project_records(entries.drop_first()));
        lemma_projects_of_records_round(entries.drop_first());
        assert(seq![entries[0]] + entries.drop_first() =~= entries);
    }
}

/// Round trip: writing a project index as its artifact and reading the
/// artifact back yields the same entries.
pub proof fn lemma_project_index_round_trip(entries: Seq<ProjectMetaV>)
    ensures
        spec_parse_project_index(enc_artifact(project_records(entries))) == Some(entries),
{
    lemma_artifact_round_trip(project_records(entries));
    lemma_projects_of_records_round(entries);
}

} // verus!
