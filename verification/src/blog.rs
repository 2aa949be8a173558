//! Blog posts: the post schema, the per-entry parse, and the sorted
//! post index.

use vstd::prelude::*;
use crate::categories::insert_tags;
use crate::categories::lemma_insert_all_props;
use crate::categories::spec_insert_all;
use crate::categories::strictly_ascending;
use crate::seqs::lemma_filter_none;
use crate::seqs::lemma_filter_singleton;
use crate::content::CommonMetaV;
use crate::content::FmOutcome;
use crate::fields::FieldValue;
use crate::fields::FieldValueV;
use crate::fields::dflt_str;
use crate::fields::field_views;
use crate::fields::lemma_lookup_at;
use crate::fields::req_list;
use crate::fields::req_str;
use crate::fields::spec_dflt_str;
use crate::fields::spec_req_list;
use crate::fields::spec_req_str;
use crate::json::enc_artifact;
use crate::json::enc_record_items;
use crate::json::encode_record;
use crate::json::lemma_artifact_round_trip;
use crate::json::parse_artifact;
use crate::json::parse_artifact_records;
use crate::json::record_views;
use crate::text::clone_strings;
use crate::content::ParseError;
use crate::content::get_read_time;
use crate::content::parse_frontmatter;
use crate::content::spec_parse_frontmatter;
use crate::content::spec_read_time;
use crate::normalize::normalize_image_url;
use crate::normalize::spec_normalize;
use crate::text::lemma_lex_connected;
use crate::text::lemma_lex_transitive;
use crate::text::lex_le;
use crate::text::lex_lt;
use crate::text::str_eq;
use crate::text::str_le;
use crate::text::str_views;

verus! {

/// Metadata for a blog post.
#[derive(Clone, Debug, PartialEq)]
pub struct PostMeta {
    pub id: String,
    pub title: String,
    pub date: String,
    pub author: String,
    pub description: String,
    pub image_url: String,
    pub tags: Vec<String>,
}

/// The mathematical shape of a [`PostMeta`].
pub struct PostMetaV {
    pub id: Seq<char>,
    pub title: Seq<char>,
    pub date: Seq<char>,
    pub author: Seq<char>,
    pub description: Seq<char>,
    pub image_url: Seq<char>,
    pub tags: Seq<Seq<char>>,
}

impl View for PostMeta {
    type V = PostMetaV;

    open spec fn view(&self) -> PostMetaV {
        PostMetaV {
            id: self.id@,
            title: self.title@,
            date: self.date@,
            author: self.author@,
            description: self.description@,
            image_url: self.image_url@,
            tags: str_views(self.tags@),
        }
    }
}

/// A complete blog post: its metadata and its markdown body.
#[derive(Clone, Debug, PartialEq)]
pub struct Post {
    pub meta: PostMeta,
    pub content: String,
}

/// The mathematical shape of a [`Post`].
pub struct PostV {
    pub meta: PostMetaV,
    pub content: Seq<char>,
}

impl View for Post {
    type V = PostV;

    open spec fn view(&self) -> PostV {
        PostV { meta: self.meta@, content: self.content@ }
    }
}

impl Post {
    /// Estimates the reading time of the post body.
    pub fn get_read_time(&self) -> (r: String)
        ensures
            r@ == spec_read_time(self.content@),
    {
        get_read_time(self.content.as_str())
    }
}

/// Common metadata relabelled as post metadata under a given `id`.
pub open spec fn spec_post_with_id(m: CommonMetaV, id: Seq<char>) -> PostMetaV {
    PostMetaV {
        id: id,
        title: m.title,
        date: m.date,
        author: m.author,
        description: m.description,
        image_url: m.image_url,
        tags: m.tags,
    }
}

/// Parses a document into a post, overwriting the `id` with the given
/// one.  The body keeps its raw image reference: normalization belongs
/// to index building, not to document parsing.
pub fn parse_markdown(content: &str, id: String) -> (r: Result<Post, ParseError>)
    ensures
        match spec_parse_frontmatter(content@) {
            FmOutcome::Meta(m, b) => r matches Ok(p) && p.meta@ == spec_post_with_id(m, id@)
                && p.content@ == b,
            FmOutcome::Missing => r == Err::<Post, ParseError>(
                ParseError::MissingFrontmatter,
            ),
            FmOutcome::Malformed => r == Err::<Post, ParseError>(
                ParseError::MalformedFrontmatter,
            ),
            FmOutcome::Schema(n) => r matches Err(ParseError::SchemaValidationError(f))
                && f@ == n,
        },
{
    match parse_frontmatter(content) {
        Err(e) => Err(e),
        Ok((meta, body)) => {
            let post_meta = PostMeta {
                id: id,
                title: meta.title,
                date: meta.date,
                author: meta.author,
                description: meta.description,
                image_url: meta.image_url,
                tags: meta.tags,
            };
            Ok(Post { meta: post_meta, content: body })
        },
    }
}

/// The index entry read from one document: the parsed metadata with the
/// `id` overwritten and the image reference normalized for the `posts`
/// collection, or nothing when the document does not parse.
pub open spec fn spec_post_entry(text: Seq<char>, id: Seq<char>) -> Option<PostMetaV> {
    match spec_parse_frontmatter(text) {
        FmOutcome::Meta(m, _b) => Some(
            PostMetaV {
                id: id,
                title: m.title,
                date: m.date,
                author: m.author,
                description: m.description,
                image_url: spec_normalize(m.image_url, "posts"@, id),
                tags: m.tags,
            },
        ),
        _ => None,
    }
}

/// The views of a sequence of post metadata.
pub open spec fn post_views(s: Seq<PostMeta>) -> Seq<PostMetaV> {
    s.map_values(|e: PostMeta| e@)
}

/// The entries carrying a given date.
pub open spec fn with_date(d: Seq<char>) -> spec_fn(PostMetaV) -> bool {
    |e: PostMetaV| e.date == d
}

/// Sorted by date, newest first: every later entry's date compares at
/// or below every earlier one's.
pub open spec fn sorted_by_date_desc(s: Seq<PostMetaV>) -> bool {
    forall|i: int, j: int| 0 <= i < j < s.len() ==> lex_le(#[trigger] s[j].date, #[trigger] s[i].date)
}

/// An entry placed into a date-descending sequence, before the first
/// entry whose date compares at or below its own.
pub open spec fn spec_insert_desc(e: PostMetaV, s: Seq<PostMetaV>) -> Seq<PostMetaV>
    decreases s.len(),
{
    if s.len() > 0 && !lex_le(s[0].date, e.date) {
        seq![s[0]] + spec_insert_desc(e, s.drop_first())
    } else {
        seq![e] + s
    }
}

/// Where [`spec_insert_desc`] places its entry.
pub open spec fn spec_insert_pos(e: PostMetaV, s: Seq<PostMetaV>) -> int
    decreases s.len(),
{
    if s.len() > 0 && !lex_le(s[0].date, e.date) {
        1 + spec_insert_pos(e, s.drop_first())
    } else {
        0
    }
}

/// The shape of an insertion: the entry stands at its position, between
/// the strictly newer prefix and the rest.
pub proof fn lemma_insert_desc_shape(e: PostMetaV, s: Seq<PostMetaV>)
    ensures
        0 <= spec_insert_pos(e, s) <= s.len(),
        spec_insert_desc(e, s) == s.subrange(0, spec_insert_pos(e, s)) + seq![e] + s.subrange(
            spec_insert_pos(e, s),
            s.len() as int,
        ),
        forall|k: int| 0 <= k < spec_insert_pos(e, s) ==> !lex_le(#[trigger] s[k].date, e.date),
        spec_insert_pos(e, s) < s.len() ==> lex_le(s[spec_insert_pos(e, s)].date, e.date),
    decreases s.len(),
{
    if s.len() > 0 && !lex_le(s[0].date, e.date) {
        lemma_insert_desc_shape(e, s.drop_first());
        let rest = s.drop_first();
        let p = spec_insert_pos(e, rest);
        assert(s.subrange(0, p + 1) =~= seq![s[0]] + rest.subrange(0, p));
        assert(s.subrange(p + 1, s.len() as int) =~= rest.subrange(p, rest.len() as int));
        assert(seq![s[0]] + (rest.subrange(0, p) + seq![e] + rest.subrange(
            p,
            rest.len() as int,
        )) =~= s.subrange(0, p + 1) + seq![e] + s.subrange(p + 1, s.len() as int));
        assert forall|k: int| 0 <= k < spec_insert_pos(e, s) implies !lex_le(
            #[trigger] s[k].date,
            e.date,
        ) by {
            if k > 0 {
                assert(s[k] == rest[k - 1]);
            }
        }
    } else {
        assert(s.subrange(0, 0) =~= Seq::<PostMetaV>::empty());
        assert(s.subrange(0, s.len() as int) =~= s);
        assert(Seq::<PostMetaV>::empty() + seq![e] + s =~= seq![e] + s);
    }
}

/// Inserting keeps a date-descending sequence date-descending.
pub proof fn lemma_insert_desc_sorted(e: PostMetaV, s: Seq<PostMetaV>)
    requires
        sorted_by_date_desc(s),
    ensures
        sorted_by_date_desc(spec_insert_desc(e, s)),
{
    lemma_insert_desc_shape(e, s);
    let p = spec_insert_pos(e, s);
    let out = spec_insert_desc(e, s);
    assert forall|i: int, j: int| 0 <= i < j < out.len() implies lex_le(
        #[trigger] out[j].date,
        #[trigger] out[i].date,
    ) by {
        if i < p {
            assert(out[i] == s[i]);
            assert(!lex_le(s[i].date, e.date));
            if !lex_lt(e.date, s[i].date) {
                lemma_lex_connected(s[i].date, e.date);
            }
            assert(lex_le(e.date, s[i].date));
        }
        if j > p {
            assert(out[j] == s[j - 1]);
        }
        if i == p && j > p {
            assert(lex_le(s[j - 1].date, s[p].date));
            assert(lex_le(s[p].date, e.date));
            if lex_lt(s[j - 1].date, s[p].date) && lex_lt(s[p].date, e.date) {
                lemma_lex_transitive(s[j - 1].date, s[p].date, e.date);
            }
        }
        if i < p && j == p {
            assert(lex_le(e.date, s[i].date));
        }
        if i < p && j > p {
            assert(lex_le(s[j - 1].date, s[i].date));
        }
    }
}

/// Inserting an entry adds it in front of the equal-dated entries
/// already present, and changes no other date's entries.
pub proof fn lemma_insert_desc_filter(e: PostMetaV, s: Seq<PostMetaV>, d: Seq<char>)
    ensures
        spec_insert_desc(e, s).filter(with_date(d)) == (if e.date == d {
            seq![e]
        } else {
            Seq::<PostMetaV>::empty()
        }) + s.filter(with_date(d)),
{
    lemma_insert_desc_shape(e, s);
    let p = spec_insert_pos(e, s);
    let pre = s.subrange(0, p);
    let suf = s.subrange(p, s.len() as int);
    let pred = with_date(d);
    Seq::filter_distributes_over_add(pre + seq![e], suf, pred);
    Seq::filter_distributes_over_add(pre, seq![e], pred);
    Seq::filter_distributes_over_add(pre, suf, pred);
    assert(s =~= pre + suf);
    lemma_filter_singleton(e, pred);
    if e.date == d {
        assert forall|k: int| 0 <= k < pre.len() implies !pred(pre[k]) by {
            assert(pre[k] == s[k]);
            assert(!lex_le(s[k].date, e.date));
        }
        lemma_filter_none(pre, pred);
        assert(spec_insert_desc(e, s).filter(pred) =~= seq![e] + s.filter(pred));
    } else {
        assert(spec_insert_desc(e, s).filter(pred) =~= s.filter(pred));
        assert((if e.date == d {
            seq![e]
        } else {
            Seq::<PostMetaV>::empty()
        }) + s.filter(pred) =~= s.filter(pred));
    }
}

/// The entries of a sequence sorted by date, newest first, entries of
/// equal date keeping their order.
pub open spec fn spec_sort_desc(s: Seq<PostMetaV>) -> Seq<PostMetaV>
    decreases s.len(),
{
    if s.len() == 0 {
        s
    } else {
        spec_insert_desc(s[0], spec_sort_desc(s.drop_first()))
    }
}

/// A sorted index is ordered by date, newest first.
pub proof fn lemma_sort_desc_sorted(s: Seq<PostMetaV>)
    ensures
        sorted_by_date_desc(spec_sort_desc(s)),
    decreases s.len(),
{
    if s.len() > 0 {
        lemma_sort_desc_sorted(s.drop_first());
        lemma_insert_desc_sorted(s[0], spec_sort_desc(s.drop_first()));
    }
}

/// Sorting keeps the entries of each date in their original order, and
/// so keeps exactly the original entries.
pub proof fn lemma_sort_desc_stable(s: Seq<PostMetaV>, d: Seq<char>)
    ensures
        spec_sort_desc(s).filter(with_date(d)) == s.filter(with_date(d)),
    decreases s.len(),
{
    let pred = with_date(d);
    if s.len() > 0 {
        let rest = s.drop_first();
        lemma_sort_desc_stable(rest, d);
        lemma_insert_desc_filter(s[0], spec_sort_desc(rest), d);
        assert(s =~= seq![s[0]] + rest);
        Seq::filter_distributes_over_add(seq![s[0]], rest, pred);
        lemma_filter_singleton(s[0], pred);
        if s[0].date == d {
            assert(spec_sort_desc(s).filter(pred) =~= seq![s[0]] + rest.filter(pred));
            assert(s.filter(pred) =~= seq![s[0]] + rest.filter(pred));
        } else {
            assert(spec_sort_desc(s).filter(pred) =~= rest.filter(pred));
            assert(s.filter(pred) =~= rest.filter(pred));
        }
    }
}

/// Sorting keeps the number of entries.
pub proof fn lemma_sort_desc_len(s: Seq<PostMetaV>)
    ensures
        spec_sort_desc(s).len() == s.len(),
    decreases s.len(),
{
    if s.len() > 0 {
        lemma_sort_desc_len(s.drop_first());
        lemma_insert_desc_shape(s[0], spec_sort_desc(s.drop_first()));
    }
}

/// Sorts post metadata by date, newest first; entries of equal date
/// keep their order.
#[verifier::loop_isolation(false)]
pub fn sort_by_date_desc(posts: Vec<PostMeta>) -> (r: Vec<PostMeta>)
    ensures
        post_views(r@) == spec_sort_desc(post_views(posts@)),
{
    let ghost orig = post_views(posts@);
    let mut stack = posts;
    let mut out: Vec<PostMeta> = Vec::new();
    proof {
        assert(post_views(stack@) =~= orig.subrange(0, stack@.len() as int));
        assert(orig.skip(stack@.len() as int) =~= Seq::<PostMetaV>::empty());
        assert(post_views(out@) =~= Seq::<PostMetaV>::empty());
    }
    loop
        invariant
            stack@.len() <= orig.len(),
            post_views(stack@) == orig.subrange(0, stack@.len() as int),
            post_views(out@) == spec_sort_desc(orig.skip(stack@.len() as int)),
        decreases stack@.len(),
    {
        let ghost k = stack@.len() as int;
        let ghost old_stack = stack@;
        let e = match stack.pop() {
            Some(e) => e,
            None => {
                proof {
                    assert(stack@.len() == 0);
                    assert(post_views(out@) == spec_sort_desc(orig.skip(0)));
                    assert(orig.skip(0) =~= orig);
                    assert(post_views(out@) == spec_sort_desc(orig));
                }
                return out;
            },
        };
        let ghost ev = e@;
        let ghost old_out = post_views(out@);
        proof {
            assert(stack@ == old_stack.subrange(0, k - 1));
            assert forall|q: int| 0 <= q < k - 1 implies post_views(stack@)[q] == orig[q] by {
                assert(post_views(stack@)[q] == stack@[q]@);
                assert(stack@[q] == old_stack[q]);
                assert(post_views(old_stack)[q] == old_stack[q]@);
                assert(post_views(old_stack)[q] == orig.subrange(0, k)[q]);
            }
            assert(post_views(stack@) =~= orig.subrange(0, k - 1));
            assert(post_views(old_stack)[k - 1] == old_stack[k - 1]@);
            assert(post_views(old_stack)[k - 1] == orig.subrange(0, k)[k - 1]);
            assert(ev == orig[k - 1]);
            assert(orig.skip(k - 1)[0] == orig[k - 1]);
            assert(orig.skip(k - 1).drop_first() =~= orig.skip(k));
            lemma_insert_desc_shape(ev, old_out);
        }
        let mut p: usize = 0;
        while p < out.len() && !str_le(out[p].date.as_str(), e.date.as_str())
            invariant
                p <= out@.len(),
                old_out == post_views(out@),
                old_out.len() == out@.len(),
                forall|q: int| 0 <= q < p ==> !lex_le(#[trigger] old_out[q].date, ev.date),
            decreases out@.len() - p,
        {
            proof {
                assert(old_out[p as int] == out@[p as int]@);
                assert(!lex_le(out@[p as int].date@, e.date@));
                assert(out@[p as int]@.date == out@[p as int].date@);
                assert(ev.date == e.date@);
                assert(!lex_le(old_out[p as int].date, ev.date));
            }
            p = p + 1;
        }
        proof {
            if p < out@.len() {
                assert(old_out[p as int] == out@[p as int]@);
            }
            assert(spec_insert_pos(ev, old_out) == p as int) by {
                lemma_insert_pos_bound(ev, old_out, p as int);
            }
        }
        out.insert(p, e);
        proof {
            assert forall|j: int| 0 <= j < post_views(out@).len() implies post_views(out@)[j]
                == spec_insert_desc(ev, old_out)[j] by {
                assert(post_views(out@)[j] == out@[j]@);
                let pre = old_out.subrange(0, p as int);
                let suf = old_out.subrange(p as int, old_out.len() as int);
                assert(spec_insert_desc(ev, old_out) == pre + seq![ev] + suf);
                if j < p as int {
                    assert(out@[j]@ == old_out[j]);
                } else if j == p as int {
                    assert(out@[j]@ == ev);
                } else {
                    assert(out@[j]@ == old_out[j - 1]);
                }
            }
            assert(post_views(out@) =~= spec_insert_desc(ev, old_out));
        }
    }
}

/// The insertion position is where the scan stopped: every earlier
/// entry is strictly newer, and the entry there (if any) is not.
proof fn lemma_insert_pos_bound(e: PostMetaV, s: Seq<PostMetaV>, p: int)
    requires
        0 <= p <= s.len(),
        forall|q: int| 0 <= q < p ==> !lex_le(#[trigger] s[q].date, e.date),
        p < s.len() ==> lex_le(s[p].date, e.date),
    ensures
        spec_insert_pos(e, s) == p,
    decreases s.len(),
{
    if s.len() > 0 && !lex_le(s[0].date, e.date) {
        assert(p > 0);
        let rest = s.drop_first();
        assert forall|q: int| 0 <= q < p - 1 implies !lex_le(
            #[trigger] rest[q].date,
            e.date,
        ) by {
            assert(rest[q] == s[q + 1]);
        }
        if p - 1 < rest.len() {
            assert(rest[p - 1] == s[p]);
        }
        lemma_insert_pos_bound(e, rest, p - 1);
    } else {
        assert(p == 0);
    }
}

/// Parses one document into a post index entry: the `id` is the given
/// one and the image reference is normalized for the `posts` collection.
pub fn parse_post_meta(content: &str, id: &str) -> (r: Option<PostMeta>)
    ensures
        match r {
            Some(m) => spec_post_entry(content@, id@) == Some(m@),
            None => spec_post_entry(content@, id@) is None,
        },
{
    match parse_frontmatter(content) {
        Err(_) => None,
        Ok((meta, _body)) => {
            let image_url = normalize_image_url(meta.image_url.as_str(), "posts", id);
            Some(
                PostMeta {
                    id: id.to_owned(),
                    title: meta.title,
                    date: meta.date,
                    author: meta.author,
                    description: meta.description,
                    image_url: image_url,
                    tags: meta.tags,
                },
            )
        },
    }
}

/// A view of a sequence grows at the end as the sequence does.
proof fn lemma_post_views_push(s: Seq<PostMeta>, e: PostMeta)
    ensures
        post_views(s.push(e)) == post_views(s).push(e@),
{
    assert(post_views(s.push(e)) =~= post_views(s).push(e@));
}

/// The index entries read from documents given as `(id, text)` pairs,
/// in input order: each document that parses contributes one entry, and
/// the rest are skipped.
pub open spec fn spec_doc_entries(docs: Seq<(String, String)>) -> Seq<PostMetaV>
    decreases docs.len(),
{
    if docs.len() == 0 {
        Seq::empty()
    } else {
        match spec_post_entry(docs[0].1@, docs[0].0@) {
            Some(m) => seq![m] + spec_doc_entries(docs.drop_first()),
            None => spec_doc_entries(docs.drop_first()),
        }
    }
}

/// Builds the post index from documents given as `(id, text)` pairs:
/// documents that do not parse are skipped (one bad file never blocks
/// the others), the `id` is the given one, image references are
/// normalized, and the result is sorted by date, newest first, entries
/// of equal date keeping input order.
#[verifier::loop_isolation(false)]
pub fn get_all_posts(docs: &Vec<(String, String)>) -> (r: Vec<PostMeta>)
    ensures
        post_views(r@) == spec_sort_desc(spec_doc_entries(docs@)),
{
    let ghost dv = docs@;
    let mut entries: Vec<PostMeta> = Vec::new();
    let mut k: usize = 0;
    proof {
        assert(dv.skip(0) =~= dv);
        assert(post_views(entries@) =~= Seq::<PostMetaV>::empty());
        assert(Seq::<PostMetaV>::empty() + spec_doc_entries(dv) =~= spec_doc_entries(dv));
    }
    while k < docs.len()
        invariant
            k <= dv.len(),
            dv == docs@,
            spec_doc_entries(dv) == post_views(entries@) + spec_doc_entries(
                dv.skip(k as int),
            ),
        decreases dv.len() - k,
    {
        proof {
            assert(dv.skip(k as int)[0] == dv[k as int]);
            assert(dv.skip(k as int).drop_first() =~= dv.skip(k as int + 1));
        }
        let ghost old_entries = entries@;
        match parse_post_meta(docs[k].1.as_str(), docs[k].0.as_str()) {
            Some(m) => {
                let ghost mv = m@;
                entries.push(m);
                proof {
                    lemma_post_views_push(old_entries, entries@[entries@.len() - 1]);
                    assert(post_views(entries@) =~= post_views(old_entries).push(mv));
                    assert(post_views(old_entries) + (seq![mv] + spec_doc_entries(
                        dv.skip(k as int + 1),
                    )) =~= post_views(old_entries).push(mv) + spec_doc_entries(
                        dv.skip(k as int + 1),
                    ));
                }
            },
            None => {},
        }
        k = k + 1;
    }
    proof {
        assert(dv.skip(k as int).len() == 0);
        assert(post_views(entries@) + spec_doc_entries(dv.skip(k as int)) =~= post_views(
            entries@,
        ));
    }
    sort_by_date_desc(entries)
}

/// A failure that aborts index building.
#[derive(Clone, Debug, PartialEq)]
pub enum IndexError {
    /// Two source documents resolve to the same identifier; the payload
    /// is that identifier.
    DuplicateId(String),
}

/// The identifiers of documents given as `(id, text)` pairs.
pub open spec fn doc_ids(docs: Seq<(String, String)>) -> Seq<Seq<char>> {
    docs.map_values(|p: (String, String)| p.0@)
}

/// The first identifier that repeats an earlier one, scanning from
/// position `k`.
pub open spec fn spec_first_dup(ids: Seq<Seq<char>>, k: int) -> Option<Seq<char>>
    decreases ids.len() - k,
{
    if k < 0 || k >= ids.len() {
        None
    } else if ids.subrange(0, k).contains(ids[k]) {
        Some(ids[k])
    } else {
        spec_first_dup(ids, k + 1)
    }
}

/// Finds the first identifier that repeats an earlier one.
#[verifier::loop_isolation(false)]
pub(crate) fn find_dup(docs: &Vec<(String, String)>) -> (r: Option<String>)
    ensures
        match r {
            Some(d) => spec_first_dup(doc_ids(docs@), 0) == Some(d@),
            None => spec_first_dup(doc_ids(docs@), 0) is None,
        },
{
    let ghost ids = doc_ids(docs@);
    let mut k: usize = 0;
    while k < docs.len()
        invariant
            k <= docs@.len(),
            ids.len() == docs@.len(),
            spec_first_dup(ids, 0) == spec_first_dup(ids, k as int),
        decreases docs@.len() - k,
    {
        proof {
            assert(ids[k as int] == docs@[k as int].0@);
        }
        let mut j: usize = 0;
        while j < k
            invariant
                j <= k < docs@.len(),
                ids.len() == docs@.len(),
                forall|q: int| 0 <= q < j ==> ids[q] != ids[k as int],
            decreases k - j,
        {
            proof {
                assert(ids[j as int] == docs@[j as int].0@);
                assert(ids[k as int] == docs@[k as int].0@);
            }
            if str_eq(docs[j].0.as_str(), docs[k].0.as_str()) {
                proof {
                    assert(ids.subrange(0, k as int)[j as int] == ids[j as int]);
                    assert(ids.subrange(0, k as int).contains(ids[k as int]));
                }
                return Some(docs[k].0.clone());
            }
            j = j + 1;
        }
        proof {
            assert forall|q: int| 0 <= q < k as int implies ids.subrange(0, k as int)[q] != ids[
                k as int
            ] by {
                assert(ids.subrange(0, k as int)[q] == ids[q]);
            }
            assert(!ids.subrange(0, k as int).contains(ids[k as int]));
        }
        k = k + 1;
    }
    None
}

/// Builds the post index, failing when two documents share an
/// identifier; otherwise as [`get_all_posts`].
pub fn build_post_index(docs: &Vec<(String, String)>) -> (r: Result<Vec<PostMeta>, IndexError>)
    ensures
        match spec_first_dup(doc_ids(docs@), 0) {
            Some(d) => r matches Err(IndexError::DuplicateId(x)) && x@ == d,
            None => r matches Ok(v) && post_views(v@) == spec_sort_desc(
                spec_doc_entries(docs@),
            ),
        },
{
    match find_dup(docs) {
        Some(d) => Err(IndexError::DuplicateId(d)),
        None => Ok(get_all_posts(docs)),
    }
}

/// The text of the first document with a given identifier.
pub open spec fn spec_find_doc(docs: Seq<(String, String)>, id: Seq<char>) -> Option<Seq<char>>
    decreases docs.len(),
{
    if docs.len() == 0 {
        None
    } else if docs[0].0@ == id {
        Some(docs[0].1@)
    } else {
        spec_find_doc(docs.drop_first(), id)
    }
}

/// Retrieves one post by identifier from documents given as
/// `(id, text)` pairs.  Absence of the document, or a document that
/// does not parse, is `None`: a recoverable not-found, never a fault.
#[verifier::loop_isolation(false)]
pub fn get_post_by_id(docs: &Vec<(String, String)>, id: &str) -> (r: Option<Post>)
    ensures
        match spec_find_doc(docs@, id@) {
            None => r is None,
            Some(text) => match spec_parse_frontmatter(text) {
                FmOutcome::Meta(m, b) => r matches Some(p) && p.meta@ == spec_post_with_id(
                    m,
                    id@,
                ) && p.content@ == b,
                _ => r is None,
            },
        },
{
    let ghost dv = docs@;
    let mut k: usize = 0;
    proof {
        assert(dv.skip(0) =~= dv);
    }
    while k < docs.len()
        invariant
            k <= dv.len(),
            dv == docs@,
            spec_find_doc(dv, id@) == spec_find_doc(dv.skip(k as int), id@),
        decreases dv.len() - k,
    {
        proof {
            assert(dv.skip(k as int)[0] == dv[k as int]);
            assert(dv.skip(k as int).drop_first() =~= dv.skip(k as int + 1));
        }
        if str_eq(docs[k].0.as_str(), id) {
            return match parse_markdown(docs[k].1.as_str(), id.to_owned()) {
                Ok(p) => Some(p),
                Err(_) => None,
            };
        }
        k = k + 1;
    }
    proof {
        assert(dv.skip(k as int).len() == 0);
    }
    None
}

/// The categories accumulated from the tag lists of a sequence of
/// entries, starting from `acc`.
pub open spec fn spec_categories_from(entries: Seq<PostMetaV>, acc: Seq<Seq<char>>) -> Seq<
    Seq<char>,
>
    decreases entries.len(),
{
    if entries.len() == 0 {
        acc
    } else {
        spec_categories_from(entries.drop_first(), spec_insert_all(entries[0].tags, acc))
    }
}

/// The distinct tags of a sequence of entries, strictly ascending.
pub open spec fn spec_categories(entries: Seq<PostMetaV>) -> Seq<Seq<char>> {
    spec_categories_from(entries, Seq::empty())
}

/// Every tag of every entry.
pub open spec fn spec_tag_union(entries: Seq<PostMetaV>) -> Set<Seq<char>> {
    Set::new(
        |t: Seq<char>|
            exists|i: int| 0 <= i < entries.len() && (#[trigger] entries[i].tags).contains(t),
    )
}

/// Accumulating categories keeps the list strictly ascending and adds
/// exactly the entries' tags to its members.
pub proof fn lemma_categories_from_props(entries: Seq<PostMetaV>, acc: Seq<Seq<char>>)
    requires
        strictly_ascending(acc),
    ensures
        strictly_ascending(spec_categories_from(entries, acc)),
        spec_categories_from(entries, acc).to_set() == acc.to_set() + spec_tag_union(entries),
    decreases entries.len(),
{
    if entries.len() == 0 {
        assert(spec_tag_union(entries) =~= Set::<Seq<char>>::empty());
        assert(spec_categories_from(entries, acc).to_set() =~= acc.to_set() + spec_tag_union(
            entries,
        ));
    } else {
        let rest = entries.drop_first();
        lemma_insert_all_props(entries[0].tags, acc);
        lemma_categories_from_props(rest, spec_insert_all(entries[0].tags, acc));
        assert(spec_categories_from(entries, acc).to_set() =~= acc.to_set() + spec_tag_union(
            entries,
        )) by {
            assert forall|t: Seq<char>| spec_tag_union(entries).contains(t) implies
                entries[0].tags.to_set().contains(t) || spec_tag_union(rest).contains(t) by {
                let i = choose|i: int|
                    0 <= i < entries.len() && (#[trigger] entries[i].tags).contains(t);
                if i > 0 {
                    assert(rest[i - 1] == entries[i]);
                    assert(spec_tag_union(rest).contains(t));
                }
            }
            assert forall|t: Seq<char>| spec_tag_union(rest).contains(t) implies spec_tag_union(
                entries,
            ).contains(t) by {
                let i = choose|i: int| 0 <= i < rest.len() && (#[trigger] rest[i].tags).contains(
                    t,
                );
                assert(entries[i + 1] == rest[i]);
                assert((entries[i + 1].tags).contains(t));
            }
            assert forall|t: Seq<char>| entries[0].tags.to_set().contains(t) implies
                spec_tag_union(entries).contains(t) by {
                assert((entries[0].tags).contains(t));
            }
        }
    }
}

/// The distinct tags of an index are strictly ascending, free of
/// duplicates, and together are exactly the tags its entries carry.
pub proof fn lemma_categories_props(entries: Seq<PostMetaV>)
    ensures
        strictly_ascending(spec_categories(entries)),
        spec_categories(entries).to_set() == spec_tag_union(entries),
{
    lemma_categories_from_props(entries, Seq::empty());
    assert(Seq::<Seq<char>>::empty().to_set() =~= Set::<Seq<char>>::empty());
    assert(Set::<Seq<char>>::empty() + spec_tag_union(entries) =~= spec_tag_union(entries));
}

/// Derives the distinct categories of a list of posts, sorted
/// ascending, without duplicates.
#[verifier::loop_isolation(false)]
pub fn derive_categories(posts: &Vec<PostMeta>) -> (r: Vec<String>)
    ensures
        str_views(r@) == spec_categories(post_views(posts@)),
        strictly_ascending(str_views(r@)),
{
    let ghost pv = post_views(posts@);
    let mut acc: Vec<String> = Vec::new();
    let mut k: usize = 0;
    proof {
        assert(pv.skip(0) =~= pv);
        assert(str_views(acc@) =~= Seq::<Seq<char>>::empty());
    }
    while k < posts.len()
        invariant
            k <= pv.len(),
            pv == post_views(posts@),
            pv.len() == posts@.len(),
            strictly_ascending(str_views(acc@)),
            spec_categories_from(pv.skip(k as int), str_views(acc@)) == spec_categories(pv),
        decreases pv.len() - k,
    {
        proof {
            assert(pv[k as int] == posts@[k as int]@);
            assert(pv.skip(k as int)[0] == pv[k as int]);
            assert(pv.skip(k as int).drop_first() =~= pv.skip(k as int + 1));
        }
        insert_tags(&mut acc, &posts[k].tags);
        k = k + 1;
    }
    proof {
        assert(pv.skip(k as int).len() == 0);
    }
    acc
}

/// Builds the post index from documents and derives its categories.
pub fn get_all_categories(docs: &Vec<(String, String)>) -> (r: Vec<String>)
    ensures
        str_views(r@) == spec_categories(spec_sort_desc(spec_doc_entries(docs@))),
        strictly_ascending(str_views(r@)),
{
    let posts = get_all_posts(docs);
    derive_categories(&posts)
}

/// The fields a post entry carries in the index artifact, in the order
/// they are written.
pub open spec fn post_fields(m: PostMetaV) -> Seq<(Seq<char>, FieldValueV)> {
    seq![
        ("id"@, FieldValueV::Str(m.id)),
        ("title"@, FieldValueV::Str(m.title)),
        ("date"@, FieldValueV::Str(m.date)),
        ("author"@, FieldValueV::Str(m.author)),
        ("description"@, FieldValueV::Str(m.description)),
        ("image_url"@, FieldValueV::Str(m.image_url)),
        ("tags"@, FieldValueV::List(m.tags)),
    ]
}

/// The records of a whole post index.
pub open spec fn post_records(entries: Seq<PostMetaV>) -> Seq<Seq<(Seq<char>, FieldValueV)>> {
    entries.map_values(|m: PostMetaV| post_fields(m))
}

/// Builds the field record of one post entry.
fn post_fields_vec(m: &PostMeta) -> (r: Vec<(String, FieldValue)>)
    ensures
        field_views(r@) == post_fields(m@),
{
    let mut r: Vec<(String, FieldValue)> = Vec::new();
    r.push(("id".to_owned(), FieldValue::Str(m.id.clone())));
    r.push(("title".to_owned(), FieldValue::Str(m.title.clone())));
    r.push(("date".to_owned(), FieldValue::Str(m.date.clone())));
    r.push(("author".to_owned(), FieldValue::Str(m.author.clone())));
    r.push(("description".to_owned(), FieldValue::Str(m.description.clone())));
    r.push(("image_url".to_owned(), FieldValue::Str(m.image_url.clone())));
    r.push(("tags".to_owned(), FieldValue::List(clone_strings(&m.tags))));
    proof {
        assert(field_views(r@) =~= post_fields(m@));
    }
    r
}

/// Writes the records of a post index from position `k` on, joined by
/// commas.
#[verifier::loop_isolation(false)]
fn encode_post_records_from(posts: &Vec<PostMeta>, k: usize) -> (r: String)
    requires
        k <= posts@.len(),
    ensures
        r@ == enc_record_items(post_records(post_views(posts@)).skip(k as int)),
    decreases posts@.len() - k,
{
    let ghost rs = post_records(post_views(posts@));
    if k >= posts.len() {
        let r = String::new();
        proof {
            assert(rs.skip(k as int).len() == 0);
            assert(r@ =~= enc_record_items(rs.skip(k as int)));
        }
        return r;
    }
    proof {
        assert(rs.skip(k as int)[0] == rs[k as int]);
        assert(post_views(posts@)[k as int] == posts@[k as int]@);
    }
    let fields = post_fields_vec(&posts[k]);
    let mut acc = encode_record(&fields);
    if k + 1 < posts.len() {
        proof {
            reveal_strlit(",");
            assert(rs.skip(k as int).drop_first() =~= rs.skip(k as int + 1));
        }
        acc.append(",");
        let rest = encode_post_records_from(posts, k + 1);
        acc.append(rest.as_str());
        proof {
            assert(acc@ =~= enc_record_items(rs.skip(k as int)));
        }
    } else {
        proof {
            assert(rs.skip(k as int).len() == 1);
        }
    }
    acc
}

/// Writes a post index as its persisted artifact: one array of entry
/// records, in index order.
pub fn encode_post_index(posts: &Vec<PostMeta>) -> (r: String)
    ensures
        r@ == enc_artifact(post_records(post_views(posts@))),
{
    let mut acc = String::new();
    acc.append("[");
    let items = encode_post_records_from(posts, 0);
    acc.append(items.as_str());
    acc.append("]");
    proof {
        reveal_strlit("[");
        reveal_strlit("]");
        assert(post_records(post_views(posts@)).skip(0) =~= post_records(post_views(posts@)));
        assert(acc@ =~= enc_artifact(post_records(post_views(posts@))));
    }
    acc
}

/// The post entry an artifact record stands for: the `id` defaults to
/// empty when absent, every other field is required.
pub open spec fn json_post_of_fields(fields: Seq<(Seq<char>, FieldValueV)>) -> Option<
    PostMetaV,
> {
    if spec_dflt_str(fields, "id"@) is None || spec_req_str(fields, "title"@) is None
        || spec_req_str(fields, "date"@) is None || spec_req_str(fields, "author"@) is None
        || spec_req_str(fields, "description"@) is None || spec_req_str(
        fields,
        "image_url"@,
    ) is None || spec_req_list(fields, "tags"@) is None {
        None
    } else {
        Some(
            PostMetaV {
                id: spec_dflt_str(fields, "id"@).unwrap_or(Seq::empty()),
                title: spec_req_str(fields, "title"@).unwrap_or(Seq::empty()),
                date: spec_req_str(fields, "date"@).unwrap_or(Seq::empty()),
                author: spec_req_str(fields, "author"@).unwrap_or(Seq::empty()),
                description: spec_req_str(fields, "description"@).unwrap_or(Seq::empty()),
                image_url: spec_req_str(fields, "image_url"@).unwrap_or(Seq::empty()),
                tags: spec_req_list(fields, "tags"@).unwrap_or(Seq::empty()),
            },
        )
    }
}

/// Reads one artifact record as a post entry.
fn post_of_record(fields: &Vec<(String, FieldValue)>) -> (r: Option<PostMeta>)
    ensures
        match r {
            Some(m) => json_post_of_fields(field_views(fields@)) == Some(m@),
            None => json_post_of_fields(field_views(fields@)) is None,
        },
{
    let id = match dflt_str(fields, "id") {
        Some(t) => t,
        None => {
            return None;
        },
    };
    let title = match req_str(fields, "title") {
        Some(t) => t,
        None => {
            return None;
        },
    };
    let date = match req_str(fields, "date") {
        Some(t) => t,
        None => {
            return None;
        },
    };
    let author = match req_str(fields, "author") {
        Some(t) => t,
        None => {
            return None;
        },
    };
    let description = match req_str(fields, "description") {
        Some(t) => t,
        None => {
            return None;
        },
    };
    let image_url = match req_str(fields, "image_url") {
        Some(t) => t,
        None => {
            return None;
        },
    };
    let tags = match req_list(fields, "tags") {
        Some(t) => t,
        None => {
            return None;
        },
    };
    Some(PostMeta { id, title, date, author, description, image_url, tags })
}

/// The post entries a sequence of artifact records stands for, all or
/// nothing.
pub open spec fn posts_of_records(rs: Seq<Seq<(Seq<char>, FieldValueV)>>) -> Option<
    Seq<PostMetaV>,
>
    decreases rs.len(),
{
    if rs.len() == 0 {
        Some(Seq::empty())
    } else {
        match json_post_of_fields(rs[0]) {
            None => None,
            Some(m) => match posts_of_records(rs.drop_first()) {
                None => None,
                Some(t) => Some(seq![m] + t),
            },
        }
    }
}

/// The post index an artifact text stands for, in the order written.
pub open spec fn spec_parse_post_index(text: Seq<char>) -> Option<Seq<PostMetaV>> {
    match parse_artifact(text) {
        None => None,
        Some(rs) => posts_of_records(rs),
    }
}

/// Reads a post index artifact; `None` when the text is not an array
/// of well-formed entry records.
#[verifier::loop_isolation(false)]
pub fn parse_post_index(text: &str) -> (r: Option<Vec<PostMeta>>)
    ensures
        match r {
            Some(v) => spec_parse_post_index(text@) == Some(post_views(v@)),
            None => spec_parse_post_index(text@) is None,
        },
{
    let records = match parse_artifact_records(text) {
        None => {
            return None;
        },
        Some(rs) => rs,
    };
    let ghost rv = record_views(records@);
    let mut out: Vec<PostMeta> = Vec::new();
    let mut k: usize = 0;
    proof {
        assert(rv.skip(0) =~= rv);
        assert(post_views(out@) =~= Seq::<PostMetaV>::empty());
    }
    while k < records.len()
        invariant
            k <= records@.len(),
            rv == record_views(records@),
            rv.len() == records@.len(),
            match posts_of_records(rv.skip(k as int)) {
                Some(t) => posts_of_records(rv) == Some(post_views(out@) + t),
                None => posts_of_records(rv) is None,
            },
        decreases records@.len() - k,
    {
        proof {
            assert(rv.skip(k as int)[0] == rv[k as int]);
            assert(rv[k as int] == field_views(records@[k as int]@));
            assert(rv.skip(k as int).drop_first() =~= rv.skip(k as int + 1));
        }
        let m = match post_of_record(&records[k]) {
            None => {
                return None;
            },
            Some(m) => m,
        };
        let ghost old_out = out@;
        let ghost mv = m@;
        out.push(m);
        proof {
            lemma_post_views_push(old_out, out@[out@.len() - 1]);
            assert forall|t: Seq<PostMetaV>|
                posts_of_records(rv.skip(k as int + 1)) == Some(t) implies post_views(out@)
                + t =~= post_views(old_out) + (seq![mv] + t) by {
                assert(post_views(out@) =~= post_views(old_out) + seq![mv]);
            }
        }
        k = k + 1;
    }
    proof {
        assert(rv.skip(k as int).len() == 0);
        assert(posts_of_records(rv.skip(k as int)) == Some(Seq::<PostMetaV>::empty()));
        assert(post_views(out@) + Seq::<PostMetaV>::empty() =~= post_views(out@));
    }
    Some(out)
}

/// Reads a post index artifact and sorts it by date, newest first; a
/// text that does not parse yields the empty index, never a fault.
pub fn posts_from_artifact(text: &str) -> (r: Vec<PostMeta>)
    ensures
        match spec_parse_post_index(text@) {
            Some(entries) => post_views(r@) == spec_sort_desc(entries),
            None => r@ == Seq::<PostMeta>::empty(),
        },
{
    match parse_post_index(text) {
        None => Vec::new(),
        Some(v) => sort_by_date_desc(v),
    }
}

/// An artifact record written for a post entry reads back as exactly
/// that entry.
pub proof fn lemma_json_post_fields(m: PostMetaV)
    ensures
        json_post_of_fields(post_fields(m)) == Some(m),
{
    let fields = post_fields(m);
    reveal_strlit("id");
    reveal_strlit("title");
    reveal_strlit("date");
    reveal_strlit("author");
    reveal_strlit("description");
    reveal_strlit("image_url");
    reveal_strlit("tags");
    assert("id"@.len() == 2);
    assert("title"@.len() == 5);
    assert("date"@.len() == 4);
    assert("author"@.len() == 6);
    assert("description"@.len() == 11);
    assert("image_url"@.len() == 9);
    assert("tags"@.len() == 4);
    assert("date"@[0] == 'd');
    assert("tags"@[0] == 't');
    assert(fields[0] == ("id"@, FieldValueV::Str(m.id)));
    assert(fields[1] == ("title"@, FieldValueV::Str(m.title)));
    assert(fields[2] == ("date"@, FieldValueV::Str(m.date)));
    assert(fields[3] == ("author"@, FieldValueV::Str(m.author)));
    assert(fields[4] == ("description"@, FieldValueV::Str(m.description)));
    assert(fields[5] == ("image_url"@, FieldValueV::Str(m.image_url)));
    assert(fields[6] == ("tags"@, FieldValueV::List(m.tags)));
    lemma_lookup_at(fields, "id"@, 0);
    lemma_lookup_at(fields, "title"@, 1);
    lemma_lookup_at(fields, "date"@, 2);
    lemma_lookup_at(fields, "author"@, 3);
    lemma_lookup_at(fields, "description"@, 4);
    lemma_lookup_at(fields, "image_url"@, 5);
    lemma_lookup_at(fields, "tags"@, 6);
    assert(json_post_of_fields(fields) == Some(
        PostMetaV {
            id: m.id,
            title: m.title,
            date: m.date,
            author: m.author,
            description: m.description,
            image_url: m.image_url,
            tags: m.tags,
        },
    ));
    assert(m == PostMetaV {
        id: m.id,
        title: m.title,
        date: m.date,
        author: m.author,
        description: m.description,
        image_url: m.image_url,
        tags: m.tags,
    });
}

/// A sequence of records written for post entries reads back as
/// exactly those entries.
pub proof fn lemma_posts_of_records_round(entries: Seq<PostMetaV>)
    ensures
        posts_of_records(post_records(entries)) == Some(entries),
    decreases entries.len(),
{
    let rs = post_records(entries);
    if entries.len() == 0 {
        assert(rs.len() == 0);
        assert(Seq::<PostMetaV>::empty() =~= entries);
    } else {
        assert(rs[0] == post_fields(entries[0]));
        lemma_json_post_fields(entries[0]);
        assert(rs.drop_first() =~= post_records(entries.drop_first()));
        lemma_posts_of_records_round(entries.drop_first());
        assert(seq![entries[0]] + entries.drop_first() =~= entries);
    }
}

/// Round trip: writing a post index as its artifact and reading the
/// artifact back yields the same entries.
pub proof fn lemma_post_index_round_trip(entries: Seq<PostMetaV>)
    ensures
        spec_parse_post_index(enc_artifact(post_records(entries))) == Some(entries),
{
    lemma_artifact_round_trip(post_records(entries));
    lemma_posts_of_records_round(entries);
}

} // verus!
