//! Frontmatter parsing and reading-time estimation.
//!
//! A content document begins with a delimiter line `---`, followed by a
//! metadata block, a second `---`, and the markdown body.  The body may
//! itself contain `---` sequences; only the first two delimit.

use vstd::prelude::*;
use crate::fields::FieldValue;
use crate::fields::field_views;
use crate::fields::req_list;
use crate::fields::req_str;
use crate::fields::spec_req_list;
use crate::fields::spec_req_str;
use crate::text::count_words;
use crate::text::dash3_at;
use crate::text::dec_rep;
use crate::text::find3_from;
use crate::text::find_triple_dash;
use crate::text::lemma_find3_from;
use crate::text::spec_trim;
use crate::text::str_views;
use crate::text::trim;
use crate::text::u64_to_dec;
use crate::text::word_count;
use crate::yaml::parse_block;
use crate::yaml::spec_parse_block;

verus! {

/// Why a document could not be parsed.
#[derive(Clone, Debug, PartialEq)]
pub enum ParseError {
    /// The document does not begin with the delimiter line.
    MissingFrontmatter,
    /// The second delimiter is missing, so the document has fewer than
    /// three delimited sections.
    MalformedFrontmatter,
    /// The metadata block does not fit the entry schema; the payload
    /// names the field at fault, or reads `frontmatter` when the block
    /// itself cannot be read.
    SchemaValidationError(String),
}

/// Metadata common to every content entry.
#[derive(Clone, Debug, PartialEq)]
pub struct CommonMeta {
    pub id: String,
    pub title: String,
    pub date: String,
    pub author: String,
    pub description: String,
    pub image_url: String,
    pub tags: Vec<String>,
}

/// The mathematical shape of a [`CommonMeta`].
pub struct CommonMetaV {
    pub id: Seq<char>,
    pub title: Seq<char>,
    pub date: Seq<char>,
    pub author: Seq<char>,
    pub description: Seq<char>,
    pub image_url: Seq<char>,
    pub tags: Seq<Seq<char>>,
}

impl View for CommonMeta {
    type V = CommonMetaV;

    open spec fn view(&self) -> CommonMetaV {
        CommonMetaV {
            id: self.id@,
            title: self.title@,
            date: self.date@,
            author: self.author@,
            description: self.description@,
            image_url: self.image_url@,
            tags: str_views(self.tags@),
        }
    }
}

/// Whether a document begins with the delimiter line `---`.
pub open spec fn spec_has_open(s: Seq<char>) -> bool {
    dash3_at(s, 0)
}

/// How a document splits at its delimiters.
pub enum SplitOutcome {
    /// The metadata block and the raw body.
    Parts(Seq<char>, Seq<char>),
    /// The document does not begin with `---`.
    Missing,
    /// No second `---` follows the metadata block.
    Malformed,
}

/// Splits a document into its metadata block and its raw body: the text
/// between the first two `---` and the text after the second.
pub open spec fn spec_split_frontmatter(s: Seq<char>) -> SplitOutcome {
    if !spec_has_open(s) {
        SplitOutcome::Missing
    } else {
        match find3_from(s, 3) {
            Option::None => SplitOutcome::Malformed,
            Option::Some(p) => if 3 <= p && p + 3 <= s.len() {
                SplitOutcome::Parts(s.subrange(3, p), s.subrange(p + 3, s.len() as int))
            } else {
                SplitOutcome::Malformed
            },
        }
    }
}

/// Splits a document at its first two `---` delimiters.
pub fn split_frontmatter(s: &str) -> (r: Result<(String, String), ParseError>)
    ensures
        match spec_split_frontmatter(s@) {
            SplitOutcome::Parts(m, b) => r matches Ok(p) && p.0@ == m && p.1@ == b,
            SplitOutcome::Missing => r == Err::<(String, String), ParseError>(
                ParseError::MissingFrontmatter,
            ),
            SplitOutcome::Malformed => r == Err::<(String, String), ParseError>(
                ParseError::MalformedFrontmatter,
            ),
        },
{
    let len = s.unicode_len();
    if len < 3 || s.get_char(0) != '-' || s.get_char(1) != '-' || s.get_char(2) != '-' {
        return Err(ParseError::MissingFrontmatter);
    }
    match find_triple_dash(s, 3) {
        Option::None => Err(ParseError::MalformedFrontmatter),
        Option::Some(p) => {
            proof {
                lemma_find3_from(s@, 3);
            }
            let meta = s.substring_char(3, p).to_owned();
            let body = s.substring_char(p + 3, len).to_owned();
            Ok((meta, body))
        },
    }
}

/// The first required field of the common schema that is missing or has
/// the wrong shape, if any, in the fixed order the schema is checked.
pub open spec fn spec_common_err(fields: Seq<(Seq<char>, crate::fields::FieldValueV)>) -> Option<
    Seq<char>,
> {
    if spec_req_str(fields, "title"@) is None {
        Some("title"@)
    } else if spec_req_str(fields, "date"@) is None {
        Some("date"@)
    } else if spec_req_str(fields, "author"@) is None {
        Some("author"@)
    } else if spec_req_str(fields, "description"@) is None {
        Some("description"@)
    } else if spec_req_str(fields, "image_url"@) is None {
        Some("image_url"@)
    } else if spec_req_list(fields, "tags"@) is None {
        Some("tags"@)
    } else {
        None
    }
}

/// The common metadata read from a field record; the `id` is taken from
/// the caller, never from the record.
pub open spec fn spec_common_meta(
    fields: Seq<(Seq<char>, crate::fields::FieldValueV)>,
    id: Seq<char>,
) -> CommonMetaV {
    CommonMetaV {
        id: id,
        title: spec_req_str(fields, "title"@).unwrap_or(Seq::empty()),
        date: spec_req_str(fields, "date"@).unwrap_or(Seq::empty()),
        author: spec_req_str(fields, "author"@).unwrap_or(Seq::empty()),
        description: spec_req_str(fields, "description"@).unwrap_or(Seq::empty()),
        image_url: spec_req_str(fields, "image_url"@).unwrap_or(Seq::empty()),
        tags: spec_req_list(fields, "tags"@).unwrap_or(Seq::empty()),
    }
}

/// Applies the common schema to a field record.  The `id` of the result
/// is empty; callers overwrite it.
pub fn common_from_fields(fields: &Vec<(String, FieldValue)>) -> (r: Result<
    CommonMeta,
    ParseError,
>)
    ensures
        match spec_common_err(field_views(fields@)) {
            Some(n) => r matches Err(ParseError::SchemaValidationError(f)) && f@ == n,
            None => r matches Ok(m) && m@ == spec_common_meta(
                field_views(fields@),
                Seq::empty(),
            ),
        },
{
    let title = match req_str(fields, "title") {
        Some(t) => t,
        None => {
            return Err(ParseError::SchemaValidationError("title".to_owned()));
        },
    };
    let date = match req_str(fields, "date") {
        Some(t) => t,
        None => {
            return Err(ParseError::SchemaValidationError("date".to_owned()));
        },
    };
    let author = match req_str(fields, "author") {
        Some(t) => t,
        None => {
            return Err(ParseError::SchemaValidationError("author".to_owned()));
        },
    };
    let description = match req_str(fields, "description") {
        Some(t) => t,
        None => {
            return Err(ParseError::SchemaValidationError("description".to_owned()));
        },
    };
    let image_url = match req_str(fields, "image_url") {
        Some(t) => t,
        None => {
            return Err(ParseError::SchemaValidationError("image_url".to_owned()));
        },
    };
    let tags = match req_list(fields, "tags") {
        Some(t) => t,
        None => {
            return Err(ParseError::SchemaValidationError("tags".to_owned()));
        },
    };
    Ok(
        CommonMeta {
            id: String::new(),
            title,
            date,
            author,
            description,
            image_url,
            tags,
        },
    )
}

/// How parsing a whole document turns out.
pub enum FmOutcome {
    /// The metadata (with an empty `id`) and the trimmed body.
    Meta(CommonMetaV, Seq<char>),
    /// The document does not begin with `---`.
    Missing,
    /// No second `---` follows the metadata block.
    Malformed,
    /// The metadata block does not fit the schema; the payload names
    /// the field at fault, or reads `frontmatter` when the block itself
    /// cannot be read.
    Schema(Seq<char>),
}

/// The outcome of parsing a document against the common schema.
pub open spec fn spec_parse_frontmatter(s: Seq<char>) -> FmOutcome {
    match spec_split_frontmatter(s) {
        SplitOutcome::Missing => FmOutcome::Missing,
        SplitOutcome::Malformed => FmOutcome::Malformed,
        SplitOutcome::Parts(m, b) => match spec_parse_block(m) {
            Option::None => FmOutcome::Schema("frontmatter"@),
            Option::Some(fields) => match spec_common_err(fields) {
                Some(n) => FmOutcome::Schema(n),
                None => FmOutcome::Meta(
                    spec_common_meta(fields, Seq::empty()),
                    spec_trim(b),
                ),
            },
        },
    }
}

/// Parses a document into its common metadata and its trimmed body.
///
/// The returned metadata has an empty `id`: an identifier in the
/// metadata block is never read, and callers assign the real one.  The
/// same input always yields the same output.
pub fn parse_frontmatter(content: &str) -> (r: Result<(CommonMeta, String), ParseError>)
    ensures
        match spec_parse_frontmatter(content@) {
            FmOutcome::Meta(m, b) => r matches Ok(p) && p.0@ == m && p.1@ == b,
            FmOutcome::Missing => r == Err::<(CommonMeta, String), ParseError>(
                ParseError::MissingFrontmatter,
            ),
            FmOutcome::Malformed => r == Err::<(CommonMeta, String), ParseError>(
                ParseError::MalformedFrontmatter,
            ),
            FmOutcome::Schema(n) => r matches Err(ParseError::SchemaValidationError(f))
                && f@ == n,
        },
{
    let (meta_block, body) = match split_frontmatter(content) {
        Ok(p) => p,
        Err(e) => {
            return Err(e);
        },
    };
    let fields = match parse_block(meta_block.as_str()) {
        Some(f) => f,
        None => {
            return Err(ParseError::SchemaValidationError("frontmatter".to_owned()));
        },
    };
    match common_from_fields(&fields) {
        Ok(meta) => Ok((meta, trim(body.as_str()))),
        Err(e) => Err(e),
    }
}

/// Parsing is splitting plus the schema: a document assembled from a
/// delimited metadata block and a body parses to the metadata the block
/// holds (with an empty `id`, for the caller to overwrite) and the
/// trimmed body, deterministically.  The block may not itself contain
/// `---`, nor end with `-`, which would move the closing delimiter.
pub proof fn lemma_parse_composed_document(meta: Seq<char>, body: Seq<char>)
    requires
        forall|i: int| 0 <= i ==> !dash3_at(meta, i),
        meta.len() > 0 ==> meta.last() != '-',
    ensures
        spec_parse_frontmatter(seq!['-', '-', '-'] + meta + seq!['-', '-', '-'] + body)
            == match spec_parse_block(meta) {
            Option::None => FmOutcome::Schema("frontmatter"@),
            Option::Some(fields) => match spec_common_err(fields) {
                Some(n) => FmOutcome::Schema(n),
                None => FmOutcome::Meta(
                    spec_common_meta(fields, Seq::empty()),
                    spec_trim(body),
                ),
            },
        },
{
    let doc = seq!['-', '-', '-'] + meta + seq!['-', '-', '-'] + body;
    let n = meta.len() as int;
    assert(doc.len() == n + 6 + body.len());
    assert(doc[0] == '-' && doc[1] == '-' && doc[2] == '-');
    assert(spec_has_open(doc));
    assert(dash3_at(doc, 3 + n)) by {
        assert(doc[3 + n] == '-' && doc[3 + n + 1] == '-' && doc[3 + n + 2] == '-');
    }
    assert forall|k: int| 3 <= k < 3 + n implies !dash3_at(doc, k) by {
        let i = k - 3;
        if i + 3 <= n {
            assert(doc[k] == meta[i] && doc[k + 1] == meta[i + 1] && doc[k + 2] == meta[
                i + 2
            ]);
            assert(!dash3_at(meta, i));
        } else if i == n - 2 {
            assert(doc[k + 1] == meta[n - 1]);
            assert(meta.last() == meta[n - 1]);
        } else {
            assert(i == n - 1);
            assert(doc[k] == meta[n - 1]);
            assert(meta.last() == meta[n - 1]);
        }
    }
    crate::text::lemma_find3_exact(doc, 3, 3 + n);
    assert(doc.subrange(3, 3 + n) =~= meta);
    assert(doc.subrange(3 + n + 3, doc.len() as int) =~= body);
    assert(spec_split_frontmatter(doc) == SplitOutcome::Parts(meta, body));
}

/// The number of minutes of reading time for a word count: the count
/// divided by 200 rounded up, and never below one.
pub open spec fn spec_minutes(words: int) -> int {
    if words <= 0 {
        1
    } else {
        (words + 199) / 200
    }
}

/// The reading-time label for a body: the minutes in decimal, then
/// ` min read`.
pub open spec fn spec_read_time(s: Seq<char>) -> Seq<char> {
    dec_rep(spec_minutes(count_words(s) as int)) + " min read"@
}

/// Estimates the reading time of a body, at 200 words per minute.
pub fn get_read_time(content: &str) -> (r: String)
    ensures
        r@ == spec_read_time(content@),
{
    let words = word_count(content);
    let minutes: u64 = if words == 0 {
        1
    } else {
        let w = words as u64;
        let q = w / 200;
        if w % 200 == 0 {
            q
        } else {
            q + 1
        }
    };
    proof {
        let w = words as int;
        if words > 0 {
            assert(w == (w / 200) * 200 + w % 200) by (nonlinear_arith);
            assert(minutes as int == spec_minutes(w));
        }
    }
    let num = u64_to_dec(minutes);
    num.concat(" min read")
}

} // verus!
