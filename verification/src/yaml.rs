//! The metadata block format: a flat, human-editable mapping of keys to
//! scalar strings or string lists.
//!
//! The accepted subset is line-based.  Blank lines and lines whose first
//! non-blank character is `#` are skipped.  Every other line must read
//! `key: value`.  A non-empty value is either a flow list `[a, b]` or a
//! scalar; a scalar surrounded by a pair of double or single quotes is
//! unquoted (no escape processing).  A line `key:` with nothing after the
//! colon introduces a block list: the following lines of the form
//! `- item` are its items, and no such line means the value is absent.
//! A key that repeats an earlier one is read at its first occurrence.

use vstd::prelude::*;
use crate::fields::FieldValue;
use crate::fields::FieldValueV;
use crate::fields::field_views;
use crate::text::find_char;
use crate::text::find_char_from;
use crate::text::is_space;
use crate::text::lemma_find_char_from;
use crate::text::spec_split_char;
use crate::text::spec_trim;
use crate::text::split_char;
use crate::text::str_views;
use crate::text::trim;

verus! {

/// A scalar with a surrounding pair of matching quotes removed.
pub open spec fn spec_unquote(s: Seq<char>) -> Seq<char> {
    if s.len() >= 2 && ((s[0] == '"' && s.last() == '"') || (s[0] == '\'' && s.last()
        == '\'')) {
        s.subrange(1, s.len() - 1)
    } else {
        s
    }
}

/// Removes a surrounding pair of matching quotes from a scalar.
pub fn unquote(s: &str) -> (r: String)
    ensures
        r@ == spec_unquote(s@),
{
    let len: usize = s.unicode_len();
    if len >= 2 {
        let first = s.get_char(0);
        let last = s.get_char(len - 1);
        if (first == '"' && last == '"') || (first == '\'' && last == '\'') {
            return s.substring_char(1, len - 1).to_owned();
        }
    }
    s.to_owned()
}

/// The items of a flow list `[a, b, c]`, given the text between the
/// brackets: each comma-separated piece trimmed and unquoted, and no
/// items at all when the whole inside is blank.
pub open spec fn spec_flow_items(inner: Seq<char>) -> Seq<Seq<char>> {
    if spec_trim(inner).len() == 0 {
        Seq::empty()
    } else {
        spec_split_char(inner, ',').map_values(|x: Seq<char>| spec_unquote(spec_trim(x)))
    }
}

/// Splits the text between flow-list brackets into its items.
pub fn flow_items(inner: &str) -> (r: Vec<String>)
    ensures
        str_views(r@) == spec_flow_items(inner@),
{
    let t = trim(inner);
    if t.as_str().unicode_len() == 0 {
        let r: Vec<String> = Vec::new();
        proof {
            assert(str_views(r@) =~= Seq::<Seq<char>>::empty());
        }
        return r;
    }
    let parts = split_char(inner, ',');
    let ghost target = spec_split_char(inner@, ',').map_values(
        |x: Seq<char>| spec_unquote(spec_trim(x)),
    );
    let mut r: Vec<String> = Vec::new();
    let mut k: usize = 0;
    while k < parts.len()
        invariant
            k <= parts@.len(),
            str_views(parts@) == spec_split_char(inner@, ','),
            target == spec_split_char(inner@, ',').map_values(
                |x: Seq<char>| spec_unquote(spec_trim(x)),
            ),
            str_views(r@) =~= target.subrange(0, k as int),
        decreases parts@.len() - k,
    {
        let trimmed = trim(parts[k].as_str());
        let item = unquote(trimmed.as_str());
        let ghost old_r = r@;
        let ghost item_s = item;
        r.push(item);
        proof {
            assert(str_views(old_r).len() == old_r.len());
            assert(old_r.len() == k as int);
            assert(r@ == old_r.push(item_s));
            assert forall|j: int| 0 <= j < k as int + 1 implies str_views(r@)[j]
                == target.subrange(0, k as int + 1)[j] by {
                assert(r@[j] == old_r.push(item_s)[j]);
                assert(str_views(r@)[j] == r@[j]@);
                if j < k as int {
                    assert(old_r.push(item_s)[j] == old_r[j]);
                    assert(str_views(old_r)[j] == old_r[j]@);
                    assert(str_views(old_r)[j] == target.subrange(0, k as int)[j]);
                } else {
                    assert(old_r.push(item_s)[j] == item_s);
                    assert(str_views(parts@)[k as int] == parts@[k as int]@);
                    assert(target[k as int] == spec_unquote(
                        spec_trim(spec_split_char(inner@, ',')[k as int]),
                    ));
                }
            }
            assert(str_views(r@) =~= target.subrange(0, k as int + 1));
        }
        k = k + 1;
    }
    proof {
        assert(str_views(r@) =~= target);
    }
    r
}

/// Whether a line holds nothing but whitespace.
pub open spec fn line_blank(l: Seq<char>) -> bool {
    spec_trim(l).len() == 0
}

/// Whether a line is a comment: its first non-blank character is `#`.
pub open spec fn line_comment(l: Seq<char>) -> bool {
    spec_trim(l).len() > 0 && spec_trim(l)[0] == '#'
}

/// Whether a line is a block-list item: `-` alone, or `-` followed by
/// whitespace, after trimming.
pub open spec fn is_item_line(l: Seq<char>) -> bool {
    let t = spec_trim(l);
    t.len() > 0 && t[0] == '-' && (t.len() == 1 || is_space(t[1]))
}

/// The value of a block-list item line: what follows the dash, trimmed
/// and unquoted.
pub open spec fn item_value(l: Seq<char>) -> Seq<char> {
    spec_unquote(spec_trim(spec_trim(l).drop_first()))
}

/// Executable form of [`line_blank`].
pub fn is_blank(l: &str) -> (r: bool)
    ensures
        r == line_blank(l@),
{
    let t = trim(l);
    t.as_str().unicode_len() == 0
}

/// Executable form of [`line_comment`].
pub fn is_comment(l: &str) -> (r: bool)
    ensures
        r == line_comment(l@),
{
    let t = trim(l);
    let len = t.as_str().unicode_len();
    len > 0 && t.as_str().get_char(0) == '#'
}

/// Executable form of [`is_item_line`].
pub fn is_item(l: &str) -> (r: bool)
    ensures
        r == is_item_line(l@),
{
    let t = trim(l);
    let len = t.as_str().unicode_len();
    if len == 0 {
        return false;
    }
    if t.as_str().get_char(0) != '-' {
        return false;
    }
    if len == 1 {
        return true;
    }
    let second = t.as_str().get_char(1);
    second == ' ' || second == '\t' || second == '\n' || second == '\r'
}

/// Executable form of [`item_value`].
pub fn item_val(l: &str) -> (r: String)
    requires
        is_item_line(l@),
    ensures
        r@ == item_value(l@),
{
    let t = trim(l);
    let len = t.as_str().unicode_len();
    let rest = t.as_str().substring_char(1, len);
    proof {
        assert(rest@ =~= spec_trim(l@).drop_first());
    }
    let trimmed = trim(rest);
    unquote(trimmed.as_str())
}

/// The first index at or after `i` whose line is not a block-list item.
pub open spec fn skip_items(lines: Seq<Seq<char>>, i: int) -> int
    decreases lines.len() - i,
{
    if i < 0 || i >= lines.len() {
        i
    } else if is_item_line(lines[i]) {
        skip_items(lines, i + 1)
    } else {
        i
    }
}

/// What [`skip_items`] promises of its result.
pub proof fn lemma_skip_items(lines: Seq<Seq<char>>, i: int)
    requires
        0 <= i <= lines.len(),
    ensures
        i <= skip_items(lines, i) <= lines.len(),
        forall|k: int| i <= k < skip_items(lines, i) ==> is_item_line(lines[k]),
        skip_items(lines, i) < lines.len() ==> !is_item_line(
            lines[skip_items(lines, i)],
        ),
    decreases lines.len() - i,
{
    if i < lines.len() && is_item_line(lines[i]) {
        lemma_skip_items(lines, i + 1);
    }
}

/// The fields read from the lines of a metadata block, starting at line
/// `i`, in order of appearance; `None` when some line cannot be read.
pub open spec fn spec_parse_block_from(lines: Seq<Seq<char>>, i: int) -> Option<
    Seq<(Seq<char>, FieldValueV)>,
>
    decreases lines.len() - i,
{
    if i < 0 || i >= lines.len() {
        Some(Seq::empty())
    } else {
        let l = lines[i];
        if line_blank(l) || line_comment(l) {
            spec_parse_block_from(lines, i + 1)
        } else if is_item_line(l) {
            None
        } else {
            match find_char_from(l, ':', 0) {
                Option::None => None,
                Option::Some(p) => {
                    if !(0 <= p < l.len()) {
                        None
                    } else {
                        let key = spec_trim(l.subrange(0, p));
                        let rest = spec_trim(l.subrange(p + 1, l.len() as int));
                        if key.len() == 0 {
                            None
                        } else if rest.len() > 0 {
                            let v = if rest.len() >= 2 && rest[0] == '[' && rest.last()
                                == ']' {
                                FieldValueV::List(
                                    spec_flow_items(rest.subrange(1, rest.len() - 1)),
                                )
                            } else {
                                FieldValueV::Str(spec_unquote(rest))
                            };
                            match spec_parse_block_from(lines, i + 1) {
                                Option::None => None,
                                Option::Some(tail) => Some(seq![(key, v)] + tail),
                            }
                        } else {
                            let j = skip_items(lines, i + 1);
                            if i + 1 <= j <= lines.len() {
                                let v = if j == i + 1 {
                                    FieldValueV::Null
                                } else {
                                    FieldValueV::List(
                                        Seq::new(
                                            (j - (i + 1)) as nat,
                                            |k: int| item_value(lines[i + 1 + k]),
                                        ),
                                    )
                                };
                                match spec_parse_block_from(lines, j) {
                                    Option::None => None,
                                    Option::Some(tail) => Some(seq![(key, v)] + tail),
                                }
                            } else {
                                None
                            }
                        }
                    }
                },
            }
        }
    }
}

/// The fields read from a whole metadata block.
pub open spec fn spec_parse_block(block: Seq<char>) -> Option<Seq<(Seq<char>, FieldValueV)>> {
    spec_parse_block_from(spec_split_char(block, '\n'), 0)
}

/// Reads the fields of a metadata block from line `i` on.
fn parse_block_from(lines: &Vec<String>, i: usize) -> (r: Option<Vec<(String, FieldValue)>>)
    ensures
        match r {
            Some(v) => spec_parse_block_from(str_views(lines@), i as int) == Some(
                field_views(v@),
            ),
            None => spec_parse_block_from(str_views(lines@), i as int) is None,
        },
    decreases lines@.len() - i,
{
    let ghost lv = str_views(lines@);
    if i >= lines.len() {
        let r: Vec<(String, FieldValue)> = Vec::new();
        proof {
            assert(field_views(r@) =~= Seq::<(Seq<char>, FieldValueV)>::empty());
        }
        return Some(r);
    }
    let line = lines[i].as_str();
    proof {
        assert(lv[i as int] == line@);
    }
    if is_blank(line) || is_comment(line) {
        return parse_block_from(lines, i + 1);
    }
    if is_item(line) {
        return None;
    }
    let line_len = line.unicode_len();
    let p = match find_char(line, ':', 0) {
        Option::None => {
            return None;
        },
        Option::Some(p) => p,
    };
    let key = trim(line.substring_char(0, p));
    let rest = trim(line.substring_char(p + 1, line_len));
    proof {
        assert(line@.subrange(p + 1, line@.len() as int) == line@.subrange(
            p + 1,
            line_len as int,
        ));
    }
    if key.as_str().unicode_len() == 0 {
        return None;
    }
    if rest.as_str().unicode_len() > 0 {
        let rest_len = rest.as_str().unicode_len();
        let value = if rest_len >= 2 && rest.as_str().get_char(0) == '['
            && rest.as_str().get_char(rest_len - 1) == ']' {
            FieldValue::List(flow_items(rest.as_str().substring_char(1, rest_len - 1)))
        } else {
            FieldValue::Str(unquote(rest.as_str()))
        };
        match parse_block_from(lines, i + 1) {
            Option::None => None,
            Option::Some(mut tail) => {
                let ghost key_v = key@;
                let ghost val_v = value@;
                let ghost old_tail = tail@;
                tail.insert(0, (key, value));
                proof {
                    assert(field_views(tail@) =~= seq![(key_v, val_v)] + field_views(
                        old_tail,
                    ));
                }
                Some(tail)
            },
        }
    } else {
        let mut items: Vec<String> = Vec::new();
        let mut j: usize = i + 1;
        while j < lines.len() && is_item(lines[j].as_str())
            invariant
                i + 1 <= j <= lines@.len(),
                lv == str_views(lines@),
                lv.len() == lines@.len(),
                skip_items(lv, i as int + 1) == skip_items(lv, j as int),
                items@.len() == j - (i + 1),
                forall|k: int| 0 <= k < items@.len() ==> str_views(items@)[k]
                    == item_value(lv[i + 1 + k]),
            decreases lines@.len() - j,
        {
            proof {
                assert(lv[j as int] == lines@[j as int]@);
            }
            let item = item_val(lines[j].as_str());
            let ghost old_items = items@;
            let ghost item_s = item;
            items.push(item);
            proof {
                assert(items@ == old_items.push(item_s));
                assert forall|k: int| 0 <= k < items@.len() implies str_views(items@)[k]
                    == item_value(lv[i as int + 1 + k]) by {
                    assert(items@[k] == old_items.push(item_s)[k]);
                    assert(str_views(items@)[k] == items@[k]@);
                    if k < old_items.len() {
                        assert(old_items.push(item_s)[k] == old_items[k]);
                        assert(str_views(old_items)[k] == old_items[k]@);
                    } else {
                        assert(old_items.push(item_s)[k] == item_s);
                        assert(item_s@ == item_value(lv[j as int]));
                    }
                }
            }
            j = j + 1;
        }
        proof {
            if j < lines.len() {
                assert(lv[j as int] == lines@[j as int]@);
            }
            assert(skip_items(lv, j as int) == j as int);
        }
        let value = if items.len() == 0 {
            FieldValue::Null
        } else {
            proof {
                assert(str_views(items@) =~= Seq::new(
                    (j - (i + 1)) as nat,
                    |k: int| item_value(lv[i + 1 + k]),
                ));
            }
            FieldValue::List(items)
        };
        match parse_block_from(lines, j) {
            Option::None => None,
            Option::Some(mut tail) => {
                let ghost key_v = key@;
                let ghost val_v = value@;
                let ghost old_tail = tail@;
                tail.insert(0, (key, value));
                proof {
                    assert(field_views(tail@) =~= seq![(key_v, val_v)] + field_views(
                        old_tail,
                    ));
                }
                Some(tail)
            },
        }
    }
}

/// Reads the fields of a metadata block.
pub fn parse_block(block: &str) -> (r: Option<Vec<(String, FieldValue)>>)
    ensures
        match r {
            Some(v) => spec_parse_block(block@) == Some(field_views(v@)),
            None => spec_parse_block(block@) is None,
        },
{
    let lines = split_char(block, '\n');
    parse_block_from(&lines, 0)
}

} // verus!
