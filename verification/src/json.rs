//! The index artifact format: a flat array of entry objects with string
//! and string-list fields.
//!
//! The encoder writes one canonical form; the parser accepts any field
//! order and surrounding whitespace, so an index written here is read
//! back exactly (see the round-trip lemmas).  Strings carry the escapes
//! `\"`, `\\`, `\/`, `\n`, `\r` and `\t`; any other character stands
//! for itself.

use vstd::prelude::*;
use crate::fields::FieldValue;
use crate::fields::FieldValueV;
use crate::fields::field_views;
use crate::text::is_space;
use crate::text::is_space_char;
use crate::text::str_views;

verus! {

/// The escape sequence a character is written as inside a string.
pub open spec fn esc_char(c: char) -> Seq<char> {
    if c == '"' {
        seq!['\\', '"']
    } else if c == '\\' {
        seq!['\\', '\\']
    } else if c == '\n' {
        seq!['\\', 'n']
    } else if c == '\r' {
        seq!['\\', 'r']
    } else if c == '\t' {
        seq!['\\', 't']
    } else {
        seq![c]
    }
}

/// A string body with every character escaped.
pub open spec fn spec_escape(s: Seq<char>) -> Seq<char>
    decreases s.len(),
{
    if s.len() == 0 {
        Seq::empty()
    } else {
        esc_char(s[0]) + spec_escape(s.drop_first())
    }
}

/// Escaping distributes over concatenation.
pub proof fn lemma_escape_concat(a: Seq<char>, b: Seq<char>)
    ensures
        spec_escape(a + b) == spec_escape(a) + spec_escape(b),
    decreases a.len(),
{
    if a.len() == 0 {
        assert(a + b =~= b);
        assert(spec_escape(a) + spec_escape(b) =~= spec_escape(b));
    } else {
        lemma_escape_concat(a.drop_first(), b);
        assert((a + b).drop_first() =~= a.drop_first() + b);
        assert((a + b)[0] == a[0]);
        assert(esc_char(a[0]) + (spec_escape(a.drop_first()) + spec_escape(b)) =~= (esc_char(
            a[0],
        ) + spec_escape(a.drop_first())) + spec_escape(b));
    }
}

/// A string as it stands in the artifact: quoted and escaped.
pub open spec fn enc_str(s: Seq<char>) -> Seq<char> {
    seq!['"'] + spec_escape(s) + seq!['"']
}

/// The character an escape letter stands for.
pub open spec fn unesc_char(c: char) -> Option<char> {
    if c == '"' {
        Some('"')
    } else if c == '\\' {
        Some('\\')
    } else if c == '/' {
        Some('/')
    } else if c == 'n' {
        Some('\n')
    } else if c == 'r' {
        Some('\r')
    } else if c == 't' {
        Some('\t')
    } else {
        None
    }
}

/// The body of a quoted string read until its closing quote: the text
/// it stands for and what follows the quote.
pub open spec fn parse_str_body(s: Seq<char>) -> Option<(Seq<char>, Seq<char>)>
    decreases s.len(),
{
    if s.len() == 0 {
        None
    } else if s[0] == '"' {
        Some((Seq::empty(), s.drop_first()))
    } else if s[0] == '\\' {
        if s.len() < 2 {
            None
        } else {
            match unesc_char(s[1]) {
                None => None,
                Some(c) => match parse_str_body(s.skip(2)) {
                    None => None,
                    Some((t, rest)) => Some((seq![c] + t, rest)),
                },
            }
        }
    } else {
        match parse_str_body(s.drop_first()) {
            None => None,
            Some((t, rest)) => Some((seq![s[0]] + t, rest)),
        }
    }
}

/// A quoted string read from the front: the text it stands for and
/// what follows it.
pub open spec fn parse_string(s: Seq<char>) -> Option<(Seq<char>, Seq<char>)> {
    if s.len() > 0 && s[0] == '"' {
        parse_str_body(s.drop_first())
    } else {
        None
    }
}

/// Reading back an escaped body finds the original text, whatever
/// follows the closing quote.
pub proof fn lemma_str_body_round_trip(s: Seq<char>, tail: Seq<char>)
    ensures
        parse_str_body(spec_escape(s) + seq!['"'] + tail) == Some((s, tail)),
    decreases s.len(),
{
    let whole = spec_escape(s) + seq!['"'] + tail;
    if s.len() == 0 {
        assert(spec_escape(s) =~= Seq::<char>::empty());
        assert(whole =~= seq!['"'] + tail);
        assert(whole[0] == '"');
        assert(whole.drop_first() =~= tail);
    } else {
        lemma_str_body_round_trip(s.drop_first(), tail);
        let sub = spec_escape(s.drop_first()) + seq!['"'] + tail;
        let c = s[0];
        assert(spec_escape(s) == esc_char(c) + spec_escape(s.drop_first()));
        if c == '"' || c == '\\' || c == '\n' || c == '\r' || c == '\t' {
            let letter: char = if c == '"' {
                '"'
            } else if c == '\\' {
                '\\'
            } else if c == '\n' {
                'n'
            } else if c == '\r' {
                'r'
            } else {
                't'
            };
            assert(esc_char(c) =~= seq!['\\', letter]);
            assert(whole =~= seq!['\\', letter] + sub);
            assert(whole[0] == '\\');
            assert(whole.len() >= 2);
            assert(whole[1] == letter);
            assert(unesc_char(letter) == Some(c));
            assert(whole.skip(2) =~= sub);
            assert(seq![c] + s.drop_first() =~= s);
        } else {
            assert(esc_char(c) =~= seq![c]);
            assert(whole =~= seq![c] + sub);
            assert(whole[0] == c);
            assert(whole[0] != '"' && whole[0] != '\\');
            assert(whole.drop_first() =~= sub);
            assert(seq![c] + s.drop_first() =~= s);
        }
    }
}

/// Reading back an encoded string finds the original text, whatever
/// follows it.
pub proof fn lemma_string_round_trip(s: Seq<char>, tail: Seq<char>)
    ensures
        parse_string(enc_str(s) + tail) == Some((s, tail)),
{
    let whole = enc_str(s) + tail;
    assert(whole[0] == '"');
    assert(whole.drop_first() =~= spec_escape(s) + seq!['"'] + tail);
    lemma_str_body_round_trip(s, tail);
}

/// What remains of a sequence after its leading whitespace.
pub open spec fn spec_skip_ws(s: Seq<char>) -> Seq<char>
    decreases s.len(),
{
    if s.len() > 0 && is_space(s[0]) {
        spec_skip_ws(s.drop_first())
    } else {
        s
    }
}

/// A sequence that starts with no whitespace loses nothing.
pub proof fn lemma_skip_ws_clean(s: Seq<char>)
    requires
        s.len() == 0 || !is_space(s[0]),
    ensures
        spec_skip_ws(s) == s,
{
}

/// The items of a string list, joined by commas.
pub open spec fn enc_items(l: Seq<Seq<char>>) -> Seq<char>
    decreases l.len(),
{
    if l.len() == 0 {
        Seq::empty()
    } else if l.len() == 1 {
        enc_str(l[0])
    } else {
        enc_str(l[0]) + seq![','] + enc_items(l.drop_first())
    }
}

/// A string list as it stands in the artifact.
pub open spec fn enc_list(l: Seq<Seq<char>>) -> Seq<char> {
    seq!['['] + enc_items(l) + seq![']']
}

/// A field value as it stands in the artifact: a string, a list, or
/// `null` for an absent value.
pub open spec fn enc_value(v: FieldValueV) -> Seq<char> {
    match v {
        FieldValueV::Str(s) => enc_str(s),
        FieldValueV::List(l) => enc_list(l),
        FieldValueV::Null => seq!['n', 'u', 'l', 'l'],
    }
}

/// The items of a string list read up to and including the closing
/// bracket: the list and what follows the bracket.
pub open spec fn parse_items(s: Seq<char>) -> Option<(Seq<Seq<char>>, Seq<char>)>
    decreases s.len(),
{
    let t = spec_skip_ws(s);
    if t.len() == 0 {
        None
    } else if t[0] == ']' {
        Some((Seq::empty(), t.drop_first()))
    } else {
        match parse_string(t) {
            None => None,
            Some((v, rest)) => {
                let u = spec_skip_ws(rest);
                if u.len() == 0 {
                    None
                } else if u[0] == ']' {
                    Some((seq![v], u.drop_first()))
                } else if u[0] == ',' && u.len() - 1 < s.len() {
                    match parse_items(u.subrange(1, u.len() as int)) {
                        None => None,
                        Some((items, rest2)) => Some((seq![v] + items, rest2)),
                    }
                } else {
                    None
                }
            },
        }
    }
}

/// A field value read from the front, leading whitespace allowed.
pub open spec fn parse_value(s: Seq<char>) -> Option<(FieldValueV, Seq<char>)> {
    let t = spec_skip_ws(s);
    if t.len() == 0 {
        None
    } else if t[0] == '"' {
        match parse_string(t) {
            None => None,
            Some((v, rest)) => Some((FieldValueV::Str(v), rest)),
        }
    } else if t[0] == '[' {
        match parse_items(t.drop_first()) {
            None => None,
            Some((l, rest)) => Some((FieldValueV::List(l), rest)),
        }
    } else if t.len() >= 4 && t[0] == 'n' && t[1] == 'u' && t[2] == 'l' && t[3] == 'l' {
        Some((FieldValueV::Null, t.skip(4)))
    } else {
        None
    }
}

/// One field as it stands in the artifact: quoted key, colon, value.
pub open spec fn enc_pair(p: (Seq<char>, FieldValueV)) -> Seq<char> {
    enc_str(p.0) + seq![':'] + enc_value(p.1)
}

/// The fields of a record, joined by commas.
pub open spec fn enc_pairs(fs: Seq<(Seq<char>, FieldValueV)>) -> Seq<char>
    decreases fs.len(),
{
    if fs.len() == 0 {
        Seq::empty()
    } else if fs.len() == 1 {
        enc_pair(fs[0])
    } else {
        enc_pair(fs[0]) + seq![','] + enc_pairs(fs.drop_first())
    }
}

/// A record as it stands in the artifact.
pub open spec fn enc_record(fs: Seq<(Seq<char>, FieldValueV)>) -> Seq<char> {
    seq!['{'] + enc_pairs(fs) + seq!['}']
}

/// The fields of a record read up to and including the closing brace:
/// the fields in order and what follows the brace.
pub open spec fn parse_pairs(s: Seq<char>) -> Option<
    (Seq<(Seq<char>, FieldValueV)>, Seq<char>),
>
    decreases s.len(),
{
    let t = spec_skip_ws(s);
    if t.len() == 0 {
        None
    } else if t[0] == '}' {
        Some((Seq::empty(), t.drop_first()))
    } else {
        match parse_string(t) {
            None => None,
            Some((k, rest)) => {
                let u = spec_skip_ws(rest);
                if u.len() == 0 || u[0] != ':' {
                    None
                } else {
                    match parse_value(u.drop_first()) {
                        None => None,
                        Some((v, rest2)) => {
                            let w = spec_skip_ws(rest2);
                            if w.len() == 0 {
                                None
                            } else if w[0] == '}' {
                                Some((seq![(k, v)], w.drop_first()))
                            } else if w[0] == ',' && w.len() - 1 < s.len() {
                                match parse_pairs(w.subrange(1, w.len() as int)) {
                                    None => None,
                                    Some((fs, rest3)) => Some((seq![(k, v)] + fs, rest3)),
                                }
                            } else {
                                None
                            }
                        },
                    }
                }
            },
        }
    }
}

/// A record read from the front, leading whitespace allowed.
pub open spec fn parse_record(s: Seq<char>) -> Option<
    (Seq<(Seq<char>, FieldValueV)>, Seq<char>),
> {
    let t = spec_skip_ws(s);
    if t.len() > 0 && t[0] == '{' {
        parse_pairs(t.drop_first())
    } else {
        None
    }
}

/// The records of an artifact, joined by commas.
pub open spec fn enc_record_items(rs: Seq<Seq<(Seq<char>, FieldValueV)>>) -> Seq<char>
    decreases rs.len(),
{
    if rs.len() == 0 {
        Seq::empty()
    } else if rs.len() == 1 {
        enc_record(rs[0])
    } else {
        enc_record(rs[0]) + seq![','] + enc_record_items(rs.drop_first())
    }
}

/// A whole artifact as written: the records in one array.
pub open spec fn enc_artifact(rs: Seq<Seq<(Seq<char>, FieldValueV)>>) -> Seq<char> {
    seq!['['] + enc_record_items(rs) + seq![']']
}

/// The records of an array read up to and including the closing
/// bracket.
pub open spec fn parse_record_items(s: Seq<char>) -> Option<
    (Seq<Seq<(Seq<char>, FieldValueV)>>, Seq<char>),
>
    decreases s.len(),
{
    let t = spec_skip_ws(s);
    if t.len() == 0 {
        None
    } else if t[0] == ']' {
        Some((Seq::empty(), t.drop_first()))
    } else {
        match parse_record(t) {
            None => None,
            Some((r, rest)) => {
                let u = spec_skip_ws(rest);
                if u.len() == 0 {
                    None
                } else if u[0] == ']' {
                    Some((seq![r], u.drop_first()))
                } else if u[0] == ',' && u.len() - 1 < s.len() {
                    match parse_record_items(u.subrange(1, u.len() as int)) {
                        None => None,
                        Some((rs, rest2)) => Some((seq![r] + rs, rest2)),
                    }
                } else {
                    None
                }
            },
        }
    }
}

/// Reading back encoded list items finds the original items, whatever
/// follows the closing bracket.
pub proof fn lemma_items_round_trip(l: Seq<Seq<char>>, tail: Seq<char>)
    ensures
        parse_items(enc_items(l) + seq![']'] + tail) == Some((l, tail)),
    decreases l.len(),
{
    let whole = enc_items(l) + seq![']'] + tail;
    if l.len() == 0 {
        assert(whole =~= seq![']'] + tail);
        assert(whole[0] == ']');
        lemma_skip_ws_clean(whole);
        assert(whole.drop_first() =~= tail);
        assert(parse_items(whole) == Some((Seq::<Seq<char>>::empty(), tail)));
        assert(l =~= Seq::<Seq<char>>::empty());
    } else if l.len() == 1 {
        let after = seq![']'] + tail;
        assert(whole =~= enc_str(l[0]) + after);
        assert(whole[0] == '"');
        lemma_skip_ws_clean(whole);
        lemma_string_round_trip(l[0], after);
        assert(after[0] == ']');
        lemma_skip_ws_clean(after);
        assert(after.drop_first() =~= tail);
        assert(seq![l[0]] =~= l);
    } else {
        let rest = l.drop_first();
        let sub = enc_items(rest) + seq![']'] + tail;
        let after = seq![','] + sub;
        assert(whole =~= enc_str(l[0]) + after) by {
            assert(enc_items(l) == enc_str(l[0]) + seq![','] + enc_items(rest));
        }
        assert(whole[0] == '"');
        lemma_skip_ws_clean(whole);
        lemma_string_round_trip(l[0], after);
        assert(after[0] == ',');
        lemma_skip_ws_clean(after);
        assert(after.subrange(1, after.len() as int) =~= sub);
        assert(after.len() - 1 < whole.len());
        lemma_items_round_trip(rest, tail);
        assert(seq![l[0]] + rest =~= l);
    }
}

/// Reading back an encoded value finds the original value, whatever
/// follows it.
pub proof fn lemma_value_round_trip(v: FieldValueV, tail: Seq<char>)
    ensures
        parse_value(enc_value(v) + tail) == Some((v, tail)),
{
    let whole = enc_value(v) + tail;
    match v {
        FieldValueV::Str(s) => {
            assert(whole =~= enc_str(s) + tail);
            assert(whole[0] == '"');
            lemma_skip_ws_clean(whole);
            lemma_string_round_trip(s, tail);
        },
        FieldValueV::List(l) => {
            assert(whole =~= seq!['['] + (enc_items(l) + seq![']'] + tail)) by {
                assert(enc_value(v) == seq!['['] + enc_items(l) + seq![']']);
            }
            assert(whole[0] == '[');
            lemma_skip_ws_clean(whole);
            assert(whole.drop_first() =~= enc_items(l) + seq![']'] + tail);
            lemma_items_round_trip(l, tail);
        },
        FieldValueV::Null => {
            assert(whole =~= seq!['n', 'u', 'l', 'l'] + tail);
            assert(whole[0] == 'n');
            lemma_skip_ws_clean(whole);
            assert(whole.len() >= 4);
            assert(whole[1] == 'u' && whole[2] == 'l' && whole[3] == 'l');
            assert(whole.skip(4) =~= tail);
        },
    }
}

/// Reading back encoded record fields finds the original fields,
/// whatever follows the closing brace.
pub proof fn lemma_pairs_round_trip(fs: Seq<(Seq<char>, FieldValueV)>, tail: Seq<char>)
    ensures
        parse_pairs(enc_pairs(fs) + seq!['}'] + tail) == Some((fs, tail)),
    decreases fs.len(),
{
    let whole = enc_pairs(fs) + seq!['}'] + tail;
    if fs.len() == 0 {
        assert(whole =~= seq!['}'] + tail);
        assert(whole[0] == '}');
        lemma_skip_ws_clean(whole);
        assert(whole.drop_first() =~= tail);
        assert(fs =~= Seq::<(Seq<char>, FieldValueV)>::empty());
    } else {
        let k = fs[0].0;
        let v = fs[0].1;
        let after_value: Seq<char> = if fs.len() == 1 {
            seq!['}'] + tail
        } else {
            seq![','] + (enc_pairs(fs.drop_first()) + seq!['}'] + tail)
        };
        let after_key = seq![':'] + (enc_value(v) + after_value);
        assert(whole =~= enc_str(k) + after_key) by {
            if fs.len() == 1 {
                assert(enc_pairs(fs) == enc_pair(fs[0]));
                assert(enc_pair(fs[0]) == enc_str(k) + seq![':'] + enc_value(v));
            } else {
                assert(enc_pairs(fs) == enc_pair(fs[0]) + seq![','] + enc_pairs(
                    fs.drop_first(),
                ));
                assert(enc_pair(fs[0]) == enc_str(k) + seq![':'] + enc_value(v));
            }
        }
        assert(whole[0] == '"');
        lemma_skip_ws_clean(whole);
        lemma_string_round_trip(k, after_key);
        assert(after_key[0] == ':');
        lemma_skip_ws_clean(after_key);
        assert(after_key.drop_first() =~= enc_value(v) + after_value);
        lemma_value_round_trip(v, after_value);
        if fs.len() == 1 {
            assert(after_value[0] == '}');
            lemma_skip_ws_clean(after_value);
            assert(after_value.drop_first() =~= tail);
            assert(seq![(k, v)] =~= fs);
        } else {
            let rest = fs.drop_first();
            let sub = enc_pairs(rest) + seq!['}'] + tail;
            assert(after_value[0] == ',');
            lemma_skip_ws_clean(after_value);
            assert(after_value.subrange(1, after_value.len() as int) =~= sub);
            assert(after_value.len() - 1 < whole.len());
            lemma_pairs_round_trip(rest, tail);
            assert(seq![(k, v)] + rest =~= fs);
        }
    }
}

/// Reading back an encoded record finds the original fields, whatever
/// follows it.
pub proof fn lemma_record_round_trip(fs: Seq<(Seq<char>, FieldValueV)>, tail: Seq<char>)
    ensures
        parse_record(enc_record(fs) + tail) == Some((fs, tail)),
{
    let whole = enc_record(fs) + tail;
    assert(whole =~= seq!['{'] + (enc_pairs(fs) + seq!['}'] + tail)) by {
        assert(enc_record(fs) == seq!['{'] + enc_pairs(fs) + seq!['}']);
    }
    assert(whole[0] == '{');
    lemma_skip_ws_clean(whole);
    assert(whole.drop_first() =~= enc_pairs(fs) + seq!['}'] + tail);
    lemma_pairs_round_trip(fs, tail);
}

/// Reading back encoded array items finds the original records,
/// whatever follows the closing bracket.
pub proof fn lemma_record_items_round_trip(
    rs: Seq<Seq<(Seq<char>, FieldValueV)>>,
    tail: Seq<char>,
)
    ensures
        parse_record_items(enc_record_items(rs) + seq![']'] + tail) == Some((rs, tail)),
    decreases rs.len(),
{
    let whole = enc_record_items(rs) + seq![']'] + tail;
    if rs.len() == 0 {
        assert(whole =~= seq![']'] + tail);
        assert(whole[0] == ']');
        lemma_skip_ws_clean(whole);
        assert(whole.drop_first() =~= tail);
        assert(rs =~= Seq::<Seq<(Seq<char>, FieldValueV)>>::empty());
    } else if rs.len() == 1 {
        let after = seq![']'] + tail;
        assert(whole =~= enc_record(rs[0]) + after);
        assert(whole[0] == '{') by {
            assert(enc_record(rs[0])[0] == '{');
        }
        lemma_skip_ws_clean(whole);
        lemma_record_round_trip(rs[0], after);
        assert(after[0] == ']');
        lemma_skip_ws_clean(after);
        assert(after.drop_first() =~= tail);
        assert(seq![rs[0]] =~= rs);
    } else {
        let rest = rs.drop_first();
        let sub = enc_record_items(rest) + seq![']'] + tail;
        let after = seq![','] + sub;
        assert(whole =~= enc_record(rs[0]) + after) by {
            assert(enc_record_items(rs) == enc_record(rs[0]) + seq![','] + enc_record_items(
                rest,
            ));
        }
        assert(whole[0] == '{') by {
            assert(enc_record(rs[0])[0] == '{');
        }
        lemma_skip_ws_clean(whole);
        lemma_record_round_trip(rs[0], after);
        assert(after[0] == ',');
        lemma_skip_ws_clean(after);
        assert(after.subrange(1, after.len() as int) =~= sub);
        assert(after.len() - 1 < whole.len());
        lemma_record_items_round_trip(rest, tail);
        assert(seq![rs[0]] + rest =~= rs);
    }
}

/// The records of a whole artifact; `None` unless the text is one
/// array with nothing but whitespace around or after it.
pub open spec fn parse_artifact(s: Seq<char>) -> Option<Seq<Seq<(Seq<char>, FieldValueV)>>> {
    let t = spec_skip_ws(s);
    if t.len() > 0 && t[0] == '[' {
        match parse_record_items(t.drop_first()) {
            None => None,
            Some((rs, rest)) => if spec_skip_ws(rest).len() == 0 {
                Some(rs)
            } else {
                None
            },
        }
    } else {
        None
    }
}

/// The views of a sequence of field records.
pub open spec fn record_views(rs: Seq<Vec<(String, FieldValue)>>) -> Seq<
    Seq<(Seq<char>, FieldValueV)>,
> {
    rs.map_values(|f: Vec<(String, FieldValue)>| field_views(f@))
}

/// Writes a string body with every character escaped.
#[verifier::loop_isolation(false)]
fn encode_string_body(s: &str) -> (r: String)
    ensures
        r@ == spec_escape(s@),
{
    let len = s.unicode_len();
    let mut acc = String::new();
    let mut i: usize = 0;
    proof {
        reveal_strlit("\\\"");
        reveal_strlit("\\\\");
        reveal_strlit("\\n");
        reveal_strlit("\\r");
        reveal_strlit("\\t");
        assert(acc@ =~= spec_escape(s@.subrange(0, 0)));
    }
    while i < len
        invariant
            i <= len,
            len == s@.len(),
            acc@ == spec_escape(s@.subrange(0, i as int)),
        decreases len - i,
    {
        proof {
            let pre = s@.subrange(0, i as int);
            let c = s@[i as int];
            lemma_escape_concat(pre, seq![c]);
            assert(s@.subrange(0, i as int + 1) =~= pre + seq![c]);
            assert(seq![c].drop_first() =~= Seq::<char>::empty());
            assert(spec_escape(Seq::<char>::empty()) =~= Seq::<char>::empty());
            assert(spec_escape(seq![c]) =~= esc_char(c));
        }
        let c = s.get_char(i);
        if c == '"' {
            acc.append("\\\"");
        } else if c == '\\' {
            acc.append("\\\\");
        } else if c == '\n' {
            acc.append("\\n");
        } else if c == '\r' {
            acc.append("\\r");
        } else if c == '\t' {
            acc.append("\\t");
        } else {
            acc.append(s.substring_char(i, i + 1));
        }
        proof {
            assert(acc@ =~= spec_escape(s@.subrange(0, i as int + 1)));
        }
        i = i + 1;
    }
    proof {
        assert(s@.subrange(0, len as int) =~= s@);
    }
    acc
}

/// Writes a string as it stands in the artifact: quoted and escaped.
fn encode_string(s: &str) -> (r: String)
    ensures
        r@ == enc_str(s@),
{
    let mut acc = String::new();
    acc.append("\"");
    let body = encode_string_body(s);
    acc.append(body.as_str());
    acc.append("\"");
    proof {
        reveal_strlit("\"");
        assert(acc@ =~= enc_str(s@));
    }
    acc
}

/// Writes the items of a string list from position `k` on, joined by
/// commas.
#[verifier::loop_isolation(false)]
fn encode_items_from(l: &Vec<String>, k: usize) -> (r: String)
    requires
        k <= l@.len(),
    ensures
        r@ == enc_items(str_views(l@).skip(k as int)),
    decreases l@.len() - k,
{
    let ghost lv = str_views(l@);
    if k >= l.len() {
        let r = String::new();
        proof {
            assert(lv.skip(k as int).len() == 0);
            assert(r@ =~= enc_items(lv.skip(k as int)));
        }
        return r;
    }
    proof {
        assert(lv.skip(k as int)[0] == lv[k as int]);
        assert(lv[k as int] == l@[k as int]@);
    }
    let mut acc = encode_string(l[k].as_str());
    if k + 1 < l.len() {
        proof {
            reveal_strlit(",");
            assert(lv.skip(k as int).drop_first() =~= lv.skip(k as int + 1));
        }
        acc.append(",");
        let rest = encode_items_from(l, k + 1);
        acc.append(rest.as_str());
        proof {
            assert(acc@ =~= enc_items(lv.skip(k as int)));
        }
    } else {
        proof {
            assert(lv.skip(k as int).len() == 1);
        }
    }
    acc
}

/// Writes a field value as it stands in the artifact.
fn encode_value(v: &FieldValue) -> (r: String)
    ensures
        r@ == enc_value(v@),
{
    match v {
        FieldValue::Str(s) => encode_string(s.as_str()),
        FieldValue::List(l) => {
            let mut acc = String::new();
            acc.append("[");
            let items = encode_items_from(l, 0);
            acc.append(items.as_str());
            acc.append("]");
            proof {
                reveal_strlit("[");
                reveal_strlit("]");
                assert(str_views(l@).skip(0) =~= str_views(l@));
                assert(acc@ =~= enc_value(v@));
            }
            acc
        },
        FieldValue::Null => {
            let r = "null".to_owned();
            proof {
                reveal_strlit("null");
                assert(r@ =~= enc_value(v@));
            }
            r
        },
    }
}

/// Writes the fields of a record from position `k` on, joined by
/// commas.
#[verifier::loop_isolation(false)]
fn encode_pairs_from(fs: &Vec<(String, FieldValue)>, k: usize) -> (r: String)
    requires
        k <= fs@.len(),
    ensures
        r@ == enc_pairs(field_views(fs@).skip(k as int)),
    decreases fs@.len() - k,
{
    let ghost fv = field_views(fs@);
    if k >= fs.len() {
        let r = String::new();
        proof {
            assert(fv.skip(k as int).len() == 0);
            assert(r@ =~= enc_pairs(fv.skip(k as int)));
        }
        return r;
    }
    proof {
        assert(fv.skip(k as int)[0] == fv[k as int]);
        assert(fv[k as int] == (fs@[k as int].0@, fs@[k as int].1@));
    }
    let mut acc = encode_string(fs[k].0.as_str());
    proof {
        reveal_strlit(":");
    }
    acc.append(":");
    let value = encode_value(&fs[k].1);
    acc.append(value.as_str());
    if k + 1 < fs.len() {
        proof {
            reveal_strlit(",");
            assert(fv.skip(k as int).drop_first() =~= fv.skip(k as int + 1));
        }
        acc.append(",");
        let rest = encode_pairs_from(fs, k + 1);
        acc.append(rest.as_str());
        proof {
            assert(acc@ =~= enc_pairs(fv.skip(k as int)));
        }
    } else {
        proof {
            assert(fv.skip(k as int).len() == 1);
            assert(acc@ =~= enc_pair(fv.skip(k as int)[0]));
        }
    }
    acc
}

/// Writes a record as it stands in the artifact.
pub fn encode_record(fs: &Vec<(String, FieldValue)>) -> (r: String)
    ensures
        r@ == enc_record(field_views(fs@)),
{
    let mut acc = String::new();
    acc.append("{");
    let pairs = encode_pairs_from(fs, 0);
    acc.append(pairs.as_str());
    acc.append("}");
    proof {
        reveal_strlit("{");
        reveal_strlit("}");
        assert(field_views(fs@).skip(0) =~= field_views(fs@));
        assert(acc@ =~= enc_record(field_views(fs@)));
    }
    acc
}

/// Reading back a whole encoded artifact finds the original records.
pub proof fn lemma_artifact_round_trip(rs: Seq<Seq<(Seq<char>, FieldValueV)>>)
    ensures
        parse_artifact(enc_artifact(rs)) == Some(rs),
{
    let whole = enc_artifact(rs);
    assert(whole =~= seq!['['] + (enc_record_items(rs) + seq![']'] + Seq::<char>::empty()))
        by {
        assert(enc_artifact(rs) == seq!['['] + enc_record_items(rs) + seq![']']);
    }
    assert(whole[0] == '[');
    lemma_skip_ws_clean(whole);
    assert(whole.drop_first() =~= enc_record_items(rs) + seq![']'] + Seq::<char>::empty());
    lemma_record_items_round_trip(rs, Seq::empty());
    assert(spec_skip_ws(Seq::<char>::empty()).len() == 0);
}


/// Moves a position past the whitespace at it.
#[verifier::loop_isolation(false)]
fn ws_to(s: &str, i: usize) -> (j: usize)
    requires
        i <= s@.len(),
    ensures
        i <= j <= s@.len(),
        s@.skip(j as int) == spec_skip_ws(s@.skip(i as int)),
{
    let len = s.unicode_len();
    let mut j: usize = i;
    while j < len && is_space_char(s.get_char(j))
        invariant
            i <= j <= len,
            spec_skip_ws(s@.skip(i as int)) == spec_skip_ws(s@.skip(j as int)),
        decreases len - j,
    {
        proof {
            assert(s@.skip(j as int)[0] == s@[j as int]);
            assert(s@.skip(j as int).drop_first() =~= s@.skip(j as int + 1));
        }
        j = j + 1;
    }
    proof {
        if j < len {
            assert(s@.skip(j as int)[0] == s@[j as int]);
        }
        assert(spec_skip_ws(s@.skip(j as int)) == s@.skip(j as int));
    }
    j
}

/// The one-character string an escape letter stands for.
fn unesc_str(c: char) -> (r: Option<&'static str>)
    ensures
        match r {
            Some(t) => unesc_char(c) == Some(t@[0]) && t@.len() == 1,
            None => unesc_char(c) is None,
        },
{
    proof {
        reveal_strlit("\"");
        reveal_strlit("\\");
        reveal_strlit("/");
        reveal_strlit("\n");
        reveal_strlit("\r");
        reveal_strlit("\t");
    }
    if c == '"' {
        Some("\"")
    } else if c == '\\' {
        Some("\\")
    } else if c == '/' {
        Some("/")
    } else if c == 'n' {
        Some("\n")
    } else if c == 'r' {
        Some("\r")
    } else if c == 't' {
        Some("\t")
    } else {
        None
    }
}

/// Reads a quoted string beginning at `i`.
#[verifier::loop_isolation(false)]
fn parse_string_at(s: &str, i: usize) -> (r: Option<(String, usize)>)
    requires
        i <= s@.len(),
    ensures
        match r {
            Some(p) => parse_string(s@.skip(i as int)) == Some((p.0@, s@.skip(p.1 as int)))
                && i <= p.1 <= s@.len(),
            None => parse_string(s@.skip(i as int)) is None,
        },
{
    let len = s.unicode_len();
    if i >= len || s.get_char(i) != '"' {
        proof {
            if i < len {
                assert(s@.skip(i as int)[0] == s@[i as int]);
            }
        }
        return None;
    }
    proof {
        assert(s@.skip(i as int)[0] == s@[i as int]);
        assert(s@.skip(i as int).drop_first() =~= s@.skip(i as int + 1));
    }
    let ghost start = s@.skip(i as int + 1);
    let mut acc = String::new();
    let mut j: usize = i + 1;
    proof {
        assert(acc@ + Seq::<char>::empty() =~= Seq::<char>::empty());
    }
    loop
        invariant
            i + 1 <= j <= len,
            len == s@.len(),
            match parse_str_body(s@.skip(j as int)) {
                Some(p) => parse_str_body(start) == Some((acc@ + p.0, p.1)),
                None => parse_str_body(start) is None,
            },
        decreases len - j,
    {
        if j >= len {
            proof {
                assert(s@.skip(j as int).len() == 0);
            }
            return None;
        }
        proof {
            assert(s@.skip(j as int)[0] == s@[j as int]);
        }
        let c = s.get_char(j);
        if c == '"' {
            proof {
                assert(s@.skip(j as int).drop_first() =~= s@.skip(j as int + 1));
                assert(parse_str_body(s@.skip(j as int)) == Some(
                    (Seq::<char>::empty(), s@.skip(j as int + 1)),
                ));
                assert(acc@ + Seq::<char>::empty() =~= acc@);
            }
            return Some((acc, j + 1));
        }
        if c == '\\' {
            if j + 1 >= len {
                proof {
                    assert(s@.skip(j as int).len() < 2);
                }
                return None;
            }
            proof {
                assert(s@.skip(j as int)[1] == s@[j as int + 1]);
                assert(s@.skip(j as int).skip(2) =~= s@.skip(j as int + 2));
            }
            let c2 = s.get_char(j + 1);
            match unesc_str(c2) {
                None => {
                    return None;
                },
                Some(t) => {
                    let ghost old_acc = acc@;
                    acc.append(t);
                    proof {
                        let u = unesc_char(c2).unwrap();
                        assert(t@ =~= seq![u]);
                        assert forall|p0: Seq<char>, p1: Seq<char>|
                            parse_str_body(s@.skip(j as int + 2)) == Some((p0, p1)) implies
                            old_acc + (seq![u] + p0) =~= acc@ + p0 by {}
                    }
                    j = j + 2;
                },
            }
        } else {
            let ghost old_acc = acc@;
            acc.append(s.substring_char(j, j + 1));
            proof {
                assert(s@.skip(j as int).drop_first() =~= s@.skip(j as int + 1));
                assert forall|p0: Seq<char>, p1: Seq<char>|
                    parse_str_body(s@.skip(j as int + 1)) == Some((p0, p1)) implies old_acc
                    + (seq![s@[j as int]] + p0) =~= acc@ + p0 by {}
            }
            j = j + 1;
        }
    }
}

/// A view of a string sequence grows at the end as the sequence does.
proof fn lemma_str_views_push(s: Seq<String>, x: String)
    ensures
        str_views(s.push(x)) == str_views(s).push(x@),
{
    assert(str_views(s.push(x)) =~= str_views(s).push(x@));
}

/// A view of a field sequence grows at the end as the sequence does.
proof fn lemma_field_views_push(s: Seq<(String, FieldValue)>, x: (String, FieldValue))
    ensures
        field_views(s.push(x)) == field_views(s).push((x.0@, x.1@)),
{
    assert(field_views(s.push(x)) =~= field_views(s).push((x.0@, x.1@)));
}

/// A view of a record sequence grows at the end as the sequence does.
proof fn lemma_record_views_push(s: Seq<Vec<(String, FieldValue)>>, x: Vec<(String, FieldValue)>)
    ensures
        record_views(s.push(x)) == record_views(s).push(field_views(x@)),
{
    assert(record_views(s.push(x)) =~= record_views(s).push(field_views(x@)));
}

/// Reads the items of a string list beginning at `i` (after the opening
/// bracket), up to and including the closing bracket.
#[verifier::loop_isolation(false)]
fn parse_items_at(s: &str, i: usize) -> (r: Option<(Vec<String>, usize)>)
    requires
        i <= s@.len(),
    ensures
        match r {
            Some(p) => parse_items(s@.skip(i as int)) == Some(
                (str_views(p.0@), s@.skip(p.1 as int)),
            ) && i <= p.1 <= s@.len(),
            None => parse_items(s@.skip(i as int)) is None,
        },
{
    let len = s.unicode_len();
    let mut acc: Vec<String> = Vec::new();
    let mut cur: usize = i;
    proof {
        assert(str_views(acc@) =~= Seq::<Seq<char>>::empty());
    }
    loop
        invariant
            i <= cur <= len,
            match parse_items(s@.skip(cur as int)) {
                Some(p) => parse_items(s@.skip(i as int)) == Some(
                    (str_views(acc@) + p.0, p.1),
                ),
                None => parse_items(s@.skip(i as int)) is None,
            },
        decreases len - cur,
    {
        let t = ws_to(s, cur);
        if t >= len {
            proof {
                assert(spec_skip_ws(s@.skip(cur as int)).len() == 0);
            }
            return None;
        }
        proof {
            assert(s@.skip(t as int)[0] == s@[t as int]);
        }
        let c = s.get_char(t);
        if c == ']' {
            proof {
                assert(s@.skip(t as int).drop_first() =~= s@.skip(t as int + 1));
                assert(parse_items(s@.skip(cur as int)) == Some(
                    (Seq::<Seq<char>>::empty(), s@.skip(t as int + 1)),
                ));
                assert(str_views(acc@) + Seq::<Seq<char>>::empty() =~= str_views(acc@));
            }
            return Some((acc, t + 1));
        }
        match parse_string_at(s, t) {
            None => {
                return None;
            },
            Some((v, j)) => {
                let u = ws_to(s, j);
                if u >= len {
                    proof {
                        assert(spec_skip_ws(s@.skip(j as int)).len() == 0);
                    }
                    return None;
                }
                proof {
                    assert(s@.skip(u as int)[0] == s@[u as int]);
                }
                let cu = s.get_char(u);
                if cu == ']' {
                    let ghost old_acc = acc@;
                    let ghost vv = v@;
                    acc.push(v);
                    proof {
                        lemma_str_views_push(old_acc, acc@[acc@.len() - 1]);
                        assert(s@.skip(u as int).drop_first() =~= s@.skip(u as int + 1));
                        assert(parse_items(s@.skip(cur as int)) == Some(
                            (seq![vv], s@.skip(u as int + 1)),
                        ));
                        assert(str_views(acc@) =~= str_views(old_acc) + seq![vv]);
                    }
                    return Some((acc, u + 1));
                } else if cu == ',' {
                    let ghost old_acc = acc@;
                    let ghost vv = v@;
                    acc.push(v);
                    proof {
                        lemma_str_views_push(old_acc, acc@[acc@.len() - 1]);
                        assert(s@.skip(u as int).subrange(
                            1,
                            s@.skip(u as int).len() as int,
                        ) =~= s@.skip(u as int + 1));
                        assert(s@.skip(u as int).len() - 1 < s@.skip(cur as int).len());
                        assert forall|p0: Seq<Seq<char>>, p1: Seq<char>|
                            parse_items(s@.skip(u as int + 1)) == Some((p0, p1)) implies
                            str_views(acc@) + p0 =~= str_views(old_acc) + (seq![vv] + p0) by {
                            assert(str_views(acc@) =~= str_views(old_acc) + seq![vv]);
                        }
                    }
                    cur = u + 1;
                } else {
                    return None;
                }
            },
        }
    }
}

/// Reads a field value beginning at `i`, leading whitespace allowed.
fn parse_value_at(s: &str, i: usize) -> (r: Option<(FieldValue, usize)>)
    requires
        i <= s@.len(),
    ensures
        match r {
            Some(p) => parse_value(s@.skip(i as int)) == Some((p.0@, s@.skip(p.1 as int)))
                && i <= p.1 <= s@.len(),
            None => parse_value(s@.skip(i as int)) is None,
        },
{
    let len = s.unicode_len();
    let t = ws_to(s, i);
    if t >= len {
        proof {
            assert(spec_skip_ws(s@.skip(i as int)).len() == 0);
        }
        return None;
    }
    proof {
        assert(s@.skip(t as int)[0] == s@[t as int]);
    }
    let c = s.get_char(t);
    if c == '"' {
        match parse_string_at(s, t) {
            None => None,
            Some((v, j)) => Some((FieldValue::Str(v), j)),
        }
    } else if c == '[' {
        proof {
            assert(s@.skip(t as int).drop_first() =~= s@.skip(t as int + 1));
        }
        match parse_items_at(s, t + 1) {
            None => None,
            Some((l, j)) => Some((FieldValue::List(l), j)),
        }
    } else if c == 'n' {
        if len - t >= 4 && s.get_char(t + 1) == 'u' && s.get_char(t + 2) == 'l' && s.get_char(
            t + 3,
        ) == 'l' {
            proof {
                assert(s@.skip(t as int)[1] == s@[t as int + 1]);
                assert(s@.skip(t as int)[2] == s@[t as int + 2]);
                assert(s@.skip(t as int)[3] == s@[t as int + 3]);
                assert(s@.skip(t as int).skip(4) =~= s@.skip(t as int + 4));
            }
            Some((FieldValue::Null, t + 4))
        } else {
            proof {
                if len - t >= 4 {
                    assert(s@.skip(t as int)[1] == s@[t as int + 1]);
                    assert(s@.skip(t as int)[2] == s@[t as int + 2]);
                    assert(s@.skip(t as int)[3] == s@[t as int + 3]);
                }
            }
            None
        }
    } else {
        None
    }
}

/// Reads the fields of a record beginning at `i` (after the opening
/// brace), up to and including the closing brace.
#[verifier::loop_isolation(false)]
fn parse_pairs_at(s: &str, i: usize) -> (r: Option<(Vec<(String, FieldValue)>, usize)>)
    requires
        i <= s@.len(),
    ensures
        match r {
            Some(p) => parse_pairs(s@.skip(i as int)) == Some(
                (field_views(p.0@), s@.skip(p.1 as int)),
            ) && i <= p.1 <= s@.len(),
            None => parse_pairs(s@.skip(i as int)) is None,
        },
{
    let len = s.unicode_len();
    let mut acc: Vec<(String, FieldValue)> = Vec::new();
    let mut cur: usize = i;
    proof {
        assert(field_views(acc@) =~= Seq::<(Seq<char>, FieldValueV)>::empty());
    }
    loop
        invariant
            i <= cur <= len,
            match parse_pairs(s@.skip(cur as int)) {
                Some(p) => parse_pairs(s@.skip(i as int)) == Some(
                    (field_views(acc@) + p.0, p.1),
                ),
                None => parse_pairs(s@.skip(i as int)) is None,
            },
        decreases len - cur,
    {
        let t = ws_to(s, cur);
        if t >= len {
            proof {
                assert(spec_skip_ws(s@.skip(cur as int)).len() == 0);
            }
            return None;
        }
        proof {
            assert(s@.skip(t as int)[0] == s@[t as int]);
        }
        let c = s.get_char(t);
        if c == '}' {
            proof {
                assert(s@.skip(t as int).drop_first() =~= s@.skip(t as int + 1));
                assert(parse_pairs(s@.skip(cur as int)) == Some(
                    (Seq::<(Seq<char>, FieldValueV)>::empty(), s@.skip(t as int + 1)),
                ));
                assert(field_views(acc@) + Seq::<(Seq<char>, FieldValueV)>::empty()
                    =~= field_views(acc@));
            }
            return Some((acc, t + 1));
        }
        let (k, j) = match parse_string_at(s, t) {
            None => {
                return None;
            },
            Some(p) => p,
        };
        let u = ws_to(s, j);
        if u >= len {
            proof {
                assert(spec_skip_ws(s@.skip(j as int)).len() == 0);
            }
            return None;
        }
        proof {
            assert(s@.skip(u as int)[0] == s@[u as int]);
        }
        if s.get_char(u) != ':' {
            return None;
        }
        proof {
            assert(s@.skip(u as int).drop_first() =~= s@.skip(u as int + 1));
        }
        let (v, j2) = match parse_value_at(s, u + 1) {
            None => {
                return None;
            },
            Some(p) => p,
        };
        let w = ws_to(s, j2);
        if w >= len {
            proof {
                assert(spec_skip_ws(s@.skip(j2 as int)).len() == 0);
            }
            return None;
        }
        proof {
            assert(s@.skip(w as int)[0] == s@[w as int]);
        }
        let cw = s.get_char(w);
        if cw == '}' {
            let ghost old_acc = acc@;
            let ghost kv = (k@, v@);
            acc.push((k, v));
            proof {
                lemma_field_views_push(old_acc, acc@[acc@.len() - 1]);
                assert(s@.skip(w as int).drop_first() =~= s@.skip(w as int + 1));
                assert(parse_pairs(s@.skip(cur as int)) == Some(
                    (seq![kv], s@.skip(w as int + 1)),
                ));
                assert(field_views(acc@) =~= field_views(old_acc) + seq![kv]);
            }
            return Some((acc, w + 1));
        } else if cw == ',' {
            let ghost old_acc = acc@;
            let ghost kv = (k@, v@);
            acc.push((k, v));
            proof {
                lemma_field_views_push(old_acc, acc@[acc@.len() - 1]);
                assert(s@.skip(w as int).subrange(1, s@.skip(w as int).len() as int)
                    =~= s@.skip(w as int + 1));
                assert(s@.skip(w as int).len() - 1 < s@.skip(cur as int).len());
                assert forall|p0: Seq<(Seq<char>, FieldValueV)>, p1: Seq<char>|
                    parse_pairs(s@.skip(w as int + 1)) == Some((p0, p1)) implies field_views(
                    acc@,
                ) + p0 =~= field_views(old_acc) + (seq![kv] + p0) by {
                    assert(field_views(acc@) =~= field_views(old_acc) + seq![kv]);
                }
            }
            cur = w + 1;
        } else {
            return None;
        }
    }
}

/// Reads a record beginning at `i`, leading whitespace allowed.
fn parse_record_at(s: &str, i: usize) -> (r: Option<(Vec<(String, FieldValue)>, usize)>)
    requires
        i <= s@.len(),
    ensures
        match r {
            Some(p) => parse_record(s@.skip(i as int)) == Some(
                (field_views(p.0@), s@.skip(p.1 as int)),
            ) && i <= p.1 <= s@.len(),
            None => parse_record(s@.skip(i as int)) is None,
        },
{
    let len = s.unicode_len();
    let t = ws_to(s, i);
    if t >= len {
        proof {
            assert(spec_skip_ws(s@.skip(i as int)).len() == 0);
        }
        return None;
    }
    proof {
        assert(s@.skip(t as int)[0] == s@[t as int]);
    }
    if s.get_char(t) != '{' {
        return None;
    }
    proof {
        assert(s@.skip(t as int).drop_first() =~= s@.skip(t as int + 1));
    }
    parse_pairs_at(s, t + 1)
}

/// Reads the records of an array beginning at `i` (after the opening
/// bracket), up to and including the closing bracket.
#[verifier::loop_isolation(false)]
#[verifier::rlimit(60)]
fn parse_record_items_at(s: &str, i: usize) -> (r: Option<
    (Vec<Vec<(String, FieldValue)>>, usize),
>)
    requires
        i <= s@.len(),
    ensures
        match r {
            Some(p) => parse_record_items(s@.skip(i as int)) == Some(
                (record_views(p.0@), s@.skip(p.1 as int)),
            ) && i <= p.1 <= s@.len(),
            None => parse_record_items(s@.skip(i as int)) is None,
        },
{
    let len = s.unicode_len();
    let mut acc: Vec<Vec<(String, FieldValue)>> = Vec::new();
    let mut cur: usize = i;
    proof {
        assert(record_views(acc@) =~= Seq::<Seq<(Seq<char>, FieldValueV)>>::empty());
    }
    loop
        invariant
            i <= cur <= len,
            match parse_record_items(s@.skip(cur as int)) {
                Some(p) => parse_record_items(s@.skip(i as int)) == Some(
                    (record_views(acc@) + p.0, p.1),
                ),
                None => parse_record_items(s@.skip(i as int)) is None,
            },
        decreases len - cur,
    {
        let t = ws_to(s, cur);
        if t >= len {
            proof {
                assert(spec_skip_ws(s@.skip(cur as int)).len() == 0);
            }
            return None;
        }
        proof {
            assert(s@.skip(t as int)[0] == s@[t as int]);
        }
        if s.get_char(t) == ']' {
            proof {
                assert(s@.skip(t as int).drop_first() =~= s@.skip(t as int + 1));
                assert(parse_record_items(s@.skip(cur as int)) == Some(
                    (Seq::<Seq<(Seq<char>, FieldValueV)>>::empty(), s@.skip(t as int + 1)),
                ));
                assert(record_views(acc@) + Seq::<Seq<(Seq<char>, FieldValueV)>>::empty()
                    =~= record_views(acc@));
            }
            return Some((acc, t + 1));
        }
        let (rec, j) = match parse_record_at(s, t) {
            None => {
                return None;
            },
            Some(p) => p,
        };
        let u = ws_to(s, j);
        if u >= len {
            proof {
                assert(spec_skip_ws(s@.skip(j as int)).len() == 0);
            }
            return None;
        }
        proof {
            assert(s@.skip(u as int)[0] == s@[u as int]);
        }
        let cu = s.get_char(u);
        if cu == ']' {
            let ghost old_acc = acc@;
            let ghost rv = field_views(rec@);
            acc.push(rec);
            proof {
                lemma_record_views_push(old_acc, acc@[acc@.len() - 1]);
                assert(s@.skip(u as int).drop_first() =~= s@.skip(u as int + 1));
                assert(parse_record_items(s@.skip(cur as int)) == Some(
                    (seq![rv], s@.skip(u as int + 1)),
                ));
                assert(record_views(acc@) =~= record_views(old_acc) + seq![rv]);
            }
            return Some((acc, u + 1));
        } else if cu == ',' {
            let ghost old_acc = acc@;
            let ghost rv = field_views(rec@);
            acc.push(rec);
            proof {
                lemma_record_views_push(old_acc, acc@[acc@.len() - 1]);
                assert(s@.skip(u as int).subrange(1, s@.skip(u as int).len() as int)
                    =~= s@.skip(u as int + 1));
                assert(s@.skip(u as int).len() - 1 < s@.skip(cur as int).len());
                assert forall|p0: Seq<Seq<(Seq<char>, FieldValueV)>>, p1: Seq<char>|
                    parse_record_items(s@.skip(u as int + 1)) == Some((p0, p1)) implies
                    record_views(acc@) + p0 =~= record_views(old_acc) + (seq![rv] + p0) by {
                    assert(record_views(acc@) =~= record_views(old_acc) + seq![rv]);
                }
            }
            cur = u + 1;
        } else {
            return None;
        }
    }
}

/// Reads a whole artifact: one array of records with nothing but
/// whitespace around it.
pub fn parse_artifact_records(s: &str) -> (r: Option<Vec<Vec<(String, FieldValue)>>>)
    ensures
        match r {
            Some(v) => parse_artifact(s@) == Some(record_views(v@)),
            None => parse_artifact(s@) is None,
        },
{
    let len = s.unicode_len();
    proof {
        assert(s@.skip(0) =~= s@);
    }
    let t = ws_to(s, 0);
    if t >= len {
        proof {
            assert(spec_skip_ws(s@).len() == 0);
        }
        return None;
    }
    proof {
        assert(s@.skip(t as int)[0] == s@[t as int]);
    }
    if s.get_char(t) != '[' {
        return None;
    }
    proof {
        assert(s@.skip(t as int).drop_first() =~= s@.skip(t as int + 1));
    }
    match parse_record_items_at(s, t + 1) {
        None => None,
        Some((rs, j)) => {
            let e = ws_to(s, j);
            if e == len {
                proof {
                    assert(spec_skip_ws(s@.skip(j as int)).len() == 0);
                }
                Some(rs)
            } else {
                proof {
                    assert(spec_skip_ws(s@.skip(j as int)) == s@.skip(e as int));
                    assert(spec_skip_ws(s@.skip(j as int)).len() > 0);
                }
                None
            }
        },
    }
}

} // verus!
