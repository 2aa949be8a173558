//! Category derivation: collecting the distinct tags of an index into a
//! strictly ascending list.

use vstd::prelude::*;
use crate::text::lemma_lex_connected;
use crate::text::lemma_lex_transitive;
use crate::text::lex_lt;
use crate::text::str_lt;
use crate::text::str_views;

verus! {

/// Strictly ascending in the lexicographic order; in particular, free
/// of duplicates.
pub open spec fn strictly_ascending(s: Seq<Seq<char>>) -> bool {
    forall|i: int, j: int| 0 <= i < j < s.len() ==> lex_lt(#[trigger] s[i], #[trigger] s[j])
}

/// A tag placed into a strictly ascending sequence: before the first
/// entry at or above it, and dropped when already present.
pub open spec fn spec_insert_tag(t: Seq<char>, s: Seq<Seq<char>>) -> Seq<Seq<char>>
    decreases s.len(),
{
    if s.len() > 0 && lex_lt(s[0], t) {
        seq![s[0]] + spec_insert_tag(t, s.drop_first())
    } else if s.len() > 0 && s[0] == t {
        s
    } else {
        seq![t] + s
    }
}

/// Inserting a tag keeps the sequence strictly ascending, and its
/// members are the old members and the tag.
pub proof fn lemma_insert_tag_props(t: Seq<char>, s: Seq<Seq<char>>)
    requires
        strictly_ascending(s),
    ensures
        strictly_ascending(spec_insert_tag(t, s)),
        spec_insert_tag(t, s).to_set() == s.to_set().insert(t),
    decreases s.len(),
{
    broadcast use vstd::seq_lib::group_seq_properties;

    let out = spec_insert_tag(t, s);
    if s.len() > 0 && lex_lt(s[0], t) {
        let rest = s.drop_first();
        assert forall|i: int, j: int| 0 <= i < j < rest.len() implies lex_lt(
            #[trigger] rest[i],
            #[trigger] rest[j],
        ) by {
            assert(rest[i] == s[i + 1]);
            assert(rest[j] == s[j + 1]);
        }
        lemma_insert_tag_props(t, rest);
        let sub = spec_insert_tag(t, rest);
        assert forall|i: int, j: int| 0 <= i < j < out.len() implies lex_lt(
            #[trigger] out[i],
            #[trigger] out[j],
        ) by {
            if i == 0 {
                assert(out[0] == s[0]);
                assert(out[j] == sub[j - 1]);
                assert(sub.to_set().contains(sub[j - 1]));
                assert(sub[j - 1] == t || rest.to_set().contains(sub[j - 1]));
                if sub[j - 1] == t {
                    assert(lex_lt(s[0], t));
                } else {
                    let w = choose|w: int| 0 <= w < rest.len() && rest[w] == sub[j - 1];
                    assert(s[w + 1] == rest[w]);
                    assert(lex_lt(s[0], s[w + 1]));
                }
            } else {
                assert(out[i] == sub[i - 1]);
                assert(out[j] == sub[j - 1]);
            }
        }
        assert(out =~= seq![s[0]] + sub);
        assert(s =~= seq![s[0]] + rest);
        assert(out.to_set() =~= s.to_set().insert(t)) by {
            assert forall|x: Seq<char>| out.contains(x) implies s.contains(x) || x == t by {
                let w = choose|w: int| 0 <= w < out.len() && out[w] == x;
                if w == 0 {
                    assert(s[0] == x);
                } else {
                    assert(sub[w - 1] == x);
                    assert(sub.to_set().contains(x));
                    if x != t {
                        assert(rest.contains(x));
                        let u = choose|u: int| 0 <= u < rest.len() && rest[u] == x;
                        assert(s[u + 1] == x);
                    }
                }
            }
            assert forall|x: Seq<char>| s.contains(x) || x == t implies out.contains(x) by {
                if x == t {
                    assert(sub.to_set().contains(t));
                    assert(sub.contains(t));
                    let u = choose|u: int| 0 <= u < sub.len() && sub[u] == t;
                    assert(out[u + 1] == t);
                } else {
                    let u = choose|u: int| 0 <= u < s.len() && s[u] == x;
                    if u == 0 {
                        assert(out[0] == x);
                    } else {
                        assert(rest[u - 1] == x);
                        assert(rest.to_set().contains(x));
                        assert(sub.to_set().contains(x));
                        assert(sub.contains(x));
                        let w = choose|w: int| 0 <= w < sub.len() && sub[w] == x;
                        assert(out[w + 1] == x);
                    }
                }
            }
        }
    } else if s.len() > 0 && s[0] == t {
        assert(s.to_set().contains(t));
        assert(out.to_set() =~= s.to_set().insert(t));
    } else {
        assert(out =~= seq![t] + s);
        assert forall|i: int, j: int| 0 <= i < j < out.len() implies lex_lt(
            #[trigger] out[i],
            #[trigger] out[j],
        ) by {
            if i == 0 {
                assert(out[j] == s[j - 1]);
                if s.len() > 0 {
                    assert(!lex_lt(s[0], t));
                    assert(s[0] != t);
                    lemma_lex_connected_cases(t, s[0]);
                    if j - 1 > 0 {
                        assert(lex_lt(s[0], s[j - 1]));
                        lemma_lex_transitive(t, s[0], s[j - 1]);
                    }
                }
            } else {
                assert(out[i] == s[i - 1]);
                assert(out[j] == s[j - 1]);
            }
        }
        assert(out.to_set() =~= s.to_set().insert(t));
    }
}

/// When two sequences are unequal and the first is not below the
/// second, the second is below the first.
proof fn lemma_lex_connected_cases(a: Seq<char>, b: Seq<char>)
    requires
        !lex_lt(b, a),
        a != b,
    ensures
        lex_lt(a, b),
{
    if !lex_lt(a, b) {
        lemma_lex_connected(a, b);
    }
}

/// Every tag of a list placed in turn into an ascending sequence.
pub open spec fn spec_insert_all(ts: Seq<Seq<char>>, acc: Seq<Seq<char>>) -> Seq<Seq<char>>
    decreases ts.len(),
{
    if ts.len() == 0 {
        acc
    } else {
        spec_insert_all(ts.drop_first(), spec_insert_tag(ts[0], acc))
    }
}

/// Inserting a list of tags keeps the sequence strictly ascending, and
/// its members are the old members and the list's.
pub proof fn lemma_insert_all_props(ts: Seq<Seq<char>>, acc: Seq<Seq<char>>)
    requires
        strictly_ascending(acc),
    ensures
        strictly_ascending(spec_insert_all(ts, acc)),
        spec_insert_all(ts, acc).to_set() == acc.to_set() + ts.to_set(),
    decreases ts.len(),
{
    broadcast use vstd::seq_lib::group_seq_properties;

    if ts.len() == 0 {
        assert(spec_insert_all(ts, acc).to_set() =~= acc.to_set() + ts.to_set());
    } else {
        lemma_insert_tag_props(ts[0], acc);
        lemma_insert_all_props(ts.drop_first(), spec_insert_tag(ts[0], acc));
        assert(ts =~= seq![ts[0]] + ts.drop_first());
        assert(spec_insert_all(ts, acc).to_set() =~= acc.to_set() + ts.to_set());
    }
}

/// Places one tag into a strictly ascending list of categories.
#[verifier::loop_isolation(false)]
pub fn insert_tag(acc: &mut Vec<String>, tag: &str)
    requires
        strictly_ascending(str_views(old(acc)@)),
    ensures
        str_views(final(acc)@) == spec_insert_tag(tag@, str_views(old(acc)@)),
        strictly_ascending(str_views(final(acc)@)),
{
    let ghost orig = str_views(acc@);
    proof {
        lemma_insert_tag_props(tag@, orig);
    }
    let mut p: usize = 0;
    while p < acc.len() && str_lt(acc[p].as_str(), tag)
        invariant
            p <= acc@.len(),
            forall|q: int| 0 <= q < p ==> lex_lt(#[trigger] orig[q], tag@),
        decreases acc@.len() - p,
    {
        proof {
            assert(orig[p as int] == acc@[p as int]@);
        }
        p = p + 1;
    }
    proof {
        if p < acc@.len() {
            assert(orig[p as int] == acc@[p as int]@);
        }
    }
    if p < acc.len() && crate::text::str_eq(acc[p].as_str(), tag) {
        proof {
            lemma_insert_tag_at(tag@, orig, p as int);
        }
        return;
    }
    let ghost old_acc = acc@;
    acc.insert(p, tag.to_owned());
    proof {
        lemma_insert_tag_at(tag@, orig, p as int);
        assert forall|j: int| 0 <= j < str_views(acc@).len() implies str_views(acc@)[j]
            == spec_insert_tag(tag@, orig)[j] by {
            assert(str_views(acc@)[j] == acc@[j]@);
            assert(spec_insert_tag(tag@, orig) == orig.subrange(0, p as int) + seq![tag@]
                + orig.subrange(p as int, orig.len() as int));
            if j < p as int {
                assert(acc@[j] == old_acc[j]);
                assert(str_views(old_acc)[j] == old_acc[j]@);
            } else if j > p as int {
                assert(acc@[j] == old_acc[j - 1]);
                assert(str_views(old_acc)[j - 1] == old_acc[j - 1]@);
            }
        }
        assert(str_views(acc@) =~= spec_insert_tag(tag@, orig));
    }
}

/// Where the scan stopped is where [`spec_insert_tag`] acts: the tag is
/// already there, or is inserted there.
proof fn lemma_insert_tag_at(t: Seq<char>, s: Seq<Seq<char>>, p: int)
    requires
        0 <= p <= s.len(),
        forall|q: int| 0 <= q < p ==> lex_lt(#[trigger] s[q], t),
        p < s.len() ==> !lex_lt(s[p], t),
    ensures
        p < s.len() && s[p] == t ==> spec_insert_tag(t, s) == s,
        !(p < s.len() && s[p] == t) ==> spec_insert_tag(t, s) == s.subrange(0, p) + seq![t]
            + s.subrange(p, s.len() as int),
    decreases s.len(),
{
    if s.len() > 0 && lex_lt(s[0], t) {
        assert(p > 0);
        let rest = s.drop_first();
        assert forall|q: int| 0 <= q < p - 1 implies lex_lt(#[trigger] rest[q], t) by {
            assert(rest[q] == s[q + 1]);
        }
        if p - 1 < rest.len() {
            assert(rest[p - 1] == s[p]);
        }
        lemma_insert_tag_at(t, rest, p - 1);
        if p < s.len() && s[p] == t {
        } else {
            assert(s.subrange(0, p) =~= seq![s[0]] + rest.subrange(0, p - 1));
            assert(s.subrange(p, s.len() as int) =~= rest.subrange(p - 1, rest.len() as int));
            assert(seq![s[0]] + (rest.subrange(0, p - 1) + seq![t] + rest.subrange(
                p - 1,
                rest.len() as int,
            )) =~= s.subrange(0, p) + seq![t] + s.subrange(p, s.len() as int));
        }
    } else {
        assert(p == 0);
        if s.len() > 0 && s[0] == t {
        } else {
            assert(s.subrange(0, 0) =~= Seq::<Seq<char>>::empty());
            assert(s.subrange(0, s.len() as int) =~= s);
            assert(Seq::<Seq<char>>::empty() + seq![t] + s =~= seq![t] + s);
        }
    }
}

/// Places every tag of a list into a strictly ascending list of
/// categories.
#[verifier::loop_isolation(false)]
pub fn insert_tags(acc: &mut Vec<String>, tags: &Vec<String>)
    requires
        strictly_ascending(str_views(old(acc)@)),
    ensures
        str_views(final(acc)@) == spec_insert_all(str_views(tags@), str_views(old(acc)@)),
        strictly_ascending(str_views(final(acc)@)),
{
    let ghost ts = str_views(tags@);
    let ghost orig = str_views(acc@);
    let mut k: usize = 0;
    proof {
        assert(ts.skip(0) =~= ts);
        lemma_insert_all_props(ts, orig);
    }
    while k < tags.len()
        invariant
            k <= tags@.len(),
            strictly_ascending(str_views(acc@)),
            spec_insert_all(ts.skip(k as int), str_views(acc@)) == spec_insert_all(ts, orig),
        decreases tags@.len() - k,
    {
        proof {
            assert(ts[k as int] == tags@[k as int]@);
            assert(ts.skip(k as int)[0] == ts[k as int]);
            assert(ts.skip(k as int).drop_first() =~= ts.skip(k as int + 1));
        }
        insert_tag(acc, tags[k].as_str());
        k = k + 1;
    }
    proof {
        assert(ts.skip(k as int).len() == 0);
    }
}

} // verus!
