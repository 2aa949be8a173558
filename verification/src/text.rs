//! Character-sequence utilities shared by the pipeline: lexicographic
//! ordering, trimming, substring search and word counting.

use vstd::prelude::*;

verus! {

/// Whether a character is one of the whitespace characters the pipeline
/// recognizes when trimming text and splitting it into words.
pub open spec fn is_space(c: char) -> bool {
    c == ' ' || c == '\t' || c == '\n' || c == '\r'
}

/// Executable form of [`is_space`].
pub fn is_space_char(c: char) -> (r: bool)
    ensures
        r == is_space(c),
{
    c == ' ' || c == '\t' || c == '\n' || c == '\r'
}

/// Strict lexicographic order on character sequences by code point,
/// the order `str` comparison uses.
pub open spec fn lex_lt(a: Seq<char>, b: Seq<char>) -> bool
    decreases a.len(),
{
    if b.len() == 0 {
        false
    } else if a.len() == 0 {
        true
    } else if a[0] < b[0] {
        true
    } else if b[0] < a[0] {
        false
    } else {
        lex_lt(a.drop_first(), b.drop_first())
    }
}

/// Reflexive closure of [`lex_lt`].
pub open spec fn lex_le(a: Seq<char>, b: Seq<char>) -> bool {
    lex_lt(a, b) || a == b
}

/// Two sequences are equal when neither is lexicographically below the other.
pub proof fn lemma_lex_connected(a: Seq<char>, b: Seq<char>)
    requires
        !lex_lt(a, b),
        !lex_lt(b, a),
    ensures
        a == b,
    decreases a.len(),
{
    if a.len() == 0 || b.len() == 0 {
        assert(a =~= b);
    } else {
        lemma_lex_connected(a.drop_first(), b.drop_first());
        assert(a =~= seq![a[0]] + a.drop_first());
        assert(b =~= seq![b[0]] + b.drop_first());
    }
}

/// [`lex_lt`] is asymmetric.
pub proof fn lemma_lex_asymmetric(a: Seq<char>, b: Seq<char>)
    requires
        lex_lt(a, b),
    ensures
        !lex_lt(b, a),
    decreases a.len(),
{
    if a.len() != 0 && b.len() != 0 && a[0] == b[0] {
        lemma_lex_asymmetric(a.drop_first(), b.drop_first());
    }
}

/// [`lex_lt`] is transitive.
pub proof fn lemma_lex_transitive(a: Seq<char>, b: Seq<char>, c: Seq<char>)
    requires
        lex_lt(a, b),
        lex_lt(b, c),
    ensures
        lex_lt(a, c),
    decreases a.len() + b.len() + c.len(),
{
    if a.len() != 0 && c.len() != 0 && b.len() != 0 {
        if a[0] == b[0] && b[0] == c[0] {
            lemma_lex_transitive(a.drop_first(), b.drop_first(), c.drop_first());
        }
    }
}

/// [`lex_lt`] is irreflexive.
pub proof fn lemma_lex_irreflexive(a: Seq<char>)
    ensures
        !lex_lt(a, a),
    decreases a.len(),
{
    if a.len() > 0 {
        lemma_lex_irreflexive(a.drop_first());
    }
}

/// One step of scanning two sequences for their order: when the heads
/// agree, the comparison is decided by the tails.
proof fn lemma_lex_skip(a: Seq<char>, b: Seq<char>, i: int)
    requires
        0 <= i < a.len(),
        i < b.len(),
        a[i] == b[i],
    ensures
        lex_lt(a.skip(i), b.skip(i)) == lex_lt(a.skip(i + 1), b.skip(i + 1)),
{
    assert(a.skip(i)[0] == a[i]);
    assert(b.skip(i)[0] == b[i]);
    assert(a.skip(i).drop_first() =~= a.skip(i + 1));
    assert(b.skip(i).drop_first() =~= b.skip(i + 1));
}

/// Compares two strings in the lexicographic code-point order, the
/// order `str` comparison uses.
pub fn str_lt(a: &str, b: &str) -> (r: bool)
    ensures
        r == lex_lt(a@, b@),
{
    let a_len: usize = a.unicode_len();
    let b_len: usize = b.unicode_len();
    let mut i: usize = 0;
    proof {
        assert(a@.skip(0) =~= a@);
        assert(b@.skip(0) =~= b@);
    }
    loop
        invariant
            i <= a_len,
            i <= b_len,
            a_len == a@.len(),
            b_len == b@.len(),
            lex_lt(a@, b@) == lex_lt(a@.skip(i as int), b@.skip(i as int)),
        decreases a_len - i,
    {
        if i == a_len {
            return i < b_len;
        }
        if i == b_len {
            return false;
        }
        let ca = a.get_char(i);
        let cb = b.get_char(i);
        proof {
            assert(a@.skip(i as int)[0] == a@[i as int]);
            assert(b@.skip(i as int)[0] == b@[i as int]);
        }
        if ca < cb {
            return true;
        }
        if cb < ca {
            return false;
        }
        proof {
            lemma_lex_skip(a@, b@, i as int);
        }
        i = i + 1;
    }
}

/// Compares two strings in the reflexive lexicographic order.
pub fn str_le(a: &str, b: &str) -> (r: bool)
    ensures
        r == lex_le(a@, b@),
{
    let r = str_lt(b, a);
    proof {
        if r {
            lemma_lex_asymmetric(b@, a@);
            lemma_lex_irreflexive(a@);
        } else {
            if !lex_lt(a@, b@) {
                lemma_lex_connected(a@, b@);
            }
        }
    }
    !r
}

/// The views of a sequence of strings.
pub open spec fn str_views(s: Seq<String>) -> Seq<Seq<char>> {
    s.map_values(|x: String| x@)
}

/// Whether two strings hold the same characters.
pub fn str_eq(a: &str, b: &str) -> (r: bool)
    ensures
        r == (a@ == b@),
{
    let a_len: usize = a.unicode_len();
    let b_len: usize = b.unicode_len();
    if a_len != b_len {
        return false;
    }
    let mut i: usize = 0;
    while i < a_len
        invariant
            i <= a_len,
            a_len == a@.len(),
            a_len == b@.len(),
            forall|k: int| 0 <= k < i ==> a@[k] == b@[k],
        decreases a_len - i,
    {
        if a.get_char(i) != b.get_char(i) {
            return false;
        }
        i = i + 1;
    }
    proof {
        assert(a@ =~= b@);
    }
    true
}

/// Copies a vector of strings.
pub fn clone_strings(v: &Vec<String>) -> (r: Vec<String>)
    ensures
        r@ == v@,
{
    let mut r: Vec<String> = Vec::new();
    let mut i: usize = 0;
    while i < v.len()
        invariant
            i <= v@.len(),
            r@ =~= v@.subrange(0, i as int),
        decreases v@.len() - i,
    {
        r.push(v[i].clone());
        i = i + 1;
    }
    proof {
        assert(r@ =~= v@);
    }
    r
}

/// What is left of a sequence after the leading whitespace is removed.
pub open spec fn trim_start_rec(s: Seq<char>) -> Seq<char>
    decreases s.len(),
{
    if s.len() > 0 && is_space(s[0]) {
        trim_start_rec(s.drop_first())
    } else {
        s
    }
}

/// What is left of a sequence after the trailing whitespace is removed.
pub open spec fn trim_end_rec(s: Seq<char>) -> Seq<char>
    decreases s.len(),
{
    if s.len() > 0 && is_space(s.last()) {
        trim_end_rec(s.drop_last())
    } else {
        s
    }
}

/// A sequence with both leading and trailing whitespace removed.
pub open spec fn spec_trim(s: Seq<char>) -> Seq<char> {
    trim_end_rec(trim_start_rec(s))
}

/// Removes leading and trailing whitespace from a string.
pub fn trim(s: &str) -> (r: String)
    ensures
        r@ == spec_trim(s@),
{
    let len: usize = s.unicode_len();
    let mut i: usize = 0;
    proof {
        assert(s@.skip(0) =~= s@);
    }
    while i < len && is_space_char(s.get_char(i))
        invariant
            i <= len,
            len == s@.len(),
            trim_start_rec(s@) == trim_start_rec(s@.skip(i as int)),
        decreases len - i,
    {
        proof {
            assert(s@.skip(i as int)[0] == s@[i as int]);
            assert(s@.skip(i as int).drop_first() =~= s@.skip(i as int + 1));
        }
        i = i + 1;
    }
    proof {
        assert(trim_start_rec(s@) == s@.skip(i as int));
        assert(s@.skip(i as int) =~= s@.subrange(i as int, len as int));
    }
    let mut j: usize = len;
    while j > i && is_space_char(s.get_char(j - 1))
        invariant
            i <= j <= len,
            len == s@.len(),
            trim_start_rec(s@) == s@.subrange(i as int, len as int),
            trim_end_rec(s@.subrange(i as int, len as int)) == trim_end_rec(
                s@.subrange(i as int, j as int),
            ),
        decreases j,
    {
        proof {
            let cur = s@.subrange(i as int, j as int);
            assert(cur.last() == s@[j as int - 1]);
            assert(cur.drop_last() =~= s@.subrange(i as int, j as int - 1));
        }
        j = j - 1;
    }
    proof {
        let cur = s@.subrange(i as int, j as int);
        if j > i {
            assert(cur.last() == s@[j as int - 1]);
        }
        assert(trim_end_rec(cur) == cur);
    }
    let piece = s.substring_char(i, j);
    piece.to_owned()
}

/// Whether the three characters beginning at `i` are all `'-'`.
pub open spec fn dash3_at(s: Seq<char>, i: int) -> bool {
    &&& 0 <= i
    &&& i + 3 <= s.len()
    &&& s[i] == '-'
    &&& s[i + 1] == '-'
    &&& s[i + 2] == '-'
}

/// The position of the first `---` at or after `i`, scanning left to right.
pub open spec fn find3_from(s: Seq<char>, i: int) -> Option<int>
    decreases s.len() - i,
{
    if i < 0 || i + 3 > s.len() {
        None
    } else if dash3_at(s, i) {
        Some(i)
    } else {
        find3_from(s, i + 1)
    }
}

/// What [`find3_from`] promises of its result.
pub proof fn lemma_find3_from(s: Seq<char>, i: int)
    requires
        0 <= i,
    ensures
        match find3_from(s, i) {
            Some(p) => i <= p && dash3_at(s, p) && forall|k: int|
                i <= k < p ==> !dash3_at(s, k),
            None => forall|k: int| i <= k ==> !dash3_at(s, k),
        },
    decreases s.len() - i,
{
    if i + 3 > s.len() {
    } else if dash3_at(s, i) {
    } else {
        lemma_find3_from(s, i + 1);
    }
}

/// The search finds `---` exactly where the first one stands.
pub proof fn lemma_find3_exact(s: Seq<char>, from: int, p: int)
    requires
        0 <= from <= p,
        dash3_at(s, p),
        forall|k: int| from <= k < p ==> !dash3_at(s, k),
    ensures
        find3_from(s, from) == Some(p),
    decreases p - from,
{
    if from < p {
        lemma_find3_exact(s, from + 1, p);
    }
}

/// Finds the first occurrence of `---` at or after `from`.
pub fn find_triple_dash(s: &str, from: usize) -> (r: Option<usize>)
    ensures
        match r {
            Some(p) => find3_from(s@, from as int) == Some(p as int) && p + 3 <= s@.len(),
            None => find3_from(s@, from as int) is None,
        },
{
    let len: usize = s.unicode_len();
    let mut i: usize = from;
    loop
        invariant
            from <= i,
            len == s@.len(),
            find3_from(s@, from as int) == find3_from(s@, i as int),
        decreases len + 3 - i,
    {
        if i >= len || len - i < 3 {
            return None;
        }
        if s.get_char(i) == '-' && s.get_char(i + 1) == '-' && s.get_char(i + 2) == '-' {
            return Some(i);
        }
        i = i + 1;
    }
}

/// The position of the first occurrence of `c` at or after `i`.
pub open spec fn find_char_from(s: Seq<char>, c: char, i: int) -> Option<int>
    decreases s.len() - i,
{
    if i < 0 || i >= s.len() {
        None
    } else if s[i] == c {
        Some(i)
    } else {
        find_char_from(s, c, i + 1)
    }
}

/// What [`find_char_from`] promises of its result.
pub proof fn lemma_find_char_from(s: Seq<char>, c: char, i: int)
    requires
        0 <= i,
    ensures
        match find_char_from(s, c, i) {
            Some(p) => i <= p < s.len() && s[p] == c && forall|k: int|
                i <= k < p ==> s[k] != c,
            None => forall|k: int| i <= k < s.len() ==> s[k] != c,
        },
    decreases s.len() - i,
{
    if i >= s.len() {
    } else if s[i] == c {
    } else {
        lemma_find_char_from(s, c, i + 1);
    }
}

/// Finds the first occurrence of `c` at or after `from`.
pub fn find_char(s: &str, c: char, from: usize) -> (r: Option<usize>)
    ensures
        match r {
            Some(p) => find_char_from(s@, c, from as int) == Some(p as int) && p < s@.len(),
            None => find_char_from(s@, c, from as int) is None,
        },
{
    let len: usize = s.unicode_len();
    let mut i: usize = from;
    loop
        invariant
            from <= i,
            len == s@.len(),
            find_char_from(s@, c, from as int) == find_char_from(s@, c, i as int),
        decreases len - i,
    {
        if i >= len {
            return None;
        }
        if s.get_char(i) == c {
            return Some(i);
        }
        i = i + 1;
    }
}

/// The pieces of a sequence cut at every occurrence of `c`; the cuts
/// themselves are dropped, and `n + 1` pieces come from `n` occurrences.
pub open spec fn spec_split_char(s: Seq<char>, c: char) -> Seq<Seq<char>>
    decreases s.len(),
{
    match find_char_from(s, c, 0) {
        Option::None => seq![s],
        Option::Some(p) => if 0 <= p < s.len() {
            seq![s.subrange(0, p)] + spec_split_char(s.subrange(p + 1, s.len() as int), c)
        } else {
            seq![s]
        },
    }
}

/// Splits a string at every occurrence of `c`.
pub fn split_char(s: &str, c: char) -> (r: Vec<String>)
    ensures
        str_views(r@) == spec_split_char(s@, c),
    decreases s@.len(),
{
    proof {
        lemma_find_char_from(s@, c, 0);
    }
    let len: usize = s.unicode_len();
    match find_char(s, c, 0) {
        Option::None => {
            let mut v: Vec<String> = Vec::new();
            v.push(s.to_owned());
            proof {
                assert(str_views(v@) =~= seq![s@]);
            }
            v
        },
        Option::Some(p) => {
            let head = s.substring_char(0, p).to_owned();
            let rest = s.substring_char(p + 1, len);
            let mut v = split_char(rest, c);
            v.insert(0, head);
            proof {
                assert(str_views(v@) =~= seq![s@.subrange(0, p as int)] + spec_split_char(
                    s@.subrange(p as int + 1, len as int),
                    c,
                ));
            }
            v
        },
    }
}

/// The number of whitespace-delimited words in a sequence, given whether
/// the character before it was whitespace (or the sequence is at the start).
pub open spec fn count_words_rec(s: Seq<char>, after_space: bool) -> nat
    decreases s.len(),
{
    if s.len() == 0 {
        0
    } else {
        (if after_space && !is_space(s[0]) {
            1nat
        } else {
            0nat
        }) + count_words_rec(s.drop_first(), is_space(s[0]))
    }
}

/// The number of whitespace-delimited words in a sequence.
pub open spec fn count_words(s: Seq<char>) -> nat {
    count_words_rec(s, true)
}

/// Counting never yields more words than characters.
pub proof fn lemma_count_words_le_len(s: Seq<char>, after_space: bool)
    ensures
        count_words_rec(s, after_space) <= s.len(),
    decreases s.len(),
{
    if s.len() > 0 {
        lemma_count_words_le_len(s.drop_first(), is_space(s[0]));
    }
}

/// Counts the whitespace-delimited words of a string.
pub fn word_count(s: &str) -> (r: usize)
    ensures
        r == count_words(s@),
{
    let len: usize = s.unicode_len();
    let mut i: usize = 0;
    let mut after_space = true;
    let mut count: usize = 0;
    proof {
        assert(s@.skip(0) =~= s@);
        lemma_count_words_le_len(s@, true);
    }
    while i < len
        invariant
            i <= len,
            len == s@.len(),
            count <= i,
            count + count_words_rec(s@.skip(i as int), after_space) == count_words(s@),
        decreases len - i,
    {
        proof {
            assert(s@.skip(i as int)[0] == s@[i as int]);
            assert(s@.skip(i as int).drop_first() =~= s@.skip(i as int + 1));
        }
        let c = s.get_char(i);
        if after_space && !is_space_char(c) {
            count = count + 1;
        }
        after_space = is_space_char(c);
        i = i + 1;
    }
    count
}

/// The digit character for a value below ten.
pub open spec fn digit_char(d: int) -> char {
    if d == 0 {
        '0'
    } else if d == 1 {
        '1'
    } else if d == 2 {
        '2'
    } else if d == 3 {
        '3'
    } else if d == 4 {
        '4'
    } else if d == 5 {
        '5'
    } else if d == 6 {
        '6'
    } else if d == 7 {
        '7'
    } else if d == 8 {
        '8'
    } else {
        '9'
    }
}

/// The decimal digit string of a non-negative number.
pub open spec fn dec_rep(n: int) -> Seq<char>
    decreases n,
{
    if n < 10 {
        seq![digit_char(n)]
    } else {
        dec_rep(n / 10).push(digit_char(n % 10))
    }
}

/// The one-character string for a digit.
fn digit_str(d: u64) -> (r: &'static str)
    requires
        d < 10,
    ensures
        r@ =~= seq![digit_char(d as int)],
{
    proof {
        reveal_strlit("0");
        reveal_strlit("1");
        reveal_strlit("2");
        reveal_strlit("3");
        reveal_strlit("4");
        reveal_strlit("5");
        reveal_strlit("6");
        reveal_strlit("7");
        reveal_strlit("8");
        reveal_strlit("9");
    }
    if d == 0 {
        "0"
    } else if d == 1 {
        "1"
    } else if d == 2 {
        "2"
    } else if d == 3 {
        "3"
    } else if d == 4 {
        "4"
    } else if d == 5 {
        "5"
    } else if d == 6 {
        "6"
    } else if d == 7 {
        "7"
    } else if d == 8 {
        "8"
    } else {
        "9"
    }
}

/// Renders a number in decimal.
pub fn u64_to_dec(n: u64) -> (r: String)
    ensures
        r@ == dec_rep(n as int),
    decreases n,
{
    if n < 10 {
        digit_str(n).to_owned()
    } else {
        let mut s = u64_to_dec(n / 10);
        s.append(digit_str(n % 10));
        proof {
            assert(dec_rep((n / 10) as int) + seq![digit_char((n % 10) as int)] =~= dec_rep(
                (n / 10) as int,
            ).push(digit_char((n % 10) as int)));
            assert((n as int) / 10 == (n / 10) as int);
            assert((n as int) % 10 == (n % 10) as int);
        }
        s
    }
}

} // verus!

