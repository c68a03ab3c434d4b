//! Counting the braces of a text: how many are open at its end, and
//! whether a closing brace ever comes before its opening one.
use vstd::prelude::*;

verus! {

/// How often the character `c` occurs in `s`.
pub open spec fn count_char(s: Seq<char>, c: char) -> nat
    decreases s.len(),
{
    if s.len() == 0 {
        0
    } else {
        count_char(s.drop_last(), c) + if s.last() == c {
            1nat
        } else {
            0nat
        }
    }
}

/// The number of braces that are open at the end of `s`: the opening
/// braces less the closing ones.
pub open spec fn depth(s: Seq<char>) -> int {
    count_char(s, '{') - count_char(s, '}')
}

/// Whether `s` has as many closing braces as opening ones.
pub open spec fn balanced(s: Seq<char>) -> bool {
    count_char(s, '{') == count_char(s, '}')
}

/// Whether no beginning of `s`, read after a text with `base` open
/// braces, closes more braces than are open.
pub open spec fn stays_open(s: Seq<char>, base: int) -> bool {
    forall|n: int| 0 <= n <= s.len() ==> base + depth(#[trigger] s.subrange(0, n)) >= 0
}

/// Whether no beginning of `s` has more closing braces than opening
/// ones.
pub open spec fn never_closes_early(s: Seq<char>) -> bool {
    forall|n: int|
        0 <= n <= s.len() ==> count_char(#[trigger] s.subrange(0, n), '}') <= count_char(s.subrange(0, n), '{')
}

/// Whether `s` holds no brace.
pub open spec fn plain(s: Seq<char>) -> bool {
    forall|i: int| 0 <= i < s.len() ==> (#[trigger] s[i]) != '{' && s[i] != '}'
}

/// The count of a character in a text with one more character.
pub proof fn lemma_count_push(s: Seq<char>, last: char, c: char)
    ensures
        count_char(s.push(last), c) == count_char(s, c) + if last == c {
            1nat
        } else {
            0nat
        },
{
    assert(s.push(last).drop_last() =~= s);
}

/// The count of a character in two texts one after the other is the sum
/// of the counts.
pub proof fn lemma_count_concat(a: Seq<char>, b: Seq<char>, c: char)
    ensures
        count_char(a + b, c) == count_char(a, c) + count_char(b, c),
    decreases b.len(),
{
    if b.len() == 0 {
        assert(a + b =~= a);
    } else {
        lemma_count_concat(a, b.drop_last(), c);
        assert((a + b).drop_last() =~= a + b.drop_last());
    }
}

/// The open braces of two texts one after the other add up.
pub proof fn lemma_depth_concat(a: Seq<char>, b: Seq<char>)
    ensures
        depth(a + b) == depth(a) + depth(b),
{
    lemma_count_concat(a, b, '{');
    lemma_count_concat(a, b, '}');
}

/// A text without braces leaves the open braces as they are, and so does
/// each of its beginnings.
pub proof fn lemma_plain(s: Seq<char>, base: int)
    requires
        plain(s),
    ensures
        depth(s) == 0,
        base >= 0 ==> stays_open(s, base),
    decreases s.len(),
{
    if s.len() > 0 {
        lemma_plain(s.drop_last(), base);
    }
    assert forall|n: int| 0 <= n <= s.len() implies depth(#[trigger] s.subrange(0, n)) == 0 by {
        lemma_plain_prefix(s, n);
    }
}

/// A beginning of a text without braces has no open braces.
pub proof fn lemma_plain_prefix(s: Seq<char>, n: int)
    requires
        plain(s),
        0 <= n <= s.len(),
    ensures
        depth(s.subrange(0, n)) == 0,
    decreases n,
{
    if n > 0 {
        lemma_plain_prefix(s, n - 1);
        assert(s.subrange(0, n).drop_last() =~= s.subrange(0, n - 1));
        assert(s.subrange(0, n).last() == s[n - 1]);
    }
}

/// Two texts without braces one after the other hold no brace.
pub proof fn lemma_plain_concat(a: Seq<char>, b: Seq<char>)
    requires
        plain(a),
        plain(b),
    ensures
        plain(a + b),
{
}

/// Where a text never closes a brace early and a second text does not
/// either, read after the first, the two one after the other never close
/// a brace early.
pub proof fn lemma_stays_open_concat(a: Seq<char>, b: Seq<char>, base: int)
    requires
        stays_open(a, base),
        stays_open(b, base + depth(a)),
    ensures
        stays_open(a + b, base),
{
    assert forall|n: int| 0 <= n <= (a + b).len() implies base + depth(#[trigger] (a + b).subrange(0, n)) >= 0 by {
        if n <= a.len() {
            assert((a + b).subrange(0, n) =~= a.subrange(0, n));
        } else {
            assert((a + b).subrange(0, n) =~= a + b.subrange(0, n - a.len()));
            lemma_depth_concat(a, b.subrange(0, n - a.len()));
        }
    }
}

/// A text that, read from the start, never has fewer than no open braces
/// never closes a brace early.
pub proof fn lemma_never_closes_early(s: Seq<char>)
    requires
        stays_open(s, 0),
    ensures
        never_closes_early(s),
{
    assert forall|n: int| 0 <= n <= s.len() implies count_char(#[trigger] s.subrange(0, n), '}') <= count_char(
        s.subrange(0, n),
        '{',
    ) by {
        assert(depth(s.subrange(0, n)) >= 0);
    }
}

/// Whether `s` holds an opening brace at the position `open` and nowhere
/// else, and a closing brace at the position `close` and nowhere else. A
/// position outside the text stands for no such brace.
pub open spec fn braces_at(s: Seq<char>, open: int, close: int) -> bool {
    forall|k: int| 0 <= k < s.len() ==> ((#[trigger] s[k]) == '{' <==> k == open) && (s[k] == '}' <==> k == close)
}

/// The braces of the beginnings of a text with at most one opening and
/// one closing brace.
pub proof fn lemma_braces_at_prefix(s: Seq<char>, open: int, close: int, n: int)
    requires
        braces_at(s, open, close),
        0 <= n <= s.len(),
    ensures
        count_char(s.subrange(0, n), '{') == if 0 <= open < n {
            1nat
        } else {
            0nat
        },
        count_char(s.subrange(0, n), '}') == if 0 <= close < n {
            1nat
        } else {
            0nat
        },
    decreases n,
{
    if n > 0 {
        lemma_braces_at_prefix(s, open, close, n - 1);
        assert(s.subrange(0, n).drop_last() =~= s.subrange(0, n - 1));
        assert(s.subrange(0, n).last() == s[n - 1]);
    }
}

/// A text with one opening brace and no closing one opens one brace and
/// never closes one early.
pub proof fn lemma_opens_one(s: Seq<char>, open: int, base: int)
    requires
        braces_at(s, open, -1),
        0 <= open < s.len(),
        base >= 0,
    ensures
        depth(s) == 1,
        stays_open(s, base),
{
    lemma_braces_at_prefix(s, open, -1, s.len() as int);
    assert(s.subrange(0, s.len() as int) =~= s);
    assert forall|n: int| 0 <= n <= s.len() implies base + depth(#[trigger] s.subrange(0, n)) >= 0 by {
        lemma_braces_at_prefix(s, open, -1, n);
    }
}

/// A text with one closing brace and no opening one closes one brace,
/// and none early where one is open.
pub proof fn lemma_closes_one(s: Seq<char>, close: int, base: int)
    requires
        braces_at(s, -1, close),
        0 <= close < s.len(),
        base >= 1,
    ensures
        depth(s) == -1,
        stays_open(s, base),
{
    lemma_braces_at_prefix(s, -1, close, s.len() as int);
    assert(s.subrange(0, s.len() as int) =~= s);
    assert forall|n: int| 0 <= n <= s.len() implies base + depth(#[trigger] s.subrange(0, n)) >= 0 by {
        lemma_braces_at_prefix(s, -1, close, n);
    }
}

/// A text with one opening brace and a closing brace after it leaves the
/// open braces as they are and never closes one early.
pub proof fn lemma_opens_and_closes(s: Seq<char>, open: int, close: int, base: int)
    requires
        braces_at(s, open, close),
        0 <= open < close < s.len(),
        base >= 0,
    ensures
        depth(s) == 0,
        stays_open(s, base),
{
    lemma_braces_at_prefix(s, open, close, s.len() as int);
    assert(s.subrange(0, s.len() as int) =~= s);
    assert forall|n: int| 0 <= n <= s.len() implies base + depth(#[trigger] s.subrange(0, n)) >= 0 by {
        lemma_braces_at_prefix(s, open, close, n);
    }
}

} // verus!
