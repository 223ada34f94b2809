//! Characters and whitespace-separated tokens of attribute text.

use vstd::prelude::*;
use vstd::std_specs::iter::IteratorSpec;

verus! {

/// Unicode `White_Space`, the set that `char::is_whitespace` tests.
pub open spec fn is_ws(c: char) -> bool {
    ('\u{9}' <= c && c <= '\u{d}') || c == ' ' || c == '\u{85}' || c == '\u{a0}' || c == '\u{1680}'
        || ('\u{2000}' <= c && c <= '\u{200a}') || c == '\u{2028}' || c == '\u{2029}'
        || c == '\u{202f}' || c == '\u{205f}' || c == '\u{3000}'
}

/// Length of the run of non-whitespace characters that starts `s`.
pub open spec fn word_len(s: Seq<char>) -> nat
    decreases s.len(),
{
    if s.len() == 0 || is_ws(s[0]) {
        0
    } else {
        1 + word_len(s.drop_first())
    }
}

/// The maximal runs of non-whitespace characters of `s`, in order.
pub open spec fn ws_tokens(s: Seq<char>) -> Seq<Seq<char>>
    decreases s.len() via ws_tokens_decreases
{
    if s.len() == 0 {
        seq![]
    } else if is_ws(s[0]) {
        ws_tokens(s.drop_first())
    } else {
        let n = word_len(s);
        seq![s.take(n as int)] + ws_tokens(s.skip(n as int))
    }
}

#[via_fn]
proof fn ws_tokens_decreases(s: Seq<char>) {
    if s.len() > 0 && !is_ws(s[0]) {
        lemma_word_len_bound(s);
        assert(word_len(s) >= 1);
    }
}

/// The views of a vector of strings.
pub open spec fn views(v: Seq<String>) -> Seq<Seq<char>> {
    v.map_values(|t: String| t@)
}

pub fn is_whitespace(c: char) -> (r: bool)
    ensures
        r == is_ws(c),
{
    ('\u{9}' <= c && c <= '\u{d}') || c == ' ' || c == '\u{85}' || c == '\u{a0}' || c == '\u{1680}'
        || ('\u{2000}' <= c && c <= '\u{200a}') || c == '\u{2028}' || c == '\u{2029}'
        || c == '\u{202f}' || c == '\u{205f}' || c == '\u{3000}'
}

/// The characters of `s`, in order.
pub fn chars_of(s: &str) -> (r: Vec<char>)
    ensures
        r@ == s@,
{
    let mut it = s.chars();
    let mut r: Vec<char> = Vec::new();
    loop
        invariant
            r@ + it.remaining() == s@,
        decreases s@.len() - r@.len(),
    {
        match it.next() {
            Some(c) => {
                r.push(c);
            },
            None => {
                return r;
            },
        }
    }
}

proof fn lemma_word_len_bound(s: Seq<char>)
    ensures
        word_len(s) <= s.len(),
        forall|k: int| 0 <= k < word_len(s) ==> !is_ws(#[trigger] s[k]),
        word_len(s) < s.len() ==> is_ws(s[word_len(s) as int]),
    decreases s.len(),
{
    if s.len() > 0 && !is_ws(s[0]) {
        lemma_word_len_bound(s.drop_first());
        assert forall|k: int| 0 <= k < word_len(s) implies !is_ws(#[trigger] s[k]) by {
            if k > 0 {
                assert(s[k] == s.drop_first()[k - 1]);
            }
        }
    }
}

/// A run of non-whitespace characters followed by whitespace or the end has
/// exactly that length.
pub proof fn lemma_word_len_exact(s: Seq<char>, n: int)
    requires
        0 <= n <= s.len(),
        forall|k: int| 0 <= k < n ==> !is_ws(#[trigger] s[k]),
        n < s.len() ==> is_ws(s[n]),
    ensures
        word_len(s) == n,
    decreases n,
{
    if n > 0 {
        assert forall|k: int| 0 <= k < n - 1 implies !is_ws(#[trigger] s.drop_first()[k]) by {
            assert(s.drop_first()[k] == s[k + 1]);
        }
        if n - 1 < s.drop_first().len() {
            assert(s.drop_first()[n - 1] == s[n]);
        }
        lemma_word_len_exact(s.drop_first(), n - 1);
    }
}

/// Splits `s` at whitespace, as `str::split_whitespace` does.
pub fn tokenize(s: &str) -> (r: Vec<String>)
    ensures
        views(r@) == ws_tokens(s@),
{
    let cs = chars_of(s);
    let n = cs.len();
    let mut r: Vec<String> = Vec::new();
    let mut i: usize = 0;
    assert(s@.skip(0) == s@);
    while i < n
        invariant
            cs@ == s@,
            n == cs@.len(),
            i <= n,
            views(r@) + ws_tokens(s@.skip(i as int)) == ws_tokens(s@),
        decreases n - i,
    {
        let ghost rest = s@.skip(i as int);
        if is_whitespace(cs[i]) {
            assert(rest.drop_first() == s@.skip(i + 1));
            i = i + 1;
        } else {
            let mut j: usize = i + 1;
            while j < n && !is_whitespace(cs[j])
                invariant
                    cs@ == s@,
                    n == cs@.len(),
                    i < j <= n,
                    forall|k: int| i <= k < j ==> !is_ws(#[trigger] s@[k]),
                decreases n - j,
            {
                j = j + 1;
            }
            proof {
                assert forall|k: int| 0 <= k < j - i implies !is_ws(#[trigger] rest[k]) by {
                    assert(rest[k] == s@[i + k]);
                }
                if j < n {
                    assert(rest[j - i] == s@[j as int]);
                }
                lemma_word_len_exact(rest, j - i);
                assert(rest.take(j - i) == s@.subrange(i as int, j as int));
                assert(rest.skip(j - i) == s@.skip(j as int));
            }
            let t = s.substring_char(i, j).to_owned();
            let ghost before = r@;
            r.push(t);
            proof {
                assert(views(r@) == views(before) + seq![t@]);
            }
            i = j;
        }
    }
    proof {
        assert(s@.skip(n as int) == Seq::<char>::empty());
        assert(views(r@) + seq![] == views(r@));
    }
    r
}

/// `ts` written out with one space between consecutive tokens.
pub open spec fn join_space(ts: Seq<Seq<char>>) -> Seq<char>
    decreases ts.len(),
{
    if ts.len() == 0 {
        seq![]
    } else if ts.len() == 1 {
        ts[0]
    } else {
        ts[0] + seq![' '] + join_space(ts.drop_first())
    }
}

/// A non-empty text without whitespace.
pub open spec fn is_word(t: Seq<char>) -> bool {
    t.len() > 0 && forall|i: int| 0 <= i < t.len() ==> !is_ws(#[trigger] t[i])
}

/// Words joined by single spaces split back into the same words.
pub proof fn lemma_split_join_space(ts: Seq<Seq<char>>)
    requires
        forall|i: int| 0 <= i < ts.len() ==> is_word(#[trigger] ts[i]),
    ensures
        ws_tokens(join_space(ts)) == ts,
    decreases ts.len(),
{
    if ts.len() == 0 {
        assert(ws_tokens(seq![]) == Seq::<Seq<char>>::empty());
    } else {
        let t0 = ts[0];
        assert(is_word(t0));
        let rest = if ts.len() == 1 {
            Seq::<char>::empty()
        } else {
            seq![' '] + join_space(ts.drop_first())
        };
        let s = join_space(ts);
        assert(s == t0 + rest);
        assert forall|k: int| 0 <= k < t0.len() implies !is_ws(#[trigger] s[k]) by {
            assert(s[k] == t0[k]);
        }
        if t0.len() < s.len() {
            assert(s[t0.len() as int] == rest[0]);
        }
        lemma_word_len_exact(s, t0.len() as int);
        assert(s.take(t0.len() as int) == t0);
        assert(s.skip(t0.len() as int) == rest);
        assert(s[0] == t0[0]);
        if ts.len() == 1 {
            assert(ws_tokens(rest) == Seq::<Seq<char>>::empty());
            assert(ws_tokens(s) == seq![t0] + ws_tokens(rest));
            assert(ts == seq![t0]);
        } else {
            assert forall|i: int| 0 <= i < ts.drop_first().len() implies is_word(
                #[trigger] ts.drop_first()[i],
            ) by {
                assert(ts.drop_first()[i] == ts[i + 1]);
            }
            lemma_split_join_space(ts.drop_first());
            assert(rest.drop_first() == join_space(ts.drop_first()));
            assert(ws_tokens(rest) == ws_tokens(join_space(ts.drop_first())));
            assert(ws_tokens(s) == seq![t0] + ws_tokens(rest));
            assert(ts == seq![t0] + ts.drop_first());
        }
    }
}

} // verus!
