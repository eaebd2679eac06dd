//! Splitting text into lines, fields and directive segments, with exact
//! functional models: whitespace tokenization and single-character splits.

use crate::numtext::{chars_of, is_ws_char, ws_char};
use vstd::prelude::*;
use vstd::string::StrSliceExecFns;

verus! {

// ---------------------------------------------------------------------------
// Whitespace tokenization.
// ---------------------------------------------------------------------------

/// Length of the leading run of non-whitespace characters.
pub open spec fn token_run(s: Seq<char>) -> nat
    decreases s.len(),
{
    if s.len() == 0 || is_ws_char(s[0]) {
        0
    } else {
        1 + token_run(s.drop_first())
    }
}

pub proof fn lemma_token_run_le(s: Seq<char>)
    ensures
        token_run(s) <= s.len(),
    decreases s.len(),
{
    if s.len() > 0 && !is_ws_char(s[0]) {
        lemma_token_run_le(s.drop_first());
    }
}

/// The run length is where the first whitespace character stands (or the
/// end of the text).
pub proof fn lemma_token_run_at(s: Seq<char>, k: int)
    requires
        0 <= k <= s.len(),
        forall|m: int| 0 <= m < k ==> !is_ws_char(s[m]),
        k == s.len() || is_ws_char(s[k]),
    ensures
        token_run(s) == k,
    decreases s.len(),
{
    if k == 0 {
    } else {
        assert(!is_ws_char(s[0]));
        let t = s.drop_first();
        assert forall|m: int| 0 <= m < k - 1 implies !is_ws_char(#[trigger] t[m]) by {
            assert(t[m] == s[m + 1]);
        }
        if k < s.len() {
            assert(t[k - 1] == s[k]);
        }
        lemma_token_run_at(t, k - 1);
    }
}

/// The fields of a line: maximal runs of non-whitespace characters, in order.
pub open spec fn tokens_of(s: Seq<char>) -> Seq<Seq<char>>
    decreases s.len(),
    via tokens_of_decreases
{
    if s.len() == 0 {
        Seq::empty()
    } else if is_ws_char(s[0]) {
        tokens_of(s.drop_first())
    } else {
        seq![s.take(token_run(s) as int)] + tokens_of(s.skip(token_run(s) as int))
    }
}

#[via_fn]
proof fn tokens_of_decreases(s: Seq<char>) {
    if s.len() > 0 && !is_ws_char(s[0]) {
        lemma_token_run_le(s);
    }
}

/// Splits a line into its whitespace-separated fields.
pub fn tokenize(line: &Vec<char>) -> (r: Vec<Vec<char>>)
    ensures
        r.deep_view() == tokens_of(line@),
{
    let mut r: Vec<Vec<char>> = Vec::new();
    let mut i: usize = 0;
    proof {
        assert(line@.skip(0) =~= line@);
        assert(r.deep_view() =~= Seq::<Seq<char>>::empty());
        assert(Seq::<Seq<char>>::empty() + tokens_of(line@) =~= tokens_of(line@));
    }
    while i < line.len()
        invariant
            i <= line.len(),
            tokens_of(line@) == r.deep_view() + tokens_of(line@.skip(i as int)),
        decreases line.len() - i,
    {
        if ws_char(line[i]) {
            proof {
                let suf = line@.skip(i as int);
                assert(suf[0] == line@[i as int]);
                assert(suf.drop_first() =~= line@.skip(i as int + 1));
            }
            i = i + 1;
        } else {
            let start: usize = i;
            let mut tok: Vec<char> = Vec::new();
            loop
                invariant_except_break
                    start <= i <= line.len(),
                    forall|m: int| start <= m < i ==> !is_ws_char(line@[m]),
                    tok@ == line@.subrange(start as int, i as int),
                ensures
                    start <= i <= line.len(),
                    forall|m: int| start <= m < i ==> !is_ws_char(line@[m]),
                    tok@ == line@.subrange(start as int, i as int),
                    i == line.len() || is_ws_char(line@[i as int]),
                decreases line.len() - i,
            {
                if i == line.len() || ws_char(line[i]) {
                    break;
                }
                tok.push(line[i]);
                i = i + 1;
                proof {
                    assert(tok@ =~= line@.subrange(start as int, i as int));
                }
            }
            proof {
                let suf = line@.skip(start as int);
                let k = i - start;
                assert forall|m: int| 0 <= m < k implies !is_ws_char(#[trigger] suf[m]) by {
                    assert(suf[m] == line@[start + m]);
                }
                if i < line.len() {
                    assert(suf[k] == line@[i as int]);
                }
                lemma_token_run_at(suf, k);
                assert(suf.take(k) =~= line@.subrange(start as int, i as int));
                assert(suf.skip(k) =~= line@.skip(i as int));
                assert(tokens_of(suf) == seq![tok@] + tokens_of(line@.skip(i as int)));
            }
            let ghost old_deep = r.deep_view();
            let ghost tokval = tok;
            let ghost tokv = tok@;
            r.push(tok);
            proof {
                assert(tokval.deep_view() =~= tokv);
                assert(r.deep_view() =~= old_deep.push(tokv));
                assert(old_deep + (seq![tokv] + tokens_of(line@.skip(i as int))) =~= old_deep.push(
                    tokv,
                ) + tokens_of(line@.skip(i as int)));
            }
        }
    }
    proof {
        assert(line@.skip(i as int) =~= Seq::<char>::empty());
        assert(tokens_of(Seq::<char>::empty()) =~= Seq::<Seq<char>>::empty());
        assert(r.deep_view() =~= r.deep_view() + Seq::<Seq<char>>::empty());
    }
    r
}

// ---------------------------------------------------------------------------
// Splitting on one separator character (directive `=` splits, line splits).
// ---------------------------------------------------------------------------

/// Length of the leading run of characters other than `c`.
pub open spec fn sep_run(s: Seq<char>, c: char) -> nat
    decreases s.len(),
{
    if s.len() == 0 || s[0] == c {
        0
    } else {
        1 + sep_run(s.drop_first(), c)
    }
}

pub proof fn lemma_sep_run_le(s: Seq<char>, c: char)
    ensures
        sep_run(s, c) <= s.len(),
    decreases s.len(),
{
    if s.len() > 0 && s[0] != c {
        lemma_sep_run_le(s.drop_first(), c);
    }
}

pub proof fn lemma_sep_run_at(s: Seq<char>, c: char, k: int)
    requires
        0 <= k <= s.len(),
        forall|m: int| 0 <= m < k ==> s[m] != c,
        k == s.len() || s[k] == c,
    ensures
        sep_run(s, c) == k,
    decreases s.len(),
{
    if k == 0 {
    } else {
        assert(s[0] != c);
        let t = s.drop_first();
        assert forall|m: int| 0 <= m < k - 1 implies #[trigger] t[m] != c by {
            assert(t[m] == s[m + 1]);
        }
        if k < s.len() {
            assert(t[k - 1] == s[k]);
        }
        lemma_sep_run_at(t, c, k - 1);
    }
}

/// The segments of `s` split on the character `c`: always at least one
/// segment, and empty segments are kept.
pub open spec fn split_on(s: Seq<char>, c: char) -> Seq<Seq<char>>
    decreases s.len(),
    via split_on_decreases
{
    let j = sep_run(s, c);
    if j == s.len() {
        seq![s]
    } else {
        seq![s.take(j as int)] + split_on(s.skip(j as int + 1), c)
    }
}

#[via_fn]
proof fn split_on_decreases(s: Seq<char>, c: char) {
    lemma_sep_run_le(s, c);
}

/// Splits a character vector on a separator character, keeping empty
/// segments.
pub fn split_chars(v: &Vec<char>, c: char) -> (r: Vec<Vec<char>>)
    ensures
        r.deep_view() == split_on(v@, c),
{
    let mut r: Vec<Vec<char>> = Vec::new();
    let mut cur: Vec<char> = Vec::new();
    let mut start: usize = 0;
    let mut i: usize = 0;
    proof {
        assert(v@.skip(0) =~= v@);
        assert(cur@ =~= v@.subrange(0, 0));
        assert(r.deep_view() =~= Seq::<Seq<char>>::empty());
        assert(Seq::<Seq<char>>::empty() + split_on(v@, c) =~= split_on(v@, c));
    }
    while i < v.len()
        invariant
            start <= i <= v.len(),
            forall|m: int| start <= m < i ==> v@[m] != c,
            cur@ == v@.subrange(start as int, i as int),
            split_on(v@, c) == r.deep_view() + split_on(v@.skip(start as int), c),
        decreases v.len() - i,
    {
        if v[i] == c {
            proof {
                let suf = v@.skip(start as int);
                let k = i - start;
                assert forall|m: int| 0 <= m < k implies #[trigger] suf[m] != c by {
                    assert(suf[m] == v@[start + m]);
                }
                assert(suf[k] == v@[i as int]);
                lemma_sep_run_at(suf, c, k);
                assert(suf.take(k) =~= cur@);
                assert(suf.skip(k + 1) =~= v@.skip(i as int + 1));
                assert(split_on(suf, c) == seq![cur@] + split_on(v@.skip(i as int + 1), c));
            }
            let ghost old_deep = r.deep_view();
            let ghost curval = cur;
            let ghost curv = cur@;
            r.push(cur);
            proof {
                assert(curval.deep_view() =~= curv);
                assert(r.deep_view() =~= old_deep.push(curv));
                assert(old_deep + (seq![curv] + split_on(v@.skip(i as int + 1), c)) =~= old_deep.push(
                    curv,
                ) + split_on(v@.skip(i as int + 1), c));
            }
            cur = Vec::new();
            i = i + 1;
            start = i;
            proof {
                assert(cur@ =~= v@.subrange(start as int, i as int));
            }
        } else {
            cur.push(v[i]);
            i = i + 1;
            proof {
                assert(cur@ =~= v@.subrange(start as int, i as int));
            }
        }
    }
    proof {
        let suf = v@.skip(start as int);
        let k = i - start;
        assert forall|m: int| 0 <= m < k implies #[trigger] suf[m] != c by {
            assert(suf[m] == v@[start + m]);
        }
        lemma_sep_run_at(suf, c, k);
        assert(suf.take(k) =~= cur@);
        assert(suf =~= cur@);
        assert(split_on(suf, c) == seq![cur@]);
    }
    let ghost old_deep = r.deep_view();
    let ghost curval = cur;
    let ghost curv = cur@;
    r.push(cur);
    proof {
        assert(curval.deep_view() =~= curv);
        assert(r.deep_view() =~= old_deep.push(curv));
        assert(old_deep + seq![curv] =~= old_deep.push(curv));
    }
    r
}

/// Splits text into lines on `'\n'`, as a vector of strings.
pub fn split_text_lines(text: &str) -> (r: Vec<String>)
    ensures
        r.deep_view() == split_on(text@, '\n'),
{
    let v = chars_of(text);
    let parts = split_chars(&v, '\n');
    let mut r: Vec<String> = Vec::new();
    let mut i: usize = 0;
    proof {
        assert(r.deep_view() =~= parts.deep_view().take(0));
    }
    while i < parts.len()
        invariant
            i <= parts.len(),
            r.deep_view() == parts.deep_view().take(i as int),
        decreases parts.len() - i,
    {
        let part = &parts[i];
        let mut s = String::new();
        let mut j: usize = 0;
        while j < part.len()
            invariant
                j <= part.len(),
                s@ == part@.take(j as int),
            decreases part.len() - j,
        {
            s.push(part[j]);
            j = j + 1;
            proof {
                assert(part@.take(j - 1).push(part@[j - 1]) =~= part@.take(j as int));
            }
        }
        proof {
            assert(part@.take(part@.len() as int) =~= part@);
        }
        let ghost old_deep = r.deep_view();
        let ghost sval = s;
        let ghost sv = s@;
        r.push(s);
        i = i + 1;
        proof {
            assert(sval.deep_view() == sv);
            assert(r.deep_view() =~= old_deep.push(sv));
            assert(parts.deep_view()[i - 1] == parts@[i - 1]@);
            assert(sv == parts.deep_view()[i - 1]);
            assert(parts.deep_view().take(i - 1).push(parts.deep_view()[i - 1]) =~= parts.deep_view(
            ).take(i as int));
        }
    }
    proof {
        assert(parts.deep_view().take(parts.deep_view().len() as int) =~= parts.deep_view());
        assert(parts@.len() == parts.deep_view().len());
    }
    r
}

/// Whether `s` holds the character `c` anywhere.
pub open spec fn has_char(s: Seq<char>, c: char) -> bool {
    exists|i: int| 0 <= i < s.len() && s[i] == c
}

pub fn contains_char(v: &Vec<char>, c: char) -> (r: bool)
    ensures
        r == has_char(v@, c),
{
    let mut i: usize = 0;
    while i < v.len()
        invariant
            i <= v.len(),
            forall|m: int| 0 <= m < i ==> v@[m] != c,
        decreases v.len() - i,
    {
        if v[i] == c {
            return true;
        }
        i = i + 1;
    }
    false
}

/// Whether the characters of `v` are exactly those of `s`.
pub fn eq_str(v: &Vec<char>, s: &str) -> (r: bool)
    ensures
        r == (v@ == s@),
{
    let n: usize = s.unicode_len();
    if v.len() != n {
        proof {
            assert(v@.len() != s@.len());
        }
        return false;
    }
    let mut i: usize = 0;
    while i < n
        invariant
            i <= n,
            n == s@.len(),
            v@.len() == n,
            forall|m: int| 0 <= m < i ==> v@[m] == s@[m],
        decreases n - i,
    {
        if v[i] != s.get_char(i) {
            return false;
        }
        i = i + 1;
    }
    proof {
        assert(v@ =~= s@);
    }
    true
}

} // verus!
