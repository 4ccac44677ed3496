//! Text handling for the search engine: Unicode-aware normalization
//! (lowercasing, stripping non-alphanumeric characters) and splitting into
//! whitespace-delimited words.
//!
//! Unicode character classes and case mapping come from the standard library;
//! each such call sits behind one trusted wrapper whose result is named by an
//! uninterpreted spec function. Everything built on top is verified.

use vstd::prelude::*;
use vstd::string::StrSliceExecFns;
use vstd::string::StringExecFns;

verus! {

/// What `str::to_lowercase` returns for a string: a function of its
/// characters alone.
pub uninterp spec fn lower_of(s: Seq<char>) -> Seq<char>;

/// Relies on str::to_lowercase: Unicode lowercasing, determined by the input
/// characters alone.
#[verifier::external_body]
fn lowercase(s: &str) -> (r: String)
    ensures
        r@ == lower_of(s@),
{
    s.to_lowercase()
}

/// What `char::is_alphanumeric` returns for a character.
pub uninterp spec fn is_alnum(c: char) -> bool;

/// Relies on char::is_alphanumeric: a fixed Unicode character class.
#[verifier::external_body]
fn alnum_char(c: char) -> (r: bool)
    ensures
        r == is_alnum(c),
{
    c.is_alphanumeric()
}

/// What `char::is_whitespace` returns for a character.
pub uninterp spec fn is_space(c: char) -> bool;

/// Relies on char::is_whitespace: a fixed Unicode character class.
#[verifier::external_body]
fn space_char(c: char) -> (r: bool)
    ensures
        r == is_space(c),
{
    c.is_whitespace()
}

/// Relies on String::push: appends exactly the given character.
#[verifier::external_body]
fn push_char(s: &mut String, c: char)
    ensures
        final(s)@ == old(s)@.push(c),
{
    s.push(c);
}

/// The alphanumeric characters of `s`, in order.
pub open spec fn keep_alnum(s: Seq<char>) -> Seq<char> {
    s.filter(|c: char| is_alnum(c))
}

/// A normalized token: lowercased, with non-alphanumeric characters removed.
pub open spec fn normalize_spec(w: Seq<char>) -> Seq<char> {
    keep_alnum(lower_of(w))
}

/// Keeping alphanumeric characters commutes with appending one character.
pub proof fn lemma_keep_alnum_push(s: Seq<char>, c: char)
    ensures
        keep_alnum(s.push(c)) == if is_alnum(c) {
            keep_alnum(s).push(c)
        } else {
            keep_alnum(s)
        },
{
    reveal(Seq::filter);
    assert(s.push(c).drop_last() =~= s);
}

/// Normalize one word: lowercase it, then strip every character that is not
/// alphanumeric. The result may be empty.
pub fn prepare_word(word: &str) -> (r: String)
    ensures
        r@ == normalize_spec(word@),
{
    let low = lowercase(word);
    let n = low.as_str().unicode_len();
    let mut r = String::new();
    let mut i: usize = 0;
    while i < n
        invariant
            n == low@.len(),
            i <= n,
            r@ == keep_alnum(low@.take(i as int)),
        decreases n - i,
    {
        let c = low.as_str().get_char(i);
        proof {
            assert(low@.take(i + 1) =~= low@.take(i as int).push(low@[i as int]));
            lemma_keep_alnum_push(low@.take(i as int), low@[i as int]);
        }
        if alnum_char(c) {
            push_char(&mut r, c);
        }
        i = i + 1;
    }
    proof {
        assert(low@.take(n as int) =~= low@);
    }
    r
}

/// The tokenizer state after reading some characters: the completed words so
/// far, and the still-open run of non-whitespace characters.
pub open spec fn tok_step(st: (Seq<Seq<char>>, Seq<char>), c: char) -> (Seq<Seq<char>>, Seq<char>) {
    if is_space(c) {
        if st.1.len() > 0 {
            (st.0.push(st.1), Seq::empty())
        } else {
            st
        }
    } else {
        (st.0, st.1.push(c))
    }
}

/// The tokenizer state after reading all of `s`.
pub open spec fn tok_state(s: Seq<char>) -> (Seq<Seq<char>>, Seq<char>)
    decreases s.len(),
{
    if s.len() == 0 {
        (Seq::<Seq<char>>::empty(), Seq::<char>::empty())
    } else {
        tok_step(tok_state(s.drop_last()), s.last())
    }
}

/// The words of `s`: its maximal runs of non-whitespace characters, in order.
pub open spec fn words_of(s: Seq<char>) -> Seq<Seq<char>> {
    let st = tok_state(s);
    if st.1.len() > 0 {
        st.0.push(st.1)
    } else {
        st.0
    }
}

/// The views of a sequence of owned strings.
pub open spec fn views_of(ws: Seq<String>) -> Seq<Seq<char>> {
    ws.map_values(|w: String| w@)
}

/// Taking views commutes with appending one string.
pub proof fn lemma_views_of_push(ws: Seq<String>, w: String)
    ensures
        views_of(ws.push(w)) == views_of(ws).push(w@),
{
    assert(views_of(ws.push(w)) =~= views_of(ws).push(w@));
}

/// Split a string into its whitespace-delimited words.
pub fn split_words(s: &str) -> (r: Vec<String>)
    ensures
        views_of(r@) == words_of(s@),
{
    let n = s.unicode_len();
    let mut out: Vec<String> = Vec::new();
    let mut cur = String::new();
    let mut i: usize = 0;
    while i < n
        invariant
            n == s@.len(),
            i <= n,
            views_of(out@) == tok_state(s@.take(i as int)).0,
            cur@ == tok_state(s@.take(i as int)).1,
        decreases n - i,
    {
        let c = s.get_char(i);
        proof {
            assert(s@.take(i + 1) =~= s@.take(i as int).push(s@[i as int]));
            assert(s@.take(i + 1).drop_last() =~= s@.take(i as int));
            assert(s@.take(i + 1).last() == s@[i as int]);
            assert(tok_state(s@.take(i + 1)) == tok_step(
                tok_state(s@.take(i as int)),
                s@[i as int],
            ));
        }
        if space_char(c) {
            if !cur.as_str().is_empty() {
                proof {
                    lemma_views_of_push(out@, cur);
                }
                out.push(cur);
                cur = String::new();
            }
        } else {
            push_char(&mut cur, c);
        }
        i = i + 1;
    }
    proof {
        assert(s@.take(n as int) =~= s@);
    }
    if !cur.as_str().is_empty() {
        proof {
            lemma_views_of_push(out@, cur);
        }
        out.push(cur);
    }
    out
}

/// A word stream after normalization, with words that normalize to nothing
/// dropped.
pub open spec fn norm_prefix(ws: Seq<Seq<char>>) -> Seq<Seq<char>> {
    ws.map_values(|w: Seq<char>| normalize_spec(w)).filter(|w: Seq<char>| w.len() > 0)
}

/// The normalized token stream of a piece of text: its words, normalized,
/// empties dropped. This is the stream the index counts.
pub open spec fn norm_words(s: Seq<char>) -> Seq<Seq<char>> {
    norm_prefix(words_of(s))
}

/// The normalized stream of one more word extends the stream of the words
/// before it, by nothing if the word normalizes to nothing.
pub proof fn lemma_norm_prefix_push(ws: Seq<Seq<char>>, w: Seq<char>)
    ensures
        norm_prefix(ws.push(w)) == if normalize_spec(w).len() > 0 {
            norm_prefix(ws).push(normalize_spec(w))
        } else {
            norm_prefix(ws)
        },
{
    reveal(Seq::filter);
    let f = |t: Seq<char>| normalize_spec(t);
    assert(ws.push(w).map_values(f) =~= ws.map_values(f).push(normalize_spec(w)));
    assert(ws.map_values(f).push(normalize_spec(w)).drop_last() =~= ws.map_values(f));
}

/// How often the word `w` occurs in the token stream `ws`.
pub open spec fn count_word(ws: Seq<Seq<char>>, w: Seq<char>) -> nat {
    ws.filter(|t: Seq<char>| t == w).len()
}

/// Appending a token raises exactly the count of that token, by one.
pub proof fn lemma_count_word_push(ws: Seq<Seq<char>>, t: Seq<char>, w: Seq<char>)
    ensures
        count_word(ws.push(t), w) == if t == w {
            count_word(ws, w) + 1
        } else {
            count_word(ws, w)
        },
{
    reveal(Seq::filter);
    assert(ws.push(t).drop_last() =~= ws);
}

/// Whether `s` holds a tab character.
pub open spec fn has_tab(s: Seq<char>) -> bool {
    exists|i: int| 0 <= i < s.len() && s[i] == '\t'
}

/// Find the first tab character of `s`, the delimiter between a record's
/// title and its description.
pub fn find_tab(s: &str) -> (r: Option<usize>)
    ensures
        match r {
            Some(i) => i < s@.len() && s@[i as int] == '\t' && forall|k: int|
                0 <= k < i ==> s@[k] != '\t',
            None => !has_tab(s@),
        },
{
    let n = s.unicode_len();
    let mut i: usize = 0;
    while i < n
        invariant
            n == s@.len(),
            i <= n,
            forall|k: int| 0 <= k < i ==> s@[k] != '\t',
        decreases n - i,
    {
        let c = s.get_char(i);
        if c == '\t' {
            return Some(i);
        }
        i = i + 1;
    }
    None
}

} // verus!
