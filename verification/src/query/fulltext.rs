//! Full-text search: tokens and postings, an inverted index with AND / OR
//! search, and the tokenizer (splitting on white space, lower-casing,
//! trimming, stop words and suffix stemming).

use vstd::prelude::*;
use crate::collections::StrMap;
use crate::util::{chars_of, string_from_chars, str_eq, lowercase, to_lowercase};
use crate::text::{white_space, is_white_space};

verus! {

/// Whether Unicode counts a character as alphabetic or numeric, as
/// `char::is_alphanumeric` answers.
pub uninterp spec fn alphanumeric(c: char) -> bool;

/// `char::is_alphanumeric`: whether the character has the Alphabetic
/// property or a numeric general category. The contract names the answer.
#[verifier::external_body]
fn is_alphanumeric(c: char) -> (b: bool)
    ensures
        b == alphanumeric(c),
{
    c.is_alphanumeric()
}

/// The words of a text: its maximal runs of characters that are not white
/// space, in order (`str::split_whitespace`).
pub open spec fn words(s: Seq<char>) -> Seq<Seq<char>>
    decreases s.len(),
{
    if s.len() == 0 {
        Seq::empty()
    } else if white_space(s.last()) {
        words(s.drop_last())
    } else if s.len() >= 2 && !white_space(s[s.len() - 2]) {
        let w = words(s.drop_last());
        w.update(w.len() - 1, w.last().push(s.last()))
    } else {
        words(s.drop_last()).push(seq![s.last()])
    }
}

/// A text that ends with a character that is not white space has a word,
/// and its last word is nonempty.
proof fn lemma_words_nonempty(s: Seq<char>)
    requires
        s.len() > 0,
        !white_space(s.last()),
    ensures
        words(s).len() > 0,
    decreases s.len(),
{
    if s.len() >= 2 && !white_space(s[s.len() - 2]) {
        assert(s.drop_last().last() == s[s.len() - 2]);
        lemma_words_nonempty(s.drop_last());
    }
}

/// The characters of `v` as strings, one string per word.
pub open spec fn char_rows(v: Seq<Vec<char>>) -> Seq<Seq<char>> {
    v.map_values(|w: Vec<char>| w@)
}

/// Splits a text into its words.
pub fn split_whitespace(text: &str) -> (r: Vec<Vec<char>>)
    ensures
        char_rows(r@) == words(text@),
{
    let s = chars_of(text);
    let mut done: Vec<Vec<char>> = Vec::new();
    let mut cur: Vec<char> = Vec::new();
    let mut i: usize = 0;
    while i < s.len()
        invariant
            s@ == text@,
            i <= s@.len(),
            cur@.len() > 0 ==> words(s@.subrange(0, i as int)) == char_rows(done@).push(cur@),
            cur@.len() == 0 ==> words(s@.subrange(0, i as int)) == char_rows(done@),
            cur@.len() > 0 ==> i > 0 && !white_space(s@[i - 1]),
            cur@.len() == 0 ==> i == 0 || white_space(s@[i - 1]),
        decreases s@.len() - i,
    {
        let c = s[i];
        let ghost pre = s@.subrange(0, i as int);
        let ghost next = s@.subrange(0, i + 1);
        proof {
            assert(next.drop_last() =~= pre);
            assert(next.last() == c);
            if i > 0 {
                assert(next[next.len() - 2] == s@[i - 1]);
            }
        }
        if is_white_space(c) {
            if cur.len() > 0 {
                let ghost before = done@;
                let mut w: Vec<char> = Vec::new();
                std::mem::swap(&mut w, &mut cur);
                done.push(w);
                proof {
                    assert(char_rows(done@) =~= char_rows(before).push(done@[before.len() as int]@));
                }
            }
        } else {
            let ghost old_cur = cur@;
            cur.push(c);
            proof {
                if old_cur.len() > 0 {
                    let w = char_rows(done@).push(old_cur);
                    assert(words(pre) == w);
                    assert(words(next) =~= w.update(w.len() - 1, w.last().push(c)));
                    assert(w.update(w.len() - 1, w.last().push(c)) =~= char_rows(done@).push(cur@));
                } else {
                    assert(cur@ =~= seq![c]);
                }
            }
        }
        i += 1;
    }
    if cur.len() > 0 {
        let ghost before = done@;
        done.push(cur);
        proof {
            assert(char_rows(done@) =~= char_rows(before).push(done@[before.len() as int]@));
        }
    }
    proof {
        assert(s@.subrange(0, i as int) =~= s@);
    }
    done
}

/// The text without its leading characters that are not alphanumeric.
pub open spec fn drop_leading(s: Seq<char>) -> Seq<char>
    decreases s.len(),
{
    if s.len() > 0 && !alphanumeric(s[0]) {
        drop_leading(s.drop_first())
    } else {
        s
    }
}

/// The text without its trailing characters that are not alphanumeric.
pub open spec fn drop_trailing(s: Seq<char>) -> Seq<char>
    decreases s.len(),
{
    if s.len() > 0 && !alphanumeric(s.last()) {
        drop_trailing(s.drop_last())
    } else {
        s
    }
}

/// The text trimmed of characters that are not alphanumeric at both ends.
pub open spec fn trim_non_alnum(s: Seq<char>) -> Seq<char> {
    drop_trailing(drop_leading(s))
}

/// Trims characters that are not alphanumeric from both ends.
fn trim_non_alphanumeric(s: &Vec<char>) -> (r: Vec<char>)
    ensures
        r@ == trim_non_alnum(s@),
{
    let n = s.len();
    let mut a: usize = 0;
    proof {
        assert(s@.subrange(0, n as int) =~= s@);
    }
    while a < n && !is_alphanumeric(s[a])
        invariant
            n == s@.len(),
            a <= n,
            drop_leading(s@) == drop_leading(s@.subrange(a as int, n as int)),
        decreases n - a,
    {
        proof {
            assert(s@.subrange(a as int, n as int).drop_first() =~= s@.subrange(a + 1, n as int));
        }
        a += 1;
    }
    proof {
        let t = s@.subrange(a as int, n as int);
        if t.len() > 0 {
            assert(t[0] == s@[a as int]);
        }
        assert(drop_leading(t) == t);
    }
    let mut b: usize = n;
    while b > a && !is_alphanumeric(s[b - 1])
        invariant
            n == s@.len(),
            a <= b <= n,
            drop_trailing(s@.subrange(a as int, n as int)) == drop_trailing(s@.subrange(a as int, b as int)),
        decreases b,
    {
        proof {
            assert(s@.subrange(a as int, b as int).drop_last() =~= s@.subrange(a as int, b - 1));
        }
        b -= 1;
    }
    let mut r: Vec<char> = Vec::new();
    let mut k: usize = a;
    while k < b
        invariant
            n == s@.len(),
            a <= k <= b <= n,
            r@ == s@.subrange(a as int, k as int),
        decreases b - k,
    {
        r.push(s[k]);
        proof {
            assert(r@ =~= s@.subrange(a as int, k + 1));
        }
        k += 1;
    }
    proof {
        let t = s@.subrange(a as int, b as int);
        if t.len() > 0 {
            assert(t.last() == s@[b - 1]);
        }
        assert(drop_trailing(t) == t);
    }
    r
}

/// The number of bytes that UTF-8 takes for a character.
pub open spec fn utf8_width(c: char) -> nat {
    if (c as u32) < 0x80 {
        1
    } else if (c as u32) < 0x800 {
        2
    } else if (c as u32) < 0x10000 {
        3
    } else {
        4
    }
}

/// The number of bytes that UTF-8 takes for a text (`str::len`).
pub open spec fn utf8_length(s: Seq<char>) -> nat
    decreases s.len(),
{
    if s.len() == 0 {
        0
    } else {
        utf8_length(s.drop_last()) + utf8_width(s.last())
    }
}

proof fn lemma_utf8_length_bounds(s: Seq<char>)
    ensures
        utf8_length(s) >= s.len(),
        s.len() == 1 ==> utf8_length(s) == utf8_width(s[0]),
    decreases s.len(),
{
    if s.len() > 0 {
        lemma_utf8_length_bounds(s.drop_last());
    }
}

/// Whether the text of a term is kept as a token: nonempty and longer than
/// one byte.
pub open spec fn kept_term(t: Seq<char>) -> bool {
    t.len() > 0 && utf8_length(t) > 1
}

/// The term that a word gives: lower-cased, then trimmed of characters that
/// are not alphanumeric.
pub open spec fn clean_term(w: Seq<char>) -> Seq<char> {
    trim_non_alnum(lowercase(w))
}

/// The terms that some words give, the terms that are not kept left out.
pub open spec fn token_terms(ws: Seq<Seq<char>>) -> Seq<Seq<char>>
    decreases ws.len(),
{
    if ws.len() == 0 {
        Seq::empty()
    } else if kept_term(clean_term(ws.last())) {
        token_terms(ws.drop_last()).push(clean_term(ws.last()))
    } else {
        token_terms(ws.drop_last())
    }
}

/// The kept terms of the first words are no more than those of all words.
proof fn lemma_token_terms_prefix(ws: Seq<Seq<char>>, k: int)
    requires
        0 <= k <= ws.len(),
    ensures
        token_terms(ws.subrange(0, k)).len() <= token_terms(ws).len(),
    decreases ws.len() - k,
{
    if k < ws.len() {
        lemma_token_terms_prefix(ws, k + 1);
        assert(ws.subrange(0, k + 1).drop_last() =~= ws.subrange(0, k));
    } else {
        assert(ws.subrange(0, k) =~= ws);
    }
}

/// A term with its position among the kept terms of a text.
#[derive(Debug, Clone, PartialEq, Eq, Hash)]
pub struct Token {
    pub term: String,
    pub position: u32,
    pub frequency: u32,
}

impl Token {
    /// A token seen once.
    pub fn new(term: String, position: u32) -> (t: Self)
        ensures
            t.term == term,
            t.position == position,
            t.frequency == 1,
    {
        Token { term, position, frequency: 1 }
    }

    /// A copy of the token.
    pub fn duplicate(&self) -> (t: Token)
        ensures
            t == *self,
    {
        Token { term: self.term.clone(), position: self.position, frequency: self.frequency }
    }
}

/// The terms of some tokens.
pub open spec fn terms_of(tokens: Seq<Token>) -> Seq<Seq<char>> {
    tokens.map_values(|t: Token| t.term@)
}

/// The stop words that are removed from token lists.
pub open spec fn is_stopword(t: Seq<char>) -> bool {
    t == "the"@ || t == "a"@ || t == "an"@ || t == "and"@ || t == "or"@ || t == "but"@ || t == "in"@ || t == "on"@
        || t == "at"@ || t == "to"@ || t == "for"@ || t == "of"@ || t == "is"@ || t == "are"@
}

/// The tokens that are not stop words, in order.
pub open spec fn without_stopwords(tokens: Seq<Token>) -> Seq<Token>
    decreases tokens.len(),
{
    if tokens.len() == 0 {
        Seq::empty()
    } else if is_stopword(tokens.last().term@) {
        without_stopwords(tokens.drop_last())
    } else {
        without_stopwords(tokens.drop_last()).push(tokens.last())
    }
}

/// Stop-word removal keeps no token whose term is one of the, a, an, and,
/// or, but, in, on, at, to, for, of, is, are, and keeps every other token.
pub proof fn lemma_stopwords_removed(tokens: Seq<Token>)
    ensures
        forall|i: int|
            0 <= i < without_stopwords(tokens).len() ==> {
                let t = (#[trigger] without_stopwords(tokens)[i]).term@;
                t != "the"@ && t != "a"@ && t != "an"@ && t != "and"@ && t != "or"@ && t != "but"@ && t != "in"@ && t != "on"@ && t != "at"@ && t != "to"@ && t != "for"@ && t != "of"@ && t != "is"@ && t != "are"@
            },
        forall|i: int|
            0 <= i < tokens.len() ==> ({
                let t = (#[trigger] tokens[i]).term@;
                t != "the"@ && t != "a"@ && t != "an"@ && t != "and"@ && t != "or"@ && t != "but"@ && t != "in"@ && t != "on"@ && t != "at"@ && t != "to"@ && t != "for"@ && t != "of"@ && t != "is"@ && t != "are"@
            }) ==> without_stopwords(tokens).contains(tokens[i]),
    decreases tokens.len(),
{
    if tokens.len() > 0 {
        let rest = tokens.drop_last();
        let last = tokens.last();
        lemma_stopwords_removed(rest);
        let kept = without_stopwords(rest);
        assert forall|i: int| 0 <= i < without_stopwords(tokens).len() implies !is_stopword(
            (#[trigger] without_stopwords(tokens)[i]).term@,
        ) by {
            if !is_stopword(last.term@) {
                if i < kept.len() {
                    assert(without_stopwords(tokens)[i] == kept[i]);
                    assert(!is_stopword(kept[i].term@));
                }
            } else {
                assert(!is_stopword(kept[i].term@));
            }
        }
        assert forall|i: int| 0 <= i < tokens.len() && !is_stopword((#[trigger] tokens[i]).term@) implies without_stopwords(
            tokens,
        ).contains(tokens[i]) by {
            if i < tokens.len() - 1 {
                assert(tokens[i] == rest[i]);
                assert(kept.contains(rest[i]));
                let j = choose|j: int| 0 <= j < kept.len() && kept[j] == rest[i];
                if !is_stopword(last.term@) {
                    assert(without_stopwords(tokens)[j] == kept[j]);
                } else {
                    assert(without_stopwords(tokens)[j] == kept[j]);
                }
            } else {
                assert(without_stopwords(tokens)[kept.len() as int] == last);
            }
        }
    }
}

/// The text with every repetition of `suffix` at its end removed.
pub open spec fn strip_suffixes(s: Seq<char>, suffix: Seq<char>) -> Seq<char>
    decreases s.len(),
{
    if suffix.len() > 0 && s.len() >= suffix.len() && s.subrange(s.len() - suffix.len(), s.len() as int) == suffix {
        strip_suffixes(s.subrange(0, s.len() - suffix.len()), suffix)
    } else {
        s
    }
}

/// The stem of a term: trailing `s`, then `ed`, then `ing` suffixes removed.
pub open spec fn stem(t: Seq<char>) -> Seq<char> {
    strip_suffixes(strip_suffixes(strip_suffixes(t, seq!['s']), seq!['e', 'd']), seq!['i', 'n', 'g'])
}

/// Whether `s[0..end]` ends with `suffix`.
fn ends_with(s: &Vec<char>, end: usize, suffix: &Vec<char>) -> (b: bool)
    requires
        end <= s@.len(),
    ensures
        b == (end >= suffix@.len() && s@.subrange(end - suffix@.len(), end as int) == suffix@),
{
    if end < suffix.len() {
        return false;
    }
    let start = end - suffix.len();
    let mut k: usize = 0;
    while k < suffix.len()
        invariant
            start + suffix@.len() == end <= s@.len(),
            k <= suffix@.len(),
            forall|j: int| 0 <= j < k ==> s@[start + j] == suffix@[j],
        decreases suffix@.len() - k,
    {
        if s[start + k] != suffix[k] {
            proof {
                assert(s@.subrange(start as int, end as int)[k as int] != suffix@[k as int]);
            }
            return false;
        }
        k += 1;
    }
    assert(s@.subrange(start as int, end as int) =~= suffix@);
    true
}

/// The end of `s[0..end]` once every repetition of `suffix` is removed.
fn strip_end(s: &Vec<char>, end: usize, suffix: &Vec<char>) -> (e: usize)
    requires
        end <= s@.len(),
        suffix@.len() > 0,
    ensures
        e <= end,
        s@.subrange(0, e as int) == strip_suffixes(s@.subrange(0, end as int), suffix@),
{
    let mut e = end;
    while ends_with(s, e, suffix)
        invariant
            e <= end <= s@.len(),
            suffix@.len() > 0,
            strip_suffixes(s@.subrange(0, end as int), suffix@) == strip_suffixes(s@.subrange(0, e as int), suffix@),
        decreases e,
    {
        proof {
            let t = s@.subrange(0, e as int);
            assert(t.subrange(t.len() - suffix@.len(), t.len() as int) =~= s@.subrange(e - suffix@.len(), e as int));
            assert(t.subrange(0, t.len() - suffix@.len()) =~= s@.subrange(0, e - suffix@.len()));
        }
        e = e - suffix.len();
    }
    proof {
        let t = s@.subrange(0, e as int);
        if e >= suffix@.len() {
            assert(t.subrange(t.len() - suffix@.len(), t.len() as int) =~= s@.subrange(e - suffix@.len(), e as int));
        }
    }
    e
}

/// Splits text into tokens, lowers their case and stems them.
pub struct Tokenizer;

impl Tokenizer {
    /// The tokens of a text: each word is lower-cased and trimmed of
    /// characters that are not alphanumeric, and kept when longer than one
    /// byte; the kept terms are numbered from 0.
    pub fn tokenize(text: &str) -> (r: Vec<Token>)
        requires
            token_terms(words(text@)).len() <= u32::MAX,
        ensures
            terms_of(r@) == token_terms(words(text@)),
            forall|i: int| 0 <= i < r@.len() ==> (#[trigger] r@[i]).position == i && r@[i].frequency == 1,
    {
        let ws = split_whitespace(text);
        let mut tokens: Vec<Token> = Vec::new();
        let mut position: u32 = 0;
        let mut i: usize = 0;
        while i < ws.len()
            invariant
                char_rows(ws@) == words(text@),
                token_terms(words(text@)).len() <= u32::MAX,
                i <= ws@.len(),
                position == tokens@.len(),
                terms_of(tokens@) == token_terms(char_rows(ws@).subrange(0, i as int)),
                forall|j: int| 0 <= j < tokens@.len() ==> (#[trigger] tokens@[j]).position == j && tokens@[j].frequency == 1,
            decreases ws@.len() - i,
        {
            let ghost sub = char_rows(ws@).subrange(0, i + 1);
            proof {
                assert(sub.drop_last() =~= char_rows(ws@).subrange(0, i as int));
                assert(sub.last() == ws@[i as int]@);
                lemma_token_terms_prefix(char_rows(ws@), i + 1);
            }
            let word = string_from_chars(ws[i].as_slice());
            let lowered = to_lowercase(word.as_str());
            let lowered_chars = chars_of(lowered.as_str());
            let term = trim_non_alphanumeric(&lowered_chars);
            let long_enough = term.len() >= 2 || (term.len() == 1 && (term[0] as u32) >= 0x80);
            proof {
                lemma_utf8_length_bounds(term@);
                assert(long_enough == kept_term(term@));
                assert(term@ == clean_term(sub.last()));
            }
            if term.len() > 0 && long_enough {
                let ghost before = tokens@;
                tokens.push(Token::new(string_from_chars(term.as_slice()), position));
                position += 1;
                proof {
                    assert(terms_of(tokens@) =~= terms_of(before).push(term@));
                }
            }
            i += 1;
        }
        proof {
            assert(char_rows(ws@).subrange(0, i as int) =~= char_rows(ws@));
        }
        tokens
    }

    /// The tokens that are not stop words, in order.
    pub fn remove_stopwords(tokens: &[Token]) -> (r: Vec<Token>)
        ensures
            r@ == without_stopwords(tokens@),
            forall|i: int|
                0 <= i < r@.len() ==> {
                    let t = (#[trigger] r@[i]).term@;
                    t != "the"@ && t != "a"@ && t != "an"@ && t != "and"@ && t != "or"@ && t != "but"@ && t != "in"@ && t != "on"@ && t != "at"@ && t != "to"@ && t != "for"@ && t != "of"@ && t != "is"@ && t != "are"@
                },
    {
        let mut r: Vec<Token> = Vec::new();
        let mut i: usize = 0;
        while i < tokens.len()
            invariant
                i <= tokens@.len(),
                r@ == without_stopwords(tokens@.subrange(0, i as int)),
            decreases tokens@.len() - i,
        {
            proof {
                assert(tokens@.subrange(0, i + 1).drop_last() =~= tokens@.subrange(0, i as int));
            }
            let t = tokens[i].term.as_str();
            let stop = str_eq(t, "the") || str_eq(t, "a") || str_eq(t, "an") || str_eq(t, "and") || str_eq(t, "or")
                || str_eq(t, "but") || str_eq(t, "in") || str_eq(t, "on") || str_eq(t, "at") || str_eq(t, "to")
                || str_eq(t, "for") || str_eq(t, "of") || str_eq(t, "is") || str_eq(t, "are");
            if !stop {
                r.push(tokens[i].duplicate());
            }
            i += 1;
        }
        proof {
            assert(tokens@.subrange(0, i as int) =~= tokens@);
            lemma_stopwords_removed(tokens@);
        }
        r
    }

    /// The stem of a term: every trailing `s` is removed, then every
    /// trailing `ed`, then every trailing `ing`.
    pub fn stem_token(term: &str) -> (r: String)
        ensures
            r@ == stem(term@),
    {
        let s = chars_of(term);
        let mut s_suffix: Vec<char> = Vec::new();
        s_suffix.push('s');
        let mut ed: Vec<char> = Vec::new();
        ed.push('e');
        ed.push('d');
        let mut ing: Vec<char> = Vec::new();
        ing.push('i');
        ing.push('n');
        ing.push('g');
        proof {
            assert(s_suffix@ =~= seq!['s']);
            assert(ed@ =~= seq!['e', 'd']);
            assert(ing@ =~= seq!['i', 'n', 'g']);
            assert(s@.subrange(0, s@.len() as int) =~= s@);
        }
        let e1 = strip_end(&s, s.len(), &s_suffix);
        let e2 = strip_end(&s, e1, &ed);
        let e3 = strip_end(&s, e2, &ing);
        let mut r: Vec<char> = Vec::new();
        let mut k: usize = 0;
        while k < e3
            invariant
                e3 <= s@.len(),
                k <= e3,
                r@ == s@.subrange(0, k as int),
            decreases e3 - k,
        {
            r.push(s[k]);
            proof {
                assert(r@ =~= s@.subrange(0, k + 1));
            }
            k += 1;
        }
        string_from_chars(r.as_slice())
    }

    /// Each token with its term stemmed.
    pub fn stem_tokens(tokens: &[Token]) -> (r: Vec<Token>)
        ensures
            r@.len() == tokens@.len(),
            forall|i: int|
                0 <= i < tokens@.len() ==> (#[trigger] r@[i]).term@ == stem(tokens@[i].term@) && r@[i].position
                    == tokens@[i].position && r@[i].frequency == tokens@[i].frequency,
    {
        let mut r: Vec<Token> = Vec::new();
        let mut i: usize = 0;
        while i < tokens.len()
            invariant
                i <= tokens@.len(),
                r@.len() == i,
                forall|j: int|
                    0 <= j < i ==> (#[trigger] r@[j]).term@ == stem(tokens@[j].term@) && r@[j].position
                        == tokens@[j].position && r@[j].frequency == tokens@[j].frequency,
            decreases tokens@.len() - i,
        {
            let t = &tokens[i];
            r.push(Token { term: Self::stem_token(t.term.as_str()), position: t.position, frequency: t.frequency });
            i += 1;
        }
        r
    }
}

/// The occurrences of a term in one document.
#[derive(Debug, Clone)]
pub struct Posting {
    pub doc_id: u32,
    pub positions: Vec<u32>,
    pub term_frequency: u32,
}

/// The content of a `Posting`.
pub struct PostingModel {
    pub doc_id: u32,
    pub positions: Seq<u32>,
    pub term_frequency: u32,
}

impl View for Posting {
    type V = PostingModel;

    open spec fn view(&self) -> PostingModel {
        PostingModel { doc_id: self.doc_id, positions: self.positions@, term_frequency: self.term_frequency }
    }
}

impl Posting {
    /// A posting for a document, with no position yet.
    pub fn new(doc_id: u32) -> (p: Self)
        ensures
            p@ == (PostingModel { doc_id, positions: Seq::empty(), term_frequency: 0 }),
    {
        let p = Posting { doc_id, positions: Vec::new(), term_frequency: 0 };
        assert(p@.positions =~= Seq::<u32>::empty());
        p
    }

    /// Records one more occurrence of the term, at `position`.
    pub fn add_position(&mut self, position: u32)
        requires
            old(self).term_frequency < u32::MAX,
        ensures
            final(self)@ == (PostingModel {
                doc_id: old(self).doc_id,
                positions: old(self)@.positions.push(position),
                term_frequency: (old(self).term_frequency + 1) as u32,
            }),
    {
        self.positions.push(position);
        self.term_frequency += 1;
    }
}

/// The number of whitespace-separated words of a text, as a 32-bit count.
pub open spec fn word_count(s: Seq<char>) -> u32 {
    words(s).len() as u32
}

/// A document of the full-text index.
#[derive(Debug, Clone)]
pub struct Document {
    pub doc_id: u32,
    pub title: String,
    pub content: String,
    pub length: u32,
    pub tokens: Vec<Token>,
}

impl Document {
    /// A document whose length is the number of words of its content
    /// (truncated to 32 bits), with no tokens yet.
    pub fn new(doc_id: u32, title: String, content: String) -> (d: Self)
        ensures
            d.doc_id == doc_id,
            d.title == title,
            d.content == content,
            d.length == word_count(content@),
            d.tokens@.len() == 0,
    {
        let ws = split_whitespace(content.as_str());
        let length = ws.len() as u32;
        Document { doc_id, title, content, length, tokens: Vec::new() }
    }

    /// Sets the document's tokens.
    pub fn set_tokens(&mut self, tokens: Vec<Token>)
        ensures
            final(self).tokens == tokens,
            final(self).doc_id == old(self).doc_id,
            final(self).length == old(self).length,
    {
        self.tokens = tokens;
    }
}

/// The views of some postings.
pub open spec fn posting_views(v: Seq<Posting>) -> Seq<PostingModel> {
    v.map_values(|p: Posting| p@)
}

/// The document ids of some postings.
pub open spec fn ids_of(v: Seq<PostingModel>) -> Seq<u32> {
    v.map_values(|p: PostingModel| p.doc_id)
}

/// The number of tokens with a term.
pub open spec fn term_count(tokens: Seq<Token>, term: Seq<char>) -> nat
    decreases tokens.len(),
{
    if tokens.len() == 0 {
        0
    } else {
        term_count(tokens.drop_last(), term) + if tokens.last().term@ == term {
            1nat
        } else {
            0nat
        }
    }
}

/// The positions of the tokens with a term, in token order.
pub open spec fn positions_of(tokens: Seq<Token>, term: Seq<char>) -> Seq<u32>
    decreases tokens.len(),
{
    if tokens.len() == 0 {
        Seq::empty()
    } else if tokens.last().term@ == term {
        positions_of(tokens.drop_last(), term).push(tokens.last().position)
    } else {
        positions_of(tokens.drop_last(), term)
    }
}

/// The posting a document's tokens give a term: one posting listing the
/// term's positions, with their number as term frequency; none when the
/// term does not occur.
pub open spec fn document_posting(doc_id: u32, tokens: Seq<Token>, term: Seq<char>) -> Seq<PostingModel> {
    if term_count(tokens, term) > 0 {
        seq![
            PostingModel {
                doc_id,
                positions: positions_of(tokens, term),
                term_frequency: term_count(tokens, term) as u32,
            },
        ]
    } else {
        Seq::empty()
    }
}

/// A term's count is the number of its positions, and at most the number of
/// tokens; it is positive exactly when some token has the term.
proof fn lemma_term_count(tokens: Seq<Token>, term: Seq<char>)
    ensures
        positions_of(tokens, term).len() == term_count(tokens, term),
        term_count(tokens, term) <= tokens.len(),
        term_count(tokens, term) > 0 <==> terms_of(tokens).contains(term),
    decreases tokens.len(),
{
    if tokens.len() > 0 {
        let d = tokens.drop_last();
        lemma_term_count(d, term);
        assert(terms_of(tokens) =~= terms_of(d).push(tokens.last().term@));
        if terms_of(d).contains(term) {
            let j = choose|j: int| 0 <= j < terms_of(d).len() && terms_of(d)[j] == term;
            assert(terms_of(tokens)[j] == term);
        }
        if terms_of(tokens).contains(term) && tokens.last().term@ != term {
            let j = choose|j: int| 0 <= j < terms_of(tokens).len() && terms_of(tokens)[j] == term;
            assert(j < d.len());
            assert(terms_of(d)[j] == term);
        }
        if tokens.last().term@ == term {
            assert(terms_of(tokens)[tokens.len() - 1] == term);
        }
    }
}

/// The ids that are in `ids` and in `prev`, in the order of `ids`.
pub open spec fn keep_present(ids: Seq<u32>, prev: Seq<u32>) -> Seq<u32>
    decreases ids.len(),
{
    if ids.len() == 0 {
        Seq::empty()
    } else if prev.contains(ids.last()) {
        keep_present(ids.drop_last(), prev).push(ids.last())
    } else {
        keep_present(ids.drop_last(), prev)
    }
}


/// The ids that `keep_present` keeps are ids of both lists.
proof fn lemma_keep_present_members(ids: Seq<u32>, prev: Seq<u32>)
    ensures
        forall|x: u32| #[trigger] keep_present(ids, prev).contains(x) ==> ids.contains(x) && prev.contains(x),
    decreases ids.len(),
{
    if ids.len() > 0 {
        lemma_keep_present_members(ids.drop_last(), prev);
        assert forall|x: u32| #[trigger] keep_present(ids, prev).contains(x) implies ids.contains(x) && prev.contains(x) by {
            let k = keep_present(ids, prev);
            let j = choose|j: int| 0 <= j < k.len() && k[j] == x;
            let p = keep_present(ids.drop_last(), prev);
            if j < p.len() {
                assert(p[j] == x);
                assert(p.contains(x));
                let a = choose|a: int| 0 <= a < ids.drop_last().len() && ids.drop_last()[a] == x;
                assert(ids[a] == x);
            } else {
                assert(ids[ids.len() - 1] == x);
            }
        }
    }
}

/// `keep_present` keeps every id of both lists.
proof fn lemma_keep_present_complete(ids: Seq<u32>, prev: Seq<u32>, x: u32)
    requires
        ids.contains(x),
        prev.contains(x),
    ensures
        keep_present(ids, prev).contains(x),
    decreases ids.len(),
{
    let d = ids.drop_last();
    if ids.last() == x {
        assert(keep_present(ids, prev) == keep_present(d, prev).push(x));
        assert(keep_present(ids, prev)[keep_present(d, prev).len() as int] == x);
    } else {
        let j = choose|j: int| 0 <= j < ids.len() && ids[j] == x;
        assert(j < ids.len() - 1);
        assert(d[j] == x);
        lemma_keep_present_complete(d, prev, x);
        let k = keep_present(d, prev);
        let a = choose|a: int| 0 <= a < k.len() && k[a] == x;
        if prev.contains(ids.last()) {
            assert(keep_present(ids, prev) == k.push(ids.last()));
            assert(keep_present(ids, prev)[a] == x);
        } else {
            assert(keep_present(ids, prev) == k);
        }
    }
}

/// Whether a sequence of ids is strictly increasing.
pub open spec fn strictly_increasing(s: Seq<u32>) -> bool {
    forall|i: int, j: int| 0 <= i < j < s.len() ==> s[i] < s[j]
}

/// A map from terms to the postings of the documents that contain them.
#[derive(Debug)]
pub struct InvertedIndex {
    index: StrMap<Vec<Posting>>,
    document_count: u32,
}

impl InvertedIndex {
    /// The postings of a term (none for an unknown term).
    pub closed spec fn postings_of(&self, term: Seq<char>) -> Seq<PostingModel> {
        if self.index@.contains_key(term) {
            posting_views(self.index@[term]@)
        } else {
            Seq::empty()
        }
    }

    /// The indexed terms.
    pub closed spec fn terms(&self) -> Set<Seq<char>> {
        self.index@.dom()
    }

    /// The number of documents added.
    pub closed spec fn doc_count(&self) -> u32 {
        self.document_count
    }

    /// The ids of the documents in a term's postings, in order.
    pub open spec fn doc_ids(&self, term: Seq<char>) -> Seq<u32> {
        ids_of(self.postings_of(term))
    }

    /// What an AND search over `terms` gives when every term is indexed:
    /// the ids of the last term's postings that the previous terms' result
    /// holds, starting from the ids of the first term.
    pub open spec fn and_ids(&self, terms: Seq<Seq<char>>) -> Seq<u32>
        decreases terms.len(),
    {
        if terms.len() <= 1 {
            if terms.len() == 0 {
                Seq::empty()
            } else {
                self.doc_ids(terms[0])
            }
        } else {
            keep_present(self.doc_ids(terms.last()), self.and_ids(terms.drop_last()))
        }
    }

    /// An AND search finds only documents that every term's postings name;
    /// so each of them is also found by the OR search over the same terms.
    pub proof fn lemma_and_ids_in_every_term(&self, terms: Seq<Seq<char>>)
        ensures
            forall|x: u32, i: int|
                0 <= i < terms.len() && #[trigger] self.and_ids(terms).contains(x) ==> #[trigger] self.doc_ids(
                    terms[i],
                ).contains(x),
            forall|x: u32|
                #[trigger] self.and_ids(terms).contains(x) ==> exists|i: int|
                    0 <= i < terms.len() && #[trigger] self.doc_ids(terms[i]).contains(x),
        decreases terms.len(),
    {
        if terms.len() > 1 {
            self.lemma_and_ids_in_every_term(terms.drop_last());
            lemma_keep_present_members(self.doc_ids(terms.last()), self.and_ids(terms.drop_last()));
            assert forall|x: u32, i: int|
                0 <= i < terms.len() && #[trigger] self.and_ids(terms).contains(x) implies #[trigger] self.doc_ids(
                    terms[i],
                ).contains(x) by {
                if i < terms.len() - 1 {
                    assert(terms.drop_last()[i] == terms[i]);
                    assert(self.doc_ids(terms.drop_last()[i]).contains(x));
                }
            }
        }
        assert forall|x: u32| #[trigger] self.and_ids(terms).contains(x) implies exists|i: int|
            0 <= i < terms.len() && #[trigger] self.doc_ids(terms[i]).contains(x) by {
            if terms.len() > 1 {
                assert(self.doc_ids(terms[0]).contains(x));
            } else if terms.len() == 1 {
                assert(self.doc_ids(terms[0]).contains(x));
            }
        }
    }

    /// An AND search over some terms finds exactly the documents that the
    /// postings of every one of the terms name.
    pub proof fn lemma_and_ids_exact(&self, terms: Seq<Seq<char>>, x: u32)
        requires
            terms.len() > 0,
        ensures
            self.and_ids(terms).contains(x) <==> forall|i: int| 0 <= i < terms.len() ==> #[trigger] self.doc_ids(
                terms[i],
            ).contains(x),
        decreases terms.len(),
    {
        self.lemma_and_ids_in_every_term(terms);
        if forall|i: int| 0 <= i < terms.len() ==> #[trigger] self.doc_ids(terms[i]).contains(x) {
            if terms.len() == 1 {
                assert(self.doc_ids(terms[0]).contains(x));
            } else {
                let d = terms.drop_last();
                assert forall|i: int| 0 <= i < d.len() implies #[trigger] self.doc_ids(d[i]).contains(x) by {
                    assert(d[i] == terms[i]);
                    assert(self.doc_ids(terms[i]).contains(x));
                }
                self.lemma_and_ids_exact(d, x);
                assert(self.doc_ids(terms[terms.len() - 1]).contains(x));
                lemma_keep_present_complete(self.doc_ids(terms.last()), self.and_ids(d), x);
            }
        }
    }

    /// An empty index.
    pub fn new() -> (x: Self)
        ensures
            x.terms() == Set::<Seq<char>>::empty(),
            forall|t: Seq<char>| #[trigger] x.postings_of(t) == Seq::<PostingModel>::empty(),
            x.doc_count() == 0,
    {
        let x = InvertedIndex { index: StrMap::new(), document_count: 0 };
        assert(x.terms() =~= Set::<Seq<char>>::empty());
        x
    }

    /// Adds a document: for each term among its tokens, one posting for the
    /// document, listing the term's positions in token order, with their
    /// number as term frequency, after the term's earlier postings.
    pub fn add_document(&mut self, doc: &Document)
        requires
            old(self).doc_count() < u32::MAX,
            doc.tokens@.len() <= u32::MAX,
        ensures
            final(self).doc_count() == old(self).doc_count() + 1,
            forall|t: Seq<char>|
                #[trigger] final(self).postings_of(t) == old(self).postings_of(t) + document_posting(
                    doc.doc_id,
                    doc.tokens@,
                    t,
                ),
            forall|t: Seq<char>|
                #[trigger] final(self).terms().contains(t) <==> old(self).terms().contains(t) || terms_of(
                    doc.tokens@,
                ).contains(t),
    {
        let mut seen: StrMap<bool> = StrMap::new();
        let mut i: usize = 0;
        while i < doc.tokens.len()
            invariant
                i <= doc.tokens@.len(),
                doc.tokens@.len() <= u32::MAX,
                self.document_count == old(self).document_count,
                forall|t: Seq<char>| #[trigger] seen@.contains_key(t) <==> term_count(doc.tokens@.subrange(0, i as int), t) > 0,
                forall|t: Seq<char>|
                    #[trigger] self.postings_of(t) == old(self).postings_of(t) + document_posting(
                        doc.doc_id,
                        doc.tokens@.subrange(0, i as int),
                        t,
                    ),
                forall|t: Seq<char>|
                    #[trigger] self.terms().contains(t) <==> old(self).terms().contains(t) || terms_of(
                        doc.tokens@.subrange(0, i as int),
                    ).contains(t),
            decreases doc.tokens@.len() - i,
        {
            let term = &doc.tokens[i].term;
            let position = doc.tokens[i].position;
            let ghost prev = *self;
            let ghost pre = doc.tokens@.subrange(0, i as int);
            let ghost sub = doc.tokens@.subrange(0, i + 1);
            proof {
                assert(sub.drop_last() =~= pre);
                assert(sub.last() == doc.tokens@[i as int]);
                lemma_term_count(pre, term@);
                lemma_term_count(sub, term@);
                lemma_term_count(doc.tokens@.subrange(0, i as int), term@);
            }
            let mut list = match self.index.remove(term.as_str()) {
                Some(v) => v,
                None => Vec::new(),
            };
            let ghost before = list@;
            if seen.contains_key(term.as_str()) {
                proof {
                    assert(prev.postings_of(term@) == posting_views(before));
                    assert(posting_views(before).len() > 0);
                    assert(list@.len() > 0);
                }
                let mut last = list.pop().unwrap();
                proof {
                    assert(posting_views(before).last() == last@);
                    assert(last.term_frequency == term_count(pre, term@));
                }
                last.add_position(position);
                list.push(last);
                proof {
                    assert(posting_views(list@) =~= posting_views(before).drop_last().push(list@.last()@));
                }
            } else {
                let mut p = Posting::new(doc.doc_id);
                p.add_position(position);
                list.push(p);
                let _ = seen.insert(term.clone(), true);
                proof {
                    assert(posting_views(list@) =~= posting_views(before).push(list@.last()@));
                }
            }
            let _ = self.index.insert(term.clone(), list);
            proof {
                assert(sub.last().term@ == term@);
                assert forall|t: Seq<char>| #[trigger] self.postings_of(t) == old(self).postings_of(t) + document_posting(
                    doc.doc_id,
                    sub,
                    t,
                ) by {
                    if t == term@ {
                        assert(prev.postings_of(t) == posting_views(before));
                        assert(positions_of(sub, t) == positions_of(pre, t).push(position));
                        if term_count(pre, t) > 0 {
                            assert(posting_views(before) =~= old(self).postings_of(t) + document_posting(doc.doc_id, pre, t));
                            assert(self.postings_of(t) =~= old(self).postings_of(t) + document_posting(doc.doc_id, sub, t));
                        } else {
                            assert(posting_views(before) =~= old(self).postings_of(t));
                            assert(positions_of(pre, t) =~= Seq::<u32>::empty());
                            assert(self.postings_of(t) =~= old(self).postings_of(t) + document_posting(doc.doc_id, sub, t));
                        }
                    } else {
                        assert(self.postings_of(t) == prev.postings_of(t));
                        assert(document_posting(doc.doc_id, sub, t) == document_posting(doc.doc_id, pre, t));
                    }
                }
                assert forall|t: Seq<char>| #[trigger] seen@.contains_key(t) <==> term_count(sub, t) > 0 by {}
                let tp = terms_of(pre);
                assert(terms_of(sub) =~= tp.push(term@));
                assert forall|t: Seq<char>| #[trigger] self.terms().contains(t) <==> old(self).terms().contains(t)
                    || terms_of(sub).contains(t) by {
                    assert(self.terms().contains(t) == (prev.terms().contains(t) || t == term@));
                    if tp.contains(t) {
                        let j = choose|j: int| 0 <= j < tp.len() && #[trigger] tp[j] == t;
                        assert(terms_of(sub)[j] == t);
                    }
                    if t == term@ {
                        assert(terms_of(sub)[i as int] == t);
                    }
                    if terms_of(sub).contains(t) && t != term@ {
                        let j = choose|j: int| 0 <= j < terms_of(sub).len() && #[trigger] terms_of(sub)[j] == t;
                        assert(tp[j] == t);
                    }
                }
            }
            i += 1;
        }
        proof {
            assert(doc.tokens@.subrange(0, i as int) =~= doc.tokens@);
        }
        let ghost mid = *self;
        self.document_count += 1;
        proof {
            assert forall|t: Seq<char>| #[trigger] self.postings_of(t) == mid.postings_of(t) by {}
            assert forall|t: Seq<char>| #[trigger] self.terms().contains(t) == mid.terms().contains(t) by {}
        }
    }

    /// The postings of a term.
    pub fn search_term(&self, term: &str) -> (r: Option<&Vec<Posting>>)
        ensures
            r is Some <==> self.terms().contains(term@),
            r matches Some(v) ==> posting_views(v@) == self.postings_of(term@),
    {
        self.index.get(term)
    }

    /// The ids of a term's postings.
    fn doc_ids_exec(&self, postings: &Vec<Posting>) -> (r: Vec<u32>)
        ensures
            r@ == ids_of(posting_views(postings@)),
    {
        let mut r: Vec<u32> = Vec::new();
        let mut i: usize = 0;
        while i < postings.len()
            invariant
                i <= postings@.len(),
                r@ == ids_of(posting_views(postings@)).subrange(0, i as int),
            decreases postings@.len() - i,
        {
            r.push(postings[i].doc_id);
            proof {
                assert(r@ =~= ids_of(posting_views(postings@)).subrange(0, i + 1));
            }
            i += 1;
        }
        proof {
            assert(ids_of(posting_views(postings@)).subrange(0, i as int) =~= ids_of(posting_views(postings@)));
        }
        r
    }

    /// AND search: empty when no term is given or some term is not indexed;
    /// otherwise `and_ids`.
    pub fn search_and(&self, terms: &[&str]) -> (r: Vec<u32>)
        ensures
            terms@.len() == 0 ==> r@.len() == 0,
            (exists|i: int| 0 <= i < terms@.len() && !self.terms().contains((#[trigger] terms@[i])@)) ==> r@.len() == 0,
            terms@.len() > 0 && (forall|i: int| 0 <= i < terms@.len() ==> self.terms().contains((#[trigger] terms@[i])@))
                ==> r@ == self.and_ids(terms@.map_values(|t: &str| t@)),
    {
        if terms.len() == 0 {
            return Vec::new();
        }
        let ghost tv = terms@.map_values(|t: &str| t@);
        let mut result: Vec<u32> = Vec::new();
        let mut i: usize = 0;
        while i < terms.len()
            invariant
                tv == terms@.map_values(|t: &str| t@),
                i <= terms@.len(),
                forall|j: int| 0 <= j < i ==> self.terms().contains((#[trigger] terms@[j])@),
                i > 0 ==> result@ == self.and_ids(tv.subrange(0, i as int)),
            decreases terms@.len() - i,
        {
            match self.search_term(terms[i]) {
                Some(postings) => {
                    let doc_ids = self.doc_ids_exec(postings);
                    proof {
                        assert(tv[i as int] == terms@[i as int]@);
                        assert(tv.subrange(0, i + 1).last() == tv[i as int]);
                        assert(tv.subrange(0, i + 1).drop_last() =~= tv.subrange(0, i as int));
                        if i == 0 {
                            assert(tv.subrange(0, 1)[0] == tv[0]);
                        }
                    }
                    if i == 0 {
                        result = doc_ids;
                    } else {
                        result = keep_present_exec(&doc_ids, &result);
                    }
                },
                None => {
                    return Vec::new();
                },
            }
            i += 1;
        }
        proof {
            assert(tv.subrange(0, i as int) =~= tv);
        }
        result
    }

    /// OR search: the ids of the documents that some indexed term's postings
    /// name, in increasing order, each once.
    pub fn search_or(&self, terms: &[&str]) -> (r: Vec<u32>)
        ensures
            strictly_increasing(r@),
            forall|id: u32|
                #[trigger] r@.contains(id) <==> exists|i: int|
                    0 <= i < terms@.len() && self.doc_ids((#[trigger] terms@[i])@).contains(id),
    {
        let mut result: Vec<u32> = Vec::new();
        let mut i: usize = 0;
        while i < terms.len()
            invariant
                i <= terms@.len(),
                strictly_increasing(result@),
                forall|id: u32|
                    #[trigger] result@.contains(id) <==> exists|j: int|
                        0 <= j < i && self.doc_ids((#[trigger] terms@[j])@).contains(id),
            decreases terms@.len() - i,
        {
            let ghost before = result@;
            match self.search_term(terms[i]) {
                Some(postings) => {
                    let mut k: usize = 0;
                    while k < postings.len()
                        invariant
                            k <= postings@.len(),
                            posting_views(postings@) == self.postings_of(terms@[i as int]@),
                            strictly_increasing(result@),
                            forall|id: u32|
                                #[trigger] result@.contains(id) <==> before.contains(id) || ids_of(
                                    posting_views(postings@),
                                ).subrange(0, k as int).contains(id),
                        decreases postings@.len() - k,
                    {
                        let ghost mid = result@;
                        insert_sorted(&mut result, postings[k].doc_id);
                        proof {
                            let ids = ids_of(posting_views(postings@));
                            assert(ids[k as int] == postings@[k as int].doc_id);
                            assert forall|id: u32| #[trigger] result@.contains(id) <==> before.contains(id)
                                || ids.subrange(0, k + 1).contains(id) by {
                                if ids.subrange(0, k as int).contains(id) {
                                    let j = choose|j: int| 0 <= j < k && #[trigger] ids.subrange(0, k as int)[j] == id;
                                    assert(ids.subrange(0, k + 1)[j] == id);
                                }
                                if ids.subrange(0, k + 1).contains(id) {
                                    let j = choose|j: int| 0 <= j < k + 1 && #[trigger] ids.subrange(0, k + 1)[j] == id;
                                    if j < k {
                                        assert(ids.subrange(0, k as int)[j] == id);
                                    }
                                }
                                if id == postings@[k as int].doc_id {
                                    assert(ids.subrange(0, k + 1)[k as int] == id);
                                }
                            }
                        }
                        k += 1;
                    }
                    proof {
                        assert(ids_of(posting_views(postings@)).subrange(0, k as int) =~= self.doc_ids(terms@[i as int]@));
                        assert forall|id: u32| #[trigger] result@.contains(id) <==> exists|j: int|
                            0 <= j < i + 1 && self.doc_ids((#[trigger] terms@[j])@).contains(id) by {
                            if self.doc_ids(terms@[i as int]@).contains(id) {
                                assert(0 <= i < i + 1 && self.doc_ids(terms@[i as int]@).contains(id));
                            }
                        }
                    }
                },
                None => {
                    proof {
                        assert(self.doc_ids(terms@[i as int]@) =~= Seq::<u32>::empty());
                        assert forall|id: u32| #[trigger] result@.contains(id) <==> exists|j: int|
                            0 <= j < i + 1 && self.doc_ids((#[trigger] terms@[j])@).contains(id) by {
                            if exists|j: int| 0 <= j < i + 1 && self.doc_ids((#[trigger] terms@[j])@).contains(id) {
                                let j = choose|j: int| 0 <= j < i + 1 && self.doc_ids((#[trigger] terms@[j])@).contains(id);
                                assert(j != i);
                            }
                        }
                    }
                },
            }
            i += 1;
        }
        result
    }

    /// The number of indexed terms.
    pub fn get_term_count(&self) -> (n: usize)
        ensures
            n == self.terms().len(),
    {
        self.index.len()
    }

    /// The number of documents added.
    pub fn get_document_count(&self) -> (n: u32)
        ensures
            n == self.doc_count(),
    {
        self.document_count
    }
}

/// The ids of `ids` that `prev` holds, in order.
fn keep_present_exec(ids: &Vec<u32>, prev: &Vec<u32>) -> (r: Vec<u32>)
    ensures
        r@ == keep_present(ids@, prev@),
{
    let mut r: Vec<u32> = Vec::new();
    let mut i: usize = 0;
    while i < ids.len()
        invariant
            i <= ids@.len(),
            r@ == keep_present(ids@.subrange(0, i as int), prev@),
        decreases ids@.len() - i,
    {
        proof {
            assert(ids@.subrange(0, i + 1).drop_last() =~= ids@.subrange(0, i as int));
        }
        let id = ids[i];
        let mut found = false;
        let mut k: usize = 0;
        while k < prev.len() && !found
            invariant
                k <= prev@.len(),
                found ==> prev@.contains(id),
                !found ==> forall|j: int| 0 <= j < k ==> prev@[j] != id,
            decreases prev@.len() - k,
        {
            if prev[k] == id {
                found = true;
            }
            k += 1;
        }
        if found {
            r.push(id);
        }
        i += 1;
    }
    proof {
        assert(ids@.subrange(0, i as int) =~= ids@);
    }
    r
}

/// Inserts an id into a strictly increasing sequence, unless it is there.
fn insert_sorted(v: &mut Vec<u32>, id: u32)
    requires
        strictly_increasing(old(v)@),
    ensures
        strictly_increasing(final(v)@),
        forall|x: u32| #[trigger] final(v)@.contains(x) <==> old(v)@.contains(x) || x == id,
{
    let mut k: usize = 0;
    while k < v.len() && v[k] < id
        invariant
            k <= v@.len(),
            forall|j: int| 0 <= j < k ==> v@[j] < id,
        decreases v@.len() - k,
    {
        k += 1;
    }
    if k < v.len() && v[k] == id {
        return;
    }
    let ghost before = v@;
    v.insert(k, id);
    proof {
        assert forall|i: int, j: int| 0 <= i < j < v@.len() implies v@[i] < v@[j] by {
            if j < k {
            } else if j == k {
            } else if i < k {
                assert(v@[j] == before[j - 1]);
            } else if i == k {
                assert(v@[j] == before[j - 1]);
            } else {
                assert(v@[j] == before[j - 1] && v@[i] == before[i - 1]);
            }
        }
        assert forall|x: u32| #[trigger] v@.contains(x) <==> before.contains(x) || x == id by {
            if before.contains(x) {
                let j = choose|j: int| 0 <= j < before.len() && #[trigger] before[j] == x;
                if j < k {
                    assert(v@[j] == x);
                } else {
                    assert(v@[j + 1] == x);
                }
            }
            if x == id {
                assert(v@[k as int] == x);
            }
            if v@.contains(x) {
                let j = choose|j: int| 0 <= j < v@.len() && #[trigger] v@[j] == x;
                if j < k {
                    assert(before[j] == x);
                } else if j > k {
                    assert(before[j - 1] == x);
                }
            }
        }
    }
}

} // verus!
