//! Tokenizing text into whitespace-delimited words, and the three plain
//! counters: lines, words, characters.

use vstd::prelude::*;

verus! {

/// The delimiters the tokenizer splits on: ASCII whitespace, that is space,
/// tab, newline, carriage return, vertical tab and form feed. Non-ASCII
/// Unicode whitespace is deliberately not a delimiter.
pub open spec fn is_word_sep(c: char) -> bool {
    c == ' ' || c == '\t' || c == '\n' || c == '\r' || c == '\x0b' || c == '\x0c'
}

/// How many newline characters a text holds. This is what the line counter
/// reports: a final line without a trailing newline is not counted.
pub open spec fn newline_count(s: Seq<char>) -> nat
    decreases s.len(),
{
    if s.len() == 0 {
        0
    } else {
        newline_count(s.drop_last()) + if s.last() == '\n' { 1nat } else { 0nat }
    }
}

/// The sequence of words in a text: the maximal runs of non-delimiter
/// characters, in order. Defined one character at a time: a delimiter ends
/// the word in progress, a non-delimiter either extends the word in progress
/// or, after a delimiter or at the start, opens a new one.
pub open spec fn tokens_of(s: Seq<char>) -> Seq<Seq<char>>
    decreases s.len(),
{
    if s.len() == 0 {
        Seq::empty()
    } else {
        let prefix = s.drop_last();
        let toks = tokens_of(prefix);
        let c = s.last();
        if is_word_sep(c) {
            toks
        } else if prefix.len() > 0 && !is_word_sep(prefix.last()) {
            toks.update(toks.len() - 1, toks.last().push(c))
        } else {
            toks.push(seq![c])
        }
    }
}

/// No word is empty, and no word holds a delimiter character; a text that
/// ends in a non-delimiter has at least one word.
pub proof fn lemma_tokens_nonempty(s: Seq<char>)
    ensures
        forall|i: int| 0 <= i < tokens_of(s).len() ==> #[trigger] tokens_of(s)[i].len() > 0,
        forall|i: int, j: int|
            0 <= i < tokens_of(s).len() && 0 <= j < tokens_of(s)[i].len() ==> !is_word_sep(
                #[trigger] tokens_of(s)[i][j],
            ),
        s.len() > 0 && !is_word_sep(s.last()) ==> tokens_of(s).len() > 0 && tokens_of(
            s,
        ).last().last() == s.last(),
    decreases s.len(),
{
    if s.len() > 0 {
        let prefix = s.drop_last();
        let toks = tokens_of(prefix);
        let c = s.last();
        lemma_tokens_nonempty(prefix);
        if is_word_sep(c) {
            assert(tokens_of(s) == toks);
        } else if prefix.len() > 0 && !is_word_sep(prefix.last()) {
            let grown = toks.last().push(c);
            assert(tokens_of(s) == toks.update(toks.len() - 1, grown));
            assert forall|i: int| 0 <= i < tokens_of(s).len() implies #[trigger] tokens_of(
                s,
            )[i].len() > 0 by {
                if i != toks.len() - 1 {
                    assert(tokens_of(s)[i] == toks[i]);
                }
            }
            assert forall|i: int, j: int|
                0 <= i < tokens_of(s).len() && 0 <= j < tokens_of(s)[i].len() implies !is_word_sep(
                tokens_of(s)[i][j],
            ) by {
                if i == toks.len() - 1 {
                    assert(tokens_of(s)[i] == grown);
                    if j < grown.len() - 1 {
                        assert(grown[j] == toks[i][j]);
                    } else {
                        assert(grown[j] == c);
                    }
                } else {
                    assert(tokens_of(s)[i] == toks[i]);
                }
            }
        } else {
            assert(tokens_of(s) == toks.push(seq![c]));
            assert forall|i: int, j: int|
                0 <= i < tokens_of(s).len() && 0 <= j < tokens_of(s)[i].len() implies !is_word_sep(
                tokens_of(s)[i][j],
            ) by {
                if i < toks.len() {
                    assert(tokens_of(s)[i] == toks[i]);
                } else {
                    assert(tokens_of(s)[i] == seq![c]);
                }
            }
        }
    }
}

/// Counts the newline characters in `content`, as the classic line counter
/// does: `"a\nb\nc"` has two, not three.
pub fn count_lines_in_content(content: &str) -> (n: usize)
    ensures
        n == newline_count(content@),
{
    let len = content.unicode_len();
    let mut n: usize = 0;
    let mut i: usize = 0;
    while i < len
        invariant
            i <= len,
            len == content@.len(),
            n <= i,
            n == newline_count(content@.subrange(0, i as int)),
        decreases len - i,
    {
        let c = content.get_char(i);
        proof {
            assert(content@.subrange(0, i + 1).drop_last() =~= content@.subrange(0, i as int));
            assert(content@.subrange(0, i + 1).last() == content@[i as int]);
        }
        if c == '\n' {
            n = n + 1;
        }
        i = i + 1;
    }
    proof {
        assert(content@.subrange(0, len as int) =~= content@);
    }
    n
}

/// Counts the characters (Unicode scalar values, not bytes) in `content`.
pub fn count_characters_in_content(content: &str) -> (n: usize)
    ensures
        n == content@.len(),
{
    content.unicode_len()
}

/// Counts the whitespace-delimited words in `content`.
pub fn count_words_in_content(content: &str) -> (n: usize)
    ensures
        n == tokens_of(content@).len(),
{
    let len = content.unicode_len();
    let mut n: usize = 0;
    let mut i: usize = 0;
    while i < len
        invariant
            i <= len,
            len == content@.len(),
            n <= i,
            n == tokens_of(content@.subrange(0, i as int)).len(),
        decreases len - i,
    {
        let c = content.get_char(i);
        proof {
            assert(content@.subrange(0, i + 1).drop_last() =~= content@.subrange(0, i as int));
            assert(content@.subrange(0, i + 1).last() == content@[i as int]);
            assert(content@.subrange(0, i as int).len() == i);
            if i > 0 {
                assert(content@.subrange(0, i as int).last() == content@[i - 1]);
            }
        }
        let starts_word = !is_sep_exec(c) && (i == 0 || is_sep_exec(content.get_char(i - 1)));
        proof {
            let p = content@.subrange(0, i as int);
            let q = content@.subrange(0, i + 1);
            lemma_tokens_nonempty(p);
            if is_word_sep(c) {
                assert(tokens_of(q) == tokens_of(p));
            } else if p.len() > 0 && !is_word_sep(p.last()) {
                assert(tokens_of(q) == tokens_of(p).update(
                    tokens_of(p).len() - 1,
                    tokens_of(p).last().push(c),
                ));
            } else {
                assert(tokens_of(q) == tokens_of(p).push(seq![c]));
            }
        }
        if starts_word {
            n = n + 1;
        }
        i = i + 1;
    }
    proof {
        assert(content@.subrange(0, len as int) =~= content@);
    }
    n
}

/// The character sequences of a list of owned strings, in order.
pub open spec fn token_views(ts: Seq<String>) -> Seq<Seq<char>> {
    ts.map_values(|t: String| t@)
}

/// Splits `content` into its whitespace-delimited words, each as an owned
/// string, in order of appearance.
pub fn tokenize(content: &str) -> (r: Vec<String>)
    ensures
        token_views(r@) == tokens_of(content@),
{
    let len = content.unicode_len();
    let mut out: Vec<String> = Vec::new();
    let mut start: usize = 0;
    let mut in_token: bool = false;
    let mut i: usize = 0;
    while i < len
        invariant
            i <= len,
            len == content@.len(),
            in_token ==> start < i,
            in_token ==> forall|j: int| start <= j < i ==> !is_word_sep(#[trigger] content@[j]),
            in_token == (i > 0 && !is_word_sep(content@[i - 1])),
            in_token ==> tokens_of(content@.subrange(0, i as int)) == token_views(out@).push(
                content@.subrange(start as int, i as int),
            ),
            !in_token ==> tokens_of(content@.subrange(0, i as int)) == token_views(out@),
        decreases len - i,
    {
        let ghost p = content@.subrange(0, i as int);
        let ghost q = content@.subrange(0, i + 1);
        let ghost tv = token_views(out@);
        proof {
            assert(q.drop_last() =~= p);
            assert(q.last() == content@[i as int]);
            assert(p.len() == i);
            if i > 0 {
                assert(p.last() == content@[i - 1]);
            }
            lemma_tokens_nonempty(p);
        }
        let c = content.get_char(i);
        if is_sep_exec(c) {
            proof {
                assert(tokens_of(q) == tokens_of(p));
            }
            if in_token {
                let w = content.substring_char(start, i).to_owned();
                proof {
                    assert(token_views(out@.push(w)) =~= tv.push(w@));
                }
                out.push(w);
                in_token = false;
            }
        } else {
            if in_token {
                proof {
                    let grown = tokens_of(p).last().push(c);
                    assert(tokens_of(q) == tokens_of(p).update(tokens_of(p).len() - 1, grown));
                    assert(tokens_of(p).last() == content@.subrange(start as int, i as int));
                    assert(grown =~= content@.subrange(start as int, i + 1));
                    assert(tokens_of(p).update(tokens_of(p).len() - 1, grown) =~= tv.push(
                        content@.subrange(start as int, i + 1),
                    ));
                }
            } else {
                proof {
                    assert(tokens_of(q) == tokens_of(p).push(seq![c]));
                    assert(content@.subrange(i as int, i + 1) =~= seq![c]);
                }
                start = i;
                in_token = true;
            }
        }
        i = i + 1;
    }
    proof {
        assert(content@.subrange(0, len as int) =~= content@);
    }
    if in_token {
        let w = content.substring_char(start, len).to_owned();
        proof {
            assert(token_views(out@.push(w)) =~= token_views(out@).push(w@));
        }
        out.push(w);
    }
    out
}

/// Re-tokenizing the same content yields the same word sequence: the
/// tokenizer is a pure function of the text.
pub proof fn lemma_tokenize_deterministic(s1: Seq<char>, s2: Seq<char>)
    requires
        s1 == s2,
    ensures
        tokens_of(s1) == tokens_of(s2),
{
}

/// The words joined back into one text, with a single space between each
/// pair of neighbours: the whitespace-normalized form of a text whose
/// words they are.
pub open spec fn join_spaces(ts: Seq<Seq<char>>) -> Seq<char>
    decreases ts.len(),
{
    if ts.len() == 0 {
        Seq::empty()
    } else if ts.len() == 1 {
        ts[0]
    } else {
        join_spaces(ts.drop_last()) + seq![' '] + ts.last()
    }
}

/// A trailing delimiter adds no word.
proof fn lemma_tokens_push_sep(a: Seq<char>, c: char)
    requires
        is_word_sep(c),
    ensures
        tokens_of(a.push(c)) == tokens_of(a),
{
    assert(a.push(c).drop_last() =~= a);
}

/// A nonempty, delimiter-free word appended after a delimiter (or to an
/// empty text) becomes one further word.
proof fn lemma_tokens_append_word(a: Seq<char>, w: Seq<char>)
    requires
        w.len() > 0,
        forall|j: int| 0 <= j < w.len() ==> !is_word_sep(#[trigger] w[j]),
        a.len() == 0 || is_word_sep(a.last()),
    ensures
        tokens_of(a + w) == tokens_of(a).push(w),
    decreases w.len(),
{
    if w.len() == 1 {
        assert((a + w).drop_last() =~= a);
        assert((a + w).last() == w[0]);
        assert(seq![w[0]] =~= w);
    } else {
        let w0 = w.drop_last();
        let c = w.last();
        lemma_tokens_append_word(a, w0);
        assert((a + w).drop_last() =~= a + w0);
        assert((a + w).last() == c);
        assert((a + w0).last() == w0.last());
        assert(!is_word_sep(w0.last()));
        let toks = tokens_of(a).push(w0);
        assert(tokens_of(a + w) == toks.update(toks.len() - 1, toks.last().push(c)));
        assert(w0.push(c) =~= w);
        assert(toks.update(toks.len() - 1, w) =~= tokens_of(a).push(w));
    }
}

/// A list of nonempty, delimiter-free words, joined with single spaces,
/// tokenizes back to exactly that list.
proof fn lemma_tokens_join(ts: Seq<Seq<char>>)
    requires
        forall|i: int| 0 <= i < ts.len() ==> (#[trigger] ts[i]).len() > 0,
        forall|i: int, j: int|
            0 <= i < ts.len() && 0 <= j < ts[i].len() ==> !is_word_sep(#[trigger] ts[i][j]),
    ensures
        tokens_of(join_spaces(ts)) == ts,
    decreases ts.len(),
{
    if ts.len() == 0 {
    } else if ts.len() == 1 {
        let w = ts[0];
        assert(Seq::<char>::empty() + w =~= w);
        lemma_tokens_append_word(Seq::empty(), w);
        assert(tokens_of(Seq::<char>::empty()).push(w) =~= seq![w]);
        assert(ts =~= seq![w]);
    } else {
        let ts0 = ts.drop_last();
        let w = ts.last();
        lemma_tokens_join(ts0);
        let a = join_spaces(ts0) + seq![' '];
        assert(join_spaces(ts0).push(' ') =~= a);
        lemma_tokens_push_sep(join_spaces(ts0), ' ');
        assert(a.last() == ' ');
        lemma_tokens_append_word(a, w);
        assert(join_spaces(ts) == a + w);
        assert(ts0.push(w) =~= ts);
    }
}

/// Concatenating a text's words in order, one space between each pair,
/// yields its whitespace-normalized form: a text with the very same words.
pub proof fn lemma_tokenize_join_round_trip(s: Seq<char>)
    ensures
        tokens_of(join_spaces(tokens_of(s))) == tokens_of(s),
{
    lemma_tokens_nonempty(s);
    lemma_tokens_join(tokens_of(s));
}

/// Whether `c` is one of the tokenizer's delimiters.
fn is_sep_exec(c: char) -> (r: bool)
    ensures
        r == is_word_sep(c),
{
    c == ' ' || c == '\t' || c == '\n' || c == '\r' || c == '\x0b' || c == '\x0c'
}

} // verus!
