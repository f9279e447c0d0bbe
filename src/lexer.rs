//! Splits source text into lines, lines into words, and classifies the words
//! into tokens, with an end-of-line marker after each line.
use vstd::prelude::*;

use crate::error::{AssemblyError, ErrorCode, Fault};
use crate::token::{
    chars_of, items_view, lower_text, to_lower, token_kind_text, Lexeme, Token, TokenView,
    TokenizingError, EOL,
};

verus! {

/// Characters with the Unicode `White_Space` property.
pub open spec fn is_whitespace(c: char) -> bool {
    ('\u{9}' <= c && c <= '\u{d}') || c == ' ' || c == '\u{85}' || c == '\u{a0}' || c
        == '\u{1680}' || ('\u{2000}' <= c && c <= '\u{200a}') || c == '\u{2028}' || c
        == '\u{2029}' || c == '\u{202f}' || c == '\u{205f}' || c == '\u{3000}'
}

fn whitespace(c: char) -> (r: bool)
    ensures
        r == is_whitespace(c),
{
    ('\u{9}' <= c && c <= '\u{d}') || c == ' ' || c == '\u{85}' || c == '\u{a0}' || c
        == '\u{1680}' || ('\u{2000}' <= c && c <= '\u{200a}') || c == '\u{2028}' || c
        == '\u{2029}' || c == '\u{202f}' || c == '\u{205f}' || c == '\u{3000}'
}

/// The finished lines of `s` and the line still open at its end.
pub open spec fn split_state(s: Seq<char>) -> (Seq<Seq<char>>, Seq<char>)
    decreases s.len(),
{
    if s.len() == 0 {
        (seq![], seq![])
    } else {
        let (done, open) = split_state(s.drop_last());
        if s.last() == '\n' {
            (done.push(open), seq![])
        } else {
            (done, open.push(s.last()))
        }
    }
}

/// The lines of `s`: split at each `\n`, with no empty line after a final
/// `\n`.
pub open spec fn source_lines(s: Seq<char>) -> Seq<Seq<char>> {
    let (done, open) = split_state(s);
    if open.len() > 0 {
        done.push(open)
    } else {
        done
    }
}

fn split_lines(s: &[char]) -> (r: Vec<Vec<char>>)
    ensures
        lines_view(r@) == source_lines(s@),
{
    let mut done: Vec<Vec<char>> = Vec::new();
    let mut open: Vec<char> = Vec::new();
    let mut i: usize = 0;
    while i < s.len()
        invariant
            i <= s@.len(),
            (lines_view(done@), open@) == split_state(s@.take(i as int)),
        decreases s@.len() - i,
    {
        assert(s@.take(i + 1).drop_last() =~= s@.take(i as int));
        if s[i] == '\n' {
            let line = open;
            open = Vec::new();
            done.push(line);
            assert(lines_view(done@) =~= split_state(s@.take(i as int)).0.push(
                line@,
            ));
        } else {
            open.push(s[i]);
        }
        i += 1;
    }
    assert(s@.take(i as int) =~= s@);
    if open.len() > 0 {
        let ghost d = lines_view(done@);
        done.push(open);
        assert(lines_view(done@) =~= d.push(open@));
    }
    done
}

/// A word of a line: its lower-cased text and its columns `[start, end)`.
pub struct Word {
    pub text: Seq<char>,
    pub start: nat,
    pub end: nat,
}

/// The word accumulated over `line[start..i]`, if any.
pub open spec fn flush(line: Seq<char>, start: nat, i: nat) -> Seq<Word> {
    if start < i {
        seq![Word { text: lower_text(line.subrange(start as int, i as int)), start, end: i }]
    } else {
        seq![]
    }
}

/// The words of `line` from column `i` on, with a word open since `start`.
/// A `;` ends the line, whitespace separates words, and a comma is a word of
/// its own.
pub open spec fn words_from(line: Seq<char>, i: nat, start: nat) -> Seq<Word>
    decreases line.len() - i,
{
    if i >= line.len() || line[i as int] == ';' {
        flush(line, start, i)
    } else if is_whitespace(line[i as int]) {
        flush(line, start, i) + words_from(line, i + 1, i + 1)
    } else if line[i as int] == ',' {
        flush(line, start, i) + seq![Word { text: seq![','], start: i, end: i + 1 }] + words_from(
            line,
            i + 1,
            i + 1,
        )
    } else {
        words_from(line, i + 1, start)
    }
}

pub open spec fn line_words(line: Seq<char>) -> Seq<Word> {
    words_from(line, 0, 0)
}

/// A word as the lexer holds it.
pub struct RawWord {
    pub text: Vec<char>,
    pub start: usize,
    pub end: usize,
}

impl View for RawWord {
    type V = Word;

    open spec fn view(&self) -> Word {
        Word { text: self.text@, start: self.start as nat, end: self.end as nat }
    }
}

fn push_word(words: &mut Vec<RawWord>, acc: &Vec<char>, start: usize, i: usize)
    requires
        start <= i,
    ensures
        words_view(final(words)@) == words_view(old(words)@) + (if start < i {
            seq![Word { text: acc@, start: start as nat, end: i as nat }]
        } else {
            seq![]
        }),
{
    let ghost before = words_view(words@);
    if start < i {
        let mut text: Vec<char> = Vec::new();
        let mut k: usize = 0;
        while k < acc.len()
            invariant
                k <= acc@.len(),
                text@ == acc@.take(k as int),
            decreases acc@.len() - k,
        {
            text.push(acc[k]);
            k += 1;
            assert(text@ =~= acc@.take(k as int));
        }
        assert(text@ =~= acc@);
        words.push(RawWord { text, start, end: i });
    }
    assert(words_view(words@) =~= before + (if start < i {
        seq![Word { text: acc@, start: start as nat, end: i as nat }]
    } else {
        seq![]
    }));
}

/// Splits a line into its words.
fn split_words(line: &[char]) -> (r: Vec<RawWord>)
    ensures
        words_view(r@) == line_words(line@),
{
    let mut words: Vec<RawWord> = Vec::new();
    let mut acc: Vec<char> = Vec::new();
    let mut start: usize = 0;
    let mut i: usize = 0;
    while i < line.len() && line[i] != ';'
        invariant
            start <= i <= line@.len(),
            acc@ == lower_text(line@.subrange(start as int, i as int)),
            words_view(words@) + words_from(line@, i as nat, start as nat)
                == line_words(line@),
        decreases line@.len() - i,
    {
        let c = line[i];
        if whitespace(c) || c == ',' {
            assert(flush(line@, start as nat, i as nat) == (if start < i {
                seq![Word { text: acc@, start: start as nat, end: i as nat }]
            } else {
                seq![]
            }));
            push_word(&mut words, &acc, start, i);
            if c == ',' {
                let ghost w1 = words_view(words@);
                let comma: Vec<char> = vec![','];
                assert(comma@ =~= seq![',']);
                words.push(RawWord { text: comma, start: i, end: i + 1 });
                assert(words_view(words@) =~= w1 + seq![
                    Word { text: seq![','], start: i as nat, end: (i + 1) as nat },
                ]);
            }
            acc = Vec::new();
            i += 1;
            start = i;
            assert(acc@ =~= lower_text(line@.subrange(start as int, i as int)));
        } else {
            acc.push(to_lower(c));
            i += 1;
            assert(acc@ =~= lower_text(line@.subrange(start as int, i as int)));
        }
    }
    assert(flush(line@, start as nat, i as nat) == (if start < i {
        seq![Word { text: acc@, start: start as nat, end: i as nat }]
    } else {
        seq![]
    }));
    push_word(&mut words, &acc, start, i);
    assert(words_view(words@) =~= line_words(line@));
    words
}

/// Every word has at least one character.
pub open spec fn all_nonempty(ws: Seq<Word>) -> bool {
    forall|k: int| 0 <= k < ws.len() ==> (#[trigger] ws[k]).text.len() > 0
}

proof fn lemma_words_from_nonempty(line: Seq<char>, i: nat, start: nat)
    requires
        start <= i <= line.len(),
    ensures
        all_nonempty(words_from(line, i, start)),
    decreases line.len() - i,
{
    if i < line.len() && line[i as int] != ';' {
        lemma_words_from_nonempty(line, i + 1, i + 1);
        lemma_words_from_nonempty(line, i + 1, start);
        let f = flush(line, start, i);
        let rest = words_from(line, i + 1, i + 1);
        let comma = seq![Word { text: seq![','], start: i, end: i + 1 }];
        assert(all_nonempty(f));
        assert(all_nonempty(f + rest));
        assert(all_nonempty(f + comma));
        assert(all_nonempty(f + comma + rest));
    }
}

pub open spec fn token_items(ts: Seq<TokenView>) -> Seq<Option<TokenView>> {
    ts.map_values(|t: TokenView| Some(t))
}

pub open spec fn words_view(ws: Seq<RawWord>) -> Seq<Word> {
    ws.map_values(|w: RawWord| w@)
}

pub open spec fn lines_view(ls: Seq<Vec<char>>) -> Seq<Seq<char>> {
    ls.map_values(|l: Vec<char>| l@)
}

/// The tokens of a line's words up to the first word that cannot be
/// classified, and that word's failure.
pub open spec fn lex_words(words: Seq<Word>, line: nat) -> (
    Seq<TokenView>,
    Option<(TokenView, TokenizingError)>,
)
    decreases words.len(),
{
    if words.len() == 0 {
        (seq![], None)
    } else {
        let (ts, err) = lex_words(words.drop_last(), line);
        if err is Some {
            (ts, err)
        } else {
            let w = words.last();
            match token_kind_text(w.text) {
                Ok(k) => (ts.push(TokenView { kind: k, start: w.start, end: w.end, line }), None),
                Err(e) => (
                    ts,
                    Some((TokenView { kind: Lexeme::Error, start: w.start, end: w.end, line }, e)),
                ),
            }
        }
    }
}

/// The token stream of the lines, lines numbered from 1, with `None` after
/// each line; it stops at the first word that cannot be classified, which
/// comes second.
pub open spec fn lex_lines(lines: Seq<Seq<char>>) -> (
    Seq<Option<TokenView>>,
    Option<(TokenView, TokenizingError)>,
)
    decreases lines.len(),
{
    if lines.len() == 0 {
        (seq![], None)
    } else {
        let (items, err) = lex_lines(lines.drop_last());
        if err is Some {
            (items, err)
        } else {
            let (ts, e) = lex_words(line_words(lines.last()), lines.len());
            (
                items + token_items(ts) + (if e is None {
                    seq![None]
                } else {
                    seq![]
                }),
                e,
            )
        }
    }
}

/// The token stream of a source text.
pub open spec fn lex(src: Seq<char>) -> (Seq<Option<TokenView>>, Option<(TokenView, TokenizingError)>) {
    lex_lines(source_lines(src))
}

proof fn lemma_lex_words_stop(words: Seq<Word>, line: nat, k: int)
    requires
        0 <= k <= words.len(),
        lex_words(words.take(k), line).1 is Some,
    ensures
        lex_words(words, line) == lex_words(words.take(k), line),
    decreases words.len(),
{
    if k < words.len() {
        assert(words.drop_last().take(k) =~= words.take(k));
        lemma_lex_words_stop(words.drop_last(), line, k);
    } else {
        assert(words.take(k) =~= words);
    }
}

proof fn lemma_lex_lines_stop(lines: Seq<Seq<char>>, k: int)
    requires
        0 <= k <= lines.len(),
        lex_lines(lines.take(k)).1 is Some,
    ensures
        lex_lines(lines) == lex_lines(lines.take(k)),
    decreases lines.len(),
{
    if k < lines.len() {
        assert(lines.drop_last().take(k) =~= lines.take(k));
        lemma_lex_lines_stop(lines.drop_last(), k);
    } else {
        assert(lines.take(k) =~= lines);
    }
}

/// Classifies the words of line `line`, appending a token for each to
/// `channel`, up to the first word that cannot be classified.
fn scan_line(words: &Vec<RawWord>, line: usize, channel: &mut Vec<Result<Token, EOL>>) -> (r:
    Result<(), AssemblyError>)
    requires
        all_nonempty(words_view(words@)),
    ensures
        items_view(final(channel)@) == items_view(old(channel)@) + token_items(
            lex_words(words_view(words@), line as nat).0,
        ),
        match lex_words(words_view(words@), line as nat).1 {
            None => r is Ok,
            Some(f) => r matches Err(a) && a.token@ == f.0 && a.code@ == Fault::Token(f.1),
        },
{
    let ghost ws = words_view(words@);
    let ghost start = items_view(channel@);
    let mut i: usize = 0;
    while i < words.len()
        invariant
            i <= words@.len(),
            ws == words_view(words@),
            all_nonempty(ws),
            start == items_view(old(channel)@),
            lex_words(ws.take(i as int), line as nat).1 is None,
            items_view(channel@) == start + token_items(lex_words(ws.take(i as int), line as nat).0),
        decreases words@.len() - i,
    {
        let w = &words[i];
        assert(ws.take(i + 1).drop_last() =~= ws.take(i as int));
        assert(ws.take(i + 1).last() == w@);
        assert(w@.text.len() > 0);
        let sent = Token::try_send(
            w.text.as_slice(),
            std::ops::Range { start: w.start, end: w.end },
            line,
            channel,
        );
        match sent {
            Ok(()) => {
                let ghost ts = lex_words(ws.take(i as int), line as nat).0;
                let ghost ts2 = lex_words(ws.take(i + 1), line as nat).0;
                assert(ts2 == ts.push(ts2.last()));
                assert(token_items(ts2) =~= token_items(ts).push(Some(ts2.last())));
            },
            Err((tok, e)) => {
                proof {
                    assert(lex_words(ws.take(i + 1), line as nat).1 == Some((tok@, e)));
                    assert(lex_words(ws.take(i + 1), line as nat).0 == lex_words(
                        ws.take(i as int),
                        line as nat,
                    ).0);
                    lemma_lex_words_stop(ws, line as nat, i + 1);
                }
                return Err(AssemblyError::new(tok, ErrorCode::Token(e)));
            },
        }
        i += 1;
    }
    assert(ws.take(i as int) =~= ws);
    Ok(())
}

/// Splits `src` into tokens, appended to `channel` with an end-of-line marker
/// after each line, up to the first word that cannot be classified.
pub fn scan(src: &str, channel: &mut Vec<Result<Token, EOL>>) -> (r: Result<(), AssemblyError>)
    ensures
        items_view(final(channel)@) == items_view(old(channel)@) + lex(src@).0,
        match lex(src@).1 {
            None => r is Ok,
            Some(f) => r matches Err(a) && a.token@ == f.0 && a.code@ == Fault::Token(f.1),
        },
{
    let chars = chars_of(src);
    let lines = split_lines(chars.as_slice());
    let ghost ls = source_lines(src@);
    let ghost start = items_view(channel@);
    let mut i: usize = 0;
    while i < lines.len()
        invariant
            i <= lines@.len(),
            ls == lines_view(lines@),
            ls == source_lines(src@),
            start == items_view(old(channel)@),
            lex_lines(ls.take(i as int)).1 is None,
            items_view(channel@) == start + lex_lines(ls.take(i as int)).0,
        decreases lines@.len() - i,
    {
        assert(ls.take(i + 1).drop_last() =~= ls.take(i as int));
        assert(ls.take(i + 1).last() == lines@[i as int]@);
        let words = split_words(lines[i].as_slice());
        proof {
            lemma_words_from_nonempty(lines@[i as int]@, 0, 0);
        }
        assert(ls.take(i + 1).last() == lines@[i as int]@);
        let res = scan_line(&words, i + 1, channel);
        match res {
            Ok(()) => {
                let ghost mid = items_view(channel@);
                channel.push(Err(EOL));
                assert(items_view(channel@) =~= mid.push(None));
                assert(items_view(channel@) =~= start + lex_lines(ls.take(i + 1)).0);
            },
            Err(err) => {
                proof {
                    let ghost lw = lex_words(line_words(ls.take(i + 1).last()), (i + 1) as nat);
                    assert(lw.1 is Some);
                    assert(lex_lines(ls.take(i + 1)).1 == lw.1);
                    assert(lex_lines(ls.take(i + 1)).0 =~= lex_lines(ls.take(i as int)).0
                        + token_items(lw.0));
                    lemma_lex_lines_stop(ls, i + 1);
                }
                assert(items_view(channel@) =~= start + lex_lines(ls.take(i + 1)).0);
                return Err(err);
            },
        }
        i += 1;
    }
    assert(ls.take(i as int) =~= ls);
    Ok(())
}

proof fn lemma_comment_from(line: Seq<char>, comment: Seq<char>, i: nat, start: nat)
    requires
        start <= i <= line.len(),
    ensures
        words_from(line + seq![';'] + comment, i, start) == words_from(line, i, start),
    decreases line.len() - i,
{
    let full = line + seq![';'] + comment;
    assert(full.subrange(start as int, i as int) =~= line.subrange(start as int, i as int));
    if i < line.len() {
        assert(full[i as int] == line[i as int]);
        lemma_comment_from(line, comment, i + 1, i + 1);
        lemma_comment_from(line, comment, i + 1, start);
    } else {
        assert(full[i as int] == ';');
    }
}

/// A comment appended to a line leaves its words, and so its tokens, as they
/// were.
pub proof fn lemma_comment_ignored(line: Seq<char>, comment: Seq<char>)
    ensures
        line_words(line + seq![';'] + comment) == line_words(line),
{
    lemma_comment_from(line, comment, 0, 0);
}

proof fn lemma_lower_twice(s: Seq<char>)
    ensures
        lower_text(lower_text(s)) == lower_text(s),
{
    assert(lower_text(lower_text(s)) =~= lower_text(s));
}

proof fn lemma_case_from(line: Seq<char>, i: nat, start: nat)
    requires
        start <= i <= line.len(),
    ensures
        words_from(lower_text(line), i, start) == words_from(line, i, start),
    decreases line.len() - i,
{
    let low = lower_text(line);
    assert(low.subrange(start as int, i as int) =~= lower_text(
        line.subrange(start as int, i as int),
    ));
    lemma_lower_twice(line.subrange(start as int, i as int));
    if i < line.len() {
        lemma_case_from(line, i + 1, i + 1);
        lemma_case_from(line, i + 1, start);
    }
}

/// Upper and lower case read alike: a line gives the same words, and so the
/// same tokens, as its lower-case form.
pub proof fn lemma_case_insensitive(line: Seq<char>)
    ensures
        line_words(lower_text(line)) == line_words(line),
{
    lemma_case_from(line, 0, 0);
}

proof fn lemma_lex_lines_by_words(a: Seq<Seq<char>>, b: Seq<Seq<char>>)
    requires
        a.len() == b.len(),
        forall|i: int| 0 <= i < a.len() ==> line_words(#[trigger] a[i]) == line_words(b[i]),
    ensures
        lex_lines(a) == lex_lines(b),
    decreases a.len(),
{
    if a.len() > 0 {
        lemma_lex_lines_by_words(a.drop_last(), b.drop_last());
        assert(line_words(a.last()) == line_words(b.last()));
    }
}

/// Appending a comment to any line of a program leaves its token stream, and
/// so its assembly, as it was.
pub proof fn lemma_comment_keeps_program(lines: Seq<Seq<char>>, k: int, comment: Seq<char>)
    requires
        0 <= k < lines.len(),
    ensures
        lex_lines(lines.update(k, lines[k] + seq![';'] + comment)) == lex_lines(lines),
{
    let changed = lines.update(k, lines[k] + seq![';'] + comment);
    assert forall|i: int| 0 <= i < changed.len() implies line_words(#[trigger] changed[i])
        == line_words(lines[i]) by {
        if i == k {
            lemma_comment_ignored(lines[k], comment);
        }
    }
    lemma_lex_lines_by_words(changed, lines);
}

/// A program and its lower-case form give the same token stream, and so the
/// same assembly.
pub proof fn lemma_case_keeps_program(lines: Seq<Seq<char>>)
    ensures
        lex_lines(lines.map_values(|l: Seq<char>| lower_text(l))) == lex_lines(lines),
{
    let low = lines.map_values(|l: Seq<char>| lower_text(l));
    assert forall|i: int| 0 <= i < low.len() implies line_words(#[trigger] low[i]) == line_words(
        lines[i],
    ) by {
        lemma_case_insensitive(lines[i]);
    }
    lemma_lex_lines_by_words(low, lines);
}

/// `split_state` carried on from the state `st` over the characters `t`.
pub open spec fn split_from(st: (Seq<Seq<char>>, Seq<char>), t: Seq<char>) -> (
    Seq<Seq<char>>,
    Seq<char>,
)
    decreases t.len(),
{
    if t.len() == 0 {
        st
    } else {
        let (done, open) = split_from(st, t.drop_last());
        if t.last() == '\n' {
            (done.push(open), seq![])
        } else {
            (done, open.push(t.last()))
        }
    }
}

pub open spec fn no_newline(t: Seq<char>) -> bool {
    forall|i: int| 0 <= i < t.len() ==> t[i] != '\n'
}

proof fn lemma_split_concat(a: Seq<char>, t: Seq<char>)
    ensures
        split_state(a + t) == split_from(split_state(a), t),
    decreases t.len(),
{
    if t.len() == 0 {
        assert(a + t =~= a);
    } else {
        assert((a + t).drop_last() =~= a + t.drop_last());
        assert((a + t).last() == t.last());
        lemma_split_concat(a, t.drop_last());
    }
}

proof fn lemma_split_no_newline(st: (Seq<Seq<char>>, Seq<char>), t: Seq<char>)
    requires
        no_newline(t),
    ensures
        split_from(st, t) == (st.0, st.1 + t),
    decreases t.len(),
{
    if t.len() == 0 {
        assert(st.1 + t =~= st.1);
    } else {
        lemma_split_no_newline(st, t.drop_last());
        assert(st.1 + t.drop_last() + seq![t.last()] =~= st.1 + t);
    }
}

proof fn lemma_split_done_prefix(done: Seq<Seq<char>>, open: Seq<char>, t: Seq<char>)
    ensures
        split_from((done, open), t) == (
            done + split_from((seq![], open), t).0,
            split_from((seq![], open), t).1,
        ),
    decreases t.len(),
{
    if t.len() == 0 {
        assert(done + seq![] =~= done);
    } else {
        lemma_split_done_prefix(done, open, t.drop_last());
        let inner = split_from((seq![], open), t.drop_last());
        assert((done + inner.0).push(inner.1) =~= done + inner.0.push(inner.1));
    }
}

/// The lines of `pre + line + post`, where `line` is a whole line: `pre` ends
/// a line and `post` starts a new one.
pub proof fn lemma_lines_around(pre: Seq<char>, line: Seq<char>, post: Seq<char>)
    requires
        no_newline(line),
        pre.len() == 0 || pre.last() == '\n',
        post.len() == 0 || post[0] == '\n',
    ensures
        ({
            let done = split_state(pre).0;
            let rest = split_from((seq![], seq![]), post.skip(1));
            source_lines(pre + line + post) == if post.len() == 0 {
                if line.len() > 0 {
                    done.push(line)
                } else {
                    done
                }
            } else if rest.1.len() > 0 {
                done.push(line) + rest.0.push(rest.1)
            } else {
                done.push(line) + rest.0
            }
        }),
{
    let done = split_state(pre).0;
    assert(split_state(pre).1 == Seq::<char>::empty()) by {
        if pre.len() > 0 {
            assert(pre.last() == '\n');
        }
    }
    lemma_split_concat(pre, line);
    lemma_split_no_newline(split_state(pre), line);
    assert(seq![] + line =~= line);
    lemma_split_concat(pre + line, post);
    if post.len() > 0 {
        let rest = post.skip(1);
        assert(post =~= seq!['\n'] + rest);
        let one: Seq<char> = seq!['\n'];
        assert(one.drop_last() =~= Seq::<char>::empty());
        assert(split_from((done, line), one.drop_last()) == (done, line));
        assert(one.last() == '\n');
        assert(split_from((done, line), one) == (done.push(line), Seq::<char>::empty()));
        lemma_split_concat_state((done, line), one, rest);
        lemma_split_done_prefix(done.push(line), seq![], rest);
        assert(split_state(pre + line) == (done, line));
    } else {
        assert(pre + line + post =~= pre + line);
    }
}

proof fn lemma_split_concat_state(st: (Seq<Seq<char>>, Seq<char>), a: Seq<char>, t: Seq<char>)
    ensures
        split_from(st, a + t) == split_from(split_from(st, a), t),
    decreases t.len(),
{
    if t.len() == 0 {
        assert(a + t =~= a);
    } else {
        assert((a + t).drop_last() =~= a + t.drop_last());
        assert((a + t).last() == t.last());
        lemma_split_concat_state(st, a, t.drop_last());
    }
}

} // verus!
