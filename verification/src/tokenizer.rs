//! Splitting text into scoring terms.
//!
//! Runs of ASCII letters and digits become one term each when they have at
//! least two characters. Runs of CJK ideographs become one term per character
//! plus one per pair of neighbours. Everything else separates runs.

use vstd::prelude::*;
use crate::searcher::Searcher;
use crate::text::{chars_of, lowercase, lowercased, push_char, strs};

verus! {

/// How the scanner treats a character.
#[derive(Clone, Copy, Debug, PartialEq, Eq, Structural)]
pub enum CharKind {
    /// An ASCII letter or digit.
    Latin,
    /// An ideograph in U+4E00..=U+9FFF.
    Cjk,
    /// Anything else: it ends the run before it.
    Other,
}

/// Whether `c` is an ASCII letter or digit.
pub open spec fn is_latin(c: char) -> bool {
    ('0' <= c && c <= '9') || ('a' <= c && c <= 'z') || ('A' <= c && c <= 'Z')
}

/// Whether `c` lies in U+4E00..=U+9FFF.
pub open spec fn is_cjk(c: char) -> bool {
    '\u{4e00}' <= c && c <= '\u{9fff}'
}

pub open spec fn kind_of(c: char) -> CharKind {
    if is_latin(c) {
        CharKind::Latin
    } else if is_cjk(c) {
        CharKind::Cjk
    } else {
        CharKind::Other
    }
}

/// The terms of a run of ideographs: each character, and between two
/// neighbours the pair of them.
pub open spec fn cjk_tokens(run: Seq<char>) -> Seq<Seq<char>>
    decreases run.len(),
{
    if run.len() == 0 {
        Seq::empty()
    } else if run.len() == 1 {
        seq![seq![run[0]]]
    } else {
        cjk_tokens(run.drop_last()) + seq![
            seq![run[run.len() - 2], run[run.len() - 1]],
            seq![run[run.len() - 1]],
        ]
    }
}

/// The terms of a run of letters and digits: the run itself, unless it is a
/// single character.
pub open spec fn latin_tokens(run: Seq<char>) -> Seq<Seq<char>> {
    if run.len() >= 2 {
        seq![run]
    } else {
        Seq::empty()
    }
}

/// The terms of a finished run.
pub open spec fn flush(run: Seq<char>) -> Seq<Seq<char>> {
    if run.len() == 0 {
        Seq::empty()
    } else if kind_of(run[0]) == CharKind::Cjk {
        cjk_tokens(run)
    } else {
        latin_tokens(run)
    }
}

/// The terms of `text` when `run` is the unfinished run in front of it.
pub open spec fn scan(text: Seq<char>, run: Seq<char>) -> Seq<Seq<char>>
    decreases text.len(),
{
    if text.len() == 0 {
        flush(run)
    } else {
        let c = text[0];
        if kind_of(c) == CharKind::Other {
            flush(run) + scan(text.skip(1), Seq::empty())
        } else if run.len() == 0 || kind_of(run[0]) == kind_of(c) {
            scan(text.skip(1), run.push(c))
        } else {
            flush(run) + scan(text.skip(1), seq![c])
        }
    }
}

/// The terms of `text`, in order. Case is not touched here.
pub open spec fn tokens_of(text: Seq<char>) -> Seq<Seq<char>> {
    scan(text, Seq::empty())
}

/// Whether every character of `text` is an ideograph.
pub open spec fn all_cjk(text: Seq<char>) -> bool {
    forall|i: int| 0 <= i < text.len() ==> is_cjk(#[trigger] text[i])
}

/// A run of `n >= 1` characters yields `2n - 1` terms.
pub proof fn lemma_cjk_tokens_len(run: Seq<char>)
    ensures
        run.len() == 0 ==> cjk_tokens(run).len() == 0,
        run.len() >= 1 ==> cjk_tokens(run).len() == 2 * run.len() - 1,
    decreases run.len(),
{
    if run.len() >= 2 {
        lemma_cjk_tokens_len(run.drop_last());
    }
}

proof fn lemma_scan_cjk(text: Seq<char>, run: Seq<char>)
    requires
        all_cjk(text),
        all_cjk(run),
    ensures
        scan(text, run) == flush(run + text),
    decreases text.len(),
{
    if text.len() == 0 {
        assert(run + text =~= run);
    } else {
        let c = text[0];
        assert(is_cjk(c));
        assert(kind_of(c) == CharKind::Cjk);
        if run.len() > 0 {
            assert(is_cjk(run[0]));
        }
        let next = run.push(c);
        assert forall|i: int| 0 <= i < next.len() implies is_cjk(#[trigger] next[i]) by {
            if i < run.len() {
                assert(is_cjk(run[i]));
            }
        }
        assert forall|i: int| 0 <= i < text.skip(1).len() implies is_cjk(
            #[trigger] text.skip(1)[i],
        ) by {
            assert(is_cjk(text[i + 1]));
        }
        lemma_scan_cjk(text.skip(1), next);
        assert(next + text.skip(1) =~= run + text);
    }
}

/// Ideograph coverage: a text of `n >= 1` ideographs and nothing else has
/// exactly `n + (n - 1)` terms, the characters interleaved with the pairs.
pub proof fn lemma_cjk_coverage(text: Seq<char>)
    requires
        all_cjk(text),
        text.len() >= 1,
    ensures
        tokens_of(text) == cjk_tokens(text),
        tokens_of(text).len() == text.len() + (text.len() - 1),
{
    lemma_scan_cjk(text, Seq::empty());
    assert(Seq::<char>::empty() + text =~= text);
    assert(is_cjk(text[0]));
    lemma_cjk_tokens_len(text);
}

/// Lowercasing first changes nothing: a text whose lowercase form stays as
/// it is when lowercased once more has the terms of that form.
/// [`lowercase_is_stable`] tells whether a text is one.
pub proof fn lemma_tokenize_lowercase(text: Seq<char>)
    requires
        lowercased(lowercased(text)) == lowercased(text),
    ensures
        tokens_of(lowercased(lowercased(text))) == tokens_of(lowercased(text)),
{
}

/// Whether the lowercase form of `text` stays as it is when lowercased once
/// more. Where it does, the terms of that form are the terms of `text`.
pub fn lowercase_is_stable(text: &str) -> (stable: bool)
    ensures
        stable == (lowercased(lowercased(text@)) == lowercased(text@)),
        stable ==> tokens_of(lowercased(lowercased(text@))) == tokens_of(lowercased(text@)),
{
    let once = lowercase(text);
    let twice = lowercase(once.as_str());
    once == twice
}

fn classify(c: char) -> (kind: CharKind)
    ensures
        kind == kind_of(c),
{
    if ('0' <= c && c <= '9') || ('a' <= c && c <= 'z') || ('A' <= c && c <= 'Z') {
        CharKind::Latin
    } else if '\u{4e00}' <= c && c <= '\u{9fff}' {
        CharKind::Cjk
    } else {
        CharKind::Other
    }
}

fn single(c: char) -> (term: String)
    ensures
        term@ == seq![c],
{
    let mut term = String::new();
    push_char(&mut term, c);
    assert(term@ =~= seq![c]);
    term
}

fn pair(a: char, b: char) -> (term: String)
    ensures
        term@ == seq![a, b],
{
    let mut term = String::new();
    push_char(&mut term, a);
    push_char(&mut term, b);
    assert(term@ =~= seq![a, b]);
    term
}

proof fn lemma_strs_push(list: Seq<String>, s: String)
    ensures
        strs(list.push(s)) == strs(list).push(s@),
{
    assert(strs(list.push(s)) =~= strs(list).push(s@));
}

/// Appends the terms of the finished run `run` to `tokens`.
fn flush_run(run: &String, run_len: usize, cjk: bool, tokens: &mut Vec<String>)
    requires
        run@.len() == run_len,
        run_len > 0 ==> (cjk <==> kind_of(run@[0]) == CharKind::Cjk),
    ensures
        strs(final(tokens)@) == strs(old(tokens)@) + flush(run@),
{
    if run_len == 0 {
        assert(strs(tokens@) + flush(run@) =~= strs(tokens@));
    } else if cjk {
        Searcher::add_chinese_tokens(run.as_str(), tokens);
    } else if run_len >= 2 {
        let ghost before = tokens@;
        tokens.push(run.clone());
        proof {
            lemma_strs_push(before, *run);
            assert(strs(before).push(run@) =~= strs(before) + seq![run@]);
        }
    } else {
        assert(strs(tokens@) + flush(run@) =~= strs(tokens@));
    }
}

/// The terms of `text` as it stands, without lowercasing it first.
pub fn scan_tokens(text: &str) -> (tokens: Vec<String>)
    ensures
        strs(tokens@) == tokens_of(text@),
{
    let chars = chars_of(text);
    let mut tokens: Vec<String> = Vec::new();
    let mut run = String::new();
    let mut run_len: usize = 0;
    let mut cjk = false;
    let mut i: usize = 0;
    assert(text@.skip(0) =~= text@);
    assert(strs(tokens@) + scan(text@, run@) =~= tokens_of(text@));
    while i < chars.len()
        invariant
            i <= chars.len(),
            chars@ == text@,
            run@.len() == run_len,
            run_len <= i,
            run_len > 0 ==> (cjk <==> kind_of(run@[0]) == CharKind::Cjk),
            run_len > 0 ==> kind_of(run@[0]) != CharKind::Other,
            strs(tokens@) + scan(text@.skip(i as int), run@) == tokens_of(text@),
        decreases chars.len() - i,
    {
        let c = chars[i];
        let kind = classify(c);
        let ghost rest = text@.skip(i as int);
        let ghost before = strs(tokens@);
        let ghost pending = run@;
        proof {
            assert(rest.len() > 0);
            assert(rest[0] == c);
            assert(rest.skip(1) =~= text@.skip(i + 1));
        }
        match kind {
            CharKind::Other => {
                flush_run(&run, run_len, cjk, &mut tokens);
                run = String::new();
                run_len = 0;
                proof {
                    assert(scan(rest, pending) == flush(pending) + scan(
                        rest.skip(1),
                        Seq::empty(),
                    ));
                    assert((before + flush(pending)) + scan(rest.skip(1), Seq::empty()) =~= before
                        + scan(rest, pending));
                }
            },
            _ => {
                let now_cjk = match kind {
                    CharKind::Cjk => true,
                    _ => false,
                };
                if run_len > 0 && cjk != now_cjk {
                    flush_run(&run, run_len, cjk, &mut tokens);
                    run = String::new();
                    run_len = 0;
                    push_char(&mut run, c);
                    run_len = 1;
                    cjk = now_cjk;
                    proof {
                        assert(run@ =~= seq![c]);
                        assert(scan(rest, pending) == flush(pending) + scan(rest.skip(1), seq![c]));
                        assert((before + flush(pending)) + scan(rest.skip(1), seq![c]) =~= before
                            + scan(rest, pending));
                    }
                } else {
                    push_char(&mut run, c);
                    run_len = run_len + 1;
                    cjk = now_cjk;
                    proof {
                        assert(scan(rest, pending) == scan(rest.skip(1), pending.push(c)));
                    }
                }
            },
        }
        i = i + 1;
    }
    flush_run(&run, run_len, cjk, &mut tokens);
    proof {
        assert(text@.skip(i as int).len() == 0);
    }
    tokens
}

impl Searcher {
    /// Whether `c` is an ideograph in U+4E00..=U+9FFF.
    pub fn is_chinese_char(c: char) -> (yes: bool)
        ensures
            yes == is_cjk(c),
    {
        '\u{4e00}' <= c && c <= '\u{9fff}'
    }

    /// Appends to `tokens` each character of `text` and, between two
    /// neighbours, the pair of them.
    pub fn add_chinese_tokens(text: &str, tokens: &mut Vec<String>)
        ensures
            strs(final(tokens)@) == strs(old(tokens)@) + cjk_tokens(text@),
    {
        let chars = chars_of(text);
        let ghost before = strs(tokens@);
        let mut i: usize = 0;
        assert(text@.take(0) =~= Seq::<char>::empty());
        assert(before + cjk_tokens(text@.take(0)) =~= before);
        while i < chars.len()
            invariant
                i <= chars.len(),
                chars@ == text@,
                strs(tokens@) == before + cjk_tokens(text@.take(i as int)),
            decreases chars.len() - i,
        {
            let ghost done = text@.take(i as int);
            let ghost next = text@.take(i + 1);
            proof {
                assert(next.drop_last() =~= done);
                assert(next[next.len() - 1] == chars@[i as int]);
            }
            if i > 0 {
                let ghost list = tokens@;
                tokens.push(pair(chars[i - 1], chars[i]));
                proof {
                    lemma_strs_push(list, tokens@[tokens@.len() - 1]);
                    assert(tokens@ =~= list.push(tokens@[tokens@.len() - 1]));
                    assert(next[next.len() - 2] == chars@[i - 1]);
                }
            }
            let ghost list = tokens@;
            tokens.push(single(chars[i]));
            proof {
                lemma_strs_push(list, tokens@[tokens@.len() - 1]);
                assert(tokens@ =~= list.push(tokens@[tokens@.len() - 1]));
                if i > 0 {
                    assert(strs(tokens@) =~= before + cjk_tokens(next));
                } else {
                    assert(cjk_tokens(done) =~= Seq::<Seq<char>>::empty());
                    assert(strs(tokens@) =~= before + cjk_tokens(next));
                }
            }
            i = i + 1;
        }
        assert(text@.take(i as int) =~= text@);
    }

    /// The scoring terms of `text`: those of its lowercase form.
    pub fn tokenize(text: &str) -> (tokens: Vec<String>)
        ensures
            strs(tokens@) == tokens_of(lowercased(text@)),
    {
        let lowered = lowercase(text);
        scan_tokens(lowered.as_str())
    }
}

} // verus!
