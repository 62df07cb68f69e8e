//! Text primitives shared by the scoring and rollup code.

use vstd::prelude::*;

verus! {

/// The lowercase form of a text under the Unicode case mapping of the
/// standard library.
pub uninterp spec fn lowercased(text: Seq<char>) -> Seq<char>;

/// Lowercases `text` with `str::to_lowercase`.
///
/// Trusted: the result is the Unicode lowercase form of the argument, which
/// depends on the argument alone. Nothing else is claimed about it.
#[verifier::external_body]
pub(crate) fn lowercase(text: &str) -> (lowered: String)
    ensures
        lowered@ == lowercased(text@),
{
    text.to_lowercase()
}

/// Appends one character with `String::push`.
///
/// Trusted: the text afterwards is the text before followed by `c`.
#[verifier::external_body]
pub(crate) fn push_char(text: &mut String, c: char)
    ensures
        final(text)@ == old(text)@.push(c),
{
    text.push(c)
}

/// The characters of a list of strings, string by string.
pub open spec fn strs(list: Seq<String>) -> Seq<Seq<char>> {
    Seq::new(list.len(), |i: int| list[i]@)
}

/// The characters of `text`, in order.
pub fn chars_of(text: &str) -> (chars: Vec<char>)
    ensures
        chars@ == text@,
{
    let mut chars: Vec<char> = Vec::new();
    for c in it: text.chars()
        invariant
            chars@ == it.seq().take(it.index() as int),
            it.seq() == text@,
    {
        chars.push(c);
    }
    chars
}

/// The position of the last `/` among the first `n` characters of `path`,
/// or `-1` where there is none.
pub open spec fn last_slash(path: Seq<char>, n: nat) -> int
    decreases n,
{
    if n == 0 {
        -1
    } else if path[n - 1] == '/' {
        n - 1
    } else {
        last_slash(path, (n - 1) as nat)
    }
}

/// What follows the last `/` of `path`; all of it where there is none.
pub open spec fn leaf(path: Seq<char>) -> Seq<char> {
    path.skip(last_slash(path, path.len()) + 1)
}

/// What stands before the last `/` of `path`; `.` where there is none.
pub open spec fn parent(path: Seq<char>) -> Seq<char> {
    if last_slash(path, path.len()) < 0 {
        seq!['.']
    } else {
        path.take(last_slash(path, path.len()))
    }
}

/// Whether `name` ends in `.md`.
pub open spec fn ends_with_md(name: Seq<char>) -> bool {
    name.len() >= 3 && name[name.len() - 3] == '.' && name[name.len() - 2] == 'm' && name[name.len()
        - 1] == 'd'
}

/// `name` without the `.md` suffixes at its end.
pub open spec fn strip_md(name: Seq<char>) -> Seq<char>
    decreases name.len(),
{
    if ends_with_md(name) {
        strip_md(name.take(name.len() - 3))
    } else {
        name
    }
}

/// The position of the last `/` is one, and nothing after it is.
pub proof fn lemma_last_slash(path: Seq<char>, n: nat)
    requires
        n <= path.len(),
    ensures
        -1 <= last_slash(path, n) < n,
        last_slash(path, n) >= 0 ==> path[last_slash(path, n)] == '/',
        forall|j: int| last_slash(path, n) < j < n ==> path[j] != '/',
    decreases n,
{
    if n > 0 && path[n - 1] != '/' {
        lemma_last_slash(path, (n - 1) as nat);
    }
}

/// The characters of `chars` from `from` up to `to`, as a string.
pub fn collect(chars: &Vec<char>, from: usize, to: usize) -> (text: String)
    requires
        from <= to <= chars.len(),
    ensures
        text@ == chars@.subrange(from as int, to as int),
{
    let mut text = String::new();
    let mut i: usize = from;
    while i < to
        invariant
            from <= i <= to,
            to <= chars.len(),
            text@ == chars@.subrange(from as int, i as int),
        decreases to - i,
    {
        push_char(&mut text, chars[i]);
        assert(text@ =~= chars@.subrange(from as int, i + 1));
        i = i + 1;
    }
    text
}

/// One past the position of the last `/` of `chars`; 0 where there is none.
pub fn after_last_slash(chars: &Vec<char>) -> (start: usize)
    ensures
        start == last_slash(chars@, chars@.len()) + 1,
        start <= chars.len(),
{
    let mut n: usize = chars.len();
    while n > 0
        invariant
            n <= chars.len(),
            last_slash(chars@, chars@.len()) == last_slash(chars@, n as nat),
        decreases n,
    {
        if chars[n - 1] == '/' {
            return n;
        }
        n = n - 1;
    }
    0
}

/// The leaf of `path` without its `.md` suffixes.
pub fn leaf_name(path: &str) -> (name: String)
    ensures
        name@ == strip_md(leaf(path@)),
{
    let chars = chars_of(path);
    let start = after_last_slash(&chars);
    let ghost tail = leaf(path@);
    let mut end: usize = chars.len();
    assert(tail.take(end - start) =~= tail);
    while end - start >= 3 && chars[end - 3] == '.' && chars[end - 2] == 'm' && chars[end - 1] == 'd'
        invariant
            start <= end <= chars.len(),
            chars@ == path@,
            tail == path@.skip(start as int),
            strip_md(tail) == strip_md(tail.take(end - start)),
        decreases end,
    {
        proof {
            let now = tail.take(end - start);
            assert(ends_with_md(now));
            assert(now.take(now.len() - 3) =~= tail.take(end - 3 - start));
        }
        end = end - 3;
    }
    proof {
        let now = tail.take(end - start);
        assert(!ends_with_md(now));
        assert(chars@.subrange(start as int, end as int) =~= now);
    }
    collect(&chars, start, end)
}

/// The folder of `path`: what stands before its last `/`, or `.`.
pub fn parent_of(path: &str) -> (folder: String)
    ensures
        folder@ == parent(path@),
{
    let chars = chars_of(path);
    let start = after_last_slash(&chars);
    if start == 0 {
        let mut dot = String::new();
        push_char(&mut dot, '.');
        assert(dot@ =~= seq!['.']);
        dot
    } else {
        assert(chars@.subrange(0, start - 1) =~= path@.take(start - 1));
        collect(&chars, 0, start - 1)
    }
}

/// The leaf of `path`.
pub fn leaf_of(path: &str) -> (name: String)
    ensures
        name@ == leaf(path@),
{
    let chars = chars_of(path);
    let start = after_last_slash(&chars);
    assert(chars@.subrange(start as int, chars.len() as int) =~= path@.skip(start as int));
    collect(&chars, start, chars.len())
}

/// Whether `c` is white space in the sense of Unicode.
pub open spec fn is_white_space(c: char) -> bool {
    ('\u{9}' <= c && c <= '\u{d}') || c == ' ' || c == '\u{85}' || c == '\u{a0}' || c == '\u{1680}'
        || ('\u{2000}' <= c && c <= '\u{200a}') || c == '\u{2028}' || c == '\u{2029}' || c
        == '\u{202f}' || c == '\u{205f}' || c == '\u{3000}'
}

/// `text` without the white space at its start.
pub open spec fn skip_space(text: Seq<char>) -> Seq<char>
    decreases text.len(),
{
    if text.len() > 0 && is_white_space(text[0]) {
        skip_space(text.skip(1))
    } else {
        text
    }
}

/// `text` without the white space at its end.
pub open spec fn drop_space(text: Seq<char>) -> Seq<char>
    decreases text.len(),
{
    if text.len() > 0 && is_white_space(text[text.len() - 1]) {
        drop_space(text.drop_last())
    } else {
        text
    }
}

/// `text` without the white space around it.
pub open spec fn trimmed(text: Seq<char>) -> Seq<char> {
    drop_space(skip_space(text))
}

/// Whether `text` is white space and nothing else.
pub open spec fn is_blank(text: Seq<char>) -> bool {
    forall|i: int| 0 <= i < text.len() ==> is_white_space(#[trigger] text[i])
}

/// Nothing is left of a blank text.
pub proof fn lemma_blank_trims_to_nothing(text: Seq<char>)
    requires
        is_blank(text),
    ensures
        trimmed(text).len() == 0,
    decreases text.len(),
{
    if text.len() > 0 {
        assert(is_white_space(text[0]));
        assert forall|i: int| 0 <= i < text.skip(1).len() implies is_white_space(
            #[trigger] text.skip(1)[i],
        ) by {
            assert(is_white_space(text[i + 1]));
        }
        lemma_blank_trims_to_nothing(text.skip(1));
    }
}

fn white_space(c: char) -> (yes: bool)
    ensures
        yes == is_white_space(c),
{
    ('\u{9}' <= c && c <= '\u{d}') || c == ' ' || c == '\u{85}' || c == '\u{a0}' || c == '\u{1680}'
        || ('\u{2000}' <= c && c <= '\u{200a}') || c == '\u{2028}' || c == '\u{2029}' || c
        == '\u{202f}' || c == '\u{205f}' || c == '\u{3000}'
}

/// `text` without the white space around it.
pub fn trim(text: &str) -> (inner: String)
    ensures
        inner@ == trimmed(text@),
{
    let chars = chars_of(text);
    let mut start: usize = 0;
    assert(text@.skip(0) =~= text@);
    while start < chars.len() && white_space(chars[start])
        invariant
            start <= chars.len(),
            chars@ == text@,
            skip_space(text@) == skip_space(text@.skip(start as int)),
        decreases chars.len() - start,
    {
        assert(text@.skip(start as int).skip(1) =~= text@.skip(start + 1));
        start = start + 1;
    }
    let ghost rest = text@.skip(start as int);
    assert(skip_space(text@) == rest);
    let mut end: usize = chars.len();
    assert(text@.subrange(start as int, end as int) =~= rest);
    while end > start && white_space(chars[end - 1])
        invariant
            start <= end <= chars.len(),
            chars@ == text@,
            rest == text@.skip(start as int),
            drop_space(rest) == drop_space(text@.subrange(start as int, end as int)),
        decreases end,
    {
        assert(text@.subrange(start as int, end as int).drop_last() =~= text@.subrange(
            start as int,
            end - 1,
        ));
        end = end - 1;
    }
    collect(&chars, start, end)
}

} // verus!
