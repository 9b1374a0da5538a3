//! Characters, words and lines: the lexical layer under the entry parser.

use vstd::prelude::*;

verus! {

/// ASCII white space: space, tab, line feed, form feed and carriage return.
pub open spec fn is_space(c: char) -> bool {
    c == ' ' || c == '\t' || c == '\n' || c == '\x0C' || c == '\r'
}

/// The number of leading characters of `s` that are not white space.
pub open spec fn word_len(s: Seq<char>) -> nat
    decreases s.len(),
{
    if s.len() == 0 || is_space(s[0]) {
        0
    } else {
        1 + word_len(s.drop_first())
    }
}

/// `word_len` stops at the first white space of `s`, or at its end.
pub proof fn lemma_word_len(s: Seq<char>)
    ensures
        word_len(s) <= s.len(),
        forall|i: int| 0 <= i < word_len(s) ==> !is_space(#[trigger] s[i]),
        word_len(s) < s.len() ==> is_space(s[word_len(s) as int]),
    decreases s.len(),
{
    if s.len() == 0 || is_space(s[0]) {
    } else {
        let t = s.drop_first();
        lemma_word_len(t);
        assert forall|i: int| 0 <= i < word_len(s) implies !is_space(#[trigger] s[i]) by {
            if i > 0 {
                assert(s[i] == t[i - 1]);
            }
        }
        if word_len(s) < s.len() {
            assert(s[word_len(s) as int] == t[word_len(t) as int]);
        }
    }
}

/// The words of `s`: its maximal runs of characters that are not white space,
/// from left to right.
pub open spec fn tokens(s: Seq<char>) -> Seq<Seq<char>>
    decreases s.len(),
    via tokens_decreases
{
    if s.len() == 0 {
        Seq::empty()
    } else if is_space(s[0]) {
        tokens(s.drop_first())
    } else {
        seq![s.take(word_len(s) as int)] + tokens(s.skip(word_len(s) as int))
    }
}

#[via_fn]
proof fn tokens_decreases(s: Seq<char>) {
    lemma_word_len(s);
}

/// A word that starts with `#` is a comment and takes no part in an entry.
pub open spec fn is_comment_token(t: Seq<char>) -> bool {
    t.len() > 0 && t[0] == '#'
}

/// The test that keeps the words that are no comments.
pub open spec fn is_field() -> spec_fn(Seq<char>) -> bool {
    |t: Seq<char>| !is_comment_token(t)
}

/// The words of `s` that are left once the comment words are taken out.
pub open spec fn fields(s: Seq<char>) -> Seq<Seq<char>> {
    tokens(s).filter(is_field())
}

/// A prefix of `n` characters without white space, followed by white space or
/// by the end of `s`, is the first word of `s`.
pub proof fn lemma_word_len_is(s: Seq<char>, n: int)
    requires
        0 <= n <= s.len(),
        forall|i: int| 0 <= i < n ==> !is_space(#[trigger] s[i]),
        n == s.len() || is_space(s[n]),
    ensures
        word_len(s) == n,
    decreases n,
{
    if n > 0 {
        let t = s.drop_first();
        assert forall|i: int| 0 <= i < n - 1 implies !is_space(#[trigger] t[i]) by {
            assert(t[i] == s[i + 1]);
        }
        lemma_word_len_is(t, n - 1);
    }
}

/// How `fields` unfolds at the front of `s`: white space is skipped, a
/// comment word is dropped, any other word is kept.
pub proof fn lemma_fields_unfold(s: Seq<char>)
    ensures
        s.len() == 0 ==> fields(s) == Seq::<Seq<char>>::empty(),
        s.len() > 0 && is_space(s[0]) ==> fields(s) == fields(s.drop_first()),
        s.len() > 0 && !is_space(s[0]) ==> fields(s) == (if s[0] == '#' {
            Seq::<Seq<char>>::empty()
        } else {
            seq![s.take(word_len(s) as int)]
        }) + fields(s.skip(word_len(s) as int)),
{
    reveal_with_fuel(Seq::filter, 2);
    if s.len() > 0 && !is_space(s[0]) {
        let n = word_len(s) as int;
        let w = s.take(n);
        let one = seq![w];
        let rest = tokens(s.skip(n));
        lemma_word_len(s);
        assert(w[0] == s[0]);
        assert(one.drop_last() =~= Seq::<Seq<char>>::empty());
        assert(one.filter(is_field()) =~= if s[0] == '#' {
            Seq::<Seq<char>>::empty()
        } else {
            one
        });
        Seq::filter_distributes_over_add(one, rest, is_field());
    }
}

/// The pieces of `chars` that the index pairs of `spans` cut out.
pub open spec fn pieces(chars: Seq<char>, spans: Seq<(usize, usize)>) -> Seq<Seq<char>> {
    Seq::new(spans.len(), |k: int| chars.subrange(spans[k].0 as int, spans[k].1 as int))
}

/// Tells white space from the other characters.
pub(crate) fn is_space_char(c: char) -> (r: bool)
    ensures
        r == is_space(c),
{
    c == ' ' || c == '\t' || c == '\n' || c == '\x0C' || c == '\r'
}

/// The characters of `s`, one element each.
pub(crate) fn chars_of(s: &str) -> (v: Vec<char>)
    ensures
        v@ == s@,
{
    let mut v: Vec<char> = Vec::new();
    for c in it: s.chars()
        invariant
            v@ == it.seq().take(it.index() as int),
            it.seq() == s@,
    {
        v.push(c);
    }
    v
}

/// Taken on trust of `String::push` of the standard library: the string
/// afterwards is the string before with `ch` added at its end.
pub assume_specification[ String::push ](s: &mut String, ch: char)
    ensures
        final(s)@ == old(s)@.push(ch),
;

/// A string of the characters `from..to` of `chars`.
pub(crate) fn string_of(chars: &Vec<char>, from: usize, to: usize) -> (s: String)
    requires
        from <= to <= chars.len(),
    ensures
        s@ == chars@.subrange(from as int, to as int),
{
    let mut s = String::new();
    let mut i: usize = from;
    while i < to
        invariant
            from <= i <= to <= chars.len(),
            s@ == chars@.subrange(from as int, i as int),
        decreases to - i,
    {
        s.push(chars[i]);
        proof {
            assert(chars@.subrange(from as int, i + 1) =~= chars@.subrange(
                from as int,
                i as int,
            ).push(chars@[i as int]));
        }
        i = i + 1;
    }
    s
}

/// Where the fields of the piece `from..to` of `chars` lie, in order.
pub(crate) fn field_spans(chars: &Vec<char>, from: usize, to: usize) -> (spans: Vec<(usize, usize)>)
    requires
        from <= to <= chars.len(),
    ensures
        pieces(chars@, spans@) == fields(chars@.subrange(from as int, to as int)),
        forall|k: int|
            0 <= k < spans.len() ==> from <= (#[trigger] spans[k]).0 < spans[k].1 <= to,
{
    let mut spans: Vec<(usize, usize)> = Vec::new();
    let mut i: usize = from;
    proof {
        assert(pieces(chars@, spans@) =~= Seq::<Seq<char>>::empty());
    }
    while i < to
        invariant
            from <= i <= to <= chars.len(),
            forall|k: int|
                0 <= k < spans.len() ==> from <= (#[trigger] spans[k]).0 < spans[k].1 <= to,
            fields(chars@.subrange(from as int, to as int)) == pieces(chars@, spans@) + fields(
                chars@.subrange(i as int, to as int),
            ),
        decreases to - i,
    {
        let ghost rest = chars@.subrange(i as int, to as int);
        proof {
            lemma_fields_unfold(rest);
        }
        if is_space_char(chars[i]) {
            proof {
                assert(rest.drop_first() =~= chars@.subrange(i + 1, to as int));
            }
            i = i + 1;
        } else {
            let start: usize = i;
            let mut j: usize = i + 1;
            while j < to && !is_space_char(chars[j])
                invariant
                    start < j <= to <= chars.len(),
                    forall|k: int| start <= k < j ==> !is_space(#[trigger] chars@[k]),
                decreases to - j,
            {
                j = j + 1;
            }
            proof {
                let n = j - start;
                assert forall|k: int| 0 <= k < n implies !is_space(#[trigger] rest[k]) by {
                    assert(rest[k] == chars@[start + k]);
                }
                lemma_word_len_is(rest, n);
                assert(rest.take(n) =~= chars@.subrange(start as int, j as int));
                assert(rest.skip(n) =~= chars@.subrange(j as int, to as int));
            }
            if chars[start] != '#' {
                let ghost before = pieces(chars@, spans@);
                spans.push((start, j));
                proof {
                    assert(pieces(chars@, spans@) =~= before + seq![
                        chars@.subrange(start as int, j as int),
                    ]);
                }
            }
            i = j;
        }
    }
    proof {
        lemma_fields_unfold(chars@.subrange(i as int, to as int));
    }
    spans
}

/// A line is a comment when its first word starts with `#`, that is, when
/// `#` is its first character that is not white space.
pub open spec fn is_comment_line(line: Seq<char>) -> bool {
    tokens(line).len() > 0 && is_comment_token(tokens(line)[0])
}

/// The number of characters of `s` before its first line feed.
pub open spec fn line_len(s: Seq<char>) -> nat
    decreases s.len(),
{
    if s.len() == 0 || s[0] == '\n' {
        0
    } else {
        1 + line_len(s.drop_first())
    }
}

/// `line_len` stops at the first line feed of `s`, or at its end.
pub proof fn lemma_line_len(s: Seq<char>)
    ensures
        line_len(s) <= s.len(),
        forall|i: int| 0 <= i < line_len(s) ==> #[trigger] s[i] != '\n',
        line_len(s) < s.len() ==> s[line_len(s) as int] == '\n',
    decreases s.len(),
{
    if s.len() == 0 || s[0] == '\n' {
    } else {
        let t = s.drop_first();
        lemma_line_len(t);
        assert forall|i: int| 0 <= i < line_len(s) implies #[trigger] s[i] != '\n' by {
            if i > 0 {
                assert(s[i] == t[i - 1]);
            }
        }
        if line_len(s) < s.len() {
            assert(s[line_len(s) as int] == t[line_len(t) as int]);
        }
    }
}

/// A prefix of `n` characters without a line feed, followed by a line feed or
/// by the end of `s`, is the first line of `s`.
pub proof fn lemma_line_len_is(s: Seq<char>, n: int)
    requires
        0 <= n <= s.len(),
        forall|i: int| 0 <= i < n ==> #[trigger] s[i] != '\n',
        n == s.len() || s[n] == '\n',
    ensures
        line_len(s) == n,
    decreases n,
{
    if n > 0 {
        let t = s.drop_first();
        assert forall|i: int| 0 <= i < n - 1 implies #[trigger] t[i] != '\n' by {
            assert(t[i] == s[i + 1]);
        }
        lemma_line_len_is(t, n - 1);
    }
}

/// The lines of a text. A line ends at a line feed, which is no part of it;
/// the last line may do without one, and a text that ends in a line feed has
/// no empty line after it. A carriage return before the line feed is left on
/// its line, where it counts as white space.
pub open spec fn lines(s: Seq<char>) -> Seq<Seq<char>>
    decreases s.len(),
    via lines_decreases
{
    if s.len() == 0 {
        Seq::empty()
    } else if line_len(s) == s.len() {
        seq![s]
    } else {
        seq![s.take(line_len(s) as int)] + lines(s.skip(line_len(s) as int + 1))
    }
}

#[via_fn]
proof fn lines_decreases(s: Seq<char>) {
    lemma_line_len(s);
}

/// Whether the piece `from..to` of `chars` is a comment line.
pub(crate) fn is_comment_span(chars: &Vec<char>, from: usize, to: usize) -> (r: bool)
    requires
        from <= to <= chars.len(),
    ensures
        r == is_comment_line(chars@.subrange(from as int, to as int)),
{
    let mut i: usize = from;
    while i < to && is_space_char(chars[i])
        invariant
            from <= i <= to <= chars.len(),
            tokens(chars@.subrange(from as int, to as int)) == tokens(
                chars@.subrange(i as int, to as int),
            ),
        decreases to - i,
    {
        proof {
            assert(chars@.subrange(i as int, to as int).drop_first() =~= chars@.subrange(
                i + 1,
                to as int,
            ));
        }
        i = i + 1;
    }
    proof {
        let rest = chars@.subrange(i as int, to as int);
        if i < to {
            lemma_word_len(rest);
            assert(tokens(rest)[0] == rest.take(word_len(rest) as int));
            assert(tokens(rest)[0][0] == chars@[i as int]);
        }
    }
    i < to && chars[i] == '#'
}

/// The end of the line that starts at `from`: the place of the next line
/// feed, or the end of `chars`.
pub(crate) fn line_end(chars: &Vec<char>, from: usize) -> (to: usize)
    requires
        from <= chars.len(),
    ensures
        from <= to <= chars.len(),
        to - from == line_len(chars@.subrange(from as int, chars.len() as int)),
{
    let mut j: usize = from;
    while j < chars.len() && chars[j] != '\n'
        invariant
            from <= j <= chars.len(),
            forall|k: int| from <= k < j ==> #[trigger] chars@[k] != '\n',
        decreases chars.len() - j,
    {
        j = j + 1;
    }
    proof {
        let rest = chars@.subrange(from as int, chars.len() as int);
        assert forall|k: int| 0 <= k < j - from implies #[trigger] rest[k] != '\n' by {
            assert(rest[k] == chars@[from + k]);
        }
        lemma_line_len_is(rest, j - from);
    }
    j
}

} // verus!
