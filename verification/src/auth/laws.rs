//! What holds of the parser and of the store, for every input.

use vstd::prelude::*;
use crate::auth::entry::entry_of_fields;
use crate::auth::entry::is_key;
use crate::auth::entry::lemma_keys_differ;
use crate::auth::entry::login_key;
use crate::auth::entry::machine_key;
use crate::auth::entry::parse_line;
use crate::auth::entry::password_key;
use crate::auth::entry::value_after;
use crate::auth::entry::Entry;
use crate::auth::error::Failure;
use crate::auth::store::all_well_formed;
use crate::auth::store::entries_of_files;
use crate::auth::store::entries_of_lines;
use crate::auth::store::entries_of_text;
use crate::auth::store::files_of;
use crate::auth::store::first_failed;
use crate::auth::store::is_first_for;
use crate::auth::store::store_of;
use crate::auth::store::then_entries;
use crate::auth::store::DirScan;
use crate::auth::store::FileRead;
use crate::auth::text::is_comment_line;
use crate::auth::text::lines;
use crate::auth::text::fields;
use crate::auth::text::is_comment_token;
use crate::auth::text::is_field;
use crate::auth::text::is_space;
use crate::auth::text::lemma_word_len;
use crate::auth::text::lemma_word_len_is;
use crate::auth::text::tokens;
use crate::auth::text::word_len;

verus! {

/// A word: one character or more, none of them white space.
pub open spec fn is_word(t: Seq<char>) -> bool {
    t.len() > 0 && forall|j: int| 0 <= j < t.len() ==> !is_space(#[trigger] t[j])
}

/// Every token of a line is a word.
pub proof fn lemma_tokens_are_words(s: Seq<char>)
    ensures
        forall|k: int| 0 <= k < tokens(s).len() ==> is_word(#[trigger] tokens(s)[k]),
    decreases s.len(),
{
    if s.len() == 0 {
        assert(tokens(s).len() == 0);
    } else if is_space(s[0]) {
        lemma_tokens_are_words(s.drop_first());
        assert(tokens(s) == tokens(s.drop_first()));
    } else {
        let n = word_len(s) as int;
        lemma_word_len(s);
        lemma_tokens_are_words(s.skip(n));
        assert(tokens(s) == seq![s.take(n)] + tokens(s.skip(n)));
        let w = s.take(n);
        assert(is_word(w)) by {
            assert forall|j: int| 0 <= j < w.len() implies !is_space(#[trigger] w[j]) by {
                assert(w[j] == s[j]);
            }
        }
        assert forall|k: int| 0 <= k < tokens(s).len() implies is_word(
            #[trigger] tokens(s)[k],
        ) by {
            if k > 0 {
                assert(tokens(s)[k] == tokens(s.skip(n))[k - 1]);
            }
        }
    }
}

/// Where white space parts two texts, the tokens of the whole are those of
/// the first text and then those of the second.
pub proof fn lemma_tokens_concat(a: Seq<char>, b: Seq<char>)
    requires
        a.len() == 0 || b.len() == 0 || is_space(a.last()) || is_space(b[0]),
    ensures
        tokens(a + b) == tokens(a) + tokens(b),
    decreases a.len(),
{
    if a.len() == 0 {
        assert(a + b =~= b);
        assert(tokens(a) + tokens(b) =~= tokens(b));
    } else if b.len() == 0 {
        assert(a + b =~= a);
        assert(tokens(a) + tokens(b) =~= tokens(a));
    } else if is_space(a[0]) {
        let a1 = a.drop_first();
        assert((a + b).drop_first() =~= a1 + b);
        if a1.len() > 0 {
            assert(a1.last() == a.last());
        }
        lemma_tokens_concat(a1, b);
    } else {
        let n = word_len(a) as int;
        lemma_word_len(a);
        assert forall|i: int| 0 <= i < n implies !is_space(#[trigger] (a + b)[i]) by {
            assert((a + b)[i] == a[i]);
        }
        if n < a.len() {
            assert((a + b)[n] == a[n]);
        } else {
            assert(!is_space(a.last()));
            assert((a + b)[n] == b[0]);
        }
        lemma_word_len_is(a + b, n);
        let a2 = a.skip(n);
        assert((a + b).take(n) =~= a.take(n));
        assert((a + b).skip(n) =~= a2 + b);
        if a2.len() > 0 {
            assert(a2.last() == a.last());
        }
        lemma_tokens_concat(a2, b);
        assert(seq![a.take(n)] + (tokens(a2) + tokens(b)) =~= (seq![a.take(n)] + tokens(a2))
            + tokens(b));
    }
}

/// A word between white space is the one token of that stretch.
pub proof fn lemma_tokens_of_word(x: char, w: Seq<char>, y: char)
    requires
        is_space(x),
        is_space(y),
        is_word(w),
    ensures
        tokens(seq![x] + w + seq![y]) == seq![w],
        tokens(seq![x]) == Seq::<Seq<char>>::empty(),
{
    let s = w + seq![y];
    assert forall|i: int| 0 <= i < w.len() implies !is_space(#[trigger] s[i]) by {
        assert(s[i] == w[i]);
    }
    lemma_word_len_is(s, w.len() as int);
    assert(s.take(w.len() as int) =~= w);
    assert(s.skip(w.len() as int) =~= seq![y]);
    assert(tokens(Seq::<char>::empty()) =~= Seq::<Seq<char>>::empty());
    assert(seq![y].drop_first() =~= Seq::<char>::empty());
    assert(tokens(seq![y]) =~= Seq::<Seq<char>>::empty());
    assert(tokens(s) =~= seq![w]);
    assert((seq![x] + w + seq![y]).drop_first() =~= s);
    assert(seq![x].drop_first() =~= Seq::<char>::empty());
    assert(tokens(seq![x]) =~= Seq::<Seq<char>>::empty());
}

/// A comment word takes no part in an entry, and hides nothing of what
/// follows it on the line: with the word `c` that starts with `#` set
/// between the texts `a` and `b`, the fields are those of `a` and then those
/// of `b`, and the line means what it means without `c`.
pub proof fn lemma_comment_word_ignored(a: Seq<char>, x: char, c: Seq<char>, y: char, b: Seq<char>)
    requires
        is_space(x),
        is_space(y),
        is_word(c),
        is_comment_token(c),
    ensures
        fields(a + seq![x] + c + seq![y] + b) == fields(a) + fields(b),
        fields(a + seq![x] + b) == fields(a) + fields(b),
        parse_line(a + seq![x] + c + seq![y] + b) == parse_line(a + seq![x] + b),
{
    let mid = seq![x] + c + seq![y];
    lemma_tokens_of_word(x, c, y);
    assert(mid[0] == x);
    assert(mid.last() == y);
    lemma_tokens_concat(a, mid);
    lemma_tokens_concat(a + mid, b);
    assert(a + seq![x] + c + seq![y] + b =~= (a + mid) + b);
    assert(seq![x][0] == x);
    assert(seq![x].last() == x);
    lemma_tokens_concat(a, seq![x]);
    lemma_tokens_concat(a + seq![x], b);
    assert(tokens(a) + Seq::<Seq<char>>::empty() =~= tokens(a));
    reveal_with_fuel(Seq::filter, 2);
    assert(seq![c].drop_last() =~= Seq::<Seq<char>>::empty());
    assert(seq![c].filter(is_field()) =~= Seq::<Seq<char>>::empty());
    Seq::filter_distributes_over_add(tokens(a), seq![c], is_field());
    Seq::filter_distributes_over_add(tokens(a) + seq![c], tokens(b), is_field());
    Seq::filter_distributes_over_add(tokens(a), tokens(b), is_field());
    assert(fields(a) + Seq::<Seq<char>>::empty() =~= fields(a));
}

/// White space at the end of a line changes nothing. So a line means the
/// same with a carriage return before its line feed as without one.
pub proof fn lemma_trailing_space_ignored(line: Seq<char>, x: char)
    requires
        is_space(x),
    ensures
        tokens(line.push(x)) == tokens(line),
        parse_line(line.push(x)) == parse_line(line),
        is_comment_line(line.push(x)) == is_comment_line(line),
{
    let end = seq![x];
    assert(line.push(x) =~= line + end);
    assert(end[0] == x);
    lemma_tokens_concat(line, end);
    assert(end.drop_first() =~= Seq::<char>::empty());
    assert(tokens(Seq::<char>::empty()) =~= Seq::<Seq<char>>::empty());
    assert(tokens(end) =~= Seq::<Seq<char>>::empty());
    assert(tokens(line) + Seq::<Seq<char>>::empty() =~= tokens(line));
}

/// `i` is the place of the last occurrence of `key` among the fields `f`
/// that has a field after it.
pub open spec fn is_last_key(f: Seq<Seq<char>>, key: Seq<char>, i: int) -> bool {
    &&& 0 <= i < f.len() - 1
    &&& f[i] == key
    &&& forall|j: int| i < j < f.len() - 1 ==> #[trigger] f[j] != key
}

/// The last occurrence of a key wins: its value is the field after that
/// occurrence, whatever earlier occurrences were followed by. A key that
/// occurs nowhere before the last field has no value.
pub proof fn lemma_last_wins(f: Seq<Seq<char>>, key: Seq<char>)
    ensures
        match value_after(f, key) {
            Some(v) => exists|i: int| is_last_key(f, key, i) && v == f[i + 1],
            None => forall|j: int| 0 <= j < f.len() - 1 ==> #[trigger] f[j] != key,
        },
        forall|i: int| is_last_key(f, key, i) ==> value_after(f, key) == Some(f[i + 1]),
    decreases f.len(),
{
    if f.len() < 2 {
    } else if f[f.len() - 2] == key {
        assert(is_last_key(f, key, f.len() - 2));
        assert forall|i: int| is_last_key(f, key, i) implies value_after(f, key) == Some(
            f[i + 1],
        ) by {
            if i < f.len() - 2 {
                assert(f[f.len() - 2] != key);
            }
        }
    } else {
        let g = f.drop_last();
        lemma_last_wins(g, key);
        match value_after(g, key) {
            Some(v) => {
                let i = choose|i: int| is_last_key(g, key, i) && v == g[i + 1];
                assert(is_last_key(f, key, i)) by {
                    assert forall|j: int| i < j < f.len() - 1 implies #[trigger] f[j] != key by {
                        if j < g.len() - 1 {
                            assert(g[j] != key);
                        }
                    }
                }
                assert(v == f[i + 1]);
            },
            None => {
                assert forall|j: int| 0 <= j < f.len() - 1 implies #[trigger] f[j] != key by {
                    if j < g.len() - 1 {
                        assert(g[j] != key);
                    }
                }
            },
        }
        assert forall|i: int| is_last_key(f, key, i) implies value_after(f, key) == Some(
            f[i + 1],
        ) by {
            assert(i < f.len() - 2);
            assert(is_last_key(g, key, i)) by {
                assert forall|j: int| i < j < g.len() - 1 implies #[trigger] g[j] != key by {
                    assert(f[j] != key);
                }
            }
            assert(g[i + 1] == f[i + 1]);
        }
    }
}

/// The three key and value pairs with the values `h`, `u` and `p`, in one of
/// their six orders.
pub open spec fn is_arrangement(f: Seq<Seq<char>>, h: Seq<char>, u: Seq<char>, p: Seq<char>) -> bool {
    let m = seq![machine_key(), h];
    let l = seq![login_key(), u];
    let w = seq![password_key(), p];
    ||| f == m + l + w
    ||| f == m + w + l
    ||| f == l + m + w
    ||| f == l + w + m
    ||| f == w + m + l
    ||| f == w + l + m
}

/// The order of the fields is free: the three pairs give the same entry in
/// each of their six orders, as long as no value is itself a key.
pub proof fn lemma_field_order(f: Seq<Seq<char>>, h: Seq<char>, u: Seq<char>, p: Seq<char>)
    requires
        is_arrangement(f, h, u, p),
        !is_key(h),
        !is_key(u),
        !is_key(p),
    ensures
        entry_of_fields(f) == Ok::<Entry, Failure>(Entry { host: h, user: u, password: p }),
{
    lemma_keys_differ();
    let mk = machine_key();
    let lk = login_key();
    let pk = password_key();
    let m = seq![mk, h];
    let l = seq![lk, u];
    let w = seq![pk, p];
    if f == m + l + w {
        lemma_three_pairs(f, mk, h, lk, u, pk, p);
    } else if f == m + w + l {
        lemma_three_pairs(f, mk, h, pk, p, lk, u);
    } else if f == l + m + w {
        lemma_three_pairs(f, lk, u, mk, h, pk, p);
    } else if f == l + w + m {
        lemma_three_pairs(f, lk, u, pk, p, mk, h);
    } else if f == w + m + l {
        lemma_three_pairs(f, pk, p, mk, h, lk, u);
    } else {
        lemma_three_pairs(f, pk, p, lk, u, mk, h);
    }
}

/// Three pairs with three different keys, and values that are none of the
/// keys: each key has the value of its pair.
proof fn lemma_three_pairs(
    f: Seq<Seq<char>>,
    k1: Seq<char>,
    v1: Seq<char>,
    k2: Seq<char>,
    v2: Seq<char>,
    k3: Seq<char>,
    v3: Seq<char>,
)
    requires
        f == seq![k1, v1] + seq![k2, v2] + seq![k3, v3],
        k1 != k2 && k1 != k3 && k2 != k3,
        v1 != k1 && v1 != k2 && v1 != k3,
        v2 != k1 && v2 != k2 && v2 != k3,
        v3 != k1 && v3 != k2 && v3 != k3,
    ensures
        value_after(f, k1) == Some(v1),
        value_after(f, k2) == Some(v2),
        value_after(f, k3) == Some(v3),
        f.len() == 6,
        f.last() == v3,
{
    assert(f[0] == k1 && f[1] == v1 && f[2] == k2 && f[3] == v2 && f[4] == k3 && f[5] == v3);
    assert(is_last_key(f, k1, 0));
    assert(is_last_key(f, k2, 2));
    assert(is_last_key(f, k3, 4));
    lemma_last_wins(f, k1);
    lemma_last_wins(f, k2);
    lemma_last_wins(f, k3);
}

/// Every field of a line is a word that does not start with `#`.
pub proof fn lemma_fields_are_words(s: Seq<char>)
    ensures
        forall|k: int|
            0 <= k < fields(s).len() ==> is_word(#[trigger] fields(s)[k]) && !is_comment_token(
                fields(s)[k],
            ),
{
    lemma_tokens_are_words(s);
    lemma_filter_keeps(tokens(s));
}

/// What is left of a run of words once the comment words are taken out are
/// words, and none of them is a comment.
proof fn lemma_filter_keeps(t: Seq<Seq<char>>)
    requires
        forall|k: int| 0 <= k < t.len() ==> is_word(#[trigger] t[k]),
    ensures
        forall|k: int|
            0 <= k < t.filter(is_field()).len() ==> is_word(#[trigger] t.filter(is_field())[k])
                && !is_comment_token(t.filter(is_field())[k]),
    decreases t.len(),
{
    reveal(Seq::filter);
    let kept = t.filter(is_field());
    if t.len() > 0 {
        let before = t.drop_last().filter(is_field());
        lemma_filter_keeps(t.drop_last());
        assert forall|k: int| 0 <= k < kept.len() implies is_word(#[trigger] kept[k])
            && !is_comment_token(kept[k]) by {
            if k < before.len() {
                assert(kept[k] == before[k]);
            } else {
                assert(kept[k] == t.last());
            }
        }
    }
}

/// An entry that was read from a line holds three words, none of them empty
/// and none of them a comment.
pub proof fn lemma_entry_holds_words(line: Seq<char>)
    ensures
        parse_line(line) matches Ok(e) ==> {
            &&& e.well_formed()
            &&& is_word(e.host) && !is_comment_token(e.host)
            &&& is_word(e.user) && !is_comment_token(e.user)
            &&& is_word(e.password) && !is_comment_token(e.password)
        },
{
    let f = fields(line);
    lemma_fields_are_words(line);
    lemma_last_wins(f, machine_key());
    lemma_last_wins(f, login_key());
    lemma_last_wins(f, password_key());
}

/// The entries of a run of lines are those of its first part and then those
/// of its second part; a failure in the first part comes before anything in
/// the second.
pub proof fn lemma_lines_in_order(a: Seq<Seq<char>>, b: Seq<Seq<char>>)
    ensures
        entries_of_lines(a + b) == match entries_of_lines(a) {
            Ok(found) => then_entries(found, entries_of_lines(b)),
            Err(e) => Err(e),
        },
    decreases a.len(),
{
    if a.len() == 0 {
        assert(a + b =~= b);
        if let Ok(more) = entries_of_lines(b) {
            assert(Seq::<Entry>::empty() + more =~= more);
        }
    } else {
        let rest = a.drop_first();
        assert((a + b).drop_first() =~= rest + b);
        assert((a + b)[0] == a[0]);
        lemma_lines_in_order(rest, b);
        if !is_comment_line(a[0]) {
            if let Ok(e) = parse_line(a[0]) {
                if let Ok(x) = entries_of_lines(rest) {
                    if let Ok(y) = entries_of_lines(b) {
                        assert(seq![e] + (x + y) =~= (seq![e] + x) + y);
                    }
                }
            }
        }
    }
}

/// A comment line yields no entry, and the lines around it mean what they
/// mean without it.
pub proof fn lemma_comment_line_ignored(a: Seq<Seq<char>>, line: Seq<char>, b: Seq<Seq<char>>)
    requires
        is_comment_line(line),
    ensures
        entries_of_lines(seq![line]) == Ok::<Seq<Entry>, Failure>(Seq::empty()),
        entries_of_lines(a + seq![line] + b) == entries_of_lines(a + b),
{
    let one = seq![line];
    assert(one.drop_first() =~= Seq::<Seq<char>>::empty());
    assert(entries_of_lines(one.drop_first()) == Ok::<Seq<Entry>, Failure>(Seq::empty()));
    assert(entries_of_lines(one) == Ok::<Seq<Entry>, Failure>(Seq::empty()));
    lemma_lines_in_order(a, one + b);
    lemma_lines_in_order(one, b);
    lemma_lines_in_order(a, b);
    assert(a + one + b =~= a + (one + b));
    if let Ok(more) = entries_of_lines(b) {
        assert(Seq::<Entry>::empty() + more =~= more);
    }
}

/// The lines of a text give entries only all together: there are entries
/// exactly when every line that is no comment holds one.
pub proof fn lemma_lines_all_or_nothing(ls: Seq<Seq<char>>)
    ensures
        entries_of_lines(ls) is Ok <==> forall|k: int|
            0 <= k < ls.len() ==> is_comment_line(#[trigger] ls[k]) || parse_line(ls[k]) is Ok,
    decreases ls.len(),
{
    if ls.len() > 0 {
        let rest = ls.drop_first();
        lemma_lines_all_or_nothing(rest);
        if entries_of_lines(ls) is Ok {
            assert forall|k: int| 0 <= k < ls.len() implies is_comment_line(#[trigger] ls[k])
                || parse_line(ls[k]) is Ok by {
                if k > 0 {
                    assert(ls[k] == rest[k - 1]);
                }
            }
        } else {
            if is_comment_line(ls[0]) || parse_line(ls[0]) is Ok {
                let k = choose|k: int|
                    0 <= k < rest.len() && !(is_comment_line(#[trigger] rest[k]) || parse_line(
                        rest[k],
                    ) is Ok);
                assert(ls[k + 1] == rest[k]);
            }
        }
    }
}

/// The entries of a run of files are those of its first part and then those
/// of its second part; a failure in the first part comes before anything in
/// the second.
pub proof fn lemma_files_in_order(a: Seq<FileRead>, b: Seq<FileRead>)
    ensures
        entries_of_files(a + b) == match entries_of_files(a) {
            Ok(found) => then_entries(found, entries_of_files(b)),
            Err(e) => Err(e),
        },
    decreases a.len(),
{
    if a.len() == 0 {
        assert(a + b =~= b);
        if let Ok(more) = entries_of_files(b) {
            assert(Seq::<Entry>::empty() + more =~= more);
        }
    } else {
        let rest = a.drop_first();
        assert((a + b).drop_first() =~= rest + b);
        assert((a + b)[0] == a[0]);
        lemma_files_in_order(rest, b);
        if let Ok(text) = a[0].content {
            if let Ok(e) = entries_of_text(text@) {
                if let Ok(x) = entries_of_files(rest) {
                    if let Ok(y) = entries_of_files(b) {
                        assert(e + (x + y) =~= (e + x) + y);
                    }
                }
            }
        }
    }
}

/// A file is sound when its text was read and every line of it that is no
/// comment holds an entry.
pub open spec fn is_sound(file: FileRead) -> bool {
    file.content matches Ok(text) && entries_of_text(text@) is Ok
}

/// There is no store of a part of the files: the files give entries exactly
/// when every one of them is sound. One file with one line that holds no
/// entry fails them all.
pub proof fn lemma_files_all_or_nothing(files: Seq<FileRead>)
    ensures
        entries_of_files(files) is Ok <==> forall|k: int|
            0 <= k < files.len() ==> is_sound(#[trigger] files[k]),
    decreases files.len(),
{
    if files.len() > 0 {
        let rest = files.drop_first();
        lemma_files_all_or_nothing(rest);
        if entries_of_files(files) is Ok {
            assert forall|k: int| 0 <= k < files.len() implies is_sound(#[trigger] files[k]) by {
                if k > 0 {
                    assert(files[k] == rest[k - 1]);
                }
            }
        } else {
            if is_sound(files[0]) {
                let k = choose|k: int| 0 <= k < rest.len() && !is_sound(#[trigger] rest[k]);
                assert(files[k + 1] == rest[k]);
            }
        }
    }
}

/// A store is built exactly when the directory was opened, no step of the
/// walk failed, and every regular file that was found is sound.
pub proof fn lemma_store_all_or_nothing(dir: Seq<char>, scan: DirScan)
    ensures
        store_of(dir, scan) is Ok <==> (scan matches Ok(items) && first_failed(items@) is None
            && forall|k: int|
            0 <= k < files_of(items@).len() ==> is_sound(#[trigger] files_of(items@)[k])),
{
    if let Ok(items) = scan {
        lemma_files_all_or_nothing(files_of(items@));
    }
}

/// Where two entries are for one host, the one met first is the one found:
/// an entry that is first for its host among the entries of the earlier
/// files stays first when later files follow.
pub proof fn lemma_first_met_is_found(
    earlier: Seq<FileRead>,
    later: Seq<FileRead>,
    host: Seq<char>,
    i: int,
)
    requires
        entries_of_files(earlier) matches Ok(a) && is_first_for(a, host, i),
        entries_of_files(later) is Ok,
    ensures
        entries_of_files(earlier + later) matches Ok(s) && s == entries_of_files(earlier)->Ok_0
            + entries_of_files(later)->Ok_0 && is_first_for(s, host, i) && s[i]
            == entries_of_files(earlier)->Ok_0[i],
{
    lemma_files_in_order(earlier, later);
}

/// A host that the earlier files do not name is looked up among the later
/// ones.
pub proof fn lemma_later_file_is_reached(
    earlier: Seq<FileRead>,
    later: Seq<FileRead>,
    host: Seq<char>,
    i: int,
)
    requires
        entries_of_files(earlier) matches Ok(a) && forall|j: int|
            0 <= j < a.len() ==> (#[trigger] a[j]).host != host,
        entries_of_files(later) matches Ok(b) && is_first_for(b, host, i),
    ensures
        entries_of_files(earlier + later) matches Ok(s) && is_first_for(
            s,
            host,
            entries_of_files(earlier)->Ok_0.len() + i,
        ) && s[entries_of_files(earlier)->Ok_0.len() + i] == entries_of_files(later)->Ok_0[i],
{
    lemma_files_in_order(earlier, later);
}

/// Two files with one entry each, for two different hosts: each host finds
/// its own entry, and any other host finds none.
pub proof fn lemma_hosts_resolve(first: FileRead, second: FileRead, other: Seq<char>)
    requires
        first.content matches Ok(t) && entries_of_text(t@) matches Ok(a) && a.len() == 1,
        second.content matches Ok(t) && entries_of_text(t@) matches Ok(b) && b.len() == 1,
        entries_of_text(first.content->Ok_0@)->Ok_0[0].host != entries_of_text(
            second.content->Ok_0@,
        )->Ok_0[0].host,
        other != entries_of_text(first.content->Ok_0@)->Ok_0[0].host,
        other != entries_of_text(second.content->Ok_0@)->Ok_0[0].host,
    ensures
        entries_of_files(seq![first, second]) matches Ok(s) && {
            &&& s.len() == 2
            &&& s[0] == entries_of_text(first.content->Ok_0@)->Ok_0[0]
            &&& s[1] == entries_of_text(second.content->Ok_0@)->Ok_0[0]
            &&& is_first_for(s, s[0].host, 0)
            &&& is_first_for(s, s[1].host, 1)
            &&& forall|j: int| 0 <= j < s.len() ==> (#[trigger] s[j]).host != other
        },
{
    let files = seq![first, second];
    let rest = files.drop_first();
    assert(rest =~= seq![second]);
    assert(rest.drop_first() =~= Seq::<FileRead>::empty());
    assert(entries_of_files(rest.drop_first()) == Ok::<Seq<Entry>, Failure>(Seq::empty()));
    let a = entries_of_text(first.content->Ok_0@)->Ok_0;
    let b = entries_of_text(second.content->Ok_0@)->Ok_0;
    assert(b + Seq::<Entry>::empty() =~= b);
    assert(entries_of_files(rest) == Ok::<Seq<Entry>, Failure>(b));
    assert(entries_of_files(files) == Ok::<Seq<Entry>, Failure>(a + b));
}

/// Every entry that a run of lines gives is well formed.
pub proof fn lemma_lines_give_entries(ls: Seq<Seq<char>>)
    ensures
        entries_of_lines(ls) matches Ok(es) ==> all_well_formed(es),
    decreases ls.len(),
{
    if ls.len() > 0 {
        lemma_lines_give_entries(ls.drop_first());
        lemma_entry_holds_words(ls[0]);
    }
}

/// Every entry that a run of files gives is well formed.
pub proof fn lemma_files_give_entries(files: Seq<FileRead>)
    ensures
        entries_of_files(files) matches Ok(es) ==> all_well_formed(es),
    decreases files.len(),
{
    if files.len() > 0 {
        lemma_files_give_entries(files.drop_first());
        if let Ok(text) = files[0].content {
            lemma_lines_give_entries(lines(text@));
        }
    }
}

} // verus!
