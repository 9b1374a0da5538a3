//! The mirror menu: the order in which the mirrors are offered, how each is
//! labelled, and how many of them a page shows.

use vstd::prelude::*;
use vstd::string::StringExecFns;
use vstd::string::StringSliceAdditionalSpecFns;
use indexmap::IndexMap;

verus! {

/// Makes `indexmap::IndexMap` known as a type. The map of the enabled
/// mirrors is one; nothing is claimed of what a map holds but through
/// `enabled_names`.
#[verifier::external_type_specification]
#[verifier::external_body]
#[verifier::reject_recursive_types(K)]
#[verifier::reject_recursive_types(V)]
#[verifier::reject_recursive_types(S)]
pub struct ExIndexMap<K, V, S>(IndexMap<K, V, S>);

/// A name for the keys of the map of enabled mirrors, each as its
/// characters: the names of the mirrors that are switched on. It has no
/// definition here; `is_enabled` is the one place that speaks of it.
pub uninterp spec fn enabled_names(enabled: IndexMap<Box<str>, Box<str>>) -> Set<Seq<char>>;

/// Taken on trust of `IndexMap::contains_key`: it tells whether the map has
/// a key equal to `name`, that is, whether `name` is among `enabled_names`.
#[verifier::external_body]
fn is_enabled(enabled: &IndexMap<Box<str>, Box<str>>, name: &str) -> (r: bool)
    ensures
        r == enabled_names(*enabled).contains(name@),
{
    enabled.contains_key(name)
}

/// A mirror: what it is called in the menu, and where it is.
pub struct Mirror {
    pub desc: String,
    pub url: String,
}

/// How a mirror shows in the menu: what it is called, then its name in
/// brackets.
pub open spec fn label_of(desc: Seq<char>, name: Seq<char>) -> Seq<char> {
    desc + " ("@ + name + ")"@
}

impl Mirror {
    /// The line of the menu for this mirror, listed under `name`.
    pub fn label(&self, name: &str) -> (s: String)
        ensures
            s@ == label_of(self.desc@, name@),
    {
        let mut s = self.desc.clone();
        s.append(" (");
        s.append(name);
        s.append(")");
        s
    }
}

/// The number of mirrors on one page of the menu in a terminal of `height`
/// rows: six rows are kept for the prompt and the hints, one mirror is shown
/// at the least and twenty at the most.
pub open spec fn page_size_of(height: int) -> int {
    if height <= 6 {
        1
    } else if height <= 25 {
        height - 6
    } else {
        20
    }
}

/// The number of mirrors on one page of the menu. A terminal has a row or
/// more.
pub fn page_size(height: u16) -> (rows: u16)
    requires
        height > 0,
    ensures
        rows == page_size_of(height as int),
        1 <= rows <= 20,
{
    if height <= 6 {
        1
    } else if height <= 25 {
        height - 6
    } else {
        20
    }
}

/// The order of the dictionary on bytes: `a` comes before `b` when it is a
/// proper prefix of `b`, or has the smaller byte where the two first differ.
pub open spec fn bytes_before(a: Seq<u8>, b: Seq<u8>) -> bool
    decreases a.len(),
{
    if b.len() == 0 {
        false
    } else if a.len() == 0 {
        true
    } else if a[0] != b[0] {
        a[0] < b[0]
    } else {
        bytes_before(a.drop_first(), b.drop_first())
    }
}

/// The order of names: that of their bytes in UTF-8.
pub open spec fn name_before(a: Seq<char>, b: Seq<char>) -> bool {
    bytes_before(vstd::utf8::encode_utf8(a), vstd::utf8::encode_utf8(b))
}

/// The order of the menu: a mirror that is switched on comes before one that
/// is not, and two of a kind go by their names.
pub open spec fn comes_before(enabled: Set<Seq<char>>, a: Seq<char>, b: Seq<char>) -> bool {
    if enabled.contains(a) != enabled.contains(b) {
        enabled.contains(a)
    } else {
        name_before(a, b)
    }
}

/// The names are in the order of the menu: none comes before one that
/// stands ahead of it.
pub open spec fn in_menu_order(names: Seq<Seq<char>>, enabled: Set<Seq<char>>) -> bool {
    forall|i: int, j: int|
        0 <= i < j < names.len() ==> !comes_before(enabled, #[trigger] names[j], #[trigger] names[i])
}

/// The names under which the mirrors are listed.
pub open spec fn names_of(mirrors: Seq<(&str, &Mirror)>) -> Seq<Seq<char>> {
    Seq::new(mirrors.len(), |i: int| mirrors[i].0@)
}

/// Of two byte strings, one at most comes before the other.
pub proof fn lemma_bytes_one_way(a: Seq<u8>, b: Seq<u8>)
    requires
        bytes_before(a, b),
    ensures
        !bytes_before(b, a),
    decreases a.len(),
{
    if a.len() > 0 && b.len() > 0 && a[0] == b[0] {
        lemma_bytes_one_way(a.drop_first(), b.drop_first());
    }
}

/// Where `b` does not come before `a`, and `c` does not come before `b`,
/// `c` does not come before `a`.
pub proof fn lemma_bytes_in_a_row(a: Seq<u8>, b: Seq<u8>, c: Seq<u8>)
    requires
        !bytes_before(b, a),
        !bytes_before(c, b),
    ensures
        !bytes_before(c, a),
    decreases a.len(),
{
    if a.len() > 0 {
        assert(b.len() > 0);
        assert(c.len() > 0);
        if c[0] == a[0] {
            assert(b[0] == a[0]);
            lemma_bytes_in_a_row(a.drop_first(), b.drop_first(), c.drop_first());
        }
    }
}

/// The order of the menu runs one way only.
pub proof fn lemma_menu_one_way(enabled: Set<Seq<char>>, a: Seq<char>, b: Seq<char>)
    requires
        comes_before(enabled, a, b),
    ensures
        !comes_before(enabled, b, a),
{
    if enabled.contains(a) == enabled.contains(b) {
        lemma_bytes_one_way(vstd::utf8::encode_utf8(a), vstd::utf8::encode_utf8(b));
    }
}

/// Three mirrors in a row: where the second does not come before the first,
/// nor the third before the second, the third does not come before the first.
pub proof fn lemma_menu_in_a_row(
    enabled: Set<Seq<char>>,
    a: Seq<char>,
    b: Seq<char>,
    c: Seq<char>,
)
    requires
        !comes_before(enabled, b, a),
        !comes_before(enabled, c, b),
    ensures
        !comes_before(enabled, c, a),
{
    if enabled.contains(a) == enabled.contains(b) && enabled.contains(b) == enabled.contains(c) {
        lemma_bytes_in_a_row(
            vstd::utf8::encode_utf8(a),
            vstd::utf8::encode_utf8(b),
            vstd::utf8::encode_utf8(c),
        );
    }
}

/// Two elements that change places leave the same elements, each as often
/// as before.
pub proof fn lemma_swap_keeps_all<T>(s: Seq<T>, i: int, j: int)
    requires
        0 <= i < s.len(),
        0 <= j < s.len(),
    ensures
        s.update(i, s[j]).update(j, s[i]).to_multiset() == s.to_multiset(),
{
    broadcast use vstd::multiset::group_multiset_axioms;

    let t = s.update(i, s[j]);
    vstd::seq_lib::to_multiset_update(s, i, s[j]);
    vstd::seq_lib::to_multiset_update(t, j, s[i]);
    s.to_multiset_ensures();
    assert(s.to_multiset().count(s[i]) > 0) by {
        assert(s.contains(s[i]));
    }
    assert(s.to_multiset().count(s[j]) > 0) by {
        assert(s.contains(s[j]));
    }
    assert(t.update(j, s[i]).to_multiset() =~= s.to_multiset());
}

/// Whether the name `a` comes before the name `b`.
pub fn name_lt(a: &str, b: &str) -> (r: bool)
    ensures
        r == name_before(a@, b@),
{
    let x = a.as_bytes();
    let y = b.as_bytes();
    let mut i: usize = 0;
    proof {
        assert(x@.skip(0) =~= x@);
        assert(y@.skip(0) =~= y@);
    }
    while i < x.len() && i < y.len()
        invariant
            i <= x.len(),
            i <= y.len(),
            x@ == a.spec_bytes(),
            y@ == b.spec_bytes(),
            name_before(a@, b@) == bytes_before(x@.skip(i as int), y@.skip(i as int)),
        decreases x.len() - i,
    {
        proof {
            assert(x@.skip(i as int).drop_first() =~= x@.skip(i + 1));
            assert(y@.skip(i as int).drop_first() =~= y@.skip(i + 1));
            assert(x@.skip(i as int)[0] == x@[i as int]);
            assert(y@.skip(i as int)[0] == y@[i as int]);
        }
        if x[i] != y[i] {
            return x[i] < y[i];
        }
        i = i + 1;
    }
    i < y.len()
}

/// Whether the mirror named `a` comes before the mirror named `b` in the
/// menu.
pub fn before(enabled: &IndexMap<Box<str>, Box<str>>, a: &str, b: &str) -> (r: bool)
    ensures
        r == comes_before(enabled_names(*enabled), a@, b@),
{
    let ea = is_enabled(enabled, a);
    let eb = is_enabled(enabled, b);
    if ea != eb {
        ea
    } else {
        name_lt(a, b)
    }
}

/// Puts the mirrors in the order of the menu: those that are switched on
/// first, and each group by name. The mirrors are the same as before, each
/// as often as before.
pub fn sort_mirrors(mirrors: &mut Vec<(&str, &Mirror)>, enabled: &IndexMap<Box<str>, Box<str>>)
    ensures
        final(mirrors)@.to_multiset() == old(mirrors)@.to_multiset(),
        in_menu_order(names_of(final(mirrors)@), enabled_names(*enabled)),
{
    let n: usize = mirrors.len();
    let ghost en = enabled_names(*enabled);
    let ghost start = mirrors@;
    let mut i: usize = 0;
    while i < n
        invariant
            i <= n,
            n == mirrors.len(),
            en == enabled_names(*enabled),
            mirrors@.to_multiset() == start.to_multiset(),
            forall|p: int, q: int|
                0 <= p < q < i ==> !comes_before(
                    en,
                    (#[trigger] mirrors@[q]).0@,
                    (#[trigger] mirrors@[p]).0@,
                ),
        decreases n - i,
    {
        let mut j: usize = i;
        while j > 0 && before(enabled, mirrors[j].0, mirrors[j - 1].0)
            invariant
                j <= i < n,
                n == mirrors.len(),
                en == enabled_names(*enabled),
                mirrors@.to_multiset() == start.to_multiset(),
                forall|p: int, q: int|
                    0 <= p < q <= i && q != j ==> !comes_before(
                        en,
                        (#[trigger] mirrors@[q]).0@,
                        (#[trigger] mirrors@[p]).0@,
                    ),
            decreases j,
        {
            let ghost was = mirrors@;
            let lower = mirrors[j - 1];
            let upper = mirrors[j];
            mirrors.set(j - 1, upper);
            mirrors.set(j, lower);
            proof {
                lemma_menu_one_way(en, upper.0@, lower.0@);
                lemma_swap_keeps_all(was, j - 1, j as int);
                assert(mirrors@ =~= was.update(j - 1, was[j as int]).update(j as int, was[j - 1]));
            }
            j = j - 1;
        }
        proof {
            if j > 0 {
                assert forall|p: int| 0 <= p < j implies !comes_before(
                    en,
                    (#[trigger] mirrors@[j as int]).0@,
                    (#[trigger] mirrors@[p]).0@,
                ) by {
                    if p < j - 1 {
                        lemma_menu_in_a_row(
                            en,
                            mirrors@[p].0@,
                            mirrors@[j - 1].0@,
                            mirrors@[j as int].0@,
                        );
                    }
                }
            }
        }
        i = i + 1;
    }
    proof {
        let names = names_of(mirrors@);
        assert forall|p: int, q: int| 0 <= p < q < names.len() implies !comes_before(
            en,
            #[trigger] names[q],
            #[trigger] names[p],
        ) by {
            assert(names[q] == mirrors@[q].0@);
            assert(names[p] == mirrors@[p].0@);
        }
    }
}

} // verus!
