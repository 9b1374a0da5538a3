//! One credential entry and the parser that reads it from a line.

use vstd::prelude::*;
use crate::auth::error::AuthConfigError;
use crate::auth::error::Failure;
use crate::auth::laws::lemma_entry_holds_words;
use crate::auth::text::chars_of;
use crate::auth::text::field_spans;
use crate::auth::text::fields;
use crate::auth::text::pieces;
use crate::auth::text::string_of;

verus! {

/// The credentials for one host.
pub struct AuthConfigEntry {
    pub host: String,
    pub user: String,
    pub password: String,
}

/// The mathematical value of an `AuthConfigEntry`.
pub ghost struct Entry {
    pub host: Seq<char>,
    pub user: Seq<char>,
    pub password: Seq<char>,
}

impl View for AuthConfigEntry {
    type V = Entry;

    open spec fn view(&self) -> Entry {
        Entry { host: self.host@, user: self.user@, password: self.password@ }
    }
}

impl Entry {
    /// An entry names a host, a user and a password: none of them is empty.
    pub open spec fn well_formed(self) -> bool {
        self.host.len() > 0 && self.user.len() > 0 && self.password.len() > 0
    }
}

/// The key that introduces the host.
pub open spec fn machine_key() -> Seq<char> {
    "machine"@
}

/// The key that introduces the user name.
pub open spec fn login_key() -> Seq<char> {
    "login"@
}

/// The key that introduces the password.
pub open spec fn password_key() -> Seq<char> {
    "password"@
}

/// One of the three keys.
pub open spec fn is_key(t: Seq<char>) -> bool {
    t == machine_key() || t == login_key() || t == password_key()
}

/// The value that `key` has among the fields `f`: the field that follows the
/// last occurrence of `key` that has a field after it.
pub open spec fn value_after(f: Seq<Seq<char>>, key: Seq<char>) -> Option<Seq<char>>
    decreases f.len(),
{
    if f.len() < 2 {
        None
    } else if f[f.len() - 2] == key {
        Some(f.last())
    } else {
        value_after(f.drop_last(), key)
    }
}

/// What a sequence of fields means. A key in last place has no value, and
/// the entry is refused in its name; otherwise each key takes the value after
/// its last occurrence, and the first key without one, in the order machine,
/// login, password, is the one reported as missing.
pub open spec fn entry_of_fields(f: Seq<Seq<char>>) -> Result<Entry, Failure> {
    if f.len() > 0 && is_key(f.last()) {
        Err(Failure::MissingEntry(f.last()))
    } else if value_after(f, machine_key()) is None {
        Err(Failure::MissingEntry(machine_key()))
    } else if value_after(f, login_key()) is None {
        Err(Failure::MissingEntry(login_key()))
    } else if value_after(f, password_key()) is None {
        Err(Failure::MissingEntry(password_key()))
    } else {
        Ok(
            Entry {
                host: value_after(f, machine_key())->0,
                user: value_after(f, login_key())->0,
                password: value_after(f, password_key())->0,
            },
        )
    }
}

/// What a line means: the entry of its fields.
pub open spec fn parse_line(line: Seq<char>) -> Result<Entry, Failure> {
    entry_of_fields(fields(line))
}

/// The mathematical value of a parser's result.
pub open spec fn entry_result(r: Result<AuthConfigEntry, AuthConfigError>) -> Result<
    Entry,
    Failure,
> {
    match r {
        Ok(e) => Ok(e@),
        Err(e) => Err(e@),
    }
}

/// The three keys are three different words.
pub proof fn lemma_keys_differ()
    ensures
        machine_key() != login_key(),
        machine_key() != password_key(),
        login_key() != password_key(),
        machine_key().len() == 7,
        login_key().len() == 5,
        password_key().len() == 8,
{
    reveal_strlit("machine");
    reveal_strlit("login");
    reveal_strlit("password");
    assert("machine"@.len() == 7);
    assert("login"@.len() == 5);
    assert("password"@.len() == 8);
}

/// How `value_after` grows when one more field is looked at.
pub proof fn lemma_value_after_step(f: Seq<Seq<char>>, i: int, key: Seq<char>)
    requires
        0 <= i,
        i + 2 <= f.len(),
    ensures
        value_after(f.take(i + 2), key) == if f[i] == key {
            Some(f[i + 1])
        } else {
            value_after(f.take(i + 1), key)
        },
{
    let g = f.take(i + 2);
    assert(g.drop_last() =~= f.take(i + 1));
}

/// A slot of the scan holds the place of the value found so far, if any.
pub open spec fn slot_holds(slot: Option<usize>, value: Option<Seq<char>>, f: Seq<Seq<char>>) -> bool {
    match slot {
        None => value is None,
        Some(k) => k < f.len() && value == Some(f[k as int]),
    }
}

/// Whether the piece `from..to` of `chars` is the word `word`.
fn span_is(chars: &Vec<char>, from: usize, to: usize, word: &Vec<char>) -> (r: bool)
    requires
        from <= to <= chars.len(),
    ensures
        r == (chars@.subrange(from as int, to as int) == word@),
{
    let n: usize = word.len();
    if to - from != n {
        return false;
    }
    let mut k: usize = 0;
    while k < n
        invariant
            k <= n,
            n == word.len(),
            to - from == n,
            from <= to <= chars.len(),
            forall|j: int| 0 <= j < k ==> chars@[from + j] == word@[j],
        decreases n - k,
    {
        if chars[from + k] != word[k] {
            proof {
                assert(chars@.subrange(from as int, to as int)[k as int] != word@[k as int]);
            }
            return false;
        }
        k = k + 1;
    }
    proof {
        assert(chars@.subrange(from as int, to as int) =~= word@);
    }
    true
}

/// Reads the entry that the piece `from..to` of `chars` holds.
pub(crate) fn parse_span(chars: &Vec<char>, from: usize, to: usize) -> (r: Result<
    AuthConfigEntry,
    AuthConfigError,
>)
    requires
        from <= to <= chars.len(),
    ensures
        entry_result(r) == parse_line(chars@.subrange(from as int, to as int)),
{
    let spans = field_spans(chars, from, to);
    let n: usize = spans.len();
    let ghost f = fields(chars@.subrange(from as int, to as int));
    let machine = chars_of("machine");
    let login = chars_of("login");
    let password = chars_of("password");
    if n == 0 {
        return Err(AuthConfigError::MissingEntry("machine"));
    }
    let last = spans[n - 1];
    assert(f.last() == chars@.subrange(last.0 as int, last.1 as int));
    if span_is(chars, last.0, last.1, &machine) {
        return Err(AuthConfigError::MissingEntry("machine"));
    }
    if span_is(chars, last.0, last.1, &login) {
        return Err(AuthConfigError::MissingEntry("login"));
    }
    if span_is(chars, last.0, last.1, &password) {
        return Err(AuthConfigError::MissingEntry("password"));
    }
    let mut host: Option<usize> = None;
    let mut user: Option<usize> = None;
    let mut pass: Option<usize> = None;
    let mut i: usize = 0;
    while i + 1 < n
        invariant
            i + 1 <= n,
            n == spans.len(),
            n == f.len(),
            f == pieces(chars@, spans@),
            machine@ == machine_key(),
            login@ == login_key(),
            password@ == password_key(),
            forall|k: int|
                0 <= k < spans.len() ==> from <= (#[trigger] spans[k]).0 < spans[k].1 <= to,
            from <= to <= chars.len(),
            slot_holds(host, value_after(f.take(i + 1), machine_key()), f),
            slot_holds(user, value_after(f.take(i + 1), login_key()), f),
            slot_holds(pass, value_after(f.take(i + 1), password_key()), f),
        decreases n - i,
    {
        let here = spans[i];
        proof {
            assert(f[i as int] == chars@.subrange(here.0 as int, here.1 as int));
            lemma_keys_differ();
            lemma_value_after_step(f, i as int, machine_key());
            lemma_value_after_step(f, i as int, login_key());
            lemma_value_after_step(f, i as int, password_key());
        }
        if span_is(chars, here.0, here.1, &machine) {
            host = Some(i + 1);
        } else if span_is(chars, here.0, here.1, &login) {
            user = Some(i + 1);
        } else if span_is(chars, here.0, here.1, &password) {
            pass = Some(i + 1);
        }
        i = i + 1;
    }
    proof {
        assert(f.take(n as int) =~= f);
    }
    match (host, user, pass) {
        (None, _, _) => Err(AuthConfigError::MissingEntry("machine")),
        (Some(_), None, _) => Err(AuthConfigError::MissingEntry("login")),
        (Some(_), Some(_), None) => Err(AuthConfigError::MissingEntry("password")),
        (Some(h), Some(u), Some(p)) => {
            let hs = spans[h];
            let us = spans[u];
            let ps = spans[p];
            Ok(
                AuthConfigEntry {
                    host: string_of(chars, hs.0, hs.1),
                    user: string_of(chars, us.0, us.1),
                    password: string_of(chars, ps.0, ps.1),
                },
            )
        },
    }
}

impl AuthConfigEntry {
    /// Reads one entry from a line. The line is cut into words at white
    /// space, words that start with `#` are set aside, and each of the keys
    /// `machine`, `login` and `password` takes the word after it as its value,
    /// a later occurrence replacing an earlier one.
    pub fn from_str(s: &str) -> (r: Result<AuthConfigEntry, AuthConfigError>)
        ensures
            entry_result(r) == parse_line(s@),
            r matches Ok(e) ==> e@.well_formed(),
    {
        proof {
            lemma_entry_holds_words(s@);
        }
        let chars = chars_of(s);
        let n: usize = chars.len();
        proof {
            assert(chars@.subrange(0, n as int) =~= s@);
        }
        parse_span(&chars, 0, n)
    }
}

impl std::str::FromStr for AuthConfigEntry {
    type Err = AuthConfigError;

    /// Reads one entry from a line, as `AuthConfigEntry::from_str` does.
    fn from_str(s: &str) -> (r: Result<AuthConfigEntry, AuthConfigError>)
        ensures
            entry_result(r) == parse_line(s@),
            r matches Ok(e) ==> e@.well_formed(),
    {
        AuthConfigEntry::from_str(s)
    }
}

} // verus!
