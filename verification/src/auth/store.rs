//! The credential store: the entries of all files of a credential directory,
//! in the order in which they were met, and the lookup by host.

use vstd::prelude::*;
use vstd::string::StringExecFns;
use crate::auth::entry::parse_line;
use crate::auth::entry::parse_span;
use crate::auth::entry::AuthConfigEntry;
use crate::auth::entry::Entry;
use crate::auth::error::AuthConfigError;
use crate::auth::error::Failure;
use crate::auth::laws::lemma_files_give_entries;
use crate::auth::laws::lemma_lines_give_entries;
use crate::auth::text::chars_of;
use crate::auth::text::is_comment_line;
use crate::auth::text::is_comment_span;
use crate::auth::text::line_end;
use crate::auth::text::lemma_line_len;
use crate::auth::text::line_len;
use crate::auth::text::lines;

verus! {

/// The mathematical values of a run of entries.
pub open spec fn entry_views(entries: Seq<AuthConfigEntry>) -> Seq<Entry> {
    entries.map_values(|e: AuthConfigEntry| e@)
}

/// Each of the entries is well formed.
pub open spec fn all_well_formed(entries: Seq<Entry>) -> bool {
    forall|i: int| 0 <= i < entries.len() ==> (#[trigger] entries[i]).well_formed()
}

/// `found`, then what `rest` gives; the failure of `rest` if it fails.
pub open spec fn then_entries(found: Seq<Entry>, rest: Result<Seq<Entry>, Failure>) -> Result<
    Seq<Entry>,
    Failure,
> {
    match rest {
        Ok(more) => Ok(found + more),
        Err(e) => Err(e),
    }
}

/// The entries of a run of lines. Comment lines give nothing, every other
/// line must hold an entry, and the first line that does not decides the
/// failure.
pub open spec fn entries_of_lines(ls: Seq<Seq<char>>) -> Result<Seq<Entry>, Failure>
    decreases ls.len(),
{
    if ls.len() == 0 {
        Ok(Seq::empty())
    } else if is_comment_line(ls[0]) {
        entries_of_lines(ls.drop_first())
    } else {
        match parse_line(ls[0]) {
            Ok(e) => then_entries(seq![e], entries_of_lines(ls.drop_first())),
            Err(e) => Err(e),
        }
    }
}

/// The entries of the text of one file.
pub open spec fn entries_of_text(text: Seq<char>) -> Result<Seq<Entry>, Failure> {
    entries_of_lines(lines(text))
}

/// The mathematical value of a run of entries, or of the failure to read them.
pub open spec fn entries_result(r: Result<Vec<AuthConfigEntry>, AuthConfigError>) -> Result<
    Seq<Entry>,
    Failure,
> {
    match r {
        Ok(v) => Ok(entry_views(v@)),
        Err(e) => Err(e@),
    }
}

/// Reads the entries of the text of one file, line by line.
pub fn parse_text(text: &str) -> (r: Result<Vec<AuthConfigEntry>, AuthConfigError>)
    ensures
        entries_result(r) == entries_of_text(text@),
        r matches Ok(v) ==> all_well_formed(entry_views(v@)),
{
    proof {
        lemma_lines_give_entries(lines(text@));
    }
    let chars = chars_of(text);
    let n: usize = chars.len();
    let mut found: Vec<AuthConfigEntry> = Vec::new();
    let mut i: usize = 0;
    proof {
        assert(chars@.subrange(0, n as int) =~= text@);
        assert(entry_views(found@) =~= Seq::<Entry>::empty());
        let whole = entries_of_text(text@);
        assert(then_entries(Seq::<Entry>::empty(), whole) == whole) by {
            if let Ok(es) = whole {
                assert(Seq::<Entry>::empty() + es =~= es);
            }
        }
    }
    while i < n
        invariant
            i <= n,
            n == chars.len(),
            entries_of_text(text@) == then_entries(
                entry_views(found@),
                entries_of_text(chars@.subrange(i as int, n as int)),
            ),
        decreases n - i,
    {
        let end = line_end(&chars, i);
        let next: usize = if end < n {
            end + 1
        } else {
            end
        };
        let ghost rest = chars@.subrange(i as int, n as int);
        let ghost after = chars@.subrange(next as int, n as int);
        let ghost line = chars@.subrange(i as int, end as int);
        proof {
            lemma_line_len(rest);
            assert(rest.take(line_len(rest) as int) =~= line);
            if end < n {
                assert(rest.skip(line_len(rest) as int + 1) =~= after);
            } else {
                assert(rest =~= line);
                assert(after.len() == 0);
                assert(lines(after) =~= Seq::<Seq<char>>::empty());
                assert(seq![line] + lines(after) =~= seq![line]);
            }
            assert(lines(rest) == seq![line] + lines(after));
            assert((seq![line] + lines(after)).drop_first() =~= lines(after));
        }
        if !is_comment_span(&chars, i, end) {
            match parse_span(&chars, i, end) {
                Err(e) => {
                    return Err(e);
                },
                Ok(entry) => {
                    let ghost before = entry_views(found@);
                    found.push(entry);
                    proof {
                        assert(entry_views(found@) =~= before + seq![entry@]);
                        if let Ok(more) = entries_of_text(after) {
                            assert(before + (seq![entry@] + more) =~= (before + seq![entry@])
                                + more);
                        }
                    }
                },
            }
        }
        i = next;
    }
    proof {
        assert(chars@.subrange(n as int, n as int).len() == 0);
        assert(entry_views(found@) + Seq::<Entry>::empty() =~= entry_views(found@));
    }
    Ok(found)
}

/// A regular file of the credential directory, as it was read: where it
/// lies and its text, or why the text could not be had.
pub struct FileRead {
    pub path: String,
    pub content: Result<String, std::io::Error>,
}

/// What one step of walking the credential directory came upon.
pub enum DirItem {
    /// The step itself failed.
    Failed(std::io::Error),
    /// Something that is no regular file: a directory, a dangling link.
    Other,
    /// A regular file.
    File(FileRead),
}

/// What was found at a directory: its items in the order of the walk, or why
/// it could not be opened.
pub type DirScan = Result<Vec<DirItem>, std::io::Error>;

/// The cause of the first step that failed, if one did.
pub open spec fn first_failed(items: Seq<DirItem>) -> Option<std::io::Error>
    decreases items.len(),
{
    if items.len() == 0 {
        None
    } else if let DirItem::Failed(err) = items[0] {
        Some(err)
    } else {
        first_failed(items.drop_first())
    }
}

/// The regular files among the items, in the order of the walk.
pub open spec fn files_of(items: Seq<DirItem>) -> Seq<FileRead>
    decreases items.len(),
{
    if items.len() == 0 {
        Seq::empty()
    } else if let DirItem::File(file) = items[0] {
        seq![file] + files_of(items.drop_first())
    } else {
        files_of(items.drop_first())
    }
}

/// The files that a walk of the directory `dir` yields. A directory that
/// cannot be opened and a step that fails are failures; what is no regular
/// file is passed over.
pub open spec fn listed_files(dir: Seq<char>, scan: DirScan) -> Result<Seq<FileRead>, Failure> {
    match scan {
        Err(err) => Err(Failure::ReadDir { path: dir, err }),
        Ok(items) => match first_failed(items@) {
            Some(err) => Err(Failure::DirEntry(err)),
            None => Ok(files_of(items@)),
        },
    }
}

/// The entries of a run of files, file after file. A file without text is a
/// failure, and so is the first line anywhere that holds no entry; whichever
/// comes first in the order of the files decides.
pub open spec fn entries_of_files(files: Seq<FileRead>) -> Result<Seq<Entry>, Failure>
    decreases files.len(),
{
    if files.len() == 0 {
        Ok(Seq::empty())
    } else {
        match files[0].content {
            Err(err) => Err(Failure::OpenFile { path: files[0].path@, err }),
            Ok(text) => match entries_of_text(text@) {
                Ok(found) => then_entries(found, entries_of_files(files.drop_first())),
                Err(e) => Err(e),
            },
        }
    }
}

/// The store that a walk of the directory `dir` gives: the entries of its
/// regular files, or the first failure. Failures of the walk come before
/// those of the files.
pub open spec fn store_of(dir: Seq<char>, scan: DirScan) -> Result<Seq<Entry>, Failure> {
    match listed_files(dir, scan) {
        Ok(files) => entries_of_files(files),
        Err(e) => Err(e),
    }
}

/// The mathematical value of a list of files, or of the failure to list them.
pub open spec fn files_result(r: Result<Vec<FileRead>, AuthConfigError>) -> Result<
    Seq<FileRead>,
    Failure,
> {
    match r {
        Ok(v) => Ok(v@),
        Err(e) => Err(e@),
    }
}

/// Picks the regular files out of what a walk of the directory `dir` found.
pub fn regular_files(dir: &str, scan: DirScan) -> (r: Result<Vec<FileRead>, AuthConfigError>)
    ensures
        files_result(r) == listed_files(dir@, scan),
{
    let items = match scan {
        Err(err) => {
            return Err(AuthConfigError::ReadDir { path: String::from_str(dir), err });
        },
        Ok(items) => items,
    };
    let ghost all = items@;
    let mut files: Vec<FileRead> = Vec::new();
    proof {
        assert(all.skip(0) =~= all);
        assert(files@ + files_of(all) =~= files_of(all));
    }
    for item in it: items
        invariant
            it.seq() == all,
            scan matches Ok(v) && v@ == all,
            first_failed(all) == first_failed(all.skip(it.index() as int)),
            files_of(all) == files@ + files_of(all.skip(it.index() as int)),
    {
        let ghost k = it.index() as int;
        proof {
            assert(all.skip(k).drop_first() =~= all.skip(k + 1));
            assert(all.skip(k)[0] == item);
        }
        match item {
            DirItem::Failed(err) => {
                return Err(AuthConfigError::DirEntry(err));
            },
            DirItem::Other => {},
            DirItem::File(file) => {
                let ghost before = files@;
                files.push(file);
                proof {
                    assert(before + (seq![file] + files_of(all.skip(k + 1))) =~= files@
                        + files_of(all.skip(k + 1)));
                }
            },
        }
    }
    proof {
        assert(all.skip(all.len() as int).len() == 0);
        assert(files@ + Seq::<FileRead>::empty() =~= files@);
    }
    Ok(files)
}

/// The directory below a system root in which the credential files lie.
pub open spec fn system_dir_of(sysroot: Seq<char>) -> Seq<char> {
    if sysroot.len() == 0 || sysroot.last() == '/' {
        sysroot + "etc/apt/auth.conf.d"@
    } else {
        sysroot + "/"@ + "etc/apt/auth.conf.d"@
    }
}

/// The credential store.
pub struct AuthConfig {
    pub inner: Vec<AuthConfigEntry>,
}

impl View for AuthConfig {
    type V = Seq<Entry>;

    open spec fn view(&self) -> Seq<Entry> {
        entry_views(self.inner@)
    }
}

/// The mathematical value of a store, or of the failure to build it.
pub open spec fn store_result(r: Result<AuthConfig, AuthConfigError>) -> Result<
    Seq<Entry>,
    Failure,
> {
    match r {
        Ok(c) => Ok(c@),
        Err(e) => Err(e@),
    }
}

/// `i` is the place of the first of `entries` that is for `host`.
pub open spec fn is_first_for(entries: Seq<Entry>, host: Seq<char>, i: int) -> bool {
    &&& 0 <= i < entries.len()
    &&& entries[i].host == host
    &&& forall|j: int| 0 <= j < i ==> (#[trigger] entries[j]).host != host
}

impl AuthConfig {
    /// A store that was built holds well-formed entries only.
    pub open spec fn well_formed(&self) -> bool {
        all_well_formed(self@)
    }

    /// The credential directory of the system that is rooted at `sysroot`.
    pub fn system_dir(sysroot: &str) -> (dir: String)
        ensures
            dir@ == system_dir_of(sysroot@),
    {
        let n: usize = sysroot.unicode_len();
        let root = String::from_str(sysroot);
        if n == 0 || sysroot.get_char(n - 1) == '/' {
            root.concat("etc/apt/auth.conf.d")
        } else {
            root.concat("/").concat("etc/apt/auth.conf.d")
        }
    }

    /// Builds the store of the system rooted at `sysroot` from what was
    /// found at its credential directory.
    pub fn system(sysroot: &str, scan: DirScan) -> (r: Result<AuthConfig, AuthConfigError>)
        ensures
            store_result(r) == store_of(system_dir_of(sysroot@), scan),
            r matches Ok(c) ==> c.well_formed(),
    {
        let dir = Self::system_dir(sysroot);
        Self::from_path(dir.as_str(), scan)
    }

    /// Builds the store from what was found at the directory `p`.
    pub fn from_path(p: &str, scan: DirScan) -> (r: Result<AuthConfig, AuthConfigError>)
        ensures
            store_result(r) == store_of(p@, scan),
            r matches Ok(c) ==> c.well_formed(),
    {
        match regular_files(p, scan) {
            Ok(files) => Self::from_files(files),
            Err(e) => Err(e),
        }
    }

    /// Builds the store from the files of a credential directory, in their
    /// order. There is no store of a part of them: the first file without
    /// text, or the first line without an entry, fails the whole.
    pub fn from_files(files: Vec<FileRead>) -> (r: Result<AuthConfig, AuthConfigError>)
        ensures
            store_result(r) == entries_of_files(files@),
            r matches Ok(c) ==> c.well_formed(),
    {
        let ghost all = files@;
        proof {
            lemma_files_give_entries(all);
        }
        let mut inner: Vec<AuthConfigEntry> = Vec::new();
        proof {
            assert(all.skip(0) =~= all);
            assert(entry_views(inner@) =~= Seq::<Entry>::empty());
            if let Ok(es) = entries_of_files(all) {
                assert(Seq::<Entry>::empty() + es =~= es);
            }
        }
        for file in it: files
            invariant
                it.seq() == all,
                entries_of_files(all) == then_entries(
                    entry_views(inner@),
                    entries_of_files(all.skip(it.index() as int)),
                ),
        {
            let ghost k = it.index() as int;
            proof {
                assert(all.skip(k).drop_first() =~= all.skip(k + 1));
                assert(all.skip(k)[0] == file);
            }
            let FileRead { path, content } = file;
            match content {
                Err(err) => {
                    return Err(AuthConfigError::OpenFile { path, err });
                },
                Ok(text) => match parse_text(text.as_str()) {
                    Err(e) => {
                        return Err(e);
                    },
                    Ok(mut found) => {
                        let ghost before = entry_views(inner@);
                        let ghost new = entry_views(found@);
                        inner.append(&mut found);
                        proof {
                            assert(entry_views(inner@) =~= before + new);
                            if let Ok(more) = entries_of_files(all.skip(k + 1)) {
                                assert(before + (new + more) =~= (before + new) + more);
                            }
                        }
                    },
                },
            }
        }
        proof {
            assert(all.skip(all.len() as int).len() == 0);
            assert(entry_views(inner@) + Seq::<Entry>::empty() =~= entry_views(inner@));
        }
        Ok(AuthConfig { inner })
    }

    /// The first entry of the store for the host `machine`, compared letter
    /// by letter; `None` where the store has no entry for it.
    pub fn find(&self, machine: &str) -> (r: Option<&AuthConfigEntry>)
        ensures
            match r {
                Some(e) => exists|i: int|
                    is_first_for(self@, machine@, i) && *e == #[trigger] self.inner@[i],
                None => forall|i: int|
                    0 <= i < self@.len() ==> (#[trigger] self@[i]).host != machine@,
            },
    {
        let wanted = String::from_str(machine);
        let mut i: usize = 0;
        while i < self.inner.len()
            invariant
                i <= self.inner.len(),
                wanted@ == machine@,
                forall|j: int| 0 <= j < i ==> (#[trigger] self@[j]).host != machine@,
            decreases self.inner.len() - i,
        {
            if self.inner[i].host == wanted {
                proof {
                    assert(is_first_for(self@, machine@, i as int));
                }
                return Some(&self.inner[i]);
            }
            i = i + 1;
        }
        None
    }
}

} // verus!
