//! Files and the sessions that group them.
//!
//! A session is the set of discovered files sharing one capture date,
//! held in creation-time order; it may carry the destination the
//! operator bound to it.

use crate::destination::{Destination, DestinationView};
use vstd::prelude::*;

verus! {

broadcast use vstd::seq::group_seq_axioms;

/// The tag an operator can put on a file.
#[derive(PartialEq, Eq, Structural, Clone, Copy, Debug)]
pub enum Status {
    Import,
    Ignore,
}

/// One discovered source video file.
pub struct File {
    /// Absolute path of the file.
    pub path: String,
    /// Size in bytes.
    pub size: u64,
    /// Creation timestamp (epoch seconds), the ordering key within a
    /// session.
    pub created: u64,
    /// Estimated capture date, day granularity, or the unknown-date
    /// placeholder.
    pub date: String,
    /// Duration in whole seconds.
    pub seconds: u64,
    /// Operator note, when one was written.
    pub note: Option<String>,
    /// Operator tag, when one is set.
    pub status: Option<Status>,
}

/// The mathematical shape of a file entry.
pub ghost struct FileView {
    pub path: Seq<char>,
    pub size: u64,
    pub created: u64,
    pub date: Seq<char>,
    pub seconds: u64,
    pub note: Option<Seq<char>>,
    pub status: Option<Status>,
}

impl View for File {
    type V = FileView;

    open spec fn view(&self) -> FileView {
        FileView {
            path: self.path@,
            size: self.size,
            created: self.created,
            date: self.date@,
            seconds: self.seconds,
            note: match self.note {
                Some(ref n) => Some(n@),
                Option::None => Option::None,
            },
            status: self.status,
        }
    }
}

impl File {
    /// A copy with the same view.
    pub fn duplicate(&self) -> (r: Self)
        ensures
            r@ == self@,
    {
        File {
            path: self.path.clone(),
            size: self.size,
            created: self.created,
            date: self.date.clone(),
            seconds: self.seconds,
            note: match &self.note {
                Some(n) => Some(n.clone()),
                Option::None => Option::None,
            },
            status: self.status,
        }
    }

    /// The file's base name (`crate::paths::spec_basename`), its key
    /// in the cache partition.
    pub fn name(&self) -> (r: Option<String>)
        ensures
            r is Some <==> crate::paths::spec_basename(self.path@).len() > 0,
            r matches Some(b) ==> b@ == crate::paths::spec_basename(self.path@),
    {
        crate::paths::file_name(self.path.as_str())
    }
}

/// The views of a file vector, in order.
pub open spec fn file_views(s: Seq<File>) -> Seq<FileView> {
    s.map_values(|f: File| f@)
}

proof fn lemma_file_views_push(s: Seq<File>, f: File)
    ensures
        file_views(s.push(f)) == file_views(s).push(f@),
{
    assert forall|k: int| 0 <= k < s.len() + 1 implies file_views(s.push(f))[k] == file_views(
        s,
    ).push(f@)[k] by {
        if k < s.len() {
            assert(s.push(f)[k] == s[k]);
        } else {
            assert(s.push(f)[k] == f);
        }
    }
    assert(file_views(s.push(f)) =~= file_views(s).push(f@));
}

/// Files stand in strictly increasing creation-time order (so each
/// creation time appears at most once).
pub open spec fn files_ordered(fs: Seq<FileView>) -> bool {
    forall|i: int, j: int| 0 <= i < j < fs.len() ==> fs[i].created < fs[j].created
}

/// `fs` with `f` placed by creation time: an entry with the same
/// creation time is replaced, otherwise `f` enters at its sorted
/// position.
pub open spec fn spec_insert_file(fs: Seq<FileView>, f: FileView) -> Seq<FileView>
    decreases fs,
{
    if fs.len() == 0 {
        seq![f]
    } else if f.created < fs[0].created {
        seq![f] + fs
    } else if f.created == fs[0].created {
        seq![f] + fs.subrange(1, fs.len() as int)
    } else {
        seq![fs[0]] + spec_insert_file(fs.subrange(1, fs.len() as int), f)
    }
}

proof fn lemma_insert_file_at(fs: Seq<FileView>, f: FileView, idx: int)
    requires
        0 <= idx <= fs.len(),
        forall|k: int| 0 <= k < idx ==> fs[k].created < f.created,
        idx < fs.len() ==> fs[idx].created >= f.created,
    ensures
        idx < fs.len() && fs[idx].created == f.created ==> spec_insert_file(fs, f)
            == fs.update(idx, f),
        !(idx < fs.len() && fs[idx].created == f.created) ==> spec_insert_file(fs, f)
            == fs.insert(idx, f),
    decreases idx,
{
    if idx == 0 {
        if fs.len() == 0 {
            assert(spec_insert_file(fs, f) =~= fs.insert(0, f));
        } else if f.created < fs[0].created {
            assert(spec_insert_file(fs, f) =~= fs.insert(0, f));
        } else {
            assert(fs[0].created == f.created);
            assert(spec_insert_file(fs, f) =~= fs.update(0, f));
        }
    } else {
        let rest = fs.subrange(1, fs.len() as int);
        lemma_insert_file_at(rest, f, idx - 1);
        assert(fs[0].created < f.created);
        if idx < fs.len() && fs[idx].created == f.created {
            assert(rest[idx - 1] == fs[idx]);
            assert(spec_insert_file(fs, f) == seq![fs[0]] + rest.update(idx - 1, f));
            assert(seq![fs[0]] + rest.update(idx - 1, f) =~= fs.update(idx, f));
        } else {
            assert(spec_insert_file(fs, f) == seq![fs[0]] + rest.insert(idx - 1, f));
            assert(seq![fs[0]] + rest.insert(idx - 1, f) =~= fs.insert(idx, f));
        }
    }
}

/// Inserting keeps the creation-time order.
pub proof fn lemma_insert_file_ordered(fs: Seq<FileView>, f: FileView)
    requires
        files_ordered(fs),
    ensures
        files_ordered(spec_insert_file(fs, f)),
    decreases fs,
{
    if fs.len() == 0 {
    } else if f.created < fs[0].created {
        assert forall|i: int, j: int|
            0 <= i < j < (seq![f] + fs).len() implies (seq![f] + fs)[i].created < (seq![f]
            + fs)[j].created by {}
    } else if f.created == fs[0].created {
        let r = seq![f] + fs.subrange(1, fs.len() as int);
        assert forall|i: int, j: int| 0 <= i < j < r.len() implies r[i].created
            < r[j].created by {}
    } else {
        let rest = fs.subrange(1, fs.len() as int);
        lemma_insert_file_ordered(rest, f);
        let r = seq![fs[0]] + spec_insert_file(rest, f);
        lemma_insert_file_members(rest, f);
        assert forall|i: int, j: int| 0 <= i < j < r.len() implies r[i].created
            < r[j].created by {
            if i == 0 {
                let x = spec_insert_file(rest, f)[j - 1];
                assert(x == f || rest.contains(x));
                if rest.contains(x) {
                    let k = choose|k: int| 0 <= k < rest.len() && rest[k] == x;
                    assert(fs[0].created < rest[k].created);
                }
            }
        }
    }
}

/// Every member of an insertion result is the new entry or an old
/// one.
pub proof fn lemma_insert_file_members(fs: Seq<FileView>, f: FileView)
    ensures
        forall|j: int|
            0 <= j < spec_insert_file(fs, f).len() ==> #[trigger] spec_insert_file(fs, f)[j] == f
                || fs.contains(spec_insert_file(fs, f)[j]),
    decreases fs,
{
    if fs.len() == 0 {
    } else {
        let rest = fs.subrange(1, fs.len() as int);
        lemma_insert_file_members(rest, f);
        assert forall|j: int| 0 <= j < spec_insert_file(fs, f).len() implies #[trigger] spec_insert_file(
            fs,
            f,
        )[j] == f || fs.contains(spec_insert_file(fs, f)[j]) by {
            let r = spec_insert_file(fs, f);
            if f.created < fs[0].created {
                if j > 0 {
                    assert(r[j] == fs[j - 1]);
                }
            } else if f.created == fs[0].created {
                if j > 0 {
                    assert(r[j] == rest[j - 1]);
                    assert(fs.contains(r[j]));
                }
            } else {
                if j > 0 {
                    assert(r[j] == spec_insert_file(rest, f)[j - 1]);
                    if r[j] != f {
                        let k = choose|k: int| 0 <= k < rest.len() && rest[k] == r[j];
                        assert(fs[k + 1] == r[j]);
                    }
                }
            }
        }
    }
}

/// The files judged to share one capture date, with the destination
/// the operator bound to the session, if any.
pub struct Session {
    pub date: String,
    pub files: Vec<File>,
    pub destination: Option<Destination>,
}

/// The mathematical shape of a session.
pub ghost struct SessionView {
    pub date: Seq<char>,
    pub files: Seq<FileView>,
    pub destination: Option<DestinationView>,
}

impl View for Session {
    type V = SessionView;

    open spec fn view(&self) -> SessionView {
        SessionView {
            date: self.date@,
            files: file_views(self.files@),
            destination: match self.destination {
                Some(ref d) => Some(d@),
                Option::None => Option::None,
            },
        }
    }
}

/// `fs` after inserting each entry of `add` in turn.
pub open spec fn spec_insert_files(fs: Seq<FileView>, add: Seq<FileView>) -> Seq<FileView>
    decreases add.len(),
{
    if add.len() == 0 {
        fs
    } else {
        spec_insert_files(spec_insert_file(fs, add[0]), add.subrange(1, add.len() as int))
    }
}

proof fn lemma_insert_files_push(fs: Seq<FileView>, add: Seq<FileView>, x: FileView)
    ensures
        spec_insert_files(fs, add.push(x)) == spec_insert_file(spec_insert_files(fs, add), x),
    decreases add.len(),
{
    if add.len() == 0 {
        assert(add.push(x)[0] == x);
        assert(add.push(x).subrange(1, 1) =~= Seq::<FileView>::empty());
        assert(spec_insert_files(fs, add.push(x)) == spec_insert_files(
            spec_insert_file(fs, x),
            Seq::<FileView>::empty(),
        ));
        assert(spec_insert_files(spec_insert_file(fs, x), Seq::<FileView>::empty())
            == spec_insert_file(fs, x));
        assert(spec_insert_files(fs, add) == fs);
    } else {
        assert(add.push(x)[0] == add[0]);
        assert(add.push(x).subrange(1, add.len() as int + 1) =~= add.subrange(
            1,
            add.len() as int,
        ).push(x));
        lemma_insert_files_push(spec_insert_file(fs, add[0]), add.subrange(1, add.len() as int), x);
        assert(spec_insert_files(fs, add.push(x)) == spec_insert_files(
            spec_insert_file(fs, add[0]),
            add.subrange(1, add.len() as int).push(x),
        ));
        assert(spec_insert_files(fs, add) == spec_insert_files(
            spec_insert_file(fs, add[0]),
            add.subrange(1, add.len() as int),
        ));
    }
}

impl Session {
    /// The session's well-formedness: files in creation-time order.
    pub open spec fn wf(&self) -> bool {
        files_ordered(self@.files)
    }

    /// Places `file` among the session's files by creation time,
    /// replacing any entry that shares its creation timestamp.
    pub fn insert_file(&mut self, file: File)
        requires
            old(self).wf(),
        ensures
            final (self).wf(),
            final (self)@.date == old(self)@.date,
            final (self)@.destination == old(self)@.destination,
            final (self)@.files == spec_insert_file(old(self)@.files, file@),
    {
        let ghost fs0 = self@.files;
        let n = self.files.len();
        let mut idx: usize = 0;
        while idx < n && self.files[idx].created < file.created
            invariant
                idx <= n,
                n == self.files@.len(),
                fs0 == file_views(self.files@),
                forall|k: int| 0 <= k < idx ==> fs0[k].created < file@.created,
            decreases n - idx,
        {
            idx = idx + 1;
        }
        proof {
            lemma_insert_file_at(fs0, file@, idx as int);
            lemma_insert_file_ordered(fs0, file@);
        }
        if idx < n && self.files[idx].created == file.created {
            self.files.set(idx, file);
            proof {
                assert(file_views(self.files@) =~= fs0.update(idx as int, file@));
            }
        } else {
            self.files.insert(idx, file);
            proof {
                assert(file_views(self.files@) =~= fs0.insert(idx as int, file@));
            }
        }
    }

    /// A fresh session for one date, filled from `files` in turn.
    pub fn new(date: String, files: Vec<File>, destination: Option<Destination>) -> (r: Self)
        ensures
            r.wf(),
            r@.date == date@,
            r@.files == spec_insert_files(Seq::empty(), file_views(files@)),
            r@.destination == match destination {
                Some(d) => Some(d@),
                Option::None => Option::None::<DestinationView>,
            },
    {
        let ghost vs = file_views(files@);
        let mut s = Session { date, files: Vec::new(), destination };
        let ghost date0 = s@.date;
        let ghost dest0 = s@.destination;
        proof {
            assert(file_views(s.files@) =~= Seq::<FileView>::empty());
            assert(vs.subrange(0, 0) =~= Seq::<FileView>::empty());
        }
        let n = files.len();
        let mut i: usize = 0;
        while i < n
            invariant
                i <= n,
                n == files@.len(),
                vs == file_views(files@),
                s.wf(),
                s@.date == date0,
                s@.destination == dest0,
                s@.files == spec_insert_files(Seq::empty(), vs.subrange(0, i as int)),
            decreases n - i,
        {
            let f = files[i].duplicate();
            proof {
                assert(vs.subrange(0, i + 1) =~= vs.subrange(0, i as int).push(vs[i as int]));
                lemma_insert_files_push(
                    Seq::<FileView>::empty(),
                    vs.subrange(0, i as int),
                    vs[i as int],
                );
                assert(f@ == vs[i as int]);
            }
            s.insert_file(f);
            i = i + 1;
        }
        proof {
            assert(vs.subrange(0, n as int) =~= vs);
        }
        s
    }
}


/// Caps a sum at what a machine word can hold.
pub open spec fn cap64(x: int) -> int {
    if x > u64::MAX {
        u64::MAX as int
    } else {
        x
    }
}

/// The total size of the files carrying status `st`.
pub open spec fn spec_size_sum(fs: Seq<FileView>, st: Option<Status>) -> int
    decreases fs,
{
    if fs.len() == 0 {
        0
    } else {
        (if fs[0].status == st {
            fs[0].size as int
        } else {
            0
        }) + spec_size_sum(fs.subrange(1, fs.len() as int), st)
    }
}

/// The total size of all files.
pub open spec fn spec_total_size(fs: Seq<FileView>) -> int
    decreases fs,
{
    if fs.len() == 0 {
        0
    } else {
        fs[0].size + spec_total_size(fs.subrange(1, fs.len() as int))
    }
}

/// How many files carry status `st`.
pub open spec fn spec_status_count(fs: Seq<FileView>, st: Option<Status>) -> int
    decreases fs,
{
    if fs.len() == 0 {
        0
    } else {
        (if fs[0].status == st {
            1int
        } else {
            0int
        }) + spec_status_count(fs.subrange(1, fs.len() as int), st)
    }
}

proof fn lemma_size_sum_step(fs: Seq<FileView>, st: Option<Status>, i: int)
    requires
        0 <= i < fs.len(),
    ensures
        spec_size_sum(fs.subrange(i, fs.len() as int), st) == (if fs[i].status == st {
            fs[i].size as int
        } else {
            0
        }) + spec_size_sum(fs.subrange(i + 1, fs.len() as int), st),
        spec_total_size(fs.subrange(i, fs.len() as int)) == fs[i].size + spec_total_size(
            fs.subrange(i + 1, fs.len() as int),
        ),
        spec_status_count(fs.subrange(i, fs.len() as int), st) == (if fs[i].status == st {
            1int
        } else {
            0int
        }) + spec_status_count(fs.subrange(i + 1, fs.len() as int), st),
{
    let t = fs.subrange(i, fs.len() as int);
    assert(t[0] == fs[i]);
    assert(t.subrange(1, t.len() as int) =~= fs.subrange(i + 1, fs.len() as int));
}

proof fn lemma_sums_nonneg(fs: Seq<FileView>, st: Option<Status>)
    ensures
        spec_size_sum(fs, st) >= 0,
        spec_total_size(fs) >= 0,
        spec_status_count(fs, st) >= 0,
    decreases fs,
{
    if fs.len() > 0 {
        lemma_sums_nonneg(fs.subrange(1, fs.len() as int), st);
    }
}

impl Session {
    /// The bytes of this session's files that are tagged for import
    /// and the bytes still untagged, each capped at what a word
    /// holds.
    pub fn size_split(&self) -> (r: (u64, u64))
        ensures
            r.0 as int == cap64(spec_size_sum(self@.files, Some(Status::Import))),
            r.1 as int == cap64(spec_size_sum(self@.files, Option::None)),
    {
        let ghost fs = self@.files;
        let n = self.files.len();
        let mut imported: u64 = 0;
        let mut untagged: u64 = 0;
        let mut i: usize = 0;
        proof {
            assert(fs.subrange(0, n as int) =~= fs);
            lemma_sums_nonneg(fs, Some(Status::Import));
            lemma_sums_nonneg(fs, Option::None);
        }
        while i < n
            invariant
                i <= n,
                n == self.files@.len(),
                fs == file_views(self.files@),
                imported as int + spec_size_sum(fs.subrange(i as int, n as int), Some(
                    Status::Import,
                )) >= 0,
                cap64(
                    imported as int + spec_size_sum(fs.subrange(i as int, n as int), Some(
                        Status::Import,
                    )),
                ) == cap64(spec_size_sum(fs, Some(Status::Import))),
                untagged as int + spec_size_sum(fs.subrange(i as int, n as int), Option::None)
                    >= 0,
                cap64(
                    untagged as int + spec_size_sum(
                        fs.subrange(i as int, n as int),
                        Option::None,
                    ),
                ) == cap64(spec_size_sum(fs, Option::None)),
            decreases n - i,
        {
            proof {
                lemma_size_sum_step(fs, Some(Status::Import), i as int);
                lemma_size_sum_step(fs, Option::None, i as int);
                lemma_sums_nonneg(fs.subrange(i + 1, n as int), Some(Status::Import));
                lemma_sums_nonneg(fs.subrange(i + 1, n as int), Option::None);
            }
            let f = &self.files[i];
            match f.status {
                Some(Status::Import) => {
                    imported = imported.saturating_add(f.size);
                },
                Option::None => {
                    untagged = untagged.saturating_add(f.size);
                },
                _ => {},
            }
            i = i + 1;
        }
        proof {
            assert(fs.subrange(n as int, n as int) =~= Seq::<FileView>::empty());
        }
        (imported, untagged)
    }

    /// The session's file count and how many of them are tagged for
    /// import.
    pub fn file_counts(&self) -> (r: (usize, usize))
        ensures
            r.0 == self@.files.len(),
            r.1 as int == spec_status_count(self@.files, Some(Status::Import)),
    {
        let ghost fs = self@.files;
        let n = self.files.len();
        let mut imported: usize = 0;
        let mut i: usize = 0;
        proof {
            assert(fs.subrange(0, n as int) =~= fs);
            lemma_sums_nonneg(fs, Some(Status::Import));
        }
        while i < n
            invariant
                i <= n,
                n == self.files@.len(),
                fs == file_views(self.files@),
                imported <= i,
                imported as int + spec_status_count(fs.subrange(i as int, n as int), Some(
                    Status::Import,
                )) == spec_status_count(fs, Some(Status::Import)),
            decreases n - i,
        {
            proof {
                lemma_size_sum_step(fs, Some(Status::Import), i as int);
            }
            let f = &self.files[i];
            if match f.status {
                Some(Status::Import) => true,
                _ => false,
            } {
                imported = imported + 1;
            }
            i = i + 1;
        }
        proof {
            assert(fs.subrange(n as int, n as int) =~= Seq::<FileView>::empty());
        }
        (n, imported)
    }

    /// The total size of the session's files, capped at what a word
    /// holds.
    pub fn total_size(&self) -> (r: u64)
        ensures
            r as int == cap64(spec_total_size(self@.files)),
    {
        let ghost fs = self@.files;
        let n = self.files.len();
        let mut total: u64 = 0;
        let mut i: usize = 0;
        proof {
            assert(fs.subrange(0, n as int) =~= fs);
            lemma_sums_nonneg(fs, Option::None);
        }
        while i < n
            invariant
                i <= n,
                n == self.files@.len(),
                fs == file_views(self.files@),
                total as int + spec_total_size(fs.subrange(i as int, n as int)) >= 0,
                cap64(total as int + spec_total_size(fs.subrange(i as int, n as int))) == cap64(
                    spec_total_size(fs),
                ),
            decreases n - i,
        {
            proof {
                lemma_size_sum_step(fs, Option::None, i as int);
                lemma_sums_nonneg(fs.subrange(i + 1, n as int), Option::None);
            }
            total = total.saturating_add(self.files[i].size);
            i = i + 1;
        }
        proof {
            assert(fs.subrange(n as int, n as int) =~= Seq::<FileView>::empty());
        }
        total
    }

    /// A copy with the same view.
    pub fn duplicate(&self) -> (r: Self)
        ensures
            r@ == self@,
    {
        let mut files: Vec<File> = Vec::new();
        let n = self.files.len();
        let mut i: usize = 0;
        proof {
            assert(file_views(files@) =~= file_views(self.files@).subrange(0, 0));
        }
        while i < n
            invariant
                i <= n,
                n == self.files@.len(),
                files@.len() == i,
                file_views(files@) == file_views(self.files@).subrange(0, i as int),
            decreases n - i,
        {
            let ghost files0 = files@;
            let d = self.files[i].duplicate();
            files.push(d);
            proof {
                lemma_file_views_push(files0, d);
                assert(file_views(self.files@)[i as int] == self.files@[i as int]@);
                assert(file_views(self.files@).subrange(0, i as int + 1) =~= file_views(
                    self.files@,
                ).subrange(0, i as int).push(self.files@[i as int]@));
            }
            i = i + 1;
        }
        proof {
            assert(file_views(files@) =~= file_views(self.files@));
        }
        Session {
            date: self.date.clone(),
            files,
            destination: match &self.destination {
                Some(d) => Some(d.duplicate()),
                Option::None => Option::None,
            },
        }
    }

    /// The absolute paths of the session's files, in session order.
    pub fn file_paths(&self) -> (r: Vec<String>)
        ensures
            r@.len() == self@.files.len(),
            forall|i: int| 0 <= i < r@.len() ==> r@[i]@ == self@.files[i].path,
    {
        let mut out: Vec<String> = Vec::new();
        let n = self.files.len();
        let mut i: usize = 0;
        while i < n
            invariant
                i <= n,
                n == self.files@.len(),
                out@.len() == i,
                forall|k: int|
                    0 <= k < i ==> out@[k]@ == file_views(self.files@)[k].path,
            decreases n - i,
        {
            out.push(self.files[i].path.clone());
            i = i + 1;
        }
        out
    }
}


/// Pointwise: replacing one file replaces one view.
pub proof fn lemma_file_views_update(s: Seq<File>, i: int, f: File)
    requires
        0 <= i < s.len(),
    ensures
        file_views(s.update(i, f)) == file_views(s).update(i, f@),
{
    assert forall|k: int| 0 <= k < s.len() implies file_views(s.update(i, f))[k] == file_views(
        s,
    ).update(i, f@)[k] by {
        if k != i {
            assert(s.update(i, f)[k] == s[k]);
        }
    }
    assert(file_views(s.update(i, f)) =~= file_views(s).update(i, f@));
}

} // verus!
