//! The per-device cache.
//!
//! One document holds a partition per camera identity; a partition
//! maps file base names to their cached records and capture dates to
//! the session destinations the operator chose.  The surrounding
//! program reads and writes the document on disk; everything it does
//! between those two moments — look-ups, upserts, the read-merge-write
//! of a whole document — is here.

use crate::destination::{Destination, DestinationView};
use crate::paths::str_eq;
use crate::session::Status;
use vstd::prelude::*;

verus! {

broadcast use {vstd::seq::group_seq_axioms, vstd::map::group_map_axioms};

/// One cached file record.
pub struct File {
    /// Capture date, day granularity, or the unknown-date placeholder.
    pub date: String,
    /// Duration in whole seconds.
    pub seconds: u64,
    /// Operator note, when one was written.
    pub note: Option<String>,
    /// Operator tag, when one is set.
    pub status: Option<Status>,
    /// Whether the file has ever been copied to its destination.
    pub imported: bool,
}

/// The mathematical shape of a cached record.
pub ghost struct FileView {
    pub date: Seq<char>,
    pub seconds: u64,
    pub note: Option<Seq<char>>,
    pub status: Option<Status>,
    pub imported: bool,
}

impl View for File {
    type V = FileView;

    open spec fn view(&self) -> FileView {
        FileView {
            date: self.date@,
            seconds: self.seconds,
            note: match self.note {
                Some(ref n) => Some(n@),
                Option::None => Option::None,
            },
            status: self.status,
            imported: self.imported,
        }
    }
}

impl File {
    /// A copy with the same view.
    pub fn duplicate(&self) -> (r: Self)
        ensures
            r@ == self@,
    {
        File {
            date: self.date.clone(),
            seconds: self.seconds,
            note: match &self.note {
                Some(n) => Some(n.clone()),
                Option::None => Option::None,
            },
            status: self.status,
            imported: self.imported,
        }
    }
}

/// The keyed entries of an association list, later entries winning.
pub open spec fn assoc_map<T: View>(s: Seq<(String, T)>) -> Map<Seq<char>, <T as View>::V>
    decreases s,
{
    if s.len() == 0 {
        Map::empty()
    } else {
        assoc_map(s.drop_last()).insert(s.last().0@, s.last().1@)
    }
}

/// No two entries share a key.
pub open spec fn assoc_unique<T>(s: Seq<(String, T)>) -> bool {
    forall|i: int, j: int| 0 <= i < j < s.len() ==> s[i].0@ != s[j].0@
}

proof fn lemma_assoc_map_keys<T: View>(s: Seq<(String, T)>)
    ensures
        forall|k: Seq<char>|
            #[trigger] assoc_map(s).contains_key(k) <==> exists|i: int|
                0 <= i < s.len() && #[trigger] s[i].0@ == k,
    decreases s,
{
    if s.len() > 0 {
        lemma_assoc_map_keys(s.drop_last());
        assert forall|k: Seq<char>| #[trigger] assoc_map(s).contains_key(k) implies exists|i: int|
            0 <= i < s.len() && #[trigger] s[i].0@ == k by {
            if k != s.last().0@ {
                assert(assoc_map(s.drop_last()).contains_key(k));
                let i = choose|i: int| 0 <= i < s.drop_last().len() && #[trigger] s.drop_last()[i].0@
                    == k;
                assert(s[i].0@ == k);
            } else {
                assert(s[s.len() - 1].0@ == k);
            }
        }
        assert forall|k: Seq<char>|
            exists|i: int| 0 <= i < s.len() && #[trigger] s[i].0@ == k implies #[trigger] assoc_map(
            s,
        ).contains_key(k) by {
            let i = choose|i: int| 0 <= i < s.len() && #[trigger] s[i].0@ == k;
            if i < s.len() - 1 {
                assert(s.drop_last()[i].0@ == k);
                assert(exists|j: int|
                    0 <= j < s.drop_last().len() && #[trigger] s.drop_last()[j].0@ == k);
                assert(assoc_map(s.drop_last()).contains_key(k));
            }
        }
    }
}

proof fn lemma_assoc_map_at<T: View>(s: Seq<(String, T)>, i: int)
    requires
        assoc_unique(s),
        0 <= i < s.len(),
    ensures
        assoc_map(s).contains_key(s[i].0@),
        assoc_map(s)[s[i].0@] == s[i].1@,
    decreases s,
{
    if i == s.len() - 1 {
    } else {
        lemma_assoc_map_at(s.drop_last(), i);
        assert(s.drop_last()[i] == s[i]);
        assert(s[i].0@ != s.last().0@);
    }
}

proof fn lemma_assoc_map_push<T: View>(s: Seq<(String, T)>, p: (String, T))
    ensures
        assoc_map(s.push(p)) == assoc_map(s).insert(p.0@, p.1@),
{
    assert(s.push(p).drop_last() =~= s);
    assert(s.push(p).last() == p);
}

proof fn lemma_assoc_map_update<T: View>(s: Seq<(String, T)>, i: int, p: (String, T))
    requires
        assoc_unique(s),
        0 <= i < s.len(),
        p.0@ == s[i].0@,
    ensures
        assoc_map(s.update(i, p)) == assoc_map(s).insert(p.0@, p.1@),
    decreases s,
{
    let t = s.update(i, p);
    if i == s.len() - 1 {
        assert(t.drop_last() =~= s.drop_last());
        assert(t.last() == p);
    } else {
        assert(t.last() == s.last());
        assert(t.drop_last() =~= s.drop_last().update(i, p));
        lemma_assoc_map_update(s.drop_last(), i, p);
        assert(s[i].0@ != s.last().0@);
        assert(assoc_map(s.drop_last()).insert(p.0@, p.1@).insert(s.last().0@, s.last().1@)
            =~= assoc_map(s.drop_last()).insert(s.last().0@, s.last().1@).insert(p.0@, p.1@));
    }
}

/// A record as it lands in the partition: the incoming record, with
/// `imported` forced to stay true once any earlier record under the
/// same name had it true.
pub open spec fn spec_merge(m: Map<Seq<char>, FileView>, k: Seq<char>, rec: FileView) -> FileView {
    FileView {
        date: rec.date,
        seconds: rec.seconds,
        note: rec.note,
        status: rec.status,
        imported: rec.imported || (m.contains_key(k) && m[k].imported),
    }
}

/// One upsert, as `Source::set` performs it.
pub open spec fn spec_upsert(
    m: Map<Seq<char>, FileView>,
    k: Seq<char>,
    rec: FileView,
) -> Map<Seq<char>, FileView> {
    m.insert(k, spec_merge(m, k, rec))
}

/// A sequence of upserts applied in order.
pub open spec fn apply_upserts(
    m: Map<Seq<char>, FileView>,
    ops: Seq<(Seq<char>, FileView)>,
) -> Map<Seq<char>, FileView>
    decreases ops.len(),
{
    if ops.len() == 0 {
        m
    } else {
        apply_upserts(spec_upsert(m, ops[0].0, ops[0].1), ops.subrange(1, ops.len() as int))
    }
}

/// Upserting is monotonic on `imported`: once a name's record has it
/// true, no sequence of further upserts — whatever they carry — can
/// ever set it back to false.
pub proof fn lemma_upsert_imported_monotonic(
    m: Map<Seq<char>, FileView>,
    ops: Seq<(Seq<char>, FileView)>,
    name: Seq<char>,
)
    requires
        m.contains_key(name),
        m[name].imported,
    ensures
        apply_upserts(m, ops).contains_key(name),
        apply_upserts(m, ops)[name].imported,
    decreases ops.len(),
{
    if ops.len() > 0 {
        let m2 = spec_upsert(m, ops[0].0, ops[0].1);
        assert(m2.contains_key(name) && m2[name].imported);
        lemma_upsert_imported_monotonic(m2, ops.subrange(1, ops.len() as int), name);
    }
}

/// One camera identity's cache partition.
pub struct Source {
    serial: String,
    files: Vec<(String, File)>,
    session_destinations: Vec<(String, Destination)>,
}

/// The mathematical shape of a partition.
pub ghost struct SourceView {
    pub serial: Seq<char>,
    pub files: Map<Seq<char>, FileView>,
    pub session_destinations: Map<Seq<char>, DestinationView>,
}

impl View for Source {
    type V = SourceView;

    closed spec fn view(&self) -> SourceView {
        SourceView {
            serial: self.serial@,
            files: assoc_map(self.files@),
            session_destinations: assoc_map(self.session_destinations@),
        }
    }
}

impl Source {
    /// The partition's well-formedness: each name and each date keys
    /// at most one entry.
    pub closed spec fn wf(&self) -> bool {
        assoc_unique(self.files@) && assoc_unique(self.session_destinations@)
    }

    /// An empty partition for one identity.
    pub fn new(serial: String) -> (r: Self)
        ensures
            r.wf(),
            r@.serial == serial@,
            r@.files == Map::<Seq<char>, FileView>::empty(),
            r@.session_destinations == Map::<Seq<char>, DestinationView>::empty(),
    {
        Source { serial, files: Vec::new(), session_destinations: Vec::new() }
    }

    /// The identity this partition belongs to.
    pub fn serial(&self) -> (r: &String)
        ensures
            r@ == self@.serial,
    {
        &self.serial
    }

    /// The cached record under a file base name, if any.
    pub fn get(&self, file_name: &str) -> (r: Option<File>)
        requires
            self.wf(),
        ensures
            r is Some <==> self@.files.contains_key(file_name@),
            r matches Some(f) ==> f@ == self@.files[file_name@],
    {
        proof {
            lemma_assoc_map_keys(self.files@);
        }
        let n = self.files.len();
        let mut i: usize = 0;
        while i < n
            invariant
                i <= n,
                n == self.files@.len(),
                self.wf(),
                forall|k: int| 0 <= k < i ==> #[trigger] self.files@[k].0@ != file_name@,
            decreases n - i,
        {
            if str_eq(self.files[i].0.as_str(), file_name) {
                proof {
                    lemma_assoc_map_at(self.files@, i as int);
                }
                return Some(self.files[i].1.duplicate());
            }
            i = i + 1;
        }
        Option::None
    }

    /// Upserts a record under a file base name.  The record lands as
    /// given, except that an `imported` flag already true in the
    /// partition is never cleared (`spec_merge`).
    pub fn set(&mut self, file_name: &str, rec: File)
        requires
            old(self).wf(),
        ensures
            final (self).wf(),
            final (self)@.serial == old(self)@.serial,
            final (self)@.session_destinations == old(self)@.session_destinations,
            final (self)@.files == spec_upsert(old(self)@.files, file_name@, rec@),
    {
        proof {
            lemma_assoc_map_keys(self.files@);
        }
        let ghost s0 = self.files@;
        let n = self.files.len();
        let mut i: usize = 0;
        while i < n
            invariant
                i <= n,
                n == self.files@.len(),
                self.files@ == s0,
                self@.serial == old(self)@.serial,
                self@.session_destinations == old(self)@.session_destinations,
                old(self)@.files == assoc_map(s0),
                old(self).wf(),
                self.wf(),
                forall|k: int| 0 <= k < i ==> #[trigger] self.files@[k].0@ != file_name@,
            decreases n - i,
        {
            if str_eq(self.files[i].0.as_str(), file_name) {
                proof {
                    lemma_assoc_map_at(s0, i as int);
                }
                let merged = File {
                    date: rec.date,
                    seconds: rec.seconds,
                    note: rec.note,
                    status: rec.status,
                    imported: rec.imported || self.files[i].1.imported,
                };
                let p = (file_name.to_owned(), merged);
                let ghost pg = p;
                self.files.set(i, p);
                proof {
                    lemma_assoc_map_update(s0, i as int, pg);
                    assert forall|a: int, b: int|
                        0 <= a < b < self.files@.len() implies self.files@[a].0@
                        != self.files@[b].0@ by {
                        assert(self.files@[a].0@ == s0[a].0@ || a == i);
                        assert(self.files@[b].0@ == s0[b].0@ || b == i);
                    }
                }
                return ;
            }
            i = i + 1;
        }
        let p = (file_name.to_owned(), rec);
        let ghost pg = p;
        self.files.push(p);
        proof {
            lemma_assoc_map_push(s0, pg);
            lemma_assoc_map_keys(s0);
            assert(!assoc_map(s0).contains_key(file_name@));
            assert(spec_merge(assoc_map(s0), file_name@, pg.1@) == pg.1@);
            assert forall|a: int, b: int|
                0 <= a < b < self.files@.len() implies self.files@[a].0@ != self.files@[b].0@ by {
                if b == self.files@.len() - 1 {
                    assert(self.files@[a].0@ == s0[a].0@);
                }
            }
        }
    }
}


proof fn lemma_assoc_map_congruent<T: View>(a: Seq<(String, T)>, b: Seq<(String, T)>)
    requires
        a.len() == b.len(),
        forall|i: int|
            0 <= i < a.len() ==> (#[trigger] a[i]).0@ == b[i].0@ && a[i].1@ == b[i].1@,
    ensures
        assoc_map(a) == assoc_map(b),
    decreases a,
{
    if a.len() > 0 {
        lemma_assoc_map_congruent(a.drop_last(), b.drop_last());
        assert(a.last().0@ == b.last().0@ && a.last().1@ == b.last().1@);
    }
}

impl Source {
    /// The destination the operator chose for a capture date, if
    /// any.
    pub fn get_session_destination(&self, date: &str) -> (r: Option<Destination>)
        requires
            self.wf(),
        ensures
            r is Some <==> self@.session_destinations.contains_key(date@),
            r matches Some(d) ==> d@ == self@.session_destinations[date@],
    {
        proof {
            lemma_assoc_map_keys(self.session_destinations@);
        }
        let n = self.session_destinations.len();
        let mut i: usize = 0;
        while i < n
            invariant
                i <= n,
                n == self.session_destinations@.len(),
                self.wf(),
                forall|k: int|
                    0 <= k < i ==> #[trigger] self.session_destinations@[k].0@ != date@,
            decreases n - i,
        {
            if str_eq(self.session_destinations[i].0.as_str(), date) {
                proof {
                    lemma_assoc_map_at(self.session_destinations@, i as int);
                }
                return Some(self.session_destinations[i].1.duplicate());
            }
            i = i + 1;
        }
        Option::None
    }

    /// Binds a capture date to a destination, replacing any earlier
    /// choice for that date.
    pub fn set_session_destination(&mut self, date: &str, dest: Destination)
        requires
            old(self).wf(),
        ensures
            final (self).wf(),
            final (self)@.serial == old(self)@.serial,
            final (self)@.files == old(self)@.files,
            final (self)@.session_destinations == old(self)@.session_destinations.insert(
                date@,
                dest@,
            ),
    {
        let ghost s0 = self.session_destinations@;
        let n = self.session_destinations.len();
        let mut i: usize = 0;
        while i < n
            invariant
                i <= n,
                n == self.session_destinations@.len(),
                self.session_destinations@ == s0,
                self@.serial == old(self)@.serial,
                self@.files == old(self)@.files,
                old(self)@.session_destinations == assoc_map(s0),
                old(self).wf(),
                self.wf(),
                forall|k: int|
                    0 <= k < i ==> #[trigger] self.session_destinations@[k].0@ != date@,
            decreases n - i,
        {
            if str_eq(self.session_destinations[i].0.as_str(), date) {
                let p = (date.to_owned(), dest);
                let ghost pg = p;
                self.session_destinations.set(i, p);
                proof {
                    lemma_assoc_map_update(s0, i as int, pg);
                    assert forall|a: int, b: int|
                        0 <= a < b < self.session_destinations@.len() implies self.session_destinations@[a].0@
                        != self.session_destinations@[b].0@ by {
                        assert(self.session_destinations@[a].0@ == s0[a].0@ || a == i);
                        assert(self.session_destinations@[b].0@ == s0[b].0@ || b == i);
                    }
                }
                return ;
            }
            i = i + 1;
        }
        let p = (date.to_owned(), dest);
        let ghost pg = p;
        self.session_destinations.push(p);
        proof {
            lemma_assoc_map_push(s0, pg);
            assert forall|a: int, b: int|
                0 <= a < b < self.session_destinations@.len() implies self.session_destinations@[a].0@
                != self.session_destinations@[b].0@ by {
                if b == self.session_destinations@.len() - 1 {
                    assert(self.session_destinations@[a].0@ == s0[a].0@);
                }
            }
        }
    }

    /// A copy with the same view.
    pub fn duplicate(&self) -> (r: Self)
        requires
            self.wf(),
        ensures
            r.wf(),
            r@ == self@,
    {
        let mut files: Vec<(String, File)> = Vec::new();
        let fn_ = self.files.len();
        let mut i: usize = 0;
        while i < fn_
            invariant
                i <= fn_,
                fn_ == self.files@.len(),
                files@.len() == i,
                forall|k: int|
                    0 <= k < i ==> (#[trigger] files@[k]).0@ == self.files@[k].0@ && files@[k].1@
                        == self.files@[k].1@,
            decreases fn_ - i,
        {
            files.push((self.files[i].0.clone(), self.files[i].1.duplicate()));
            i = i + 1;
        }
        let mut dests: Vec<(String, Destination)> = Vec::new();
        let dn = self.session_destinations.len();
        let mut j: usize = 0;
        while j < dn
            invariant
                j <= dn,
                dn == self.session_destinations@.len(),
                dests@.len() == j,
                forall|k: int|
                    0 <= k < j ==> (#[trigger] dests@[k]).0@ == self.session_destinations@[k].0@
                        && dests@[k].1@ == self.session_destinations@[k].1@,
            decreases dn - j,
        {
            dests.push(
                (self.session_destinations[j].0.clone(), self.session_destinations[j].1.duplicate()),
            );
            j = j + 1;
        }
        proof {
            lemma_assoc_map_congruent(files@, self.files@);
            lemma_assoc_map_congruent(dests@, self.session_destinations@);
        }
        Source { serial: self.serial.clone(), files, session_destinations: dests }
    }

    /// The partition's file entries, each name keying its record.
    pub fn export_files(&self) -> (r: Vec<(String, File)>)
        requires
            self.wf(),
        ensures
            assoc_unique(r@),
            assoc_map(r@) == self@.files,
    {
        let mut files: Vec<(String, File)> = Vec::new();
        let n = self.files.len();
        let mut i: usize = 0;
        while i < n
            invariant
                i <= n,
                n == self.files@.len(),
                files@.len() == i,
                self.wf(),
                forall|k: int|
                    0 <= k < i ==> (#[trigger] files@[k]).0@ == self.files@[k].0@ && files@[k].1@
                        == self.files@[k].1@,
            decreases n - i,
        {
            files.push((self.files[i].0.clone(), self.files[i].1.duplicate()));
            i = i + 1;
        }
        proof {
            lemma_assoc_map_congruent(files@, self.files@);
        }
        files
    }

    /// The partition's session-destination entries, each date keying
    /// its destination.
    pub fn export_session_destinations(&self) -> (r: Vec<(String, Destination)>)
        requires
            self.wf(),
        ensures
            assoc_unique(r@),
            assoc_map(r@) == self@.session_destinations,
    {
        let mut dests: Vec<(String, Destination)> = Vec::new();
        let n = self.session_destinations.len();
        let mut i: usize = 0;
        while i < n
            invariant
                i <= n,
                n == self.session_destinations@.len(),
                dests@.len() == i,
                self.wf(),
                forall|k: int|
                    0 <= k < i ==> (#[trigger] dests@[k]).0@ == self.session_destinations@[k].0@
                        && dests@[k].1@ == self.session_destinations@[k].1@,
            decreases n - i,
        {
            dests.push(
                (self.session_destinations[i].0.clone(), self.session_destinations[i].1.duplicate()),
            );
            i = i + 1;
        }
        proof {
            lemma_assoc_map_congruent(dests@, self.session_destinations@);
        }
        dests
    }
}

/// The whole persisted cache document: a format version and one
/// partition per camera identity.
pub struct User {
    pub version: String,
    sources: Vec<(String, Source)>,
}

/// The mathematical shape of the document.
pub ghost struct UserView {
    pub version: Seq<char>,
    pub sources: Map<Seq<char>, SourceView>,
}

impl View for User {
    type V = UserView;

    closed spec fn view(&self) -> UserView {
        UserView { version: self.version@, sources: assoc_map(self.sources@) }
    }
}

impl User {
    /// The document's well-formedness: each identity keys at most one
    /// partition, each partition is well-formed and carries the
    /// identity it is keyed under.
    pub closed spec fn wf(&self) -> bool {
        &&& assoc_unique(self.sources@)
        &&& forall|i: int|
            0 <= i < self.sources@.len() ==> (#[trigger] self.sources@[i]).1.wf()
                && self.sources@[i].1@.serial == self.sources@[i].0@
    }

    /// An empty document carrying a format version.
    pub fn new(version: String) -> (r: Self)
        ensures
            r.wf(),
            r@.version == version@,
            r@.sources == Map::<Seq<char>, SourceView>::empty(),
    {
        User { version, sources: Vec::new() }
    }

    /// The partition of one identity: what the document holds for it,
    /// or a fresh empty partition when it holds nothing — a missing
    /// identity is never an error.
    pub fn partition(&self, serial: &str) -> (r: Source)
        requires
            self.wf(),
        ensures
            r.wf(),
            r@.serial == serial@,
            self@.sources.contains_key(serial@) ==> r@ == self@.sources[serial@],
            !self@.sources.contains_key(serial@) ==> r@.files == Map::<
                Seq<char>,
                FileView,
            >::empty() && r@.session_destinations == Map::<Seq<char>, DestinationView>::empty(),
    {
        proof {
            lemma_assoc_map_keys(self.sources@);
        }
        let n = self.sources.len();
        let mut i: usize = 0;
        while i < n
            invariant
                i <= n,
                n == self.sources@.len(),
                self.wf(),
                forall|k: int| 0 <= k < i ==> #[trigger] self.sources@[k].0@ != serial@,
            decreases n - i,
        {
            if str_eq(self.sources[i].0.as_str(), serial) {
                proof {
                    lemma_assoc_map_at(self.sources@, i as int);
                }
                return self.sources[i].1.duplicate();
            }
            i = i + 1;
        }
        Source::new(serial.to_owned())
    }

    /// Replaces (or adds) the partition keyed by `source`'s identity,
    /// leaving every other identity's partition untouched.
    pub fn set_partition(&mut self, source: Source)
        requires
            old(self).wf(),
            source.wf(),
        ensures
            final (self).wf(),
            final (self)@.version == old(self)@.version,
            final (self)@.sources == old(self)@.sources.insert(source@.serial, source@),
    {
        let key = source.serial().clone();
        let ghost s0 = self.sources@;
        let n = self.sources.len();
        let mut i: usize = 0;
        while i < n
            invariant
                i <= n,
                n == self.sources@.len(),
                self.sources@ == s0,
                self@.version == old(self)@.version,
                old(self)@.sources == assoc_map(s0),
                old(self).wf(),
                self.wf(),
                source.wf(),
                key@ == source@.serial,
                forall|k: int| 0 <= k < i ==> #[trigger] self.sources@[k].0@ != key@,
            decreases n - i,
        {
            if str_eq(self.sources[i].0.as_str(), key.as_str()) {
                let p = (key, source);
                let ghost pg = p;
                self.sources.set(i, p);
                proof {
                    lemma_assoc_map_update(s0, i as int, pg);
                    assert forall|a: int, b: int|
                        0 <= a < b < self.sources@.len() implies self.sources@[a].0@
                        != self.sources@[b].0@ by {
                        assert(self.sources@[a].0@ == s0[a].0@ || a == i);
                        assert(self.sources@[b].0@ == s0[b].0@ || b == i);
                    }
                }
                return ;
            }
            i = i + 1;
        }
        let p = (key, source);
        let ghost pg = p;
        self.sources.push(p);
        proof {
            lemma_assoc_map_push(s0, pg);
            assert forall|a: int, b: int|
                0 <= a < b < self.sources@.len() implies self.sources@[a].0@
                != self.sources@[b].0@ by {
                if b == self.sources@.len() - 1 {
                    assert(self.sources@[a].0@ == s0[a].0@);
                }
            }
        }
    }

    /// The document's partitions, each identity keying its own.
    pub fn export_sources(&self) -> (r: Vec<(String, Source)>)
        requires
            self.wf(),
        ensures
            assoc_unique(r@),
            assoc_map(r@) == self@.sources,
            forall|i: int| 0 <= i < r@.len() ==> (#[trigger] r@[i]).1.wf(),
    {
        let mut out: Vec<(String, Source)> = Vec::new();
        let n = self.sources.len();
        let mut i: usize = 0;
        while i < n
            invariant
                i <= n,
                n == self.sources@.len(),
                out@.len() == i,
                self.wf(),
                forall|k: int|
                    0 <= k < i ==> (#[trigger] out@[k]).0@ == self.sources@[k].0@ && out@[k].1@
                        == self.sources@[k].1@ && out@[k].1.wf(),
            decreases n - i,
        {
            out.push((self.sources[i].0.clone(), self.sources[i].1.duplicate()));
            i = i + 1;
        }
        proof {
            lemma_assoc_map_congruent(out@, self.sources@);
        }
        out
    }
}

/// Cache round trip: replacing one identity's partition and loading
/// it back yields that partition unchanged, and every other
/// identity's partition is exactly what it was before.
pub proof fn lemma_partition_round_trip(
    sources: Map<Seq<char>, SourceView>,
    part: SourceView,
    other: Seq<char>,
)
    ensures
        sources.insert(part.serial, part).contains_key(part.serial),
        sources.insert(part.serial, part)[part.serial] == part,
        other != part.serial ==> (sources.insert(part.serial, part).contains_key(other)
            == sources.contains_key(other)),
        other != part.serial && sources.contains_key(other) ==> sources.insert(
            part.serial,
            part,
        )[other] == sources[other],
{
}

} // verus!
