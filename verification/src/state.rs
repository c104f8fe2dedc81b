//! The application state and its single-threaded reducer.
//!
//! All mutable session, file and destination state lives here and is
//! touched only by the reducer, which consumes events in arrival
//! order.  Every operation is a small total function on the state;
//! what outside work an event calls for (persisting the cache,
//! driving the player, committing a search) comes back to the caller
//! as a `Directive` rather than being performed here.

use crate::destination::{Destination, DestinationView};
use crate::focus::Focus;
use crate::mode::Mode;
use crate::paths::{spec_lex_lt, str_eq, str_lt};
use crate::events::{Event, Key};
use crate::progress::Bare;
use crate::session::{
    file_views, files_ordered, spec_insert_file, spec_insert_files, FileView, Session, SessionView,
    Status,
};
use vstd::prelude::*;

verus! {

broadcast use vstd::seq::group_seq_axioms;

/// A group of candidate destinations sharing one parent directory.
pub struct DestGroup {
    pub parent: String,
    pub items: Vec<Destination>,
}

/// The mathematical shape of a destination group.
pub ghost struct DestGroupView {
    pub parent: Seq<char>,
    pub items: Seq<DestinationView>,
}

impl View for DestGroup {
    type V = DestGroupView;

    open spec fn view(&self) -> DestGroupView {
        DestGroupView { parent: self.parent@, items: dest_views(self.items@) }
    }
}

/// The popup in front of the tables, at most one at a time; an input
/// prompt outranks a search, a search an error, an error the
/// progress bar.
#[derive(PartialEq, Eq, Structural, Clone, Copy, Debug)]
pub enum Popup {
    Closed,
    Input,
    Search,
    Error,
    Progress,
}

/// The state the reducer owns.
pub struct State {
    pub mode: Mode,
    pub focus: Focus,
    pub input: Option<String>,
    pub search: Option<String>,
    pub error: Option<String>,
    pub progress: Option<Bare>,
    pub sessions: Vec<Session>,
    pub dest_groups: Vec<DestGroup>,
    pub session_idx: usize,
    pub file_idx: usize,
}

impl State {
    /// The state's well-formedness: sessions strictly ordered by
    /// date (so dates are unique) and each internally ordered;
    /// destination groups strictly ordered by parent, each group's
    /// items strictly ordered by absolute path.
    pub open spec fn wf(&self) -> bool {
        &&& forall|i: int, j: int|
            0 <= i < j < self.sessions@.len() ==> spec_lex_lt(
                (#[trigger] self.sessions@[i])@.date,
                (#[trigger] self.sessions@[j])@.date,
            )
        &&& forall|i: int| 0 <= i < self.sessions@.len() ==> (#[trigger] self.sessions@[i]).wf()
        &&& forall|i: int, j: int|
            0 <= i < j < self.dest_groups@.len() ==> spec_lex_lt(
                (#[trigger] self.dest_groups@[i])@.parent,
                (#[trigger] self.dest_groups@[j])@.parent,
            )
        &&& forall|g: int, i: int, j: int|
            #![trigger self.dest_groups@[g]@.items[i], self.dest_groups@[g]@.items[j]]
            0 <= g < self.dest_groups@.len() && 0 <= i < j
                < self.dest_groups@[g]@.items.len() ==> spec_lex_lt(
                self.dest_groups@[g]@.items[i].abs,
                self.dest_groups@[g]@.items[j].abs,
            )
    }

    /// A fresh state for one run mode: sessions focus, no popup, no
    /// discoveries yet, both cursors at the top.
    pub fn new(mode: Mode) -> (r: Self)
        ensures
            r.wf(),
            r.mode@ == mode@,
            r.focus == Focus::Sessions,
            r.input is None && r.search is None && r.error is None && r.progress is None,
            r.sessions@.len() == 0 && r.dest_groups@.len() == 0,
            r.session_idx == 0 && r.file_idx == 0,
    {
        State {
            mode,
            focus: Focus::Sessions,
            input: Option::None,
            search: Option::None,
            error: Option::None,
            progress: Option::None,
            sessions: Vec::new(),
            dest_groups: Vec::new(),
            session_idx: 0,
            file_idx: 0,
        }
    }

    /// Which popup stands in front (`Popup`), by the fixed priority.
    pub open spec fn spec_popup(&self) -> Popup {
        if self.input is Some {
            Popup::Input
        } else if self.search is Some {
            Popup::Search
        } else if self.error is Some {
            Popup::Error
        } else if self.progress is Some {
            Popup::Progress
        } else {
            Popup::Closed
        }
    }

    /// The popup currently in front.
    pub fn popup(&self) -> (r: Popup)
        ensures
            r == self.spec_popup(),
    {
        if self.input.is_some() {
            Popup::Input
        } else if self.search.is_some() {
            Popup::Search
        } else if self.error.is_some() {
            Popup::Error
        } else if self.progress.is_some() {
            Popup::Progress
        } else {
            Popup::Closed
        }
    }

    /// The session under the cursor, if any.
    pub fn session(&self) -> (r: Option<&Session>)
        ensures
            r is Some <==> self.session_idx < self.sessions@.len(),
            r matches Some(s) ==> *s == self.sessions@[self.session_idx as int],
    {
        if self.session_idx < self.sessions.len() {
            Some(&self.sessions[self.session_idx])
        } else {
            Option::None
        }
    }

    /// How many files the focused session holds (zero with no
    /// session).
    pub fn files_len(&self) -> (r: usize)
        ensures
            r as int == self.spec_files_len(),
    {
        if self.session_idx < self.sessions.len() {
            self.sessions[self.session_idx].files.len()
        } else {
            0
        }
    }

    pub open spec fn spec_files_len(&self) -> int {
        if self.session_idx < self.sessions@.len() {
            self.sessions@[self.session_idx as int]@.files.len() as int
        } else {
            0
        }
    }

    /// The file under the cursor, if any.
    pub fn file(&self) -> (r: Option<&crate::session::File>)
        ensures
            r is Some <==> self.session_idx < self.sessions@.len() && self.file_idx
                < self.sessions@[self.session_idx as int]@.files.len(),
            r matches Some(f) ==> f@ == self.sessions@[self.session_idx as int]@.files[self.file_idx as int],
    {
        if self.session_idx < self.sessions.len() {
            let s = &self.sessions[self.session_idx];
            if self.file_idx < s.files.len() {
                proof {
                    assert(s@.files[self.file_idx as int] == s.files@[self.file_idx as int]@);
                }
                return Some(&s.files[self.file_idx]);
            }
        }
        Option::None
    }
}


/// `x` clamped into `[min, max]`.
pub open spec fn spec_clamp(min: int, x: int, max: int) -> int {
    if x < min {
        min
    } else if x > max {
        max
    } else {
        x
    }
}

/// Clamps `x` into `[min, max]`.
pub fn clamp(min: usize, x: usize, max: usize) -> (r: usize)
    ensures
        r == spec_clamp(min as int, x as int, max as int),
{
    if x < min {
        min
    } else if x > max {
        max
    } else {
        x
    }
}

/// A cursor clamped against a list of `len` entries: inside
/// `[0, len - 1]` when the list is non-empty, and `0` when it is
/// empty.
pub open spec fn spec_clamp_idx(x: int, len: int) -> int {
    if len == 0 {
        0
    } else if x < 0 {
        0
    } else if x > len - 1 {
        len - 1
    } else {
        x
    }
}

/// A status tag flipped toward `target`: already `target` turns off,
/// anything else becomes `target` (last write wins).
pub open spec fn spec_toggle(st: Option<Status>, target: Status) -> Option<Status> {
    if st == Some(target) {
        Option::None
    } else {
        Some(target)
    }
}

/// Toggling the same tag twice from anything but that tag comes back
/// to no tag, and toggling two different tags in turn leaves the
/// last one: tags are mutually exclusive and last-write-wins.
pub proof fn lemma_toggle_laws(st: Option<Status>)
    ensures
        st != Some(Status::Import) ==> spec_toggle(spec_toggle(st, Status::Import), Status::Import)
            is None,
        st != Some(Status::Ignore) ==> spec_toggle(spec_toggle(st, Status::Ignore), Status::Ignore)
            is None,
        spec_toggle(spec_toggle(st, Status::Import), Status::Ignore) == Some(Status::Ignore),
        spec_toggle(spec_toggle(st, Status::Ignore), Status::Import) == Some(Status::Import),
{
}

/// How many files the session at `idx` holds (zero when `idx` is out
/// of range).
pub open spec fn spec_files_len_of(ss: Seq<SessionView>, idx: int) -> int {
    if 0 <= idx < ss.len() {
        ss[idx].files.len() as int
    } else {
        0
    }
}

/// `ss` with the status of file `fi` of session `si` replaced.
pub open spec fn spec_set_status(
    ss: Seq<SessionView>,
    si: int,
    fi: int,
    st: Option<Status>,
) -> Seq<SessionView>
    recommends
        0 <= si < ss.len(),
        0 <= fi < ss[si].files.len(),
{
    ss.update(
        si,
        SessionView {
            date: ss[si].date,
            files: ss[si].files.update(
                fi,
                FileView {
                    path: ss[si].files[fi].path,
                    size: ss[si].files[fi].size,
                    created: ss[si].files[fi].created,
                    date: ss[si].files[fi].date,
                    seconds: ss[si].files[fi].seconds,
                    note: ss[si].files[fi].note,
                    status: st,
                },
            ),
            destination: ss[si].destination,
        },
    )
}

/// `ss` with the note of file `fi` of session `si` replaced.
pub open spec fn spec_set_note(
    ss: Seq<SessionView>,
    si: int,
    fi: int,
    note: Option<Seq<char>>,
) -> Seq<SessionView>
    recommends
        0 <= si < ss.len(),
        0 <= fi < ss[si].files.len(),
{
    ss.update(
        si,
        SessionView {
            date: ss[si].date,
            files: ss[si].files.update(
                fi,
                FileView {
                    path: ss[si].files[fi].path,
                    size: ss[si].files[fi].size,
                    created: ss[si].files[fi].created,
                    date: ss[si].files[fi].date,
                    seconds: ss[si].files[fi].seconds,
                    note,
                    status: ss[si].files[fi].status,
                },
            ),
            destination: ss[si].destination,
        },
    )
}

/// The views of the sessions a state holds.
pub open spec fn session_views(ss: Seq<Session>) -> Seq<SessionView> {
    ss.map_values(|s: Session| s@)
}

impl State {
    /// Whether both cursors point at an existing file.
    pub open spec fn spec_cursor_valid(&self) -> bool {
        self.session_idx < self.sessions@.len() && self.file_idx
            < self.sessions@[self.session_idx as int]@.files.len()
    }

    /// Everything but the session list and cursors is unchanged.
    pub open spec fn same_but_sessions(&self, other: &Self) -> bool {
        &&& self.mode@ == other.mode@
        &&& self.focus == other.focus
        &&& self.input == other.input
        &&& self.search == other.search
        &&& self.error == other.error
        &&& self.progress == other.progress
        &&& self.dest_groups@ == other.dest_groups@
    }

    /// Clamps both cursors against their lists (`spec_clamp_idx`).
    pub fn clamp_idxs(&mut self)
        requires
            old(self).wf(),
        ensures
            final (self).wf(),
            final (self).same_but_sessions(&*old(self)),
            final (self).sessions@ == old(self).sessions@,
            final (self).session_idx as int == spec_clamp_idx(
                old(self).session_idx as int,
                old(self).sessions@.len() as int,
            ),
            final (self).file_idx as int == spec_clamp_idx(
                old(self).file_idx as int,
                old(self).spec_files_len(),
            ),
    {
        let fl = self.files_len();
        if fl == 0 {
            self.file_idx = 0;
        } else {
            self.file_idx = clamp(0, self.file_idx, fl - 1);
        }
        let sl = self.sessions.len();
        if sl == 0 {
            self.session_idx = 0;
        } else {
            self.session_idx = clamp(0, self.session_idx, sl - 1);
        }
    }

    /// Moves the cursor one step up in the focused list, then clamps
    /// both cursors: after any run of moves the cursor sits in
    /// `[0, len - 1]` whenever its list is non-empty, and at `0` when
    /// it is empty.
    pub fn list_up(&mut self)
        requires
            old(self).wf(),
        ensures
            final (self).wf(),
            final (self).same_but_sessions(&*old(self)),
            final (self).sessions@ == old(self).sessions@,
            old(self).focus is Files ==> final (self).file_idx as int == spec_clamp_idx(
                old(self).file_idx as int - 1,
                old(self).spec_files_len(),
            ) && final (self).session_idx as int == spec_clamp_idx(
                old(self).session_idx as int,
                old(self).sessions@.len() as int,
            ),
            old(self).focus is Sessions ==> final (self).session_idx as int == spec_clamp_idx(
                old(self).session_idx as int - 1,
                old(self).sessions@.len() as int,
            ),
            old(self).sessions@.len() > 0 ==> final (self).session_idx
                < old(self).sessions@.len(),
            old(self).sessions@.len() == 0 ==> final (self).session_idx == 0,
            final (self).spec_files_len() > 0 ==> (final (self).file_idx as int) < final (self).spec_files_len(),
            final (self).spec_files_len() == 0 ==> final (self).file_idx == 0,
    {
        match self.focus {
            Focus::Files => {
                let fl = self.files_len();
                if fl == 0 {
                    self.file_idx = 0;
                } else {
                    self.file_idx = clamp(0, self.file_idx.saturating_sub(1), fl - 1);
                }
            },
            Focus::Sessions => {
                let sl = self.sessions.len();
                if sl == 0 {
                    self.session_idx = 0;
                } else {
                    self.session_idx = clamp(0, self.session_idx.saturating_sub(1), sl - 1);
                }
            },
        }
        self.clamp_idxs();
    }

    /// Moves the cursor one step down in the focused list, then
    /// clamps both cursors, with the same bounds as `list_up`.
    pub fn list_down(&mut self)
        requires
            old(self).wf(),
        ensures
            final (self).wf(),
            final (self).same_but_sessions(&*old(self)),
            final (self).sessions@ == old(self).sessions@,
            old(self).focus is Files ==> final (self).file_idx as int == spec_clamp_idx(
                old(self).file_idx as int + 1,
                old(self).spec_files_len(),
            ) && final (self).session_idx as int == spec_clamp_idx(
                old(self).session_idx as int,
                old(self).sessions@.len() as int,
            ),
            old(self).focus is Sessions ==> final (self).session_idx as int == spec_clamp_idx(
                old(self).session_idx as int + 1,
                old(self).sessions@.len() as int,
            ),
            old(self).sessions@.len() > 0 ==> final (self).session_idx
                < old(self).sessions@.len(),
            old(self).sessions@.len() == 0 ==> final (self).session_idx == 0,
            final (self).spec_files_len() > 0 ==> (final (self).file_idx as int) < final (self).spec_files_len(),
            final (self).spec_files_len() == 0 ==> final (self).file_idx == 0,
    {
        match self.focus {
            Focus::Files => {
                let fl = self.files_len();
                if fl == 0 {
                    self.file_idx = 0;
                } else {
                    self.file_idx = clamp(0, self.file_idx.saturating_add(1), fl - 1);
                }
            },
            Focus::Sessions => {
                let sl = self.sessions.len();
                if sl == 0 {
                    self.session_idx = 0;
                } else {
                    self.session_idx = clamp(0, self.session_idx.saturating_add(1), sl - 1);
                }
            },
        }
        self.clamp_idxs();
    }

    /// Flips the focused list.
    pub fn toggle_focus(&mut self)
        ensures
            final (self).focus == (if old(self).focus is Files {
                Focus::Sessions
            } else {
                Focus::Files
            }),
            final (self).sessions@ == old(self).sessions@,
            final (self).mode@ == old(self).mode@ && final (self).input == old(self).input
                && final (self).search == old(self).search && final (self).error == old(
                self,
            ).error && final (self).progress == old(self).progress && final (self).dest_groups@
                == old(self).dest_groups@ && final (self).session_idx == old(self).session_idx
                && final (self).file_idx == old(self).file_idx,
    {
        self.focus = match self.focus {
            Focus::Files => Focus::Sessions,
            Focus::Sessions => Focus::Files,
        };
    }
}


/// Pointwise: replacing one session replaces one view.
proof fn lemma_session_views_update(s: Seq<Session>, i: int, v: Session)
    requires
        0 <= i < s.len(),
    ensures
        session_views(s.update(i, v)) == session_views(s).update(i, v@),
{
    assert forall|k: int| 0 <= k < s.len() implies session_views(s.update(i, v))[k]
        == session_views(s).update(i, v@)[k] by {
        if k != i {
            assert(s.update(i, v)[k] == s[k]);
        }
    }
    assert(session_views(s.update(i, v)) =~= session_views(s).update(i, v@));
}

/// Pointwise: inserting one session inserts one view.
proof fn lemma_session_views_insert(s: Seq<Session>, i: int, v: Session)
    requires
        0 <= i <= s.len(),
    ensures
        session_views(s.insert(i, v)) == session_views(s).insert(i, v@),
{
    assert forall|k: int| 0 <= k < s.len() + 1 implies session_views(s.insert(i, v))[k]
        == session_views(s).insert(i, v@)[k] by {
        if k < i {
            assert(s.insert(i, v)[k] == s[k]);
        } else if k == i {
            assert(s.insert(i, v)[k] == v);
        } else {
            assert(s.insert(i, v)[k] == s[k - 1]);
        }
    }
    assert(session_views(s.insert(i, v)) =~= session_views(s).insert(i, v@));
}

/// Computes `spec_toggle`.
pub fn toggle(st: Option<Status>, target: Status) -> (r: Option<Status>)
    ensures
        r == spec_toggle(st, target),
{
    match (st, target) {
        (Some(Status::Import), Status::Import) => Option::None,
        (Some(Status::Ignore), Status::Ignore) => Option::None,
        _ => Some(target),
    }
}

impl State {
    /// The parts no popup interaction may touch: the mode, the
    /// destination groups, both cursors and the progress bar.
    pub open spec fn same_chrome(&self, other: &Self) -> bool {
        &&& self.mode@ == other.mode@
        &&& self.dest_groups@ == other.dest_groups@
        &&& self.session_idx == other.session_idx
        &&& self.file_idx == other.file_idx
        &&& self.progress == other.progress
    }

    /// Everything but the session list, cursors and focus is
    /// unchanged, and so are the cursors and focus themselves.
    pub open spec fn same_but_session_list(&self, other: &Self) -> bool {
        &&& self.same_but_sessions(other)
        &&& self.session_idx == other.session_idx
        &&& self.file_idx == other.file_idx
    }

    fn toggle_file_status(&mut self, target: Status)
        requires
            old(self).wf(),
        ensures
            final (self).wf(),
            final (self).same_but_session_list(&*old(self)),
            old(self).spec_cursor_valid() ==> session_views(final (self).sessions@)
                == spec_set_status(
                session_views(old(self).sessions@),
                old(self).session_idx as int,
                old(self).file_idx as int,
                spec_toggle(
                    session_views(old(self).sessions@)[old(self).session_idx as int].files[old(
                        self,
                    ).file_idx as int].status,
                    target,
                ),
            ),
            !old(self).spec_cursor_valid() ==> final (self).sessions@ == old(self).sessions@,
    {
        let ghost ss0 = self.sessions@;
        if self.session_idx < self.sessions.len() {
            let si = self.session_idx;
            let fi = self.file_idx;
            let mut sess = self.sessions.remove(si);
            let ghost sess0 = sess;
            if fi < sess.files.len() {
                let ghost fs0 = sess.files@;
                let mut f = sess.files[fi].duplicate();
                let next = toggle(f.status, target);
                f.status = next;
                proof {
                    assert(f@.created == fs0[fi as int]@.created);
                }
                sess.files.set(fi, f);
                proof {
                    crate::session::lemma_file_views_update(fs0, fi as int, f);
                    assert(sess.wf()) by {
                        assert(files_ordered(file_views(fs0)));
                        assert forall|a: int, b: int|
                            0 <= a < b < sess@.files.len() implies sess@.files[a].created
                            < sess@.files[b].created by {}
                    }
                }
            }
            self.sessions.insert(si, sess);
            proof {
                assert(self.sessions@ =~= ss0.update(si as int, sess));
                lemma_session_views_update(ss0, si as int, sess);
                assert forall|i: int, j: int|
                    0 <= i < j < self.sessions@.len() implies spec_lex_lt(
                    (#[trigger] self.sessions@[i])@.date,
                    (#[trigger] self.sessions@[j])@.date,
                ) by {
                    assert(self.sessions@[i]@.date == ss0[i]@.date);
                    assert(self.sessions@[j]@.date == ss0[j]@.date);
                }
                if old(self).spec_cursor_valid() {
                    assert(session_views(self.sessions@) =~= spec_set_status(
                        session_views(ss0),
                        si as int,
                        fi as int,
                        spec_toggle(session_views(ss0)[si as int].files[fi as int].status, target),
                    ));
                } else {
                    assert(self.sessions@ =~= ss0);
                }
            }
        }
    }

    /// Flips the focused file's tag toward `Import` (`spec_toggle`):
    /// tagging an already-imported-tagged file clears it.
    pub fn toggle_file_import(&mut self)
        requires
            old(self).wf(),
        ensures
            final (self).wf(),
            final (self).same_but_session_list(&*old(self)),
            old(self).spec_cursor_valid() ==> session_views(final (self).sessions@)
                == spec_set_status(
                session_views(old(self).sessions@),
                old(self).session_idx as int,
                old(self).file_idx as int,
                spec_toggle(
                    session_views(old(self).sessions@)[old(self).session_idx as int].files[old(
                        self,
                    ).file_idx as int].status,
                    Status::Import,
                ),
            ),
            !old(self).spec_cursor_valid() ==> final (self).sessions@ == old(self).sessions@,
    {
        self.toggle_file_status(Status::Import)
    }

    /// Flips the focused file's tag toward `Ignore` (`spec_toggle`).
    pub fn toggle_file_ignore(&mut self)
        requires
            old(self).wf(),
        ensures
            final (self).wf(),
            final (self).same_but_session_list(&*old(self)),
            old(self).spec_cursor_valid() ==> session_views(final (self).sessions@)
                == spec_set_status(
                session_views(old(self).sessions@),
                old(self).session_idx as int,
                old(self).file_idx as int,
                spec_toggle(
                    session_views(old(self).sessions@)[old(self).session_idx as int].files[old(
                        self,
                    ).file_idx as int].status,
                    Status::Ignore,
                ),
            ),
            !old(self).spec_cursor_valid() ==> final (self).sessions@ == old(self).sessions@,
    {
        self.toggle_file_status(Status::Ignore)
    }
}


impl State {
    /// Opens the note prompt, preloaded with the focused file's note
    /// (empty when it has none or no file is focused).
    pub fn input(&mut self)
        ensures
            final (self).sessions@ == old(self).sessions@,
            final (self).focus == old(self).focus && final (self).search == old(self).search
                && final (self).error == old(self).error && final (self).progress == old(
                self,
            ).progress && final (self).dest_groups@ == old(self).dest_groups@ && final (
            self).session_idx == old(self).session_idx && final (self).file_idx == old(
                self,
            ).file_idx && final (self).mode@ == old(self).mode@,
            final (self).input matches Some(s) && (if old(self).spec_cursor_valid() && old(
                self,
            ).sessions@[old(self).session_idx as int]@.files[old(self).file_idx as int].note
                is Some {
                s@ == old(self).sessions@[old(self).session_idx as int]@.files[old(
                    self,
                ).file_idx as int].note->0
            } else {
                s@ == Seq::<char>::empty()
            }),
    {
        let mut buf: Option<String> = Option::None;
        match self.file() {
            Some(f) => {
                match &f.note {
                    Some(n) => {
                        buf = Some(n.clone());
                    },
                    Option::None => {
                        buf = Some(String::new());
                    },
                }
            },
            Option::None => {
                buf = Some(String::new());
            },
        }
        self.input = buf;
    }

    /// Appends a character to the note buffer, up to its cap of 64
    /// characters; without the prompt open nothing changes.
    pub fn input_char(&mut self, c: char)
        ensures
            final (self).sessions@ == old(self).sessions@,
            final (self).focus == old(self).focus && final (self).search == old(self).search
                && final (self).error == old(self).error && final (self).progress == old(
                self,
            ).progress && final (self).dest_groups@ == old(self).dest_groups@ && final (
            self).session_idx == old(self).session_idx && final (self).file_idx == old(
                self,
            ).file_idx && final (self).mode@ == old(self).mode@,
            match old(self).input {
                Some(b) => final (self).input matches Some(b2) && b2@ == (if b@.len() < 64 {
                    b@.push(c)
                } else {
                    b@
                }),
                Option::None => final (self).input is None,
            },
    {
        match &mut self.input {
            Some(b) => {
                if b.as_str().unicode_len() < 64 {
                    crate::text::push_char(b, c);
                }
            },
            Option::None => {},
        }
    }

    /// Erases the last character of the note buffer, if the prompt
    /// is open and holds one.
    pub fn input_del(&mut self)
        ensures
            final (self).sessions@ == old(self).sessions@,
            final (self).focus == old(self).focus && final (self).search == old(self).search
                && final (self).error == old(self).error && final (self).progress == old(
                self,
            ).progress && final (self).dest_groups@ == old(self).dest_groups@ && final (
            self).session_idx == old(self).session_idx && final (self).file_idx == old(
                self,
            ).file_idx && final (self).mode@ == old(self).mode@,
            match old(self).input {
                Some(b) => final (self).input matches Some(b2) && b2@ == (if b@.len() > 0 {
                    b@.drop_last()
                } else {
                    b@
                }),
                Option::None => final (self).input is None,
            },
    {
        match &mut self.input {
            Some(b) => {
                let _ = crate::text::pop_char(b);
            },
            Option::None => {},
        }
    }

    /// Opens the destination search with an empty needle.
    pub fn search(&mut self)
        ensures
            final (self).sessions@ == old(self).sessions@,
            final (self).focus == old(self).focus && final (self).input == old(self).input
                && final (self).error == old(self).error && final (self).progress == old(
                self,
            ).progress && final (self).dest_groups@ == old(self).dest_groups@ && final (
            self).session_idx == old(self).session_idx && final (self).file_idx == old(
                self,
            ).file_idx && final (self).mode@ == old(self).mode@,
            final (self).search matches Some(b) && b@ == Seq::<char>::empty(),
    {
        self.search = Some(String::new());
    }

    /// Appends a character to the search needle, up to its cap of 64
    /// characters.
    pub fn search_char(&mut self, c: char)
        ensures
            final (self).sessions@ == old(self).sessions@,
            final (self).focus == old(self).focus && final (self).input == old(self).input
                && final (self).error == old(self).error && final (self).progress == old(
                self,
            ).progress && final (self).dest_groups@ == old(self).dest_groups@ && final (
            self).session_idx == old(self).session_idx && final (self).file_idx == old(
                self,
            ).file_idx && final (self).mode@ == old(self).mode@,
            match old(self).search {
                Some(b) => final (self).search matches Some(b2) && b2@ == (if b@.len() < 64 {
                    b@.push(c)
                } else {
                    b@
                }),
                Option::None => final (self).search is None,
            },
    {
        match &mut self.search {
            Some(b) => {
                if b.as_str().unicode_len() < 64 {
                    crate::text::push_char(b, c);
                }
            },
            Option::None => {},
        }
    }

    /// Erases the last character of the search needle.
    pub fn search_del(&mut self)
        ensures
            final (self).sessions@ == old(self).sessions@,
            final (self).focus == old(self).focus && final (self).input == old(self).input
                && final (self).error == old(self).error && final (self).progress == old(
                self,
            ).progress && final (self).dest_groups@ == old(self).dest_groups@ && final (
            self).session_idx == old(self).session_idx && final (self).file_idx == old(
                self,
            ).file_idx && final (self).mode@ == old(self).mode@,
            match old(self).search {
                Some(b) => final (self).search matches Some(b2) && b2@ == (if b@.len() > 0 {
                    b@.drop_last()
                } else {
                    b@
                }),
                Option::None => final (self).search is None,
            },
    {
        match &mut self.search {
            Some(b) => {
                let _ = crate::text::pop_char(b);
            },
            Option::None => {},
        }
    }

    /// Shows a non-fatal error to the operator.
    pub fn error(&mut self, error: String)
        ensures
            final (self).sessions@ == old(self).sessions@,
            final (self).focus == old(self).focus && final (self).input == old(self).input
                && final (self).search == old(self).search && final (self).progress == old(
                self,
            ).progress && final (self).dest_groups@ == old(self).dest_groups@ && final (
            self).session_idx == old(self).session_idx && final (self).file_idx == old(
                self,
            ).file_idx && final (self).mode@ == old(self).mode@,
            final (self).error matches Some(e) && e@ == error@,
    {
        self.error = Some(error);
    }

    /// Dismisses every prompt and message.
    pub fn escape(&mut self)
        ensures
            final (self).sessions@ == old(self).sessions@,
            final (self).focus == old(self).focus && final (self).progress == old(self).progress
                && final (self).dest_groups@ == old(self).dest_groups@ && final (
            self).session_idx == old(self).session_idx && final (self).file_idx == old(
                self,
            ).file_idx && final (self).mode@ == old(self).mode@,
            final (self).input is None && final (self).search is None && final (self).error
                is None,
    {
        self.input = Option::None;
        self.search = Option::None;
        self.error = Option::None;
    }

    /// Commits the note buffer to the focused file: an empty buffer
    /// clears the note, anything else becomes the note; the prompt
    /// closes either way.
    pub fn write_note(&mut self)
        requires
            old(self).wf(),
        ensures
            final (self).wf(),
            final (self).input is None,
            final (self).focus == old(self).focus && final (self).search == old(self).search
                && final (self).error == old(self).error && final (self).progress == old(
                self,
            ).progress && final (self).dest_groups@ == old(self).dest_groups@ && final (
            self).session_idx == old(self).session_idx && final (self).file_idx == old(
                self,
            ).file_idx && final (self).mode@ == old(self).mode@,
            old(self).input matches Some(b) ==> old(self).spec_cursor_valid() ==> session_views(
                final (self).sessions@,
            ) == spec_set_note(
                session_views(old(self).sessions@),
                old(self).session_idx as int,
                old(self).file_idx as int,
                if b@.len() == 0 {
                    Option::None
                } else {
                    Some(b@)
                },
            ),
            old(self).input is None || !old(self).spec_cursor_valid() ==> final (self).sessions@
                == old(self).sessions@,
    {
        let ghost ss0 = self.sessions@;
        let mut committed: Option<String> = Option::None;
        let had_input = match &self.input {
            Some(b) => {
                committed = Some(b.clone());
                true
            },
            Option::None => false,
        };
        if had_input {
            let buf = match committed {
                Some(b) => b,
                Option::None => String::new(),
            };
            if self.session_idx < self.sessions.len() {
                let si = self.session_idx;
                let fi = self.file_idx;
                let mut sess = self.sessions.remove(si);
                proof {
                    assert(sess == ss0[si as int]);
                    assert(ss0[si as int].wf());
                }
                if fi < sess.files.len() {
                    let ghost fs0 = sess.files@;
                    let mut f = sess.files[fi].duplicate();
                    f.note = if buf.as_str().unicode_len() == 0 {
                        Option::None
                    } else {
                        Some(buf)
                    };
                    proof {
                        assert(f@.created == fs0[fi as int]@.created);
                    }
                    sess.files.set(fi, f);
                    proof {
                        crate::session::lemma_file_views_update(fs0, fi as int, f);
                        assert(sess.wf()) by {
                            assert(files_ordered(file_views(fs0)));
                            assert forall|a: int, b: int|
                                0 <= a < b < sess@.files.len() implies sess@.files[a].created
                                < sess@.files[b].created by {
                                assert(sess@.files[a].created == file_views(fs0)[a].created);
                                assert(sess@.files[b].created == file_views(fs0)[b].created);
                            }
                        }
                    }
                }
                self.sessions.insert(si, sess);
                proof {
                    assert(self.sessions@ =~= ss0.update(si as int, sess));
                    lemma_session_views_update(ss0, si as int, sess);
                    assert forall|i: int, j: int|
                        0 <= i < j < self.sessions@.len() implies spec_lex_lt(
                        (#[trigger] self.sessions@[i])@.date,
                        (#[trigger] self.sessions@[j])@.date,
                    ) by {
                        assert(self.sessions@[i]@.date == ss0[i]@.date);
                        assert(self.sessions@[j]@.date == ss0[j]@.date);
                    }
                    if old(self).spec_cursor_valid() {
                        assert(session_views(self.sessions@) =~= spec_set_note(
                            session_views(ss0),
                            si as int,
                            fi as int,
                            match self.sessions@[si as int]@.files[fi as int].note {
                                Some(nn) => Some(nn),
                                Option::None => Option::None,
                            },
                        ));
                    } else {
                        assert(self.sessions@ =~= ss0);
                    }
                }
            }
        }
        self.input = Option::None;
    }

    /// Takes over the playlist position the player reports.
    pub fn sync(&mut self, player_pos: Option<usize>)
        ensures
            final (self).sessions@ == old(self).sessions@,
            final (self).focus == old(self).focus && final (self).input == old(self).input
                && final (self).search == old(self).search && final (self).error == old(
                self,
            ).error && final (self).progress == old(self).progress && final (self).dest_groups@
                == old(self).dest_groups@ && final (self).session_idx == old(self).session_idx
                && final (self).mode@ == old(self).mode@,
            final (self).file_idx == (match player_pos {
                Some(p) => p,
                Option::None => old(self).file_idx,
            }),
    {
        match player_pos {
            Some(p) => {
                self.file_idx = p;
            },
            Option::None => {},
        }
    }

    /// Takes over what the progress poller saw, clearing the bar
    /// once it reports the batch done.
    pub fn sync_progress(&mut self, bare: Option<Bare>)
        ensures
            final (self).sessions@ == old(self).sessions@,
            final (self).focus == old(self).focus && final (self).input == old(self).input
                && final (self).search == old(self).search && final (self).error == old(
                self,
            ).error && final (self).dest_groups@ == old(self).dest_groups@ && final (
            self).session_idx == old(self).session_idx && final (self).file_idx == old(
                self,
            ).file_idx && final (self).mode@ == old(self).mode@,
            final (self).progress == (match bare {
                Some(b) => if b.done {
                    Option::None::<Bare>
                } else {
                    Some(b)
                },
                Option::None => old(self).progress,
            }),
    {
        match bare {
            Some(b) => {
                if b.done {
                    self.progress = Option::None;
                } else {
                    self.progress = Some(b);
                }
            },
            Option::None => {},
        }
    }
}


/// Whether some session carries this date.
pub open spec fn has_session(ss: Seq<SessionView>, date: Seq<char>) -> bool {
    exists|i: int| 0 <= i < ss.len() && (#[trigger] ss[i]).date == date
}

/// The index of the session carrying this date (unique under `wf`).
pub open spec fn session_index(ss: Seq<SessionView>, date: Seq<char>) -> int {
    choose|i: int| 0 <= i < ss.len() && (#[trigger] ss[i]).date == date
}

/// What folding one discovered file into the session list yields:
/// the file joins its date's session, or founds a new session (with
/// the given destination) at its date-sorted position.
pub open spec fn spec_add_file(
    ss: Seq<SessionView>,
    f: FileView,
    dest: Option<DestinationView>,
) -> Seq<SessionView> {
    if has_session(ss, f.date) {
        let i = session_index(ss, f.date);
        ss.update(
            i,
            SessionView {
                date: ss[i].date,
                files: spec_insert_file(ss[i].files, f),
                destination: ss[i].destination,
            },
        )
    } else {
        spec_insert_session(ss, SessionView { date: f.date, files: seq![f], destination: dest })
    }
}

/// `ss` with a new session placed at its date-sorted position.
pub open spec fn spec_insert_session(ss: Seq<SessionView>, s: SessionView) -> Seq<SessionView>
    decreases ss,
{
    if ss.len() == 0 {
        seq![s]
    } else if spec_lex_lt(s.date, ss[0].date) {
        seq![s] + ss
    } else {
        seq![ss[0]] + spec_insert_session(ss.subrange(1, ss.len() as int), s)
    }
}

proof fn lemma_lex_lt_irrefl(a: Seq<char>)
    ensures
        !spec_lex_lt(a, a),
    decreases a.len(),
{
    if a.len() > 0 {
        lemma_lex_lt_irrefl(a.skip(1));
    }
}

proof fn lemma_insert_session_at(ss: Seq<SessionView>, s: SessionView, idx: int)
    requires
        0 <= idx <= ss.len(),
        forall|k: int| 0 <= k < idx ==> spec_lex_lt((#[trigger] ss[k]).date, s.date),
        idx < ss.len() ==> spec_lex_lt(s.date, ss[idx].date),
    ensures
        spec_insert_session(ss, s) == ss.insert(idx, s),
    decreases idx,
{
    if idx == 0 {
        if ss.len() == 0 {
            assert(spec_insert_session(ss, s) =~= ss.insert(0, s));
        } else {
            assert(spec_insert_session(ss, s) =~= ss.insert(0, s));
        }
    } else {
        let rest = ss.subrange(1, ss.len() as int);
        lemma_insert_session_at(rest, s, idx - 1);
        assert(spec_lex_lt(ss[0].date, s.date));
        lemma_lex_lt_irrefl(ss[0].date);
        assert(!spec_lex_lt(s.date, ss[0].date)) by {
            if spec_lex_lt(s.date, ss[0].date) {
                crate::paths::lemma_lex_lt_trans(ss[0].date, s.date, ss[0].date);
            }
        }
        assert(spec_insert_session(ss, s) == seq![ss[0]] + rest.insert(idx - 1, s));
        assert(seq![ss[0]] + rest.insert(idx - 1, s) =~= ss.insert(idx, s));
    }
}

impl State {
    /// Folds a discovered file into its date's session, creating the
    /// session (with the given destination) when the date is new.
    pub fn add_file(&mut self, file: crate::session::File, destination: Option<Destination>)
        requires
            old(self).wf(),
        ensures
            final (self).wf(),
            final (self).same_but_session_list(&*old(self)),
            session_views(final (self).sessions@) == spec_add_file(
                session_views(old(self).sessions@),
                file@,
                match destination {
                    Some(d) => Some(d@),
                    Option::None => Option::None,
                },
            ),
    {
        let ghost ss0 = self.sessions@;
        let ghost vs0 = session_views(self.sessions@);
        let n = self.sessions.len();
        let mut i: usize = 0;
        while i < n
            invariant
                i <= n,
                n == self.sessions@.len(),
                self.sessions@ == ss0,
                ss0 == old(self).sessions@,
                vs0 == session_views(ss0),
                old(self).wf(),
                self.wf(),
                self.same_but_session_list(&*old(self)),
                forall|k: int| 0 <= k < i ==> (#[trigger] vs0[k]).date != file@.date,
            decreases n - i,
        {
            if str_eq(self.sessions[i].date.as_str(), file.date.as_str()) {
                let ghost fdate = file@.date;
                proof {
                    assert(vs0[i as int] == ss0[i as int]@);
                    assert(vs0[i as int].date == fdate);
                    assert(has_session(vs0, fdate));
                    let k = session_index(vs0, fdate);
                    assert(0 <= k < vs0.len() && vs0[k].date == fdate);
                    if k != i {
                        lemma_lex_lt_irrefl(fdate);
                        if k < i {
                            assert(spec_lex_lt(vs0[k].date, vs0[i as int].date));
                        } else {
                            assert(spec_lex_lt(vs0[i as int].date, vs0[k].date));
                        }
                    }
                    assert(k == i);
                }
                let mut sess = self.sessions.remove(i);
                proof {
                    assert(sess == ss0[i as int]);
                    assert(ss0[i as int].wf());
                    assert(sess@ == vs0[i as int]);
                }
                let ghost sv0 = sess@;
                sess.insert_file(file);
                self.sessions.insert(i, sess);
                proof {
                    assert(self.sessions@ =~= ss0.update(i as int, sess));
                    lemma_session_views_update(ss0, i as int, sess);
                    assert(sess@ == SessionView {
                        date: vs0[i as int].date,
                        files: spec_insert_file(vs0[i as int].files, file@),
                        destination: vs0[i as int].destination,
                    });
                    assert forall|a: int, b: int|
                        0 <= a < b < self.sessions@.len() implies spec_lex_lt(
                        (#[trigger] self.sessions@[a])@.date,
                        (#[trigger] self.sessions@[b])@.date,
                    ) by {
                        assert(self.sessions@[a]@.date == ss0[a]@.date);
                        assert(self.sessions@[b]@.date == ss0[b]@.date);
                    }
                }
                return ;
            }
            i = i + 1;
        }
        proof {
            if has_session(vs0, file@.date) {
                let k = session_index(vs0, file@.date);
                assert(0 <= k < vs0.len() && vs0[k].date == file@.date);
            }
            assert(!has_session(vs0, file@.date));
        }
        let ghost dview = match destination {
            Some(ref d) => Some(d@),
            Option::None => Option::None::<DestinationView>,
        };
        let date_key = file.date.clone();
        let date = file.date.clone();
        let mut files: Vec<crate::session::File> = Vec::new();
        let ghost fv = file@;
        files.push(file);
        let sess = Session::new(date, files, destination);
        proof {
            let fviews = file_views(files@);
            assert(fviews.len() == 1);
            assert(fviews[0] == files@[0]@);
            assert(fviews =~= seq![fv]);
            assert(spec_insert_file(Seq::<FileView>::empty(), fv) =~= seq![fv]);
            assert(seq![fv].subrange(1, 1) =~= Seq::<FileView>::empty());
            assert(spec_insert_files(Seq::<FileView>::empty(), seq![fv]) == spec_insert_files(
                spec_insert_file(Seq::<FileView>::empty(), fv),
                seq![fv].subrange(1, 1),
            ));
            assert(spec_insert_files(seq![fv], Seq::<FileView>::empty()) == seq![fv]);
            assert(sess@.files =~= seq![fv]);
            assert(sess@.date == fv.date);
            assert(sess@.destination == dview);
        }
        let ghost sv = sess@;
        let n2 = self.sessions.len();
        let mut idx: usize = 0;
        while idx < n2 && str_lt(self.sessions[idx].date.as_str(), date_key.as_str())
            invariant
                idx <= n2,
                n2 == self.sessions@.len(),
                self.sessions@ == ss0,
                ss0 == old(self).sessions@,
                vs0 == session_views(ss0),
                old(self).wf(),
                self.wf(),
                self.same_but_session_list(&*old(self)),
                forall|k: int| 0 <= k < vs0.len() ==> (#[trigger] vs0[k]).date != sv.date,
                sv.date == fv.date,
                date_key@ == sv.date,
                forall|k: int| 0 <= k < idx ==> spec_lex_lt((#[trigger] vs0[k]).date, sv.date),
            decreases n2 - idx,
        {
            proof {
                assert(vs0[idx as int].date == self.sessions@[idx as int]@.date);
            }
            idx = idx + 1;
        }
        proof {
            if idx < n2 {
                assert(vs0[idx as int].date == self.sessions@[idx as int]@.date);
                assert(!spec_lex_lt(vs0[idx as int].date, sv.date));
                crate::paths::lemma_lex_trichotomy(sv.date, vs0[idx as int].date);
                assert(spec_lex_lt(sv.date, vs0[idx as int].date));
            }
            lemma_insert_session_at(vs0, sv, idx as int);
        }
        let ghost ssb = self.sessions@;
        self.sessions.insert(idx, sess);
        proof {
            lemma_session_views_insert(ssb, idx as int, sess);
            assert(session_views(self.sessions@) == vs0.insert(idx as int, sv));
            assert forall|a: int, b: int|
                0 <= a < b < self.sessions@.len() implies spec_lex_lt(
                (#[trigger] self.sessions@[a])@.date,
                (#[trigger] self.sessions@[b])@.date,
            ) by {
                let nv = session_views(self.sessions@);
                assert(self.sessions@[a]@.date == nv[a].date);
                assert(self.sessions@[b]@.date == nv[b].date);
                if a < idx && b < idx {
                    assert(nv[a] == vs0[a] && nv[b] == vs0[b]);
                } else if a < idx && b == idx {
                    assert(nv[a] == vs0[a] && nv[b] == sv);
                } else if a < idx && b > idx {
                    assert(nv[a] == vs0[a] && nv[b] == vs0[b - 1]);
                } else if a == idx && b > idx {
                    assert(nv[a] == sv && nv[b] == vs0[b - 1]);
                    assert(spec_lex_lt(sv.date, vs0[idx as int].date));
                    if b - 1 > idx {
                        crate::paths::lemma_lex_lt_trans(
                            sv.date,
                            vs0[idx as int].date,
                            vs0[b - 1].date,
                        );
                    }
                } else {
                    assert(a > idx || (a == idx && b == idx));
                    assert(nv[a] == vs0[a - 1] && nv[b] == vs0[b - 1]);
                }
            }
            assert forall|i2: int| 0 <= i2 < self.sessions@.len() implies (
            #[trigger] self.sessions@[i2]).wf() by {
                if i2 < idx {
                    assert(self.sessions@[i2] == ss0[i2]);
                } else if i2 == idx {
                    assert(self.sessions@[i2] == sess);
                } else {
                    assert(self.sessions@[i2] == ss0[i2 - 1]);
                }
            }
        }
    }
}


/// The views of a destination vector, in order.
pub open spec fn dest_views(s: Seq<Destination>) -> Seq<DestinationView> {
    s.map_values(|d: Destination| d@)
}

/// `items` with `d` placed by absolute path: an entry with the same
/// path is replaced, otherwise `d` enters at its sorted position.
pub open spec fn spec_insert_dest(items: Seq<DestinationView>, d: DestinationView) -> Seq<
    DestinationView,
>
    decreases items,
{
    if items.len() == 0 {
        seq![d]
    } else if spec_lex_lt(d.abs, items[0].abs) {
        seq![d] + items
    } else if d.abs == items[0].abs {
        seq![d] + items.subrange(1, items.len() as int)
    } else {
        seq![items[0]] + spec_insert_dest(items.subrange(1, items.len() as int), d)
    }
}

proof fn lemma_insert_dest_at(items: Seq<DestinationView>, d: DestinationView, idx: int)
    requires
        0 <= idx <= items.len(),
        forall|k: int| 0 <= k < idx ==> spec_lex_lt((#[trigger] items[k]).abs, d.abs),
        idx < items.len() ==> !spec_lex_lt(items[idx].abs, d.abs),
    ensures
        idx < items.len() && items[idx].abs == d.abs ==> spec_insert_dest(items, d)
            == items.update(idx, d),
        !(idx < items.len() && items[idx].abs == d.abs) ==> spec_insert_dest(items, d)
            == items.insert(idx, d),
    decreases idx,
{
    if idx == 0 {
        if items.len() == 0 {
            assert(spec_insert_dest(items, d) =~= items.insert(0, d));
        } else if items[0].abs == d.abs {
            lemma_lex_lt_irrefl(d.abs);
            assert(spec_insert_dest(items, d) =~= items.update(0, d));
        } else {
            crate::paths::lemma_lex_trichotomy(d.abs, items[0].abs);
            assert(spec_lex_lt(d.abs, items[0].abs));
            assert(spec_insert_dest(items, d) =~= items.insert(0, d));
        }
    } else {
        let rest = items.subrange(1, items.len() as int);
        lemma_insert_dest_at(rest, d, idx - 1);
        assert(spec_lex_lt(items[0].abs, d.abs));
        lemma_lex_lt_irrefl(items[0].abs);
        assert(!spec_lex_lt(d.abs, items[0].abs)) by {
            if spec_lex_lt(d.abs, items[0].abs) {
                crate::paths::lemma_lex_lt_trans(items[0].abs, d.abs, items[0].abs);
            }
        }
        assert(items[0].abs != d.abs);
        if idx < items.len() && items[idx].abs == d.abs {
            assert(rest[idx - 1] == items[idx]);
            assert(spec_insert_dest(items, d) == seq![items[0]] + rest.update(idx - 1, d));
            assert(seq![items[0]] + rest.update(idx - 1, d) =~= items.update(idx, d));
        } else {
            assert(spec_insert_dest(items, d) == seq![items[0]] + rest.insert(idx - 1, d));
            assert(seq![items[0]] + rest.insert(idx - 1, d) =~= items.insert(idx, d));
        }
    }
}

/// Whether some group carries this parent path.
pub open spec fn has_group(gs: Seq<DestGroupView>, parent: Seq<char>) -> bool {
    exists|i: int| 0 <= i < gs.len() && (#[trigger] gs[i]).parent == parent
}

/// The index of the group carrying this parent (unique under `wf`).
pub open spec fn group_index(gs: Seq<DestGroupView>, parent: Seq<char>) -> int {
    choose|i: int| 0 <= i < gs.len() && (#[trigger] gs[i]).parent == parent
}

/// What filing one discovered destination yields: it joins (or
/// founds) the group of its parent directory, both kept sorted; a
/// destination whose path has no parent changes nothing.
pub open spec fn spec_add_dest_groups(gv: Seq<DestGroupView>, d: DestinationView) -> Seq<
    DestGroupView,
> {
    match crate::paths::spec_parent(d.abs) {
        Option::None => gv,
        Some(par) => if has_group(gv, par) {
            let gi = group_index(gv, par);
            gv.update(gi, DestGroupView { parent: par, items: spec_insert_dest(gv[gi].items, d) })
        } else {
            spec_insert_group(gv, DestGroupView { parent: par, items: seq![d] })
        },
    }
}

/// `gs` with a new group placed at its parent-sorted position.
pub open spec fn spec_insert_group(gs: Seq<DestGroupView>, g: DestGroupView) -> Seq<DestGroupView>
    decreases gs,
{
    if gs.len() == 0 {
        seq![g]
    } else if spec_lex_lt(g.parent, gs[0].parent) {
        seq![g] + gs
    } else {
        seq![gs[0]] + spec_insert_group(gs.subrange(1, gs.len() as int), g)
    }
}

proof fn lemma_insert_group_at(gs: Seq<DestGroupView>, g: DestGroupView, idx: int)
    requires
        0 <= idx <= gs.len(),
        forall|k: int| 0 <= k < idx ==> spec_lex_lt((#[trigger] gs[k]).parent, g.parent),
        idx < gs.len() ==> spec_lex_lt(g.parent, gs[idx].parent),
    ensures
        spec_insert_group(gs, g) == gs.insert(idx, g),
    decreases idx,
{
    if idx == 0 {
        if gs.len() == 0 {
            assert(spec_insert_group(gs, g) =~= gs.insert(0, g));
        } else {
            assert(spec_insert_group(gs, g) =~= gs.insert(0, g));
        }
    } else {
        let rest = gs.subrange(1, gs.len() as int);
        lemma_insert_group_at(rest, g, idx - 1);
        assert(spec_lex_lt(gs[0].parent, g.parent));
        lemma_lex_lt_irrefl(gs[0].parent);
        assert(!spec_lex_lt(g.parent, gs[0].parent)) by {
            if spec_lex_lt(g.parent, gs[0].parent) {
                crate::paths::lemma_lex_lt_trans(gs[0].parent, g.parent, gs[0].parent);
            }
        }
        assert(spec_insert_group(gs, g) == seq![gs[0]] + rest.insert(idx - 1, g));
        assert(seq![gs[0]] + rest.insert(idx - 1, g) =~= gs.insert(idx, g));
    }
}

/// The views of the destination groups a state holds.
pub open spec fn group_views(gs: Seq<DestGroup>) -> Seq<DestGroupView> {
    gs.map_values(|g: DestGroup| g@)
}

proof fn lemma_group_views_update(s: Seq<DestGroup>, i: int, v: DestGroup)
    requires
        0 <= i < s.len(),
    ensures
        group_views(s.update(i, v)) == group_views(s).update(i, v@),
{
    assert forall|k: int| 0 <= k < s.len() implies group_views(s.update(i, v))[k] == group_views(
        s,
    ).update(i, v@)[k] by {
        if k != i {
            assert(s.update(i, v)[k] == s[k]);
        }
    }
    assert(group_views(s.update(i, v)) =~= group_views(s).update(i, v@));
}

proof fn lemma_group_views_insert(s: Seq<DestGroup>, i: int, v: DestGroup)
    requires
        0 <= i <= s.len(),
    ensures
        group_views(s.insert(i, v)) == group_views(s).insert(i, v@),
{
    assert forall|k: int| 0 <= k < s.len() + 1 implies group_views(s.insert(i, v))[k]
        == group_views(s).insert(i, v@)[k] by {
        if k < i {
            assert(s.insert(i, v)[k] == s[k]);
        } else if k == i {
            assert(s.insert(i, v)[k] == v);
        } else {
            assert(s.insert(i, v)[k] == s[k - 1]);
        }
    }
    assert(group_views(s.insert(i, v)) =~= group_views(s).insert(i, v@));
}

proof fn lemma_dest_views_update(s: Seq<Destination>, i: int, v: Destination)
    requires
        0 <= i < s.len(),
    ensures
        dest_views(s.update(i, v)) == dest_views(s).update(i, v@),
{
    assert forall|k: int| 0 <= k < s.len() implies dest_views(s.update(i, v))[k] == dest_views(
        s,
    ).update(i, v@)[k] by {
        if k != i {
            assert(s.update(i, v)[k] == s[k]);
        }
    }
    assert(dest_views(s.update(i, v)) =~= dest_views(s).update(i, v@));
}

proof fn lemma_dest_views_insert(s: Seq<Destination>, i: int, v: Destination)
    requires
        0 <= i <= s.len(),
    ensures
        dest_views(s.insert(i, v)) == dest_views(s).insert(i, v@),
{
    assert forall|k: int| 0 <= k < s.len() + 1 implies dest_views(s.insert(i, v))[k] == dest_views(
        s,
    ).insert(i, v@)[k] by {
        if k < i {
            assert(s.insert(i, v)[k] == s[k]);
        } else if k == i {
            assert(s.insert(i, v)[k] == v);
        } else {
            assert(s.insert(i, v)[k] == s[k - 1]);
        }
    }
    assert(dest_views(s.insert(i, v)) =~= dest_views(s).insert(i, v@));
}


impl State {
    /// Everything but the destination groups is unchanged.
    pub open spec fn same_but_groups(&self, other: &Self) -> bool {
        &&& self.mode@ == other.mode@
        &&& self.focus == other.focus
        &&& self.input == other.input
        &&& self.search == other.search
        &&& self.error == other.error
        &&& self.progress == other.progress
        &&& self.sessions@ == other.sessions@
        &&& self.session_idx == other.session_idx
        &&& self.file_idx == other.file_idx
    }

    /// Files a discovered destination under its parent directory's
    /// group, keeping groups and items sorted; a destination whose
    /// path has no parent is dropped.
    pub fn add_destination(&mut self, dest: Destination)
        requires
            old(self).wf(),
        ensures
            final (self).wf(),
            final (self).same_but_groups(&*old(self)),
            group_views(final (self).dest_groups@) == spec_add_dest_groups(
                group_views(old(self).dest_groups@),
                dest@,
            ),
    {
        let ghost gs0 = self.dest_groups@;
        let ghost gv0 = group_views(self.dest_groups@);
        let parent = match crate::paths::parent_of(dest.abs.as_str()) {
            Some(p) => p,
            Option::None => {
                return ;
            },
        };
        let ghost par = parent@;
        let n = self.dest_groups.len();
        let mut i: usize = 0;
        while i < n
            invariant
                i <= n,
                n == self.dest_groups@.len(),
                self.dest_groups@ == gs0,
                gs0 == old(self).dest_groups@,
                gv0 == group_views(gs0),
                Some(par) == crate::paths::spec_parent(dest@.abs),
                par == parent@,
                old(self).wf(),
                self.wf(),
                self.same_but_groups(&*old(self)),
                forall|k: int| 0 <= k < i ==> (#[trigger] gv0[k]).parent != par,
            decreases n - i,
        {
            if str_eq(self.dest_groups[i].parent.as_str(), parent.as_str()) {
                proof {
                    assert(gv0[i as int] == gs0[i as int]@);
                    assert(gv0[i as int].parent == par);
                    assert(has_group(gv0, par));
                    let k = group_index(gv0, par);
                    assert(0 <= k < gv0.len() && gv0[k].parent == par);
                    if k != i {
                        lemma_lex_lt_irrefl(par);
                        if k < i {
                            assert(spec_lex_lt(gv0[k].parent, gv0[i as int].parent));
                        } else {
                            assert(spec_lex_lt(gv0[i as int].parent, gv0[k].parent));
                        }
                    }
                    assert(k == i);
                }
                let mut grp = self.dest_groups.remove(i);
                proof {
                    assert(grp == gs0[i as int]);
                    assert(grp@ == gv0[i as int]);
                }
                let ghost items0 = grp.items@;
                let ghost iv0 = dest_views(items0);
                let m = grp.items.len();
                let mut idx: usize = 0;
                while idx < m && str_lt(grp.items[idx].abs.as_str(), dest.abs.as_str())
                    invariant
                        idx <= m,
                        m == grp.items@.len(),
                        grp.items@ == items0,
                        iv0 == dest_views(items0),
                        forall|k: int| 0 <= k < idx ==> spec_lex_lt((#[trigger] iv0[k]).abs, dest@.abs),
                    decreases m - idx,
                {
                    proof {
                        assert(iv0[idx as int] == items0[idx as int]@);
                    }
                    idx = idx + 1;
                }
                proof {
                    if idx < m {
                        assert(iv0[idx as int] == items0[idx as int]@);
                    }
                    lemma_insert_dest_at(iv0, dest@, idx as int);
                }
                let ghost dv = dest@;
                let replacing = idx < m && str_eq(grp.items[idx].abs.as_str(), dest.abs.as_str());
                if replacing {
                    proof {
                        assert(iv0[idx as int].abs == dv.abs);
                    }
                    grp.items.set(idx, dest);
                    proof {
                        lemma_dest_views_update(items0, idx as int, grp.items@[idx as int]);
                        assert(dest_views(grp.items@) == iv0.update(idx as int, dv));
                        assert(dest_views(grp.items@) == spec_insert_dest(iv0, dv));
                    }
                } else {
                    proof {
                        if idx < m {
                            assert(iv0[idx as int].abs != dv.abs);
                        }
                    }
                    grp.items.insert(idx, dest);
                    proof {
                        lemma_dest_views_insert(items0, idx as int, grp.items@[idx as int]);
                        assert(dest_views(grp.items@) == iv0.insert(idx as int, dv));
                        assert(dest_views(grp.items@) == spec_insert_dest(iv0, dv));
                    }
                }
                proof {
                    assert(grp@.parent == par);
                    assert(grp@.items == spec_insert_dest(iv0, dv));
                    assert forall|a2: int, b2: int|
                        0 <= a2 < b2 < iv0.len() implies spec_lex_lt(
                        (#[trigger] iv0[a2]).abs,
                        (#[trigger] iv0[b2]).abs,
                    ) by {
                        assert(old(self).dest_groups@[i as int]@.items[a2] == iv0[a2]);
                        assert(old(self).dest_groups@[i as int]@.items[b2] == iv0[b2]);
                    }
                    assert forall|a: int, b: int|
                        0 <= a < b < grp@.items.len() implies spec_lex_lt(
                        grp@.items[a].abs,
                        grp@.items[b].abs,
                    ) by {
                        let ni = grp@.items;
                        if replacing {
                            assert(ni =~= iv0.update(idx as int, dv));
                            if a == idx {
                                assert(ni[b] == iv0[b]);
                                assert(spec_lex_lt(iv0[idx as int].abs, iv0[b].abs));
                            } else if b == idx {
                                assert(ni[a] == iv0[a]);
                                assert(spec_lex_lt(iv0[a].abs, iv0[idx as int].abs));
                            } else {
                                assert(ni[a] == iv0[a] && ni[b] == iv0[b]);
                            }
                        } else {
                            assert(ni =~= iv0.insert(idx as int, dv));
                            if a < idx && b < idx {
                                assert(ni[a] == iv0[a] && ni[b] == iv0[b]);
                            } else if a < idx && b == idx {
                                assert(ni[a] == iv0[a] && ni[b] == dv);
                            } else if a < idx && b > idx {
                                assert(ni[a] == iv0[a] && ni[b] == iv0[b - 1]);
                            } else if a == idx && b > idx {
                                assert(ni[a] == dv && ni[b] == iv0[b - 1]);
                                assert(!spec_lex_lt(iv0[idx as int].abs, dv.abs));
                                assert(iv0[idx as int].abs != dv.abs);
                                crate::paths::lemma_lex_trichotomy(dv.abs, iv0[idx as int].abs);
                                if b - 1 > idx {
                                    crate::paths::lemma_lex_lt_trans(
                                        dv.abs,
                                        iv0[idx as int].abs,
                                        iv0[b - 1].abs,
                                    );
                                }
                            } else {
                                assert(ni[a] == iv0[a - 1] && ni[b] == iv0[b - 1]);
                            }
                        }
                    }
                }
                self.dest_groups.insert(i, grp);
                proof {
                    assert(self.dest_groups@ =~= gs0.update(i as int, grp));
                    lemma_group_views_update(gs0, i as int, grp);
                    assert forall|a: int, b: int|
                        0 <= a < b < self.dest_groups@.len() implies spec_lex_lt(
                        (#[trigger] self.dest_groups@[a])@.parent,
                        (#[trigger] self.dest_groups@[b])@.parent,
                    ) by {
                        assert(self.dest_groups@[a]@.parent == gs0[a]@.parent);
                        assert(self.dest_groups@[b]@.parent == gs0[b]@.parent);
                    }
                    assert(group_views(self.dest_groups@) == gv0.update(i as int, grp@));
                }
                return ;
            }
            i = i + 1;
        }
        proof {
            if has_group(gv0, par) {
                let k = group_index(gv0, par);
                assert(0 <= k < gv0.len() && gv0[k].parent == par);
            }
            assert(!has_group(gv0, par));
        }
        let ghost dv = dest@;
        let mut items: Vec<Destination> = Vec::new();
        items.push(dest);
        let grp = DestGroup { parent, items };
        proof {
            assert(dest_views(grp.items@) =~= seq![dv]);
            assert(grp@ == DestGroupView { parent: par, items: seq![dv] });
        }
        let ghost gvnew = grp@;
        let n2 = self.dest_groups.len();
        let mut idx: usize = 0;
        while idx < n2 && str_lt(self.dest_groups[idx].parent.as_str(), grp.parent.as_str())
            invariant
                idx <= n2,
                n2 == self.dest_groups@.len(),
                self.dest_groups@ == gs0,
                gs0 == old(self).dest_groups@,
                gv0 == group_views(gs0),
                old(self).wf(),
                self.wf(),
                self.same_but_groups(&*old(self)),
                forall|k: int| 0 <= k < gv0.len() ==> (#[trigger] gv0[k]).parent != par,
                gvnew.parent == par,
                grp.parent@ == par,
                forall|k: int| 0 <= k < idx ==> spec_lex_lt((#[trigger] gv0[k]).parent, par),
            decreases n2 - idx,
        {
            proof {
                assert(gv0[idx as int] == self.dest_groups@[idx as int]@);
            }
            idx = idx + 1;
        }
        proof {
            if idx < n2 {
                assert(gv0[idx as int] == self.dest_groups@[idx as int]@);
                assert(!spec_lex_lt(gv0[idx as int].parent, par));
                crate::paths::lemma_lex_trichotomy(par, gv0[idx as int].parent);
                assert(spec_lex_lt(par, gv0[idx as int].parent));
            }
            lemma_insert_group_at(gv0, gvnew, idx as int);
        }
        let ghost gsb = self.dest_groups@;
        self.dest_groups.insert(idx, grp);
        proof {
            lemma_group_views_insert(gsb, idx as int, grp);
            assert(group_views(self.dest_groups@) == gv0.insert(idx as int, gvnew));
            assert forall|a: int, b: int|
                0 <= a < b < self.dest_groups@.len() implies spec_lex_lt(
                (#[trigger] self.dest_groups@[a])@.parent,
                (#[trigger] self.dest_groups@[b])@.parent,
            ) by {
                let nv = group_views(self.dest_groups@);
                assert(self.dest_groups@[a]@.parent == nv[a].parent);
                assert(self.dest_groups@[b]@.parent == nv[b].parent);
                if a < idx && b < idx {
                    assert(nv[a] == gv0[a] && nv[b] == gv0[b]);
                } else if a < idx && b == idx {
                    assert(nv[a] == gv0[a] && nv[b] == gvnew);
                } else if a < idx && b > idx {
                    assert(nv[a] == gv0[a] && nv[b] == gv0[b - 1]);
                } else if a == idx && b > idx {
                    assert(nv[a] == gvnew && nv[b] == gv0[b - 1]);
                    assert(spec_lex_lt(par, gv0[idx as int].parent));
                    if b - 1 > idx {
                        crate::paths::lemma_lex_lt_trans(
                            par,
                            gv0[idx as int].parent,
                            gv0[b - 1].parent,
                        );
                    }
                } else {
                    assert(nv[a] == gv0[a - 1] && nv[b] == gv0[b - 1]);
                }
            }
            assert forall|g: int, a: int, b: int|
                #![trigger self.dest_groups@[g]@.items[a], self.dest_groups@[g]@.items[b]]
                0 <= g < self.dest_groups@.len() && 0 <= a < b
                    < self.dest_groups@[g]@.items.len() implies spec_lex_lt(
                self.dest_groups@[g]@.items[a].abs,
                self.dest_groups@[g]@.items[b].abs,
            ) by {
                if g < idx {
                    assert(self.dest_groups@[g] == gs0[g]);
                } else if g == idx {
                    assert(self.dest_groups@[g] == grp);
                } else {
                    assert(self.dest_groups@[g] == gs0[g - 1]);
                }
            }
        }
    }
}


/// `ss` with session `i`'s destination replaced.
pub open spec fn spec_set_session_dest(
    ss: Seq<SessionView>,
    i: int,
    d: Option<DestinationView>,
) -> Seq<SessionView>
    recommends
        0 <= i < ss.len(),
{
    ss.update(i, SessionView { date: ss[i].date, files: ss[i].files, destination: d })
}

/// All destinations of a sequence of groups, in order.
pub open spec fn flat_dests(gs: Seq<DestGroupView>) -> Seq<DestinationView>
    decreases gs,
{
    if gs.len() == 0 {
        Seq::empty()
    } else {
        gs[0].items + flat_dests(gs.subrange(1, gs.len() as int))
    }
}

proof fn lemma_flat_dests_drop(gs: Seq<DestGroupView>, g: int)
    requires
        0 <= g < gs.len(),
    ensures
        flat_dests(gs.subrange(g, gs.len() as int)) == gs[g].items + flat_dests(
            gs.subrange(g + 1, gs.len() as int),
        ),
{
    let t = gs.subrange(g, gs.len() as int);
    assert(t[0] == gs[g]);
    assert(t.subrange(1, t.len() as int) =~= gs.subrange(g + 1, gs.len() as int));
}

/// What the reducer asks its caller to do after an input event.
#[derive(PartialEq, Eq, Structural, Clone, Copy, Debug)]
pub enum Directive {
    /// Nothing beyond the state change already made.
    Idle,
    /// Leave the run loop.
    Quit,
    /// Re-aim the player after a cursor move.
    SyncPlayer,
    /// Persist the focused file's record to the cache.
    PersistFocusedFile,
    /// Score the search needle against the destinations and commit
    /// the best match.
    CommitSearch,
    /// Persist the whole cache document after a discovery was folded
    /// in.
    PersistCache,
    /// Start previewing the focused session at the focused file.
    Preview,
    /// Plan the import batch from the current sessions and start
    /// the writer on it.
    StartImport,
}

/// What the player should do after a cursor move.
pub enum PlayerAction {
    Idle,
    SetPos(usize),
    Load(Vec<String>),
}

/// The decision table of the key reducer: which outside work each
/// key asks for, given the popup in front and the focused list.
pub open spec fn spec_key_directive(popup: Popup, focus: Focus, key: Key) -> Directive {
    match popup {
        Popup::Closed => match key {
            Key::Char(c) => if c == 'q' {
                Directive::Quit
            } else if c == 'k' || c == 'j' {
                Directive::SyncPlayer
            } else if (c == 'a' || c == 'd') && focus is Files {
                Directive::PersistFocusedFile
            } else if c == 'i' {
                Directive::StartImport
            } else {
                Directive::Idle
            },
            Key::Enter => if focus is Files {
                Directive::Preview
            } else {
                Directive::Idle
            },
            _ => Directive::Idle,
        },
        Popup::Search => match key {
            Key::Enter => Directive::CommitSearch,
            _ => Directive::Idle,
        },
        Popup::Input => match key {
            Key::Enter => Directive::PersistFocusedFile,
            _ => Directive::Idle,
        },
        _ => Directive::Idle,
    }
}

impl State {
    /// Binds the current session to the best search match, if there
    /// was one, and closes the search either way.
    pub fn set_session_destination(&mut self, best: Option<Destination>)
        requires
            old(self).wf(),
        ensures
            final (self).wf(),
            final (self).search is None,
            final (self).mode@ == old(self).mode@ && final (self).focus == old(self).focus
                && final (self).input == old(self).input && final (self).error == old(
                self,
            ).error && final (self).progress == old(self).progress && final (self).dest_groups@
                == old(self).dest_groups@ && final (self).session_idx == old(self).session_idx
                && final (self).file_idx == old(self).file_idx,
            ({
                let bound = old(self).search is Some && best is Some && old(self).session_idx
                    < old(self).sessions@.len();
                &&& (bound ==> session_views(final (self).sessions@) == spec_set_session_dest(
                    session_views(old(self).sessions@),
                    old(self).session_idx as int,
                    Some(best->0@),
                ))
                &&& (!bound ==> final (self).sessions@ == old(self).sessions@)
            }),
    {
        let ghost ss0 = self.sessions@;
        let ghost vs0 = session_views(self.sessions@);
        let had_search = self.search.is_some();
        if had_search {
            match best {
                Some(d) => {
                    if self.session_idx < self.sessions.len() {
                        let si = self.session_idx;
                        let mut sess = self.sessions.remove(si);
                        proof {
                            assert(sess == ss0[si as int]);
                            assert(ss0[si as int].wf());
                            assert(sess@ == vs0[si as int]);
                        }
                        sess.destination = Some(d);
                        self.sessions.insert(si, sess);
                        proof {
                            assert(self.sessions@ =~= ss0.update(si as int, sess));
                            lemma_session_views_update(ss0, si as int, sess);
                            assert(session_views(self.sessions@) =~= spec_set_session_dest(
                                vs0,
                                si as int,
                                sess@.destination,
                            ));
                            assert forall|a: int, b: int|
                                0 <= a < b < self.sessions@.len() implies spec_lex_lt(
                                (#[trigger] self.sessions@[a])@.date,
                                (#[trigger] self.sessions@[b])@.date,
                            ) by {
                                assert(self.sessions@[a]@.date == ss0[a]@.date);
                                assert(self.sessions@[b]@.date == ss0[b]@.date);
                            }
                        }
                    }
                },
                Option::None => {},
            }
        }
        self.search = Option::None;
    }

    /// Binds the session carrying `date` (if discovered yet) to a
    /// destination found by the destination scanner.
    pub fn bind_session_destination(&mut self, date: &str, dest: Destination)
        requires
            old(self).wf(),
        ensures
            final (self).wf(),
            final (self).same_but_session_list(&*old(self)),
            has_session(session_views(old(self).sessions@), date@) ==> session_views(
                final (self).sessions@,
            ) == spec_set_session_dest(
                session_views(old(self).sessions@),
                session_index(session_views(old(self).sessions@), date@),
                Some(dest@),
            ),
            !has_session(session_views(old(self).sessions@), date@) ==> final (self).sessions@
                == old(self).sessions@,
    {
        let ghost ss0 = self.sessions@;
        let ghost vs0 = session_views(self.sessions@);
        let n = self.sessions.len();
        let mut i: usize = 0;
        while i < n
            invariant
                i <= n,
                n == self.sessions@.len(),
                self.sessions@ == ss0,
                ss0 == old(self).sessions@,
                vs0 == session_views(ss0),
                old(self).wf(),
                self.wf(),
                self.same_but_session_list(&*old(self)),
                forall|k: int| 0 <= k < i ==> (#[trigger] vs0[k]).date != date@,
            decreases n - i,
        {
            if str_eq(self.sessions[i].date.as_str(), date) {
                proof {
                    assert(vs0[i as int] == ss0[i as int]@);
                    assert(vs0[i as int].date == date@);
                    assert(has_session(vs0, date@));
                    let k = session_index(vs0, date@);
                    assert(0 <= k < vs0.len() && vs0[k].date == date@);
                    if k != i {
                        lemma_lex_lt_irrefl(date@);
                        if k < i {
                            assert(spec_lex_lt(vs0[k].date, vs0[i as int].date));
                        } else {
                            assert(spec_lex_lt(vs0[i as int].date, vs0[k].date));
                        }
                    }
                    assert(k == i);
                }
                let mut sess = self.sessions.remove(i);
                proof {
                    assert(sess == ss0[i as int]);
                    assert(ss0[i as int].wf());
                    assert(sess@ == vs0[i as int]);
                }
                sess.destination = Some(dest);
                self.sessions.insert(i, sess);
                proof {
                    assert(self.sessions@ =~= ss0.update(i as int, sess));
                    lemma_session_views_update(ss0, i as int, sess);
                    assert(session_views(self.sessions@) =~= spec_set_session_dest(
                        vs0,
                        i as int,
                        sess@.destination,
                    ));
                    assert forall|a: int, b: int|
                        0 <= a < b < self.sessions@.len() implies spec_lex_lt(
                        (#[trigger] self.sessions@[a])@.date,
                        (#[trigger] self.sessions@[b])@.date,
                    ) by {
                        assert(self.sessions@[a]@.date == ss0[a]@.date);
                        assert(self.sessions@[b]@.date == ss0[b]@.date);
                    }
                }
                return ;
            }
            i = i + 1;
        }
        proof {
            if has_session(vs0, date@) {
                let k = session_index(vs0, date@);
                assert(0 <= k < vs0.len() && vs0[k].date == date@);
            }
            assert(!has_session(vs0, date@));
        }
    }

    /// Every discovered destination, flattened in group order, for
    /// the search to score.
    pub fn destinations_flat(&self) -> (r: Vec<Destination>)
        ensures
            dest_views(r@) == flat_dests(group_views(self.dest_groups@)),
    {
        let ghost gv = group_views(self.dest_groups@);
        let mut out: Vec<Destination> = Vec::new();
        let n = self.dest_groups.len();
        let mut g: usize = 0;
        proof {
            assert(gv.subrange(0, n as int) =~= gv);
            assert(dest_views(out@) =~= Seq::<DestinationView>::empty());
            assert(Seq::<DestinationView>::empty() + flat_dests(gv) =~= flat_dests(gv));
        }
        while g < n
            invariant
                g <= n,
                n == self.dest_groups@.len(),
                gv == group_views(self.dest_groups@),
                dest_views(out@) + flat_dests(gv.subrange(g as int, n as int)) == flat_dests(gv),
            decreases n - g,
        {
            proof {
                lemma_flat_dests_drop(gv, g as int);
                assert(gv[g as int] == self.dest_groups@[g as int]@);
            }
            let m = self.dest_groups[g].items.len();
            let mut i: usize = 0;
            while i < m
                invariant
                    i <= m,
                    g < n,
                    n == self.dest_groups@.len(),
                    gv == group_views(self.dest_groups@),
                    m == self.dest_groups@[g as int].items@.len(),
                    dest_views(out@) + gv[g as int].items.subrange(i as int, m as int)
                        + flat_dests(gv.subrange(g as int + 1, n as int)) == flat_dests(gv),
                decreases m - i,
            {
                let d = self.dest_groups[g].items[i].duplicate();
                proof {
                    let ghost ov = dest_views(out@);
                    assert(d@ == gv[g as int].items[i as int]);
                    assert(gv[g as int].items.subrange(i as int, m as int) =~= seq![d@]
                        + gv[g as int].items.subrange(i as int + 1, m as int));
                    assert(dest_views(out@.push(d)) =~= ov.push(d@));
                    assert(ov.push(d@) + gv[g as int].items.subrange(i as int + 1, m as int)
                        =~= ov + (seq![d@] + gv[g as int].items.subrange(i as int + 1, m as int)));
                    assert((ov.push(d@) + gv[g as int].items.subrange(i as int + 1, m as int))
                        + flat_dests(gv.subrange(g as int + 1, n as int)) =~= (ov + gv[
                        g as int].items.subrange(i as int, m as int)) + flat_dests(
                        gv.subrange(g as int + 1, n as int),
                    ));
                }
                out.push(d);
                i = i + 1;
            }
            proof {
                assert(gv[g as int].items.subrange(m as int, m as int)
                    =~= Seq::<DestinationView>::empty());
                assert(dest_views(out@) + Seq::<DestinationView>::empty() =~= dest_views(out@));
            }
            g = g + 1;
        }
        proof {
            assert(gv.subrange(n as int, n as int) =~= Seq::<DestGroupView>::empty());
            assert(dest_views(out@) + Seq::<DestinationView>::empty() =~= dest_views(out@));
        }
        out
    }

    /// What the focused session's preview should play: its file
    /// paths and the focused index.
    pub fn preview_action(&self) -> (r: Option<(Vec<String>, usize)>)
        ensures
            r is Some <==> self.session_idx < self.sessions@.len(),
            r matches Some(p) ==> p.1 == self.file_idx && p.0@.len()
                == self.sessions@[self.session_idx as int]@.files.len() && (forall|i: int|
                0 <= i < p.0@.len() ==> p.0@[i]@
                    == self.sessions@[self.session_idx as int]@.files[i].path),
    {
        if self.session_idx < self.sessions.len() {
            Some((self.sessions[self.session_idx].file_paths(), self.file_idx))
        } else {
            Option::None
        }
    }

    /// How to re-aim the player after a cursor move: with the file
    /// list focused and the player playing, jump to the focused
    /// file; with the session list focused, load the focused
    /// session's playlist; otherwise leave the player be.
    pub fn update_player_action(&self, playing: bool) -> (r: PlayerAction)
        ensures
            self.focus is Files && playing ==> (r matches PlayerAction::SetPos(p) && p
                == self.file_idx),
            self.focus is Files && !playing ==> r is Idle,
            self.focus is Sessions && self.session_idx < self.sessions@.len() ==> (
            r matches PlayerAction::Load(ps) && ps@.len()
                == self.sessions@[self.session_idx as int]@.files.len() && (forall|i: int|
                0 <= i < ps@.len() ==> ps@[i]@
                    == self.sessions@[self.session_idx as int]@.files[i].path)),
            self.focus is Sessions && self.session_idx >= self.sessions@.len() ==> r is Idle,
    {
        match self.focus {
            Focus::Files => {
                if playing {
                    PlayerAction::SetPos(self.file_idx)
                } else {
                    PlayerAction::Idle
                }
            },
            Focus::Sessions => {
                if self.session_idx < self.sessions.len() {
                    PlayerAction::Load(self.sessions[self.session_idx].file_paths())
                } else {
                    PlayerAction::Idle
                }
            },
        }
    }

    /// Applies one key to the state, per the fixed key map, and
    /// names the outside work it calls for (`spec_key_directive`).
    pub fn handle_key(&mut self, key: Key) -> (r: Directive)
        requires
            old(self).wf(),
        ensures
            final (self).wf(),
            r == spec_key_directive(old(self).spec_popup(), old(self).focus, key),
            ({
                let popup = old(self).spec_popup();
                let focus = old(self).focus;
                &&& (popup is Closed && (key == Key::Char('q') || key == Key::Char('i') || key
                    == Key::Enter || key == Key::Other) ==> *final (self) == *old(self))
                &&& (popup is Closed && (key == Key::Char('h') || key == Key::Char('l')) ==> (
                final (self).focus == (if focus is Files {
                    Focus::Sessions
                } else {
                    Focus::Files
                }) && final (self).sessions@ == old(self).sessions@ && final (self).same_chrome(
                    &*old(self),
                ) && final (self).input == old(self).input && final (self).search == old(
                    self,
                ).search && final (self).error == old(self).error))
                &&& (popup is Closed && (key == Key::Char('j') || key == Key::Char('k')) ==> (
                final (self).same_but_sessions(&*old(self)) && final (self).sessions@ == old(
                    self,
                ).sessions@ && (old(self).sessions@.len() > 0 ==> final (self).session_idx < old(
                    self,
                ).sessions@.len()) && (old(self).sessions@.len() == 0 ==> final (
                self).session_idx == 0)))
                &&& (popup is Closed && key == Key::Char('a') && focus is Files && old(
                    self,
                ).spec_cursor_valid() ==> session_views(final (self).sessions@)
                    == spec_set_status(
                    session_views(old(self).sessions@),
                    old(self).session_idx as int,
                    old(self).file_idx as int,
                    spec_toggle(
                        session_views(old(self).sessions@)[old(self).session_idx as int].files[old(
                            self,
                        ).file_idx as int].status,
                        Status::Import,
                    ),
                ))
                &&& (popup is Closed && key == Key::Char('d') && focus is Files && old(
                    self,
                ).spec_cursor_valid() ==> session_views(final (self).sessions@)
                    == spec_set_status(
                    session_views(old(self).sessions@),
                    old(self).session_idx as int,
                    old(self).file_idx as int,
                    spec_toggle(
                        session_views(old(self).sessions@)[old(self).session_idx as int].files[old(
                            self,
                        ).file_idx as int].status,
                        Status::Ignore,
                    ),
                ))
                &&& (popup is Closed && key == Key::Char('n') ==> (final (self).same_chrome(
                    &*old(self),
                ) && final (self).focus == focus && final (self).sessions@ == old(
                    self,
                ).sessions@ && final (self).error == old(self).error))
                &&& (popup is Closed && key == Key::Char('n') && focus is Sessions ==> (
                final (self).search matches Some(b) && b@ == Seq::<char>::empty()) && final (
                self).input == old(self).input)
                &&& (popup is Closed && key == Key::Char('n') && focus is Files ==> final (
                self).input is Some && final (self).search == old(self).search)
                &&& (key == Key::Esc ==> final (self).input is None && final (self).search
                    is None && final (self).error is None && final (self).sessions@ == old(
                    self,
                ).sessions@ && final (self).same_chrome(&*old(self)) && final (self).focus
                    == focus)
                &&& (popup is Search ==> final (self).sessions@ == old(self).sessions@)
                &&& (popup is Search && key != Key::Enter && key != Key::Esc ==> (final (
                self).same_chrome(&*old(self)) && final (self).focus == focus && final (
                self).input == old(self).input && final (self).error == old(self).error))
                &&& (popup is Search && key == Key::Other ==> final (self).search == old(
                    self,
                ).search)
                &&& (popup is Search ==> (key matches Key::Char(c) ==> (match old(self).search {
                    Some(b) => final (self).search matches Some(b2) && b2@ == (if b@.len() < 64 {
                        b@.push(c)
                    } else {
                        b@
                    }),
                    Option::None => final (self).search is None,
                })))
                &&& (popup is Search && key == Key::Backspace ==> (match old(self).search {
                    Some(b) => final (self).search matches Some(b2) && b2@ == (if b@.len() > 0 {
                        b@.drop_last()
                    } else {
                        b@
                    }),
                    Option::None => final (self).search is None,
                }))
                &&& (popup is Search && key == Key::Enter ==> *final (self) == *old(self))
                &&& (popup is Input && key != Key::Esc ==> (final (self).same_chrome(
                    &*old(self),
                ) && final (self).focus == focus && final (self).search == old(self).search
                    && final (self).error == old(self).error))
                &&& (popup is Input && key != Key::Enter && key != Key::Esc ==> final (
                self).sessions@ == old(self).sessions@)
                &&& (popup is Input && key == Key::Backspace ==> (match old(self).input {
                    Some(b) => final (self).input matches Some(b2) && b2@ == (if b@.len() > 0 {
                        b@.drop_last()
                    } else {
                        b@
                    }),
                    Option::None => final (self).input is None,
                }))
                &&& (popup is Input && key == Key::Other ==> final (self).input == old(
                    self,
                ).input)
                &&& (popup is Input && key == Key::Enter && (old(self).input is None || !old(
                    self,
                ).spec_cursor_valid()) ==> final (self).sessions@ == old(self).sessions@)
                &&& (popup is Input ==> (key matches Key::Char(c) ==> (match old(self).input {
                    Some(b) => final (self).input matches Some(b2) && b2@ == (if b@.len() < 64 {
                        b@.push(c)
                    } else {
                        b@
                    }),
                    Option::None => final (self).input is None,
                })))
                &&& (popup is Input && key == Key::Enter ==> (final (self).input is None && (
                old(self).input matches Some(b) ==> old(self).spec_cursor_valid()
                    ==> session_views(final (self).sessions@) == spec_set_note(
                    session_views(old(self).sessions@),
                    old(self).session_idx as int,
                    old(self).file_idx as int,
                    if b@.len() == 0 {
                        Option::None
                    } else {
                        Some(b@)
                    },
                ))))
                &&& ((popup is Error || popup is Progress) && key != Key::Esc ==> *final (self)
                    == *old(self))
            }),
    {
        let popup = self.popup();
        match popup {
            Popup::Closed => {
                match key {
                    Key::Char(c) => {
                        if c == 'q' {
                            Directive::Quit
                        } else if c == 'k' {
                            self.list_up();
                            Directive::SyncPlayer
                        } else if c == 'j' {
                            self.list_down();
                            Directive::SyncPlayer
                        } else if c == 'h' || c == 'l' {
                            self.toggle_focus();
                            Directive::Idle
                        } else if c == 'n' {
                            match self.focus {
                                Focus::Sessions => self.search(),
                                Focus::Files => self.input(),
                            }
                            Directive::Idle
                        } else if c == 'i' {
                            Directive::StartImport
                        } else if c == 'a' {
                            match self.focus {
                                Focus::Files => {
                                    self.toggle_file_import();
                                    Directive::PersistFocusedFile
                                },
                                Focus::Sessions => Directive::Idle,
                            }
                        } else if c == 'd' {
                            match self.focus {
                                Focus::Files => {
                                    self.toggle_file_ignore();
                                    Directive::PersistFocusedFile
                                },
                                Focus::Sessions => Directive::Idle,
                            }
                        } else {
                            Directive::Idle
                        }
                    },
                    Key::Enter => {
                        match self.focus {
                            Focus::Files => Directive::Preview,
                            Focus::Sessions => Directive::Idle,
                        }
                    },
                    Key::Esc => {
                        self.escape();
                        Directive::Idle
                    },
                    _ => Directive::Idle,
                }
            },
            Popup::Search => {
                match key {
                    Key::Char(c) => {
                        self.search_char(c);
                        Directive::Idle
                    },
                    Key::Backspace => {
                        self.search_del();
                        Directive::Idle
                    },
                    Key::Enter => Directive::CommitSearch,
                    Key::Esc => {
                        self.escape();
                        Directive::Idle
                    },
                    _ => Directive::Idle,
                }
            },
            Popup::Input => {
                match key {
                    Key::Char(c) => {
                        self.input_char(c);
                        Directive::Idle
                    },
                    Key::Backspace => {
                        self.input_del();
                        Directive::Idle
                    },
                    Key::Enter => {
                        self.write_note();
                        Directive::PersistFocusedFile
                    },
                    Key::Esc => {
                        self.escape();
                        Directive::Idle
                    },
                    _ => Directive::Idle,
                }
            },
            _ => {
                match key {
                    Key::Esc => {
                        self.escape();
                        Directive::Idle
                    },
                    _ => Directive::Idle,
                }
            },
        }
    }
}


/// The record a discovery event writes to the cache for a file: the
/// freshly discovered fields, never claiming an import (the cache's
/// upsert keeps an existing true flag regardless).
pub open spec fn spec_discovered_record(f: FileView) -> crate::cache::FileView {
    crate::cache::FileView {
        date: f.date,
        seconds: f.seconds,
        note: f.note,
        status: f.status,
        imported: false,
    }
}

impl State {
    /// Applies one event to the state and the cache partition, in
    /// arrival order, and names the outside work it calls for.
    ///
    /// A discovered file is recorded in the partition under its base
    /// name (an upsert: an already-true `imported` flag survives) and
    /// joins its date's session, picking up any session destination
    /// the partition already knows for that date.  A discovered
    /// session marker binds both the partition and the live session.
    pub fn handle_event(&mut self, cache: &mut crate::cache::Source, event: Event) -> (r:
        Directive)
        requires
            old(self).wf(),
            old(cache).wf(),
        ensures
            final (self).wf(),
            final (cache).wf(),
            final (cache)@.serial == old(cache)@.serial,
            event matches Event::Key(k) ==> *final (cache) == *old(cache) && r
                == spec_key_directive(old(self).spec_popup(), old(self).focus, k),
            event matches Event::File(f) ==> ({
                &&& r == Directive::PersistCache
                &&& session_views(final (self).sessions@) == spec_add_file(
                    session_views(old(self).sessions@),
                    f@,
                    if old(cache)@.session_destinations.contains_key(f@.date) {
                        Some(old(cache)@.session_destinations[f@.date])
                    } else {
                        Option::None
                    },
                )
                &&& (crate::paths::spec_basename(f@.path).len() > 0 ==> final (cache)@.files
                    == crate::cache::spec_upsert(
                    old(cache)@.files,
                    crate::paths::spec_basename(f@.path),
                    spec_discovered_record(f@),
                ))
                &&& (crate::paths::spec_basename(f@.path).len() == 0 ==> final (cache)@.files
                    == old(cache)@.files)
                &&& final (cache)@.session_destinations == old(cache)@.session_destinations
            }),
            event matches Event::Destination(d) ==> ({
                &&& r == Directive::Idle
                &&& *final (cache) == *old(cache)
                &&& group_views(final (self).dest_groups@) == spec_add_dest_groups(
                    group_views(old(self).dest_groups@),
                    d@,
                )
            }),
            event matches Event::SessionDestination { date, destination } ==> ({
                &&& r == Directive::PersistCache
                &&& final (cache)@.files == old(cache)@.files
                &&& final (cache)@.session_destinations == old(
                    cache,
                )@.session_destinations.insert(date@, destination@)
                &&& (has_session(session_views(old(self).sessions@), date@) ==> session_views(
                    final (self).sessions@,
                ) == spec_set_session_dest(
                    session_views(old(self).sessions@),
                    session_index(session_views(old(self).sessions@), date@),
                    Some(destination@),
                ))
                &&& (!has_session(session_views(old(self).sessions@), date@) ==> final (
                self).sessions@ == old(self).sessions@)
            }),
            event matches Event::Error(e) ==> r == Directive::Idle && *final (cache) == *old(
                cache,
            ) && (final (self).error matches Some(m) && m@ == e@),
            event matches Event::Tick { player_pos, progress } ==> ({
                &&& r == Directive::Idle
                &&& *final (cache) == *old(cache)
                &&& final (self).file_idx == (match player_pos {
                    Some(p) => p,
                    Option::None => old(self).file_idx,
                })
                &&& final (self).progress == (match progress {
                    Some(b) => if b.done {
                        Option::None::<Bare>
                    } else {
                        Some(b)
                    },
                    Option::None => old(self).progress,
                })
            }),
    {
        match event {
            Event::Key(k) => self.handle_key(k),
            Event::File(f) => {
                let dest = cache.get_session_destination(f.date.as_str());
                match f.name() {
                    Some(nm) => {
                        let rec = crate::cache::File {
                            date: f.date.clone(),
                            seconds: f.seconds,
                            note: match &f.note {
                                Some(n) => Some(n.clone()),
                                Option::None => Option::None,
                            },
                            status: f.status,
                            imported: false,
                        };
                        cache.set(nm.as_str(), rec);
                    },
                    Option::None => {},
                }
                self.add_file(f, dest);
                Directive::PersistCache
            },
            Event::Destination(d) => {
                self.add_destination(d);
                Directive::Idle
            },
            Event::SessionDestination { date, destination } => {
                cache.set_session_destination(date.as_str(), destination.duplicate());
                self.bind_session_destination(date.as_str(), destination);
                Directive::PersistCache
            },
            Event::Error(e) => {
                self.error(e);
                Directive::Idle
            },
            Event::Tick { player_pos, progress } => {
                self.sync(player_pos);
                self.sync_progress(progress);
                Directive::Idle
            },
        }
    }
}

} // verus!
