//! Planning an import batch.
//!
//! Given a snapshot of the sessions, the plan lists every copy the
//! writer thread must perform: each file tagged for import within a
//! session that has a destination, aimed at the dated subdirectory
//! `<destination>/<session date>/<file base name>`.  The copying
//! itself — and the thread it runs on — lives outside the library;
//! it walks the plan in order, advancing a `Progress` as it goes.

use crate::paths::{file_name, join, spec_basename};
use crate::session::{FileView, Session, SessionView, Status};
use crate::state::session_views;
use vstd::prelude::*;

verus! {

broadcast use vstd::seq::group_seq_axioms;

/// One copy the writer must perform.
pub struct ImportJob {
    /// Absolute path of the source file.
    pub src_path: String,
    /// The file's base name, kept under the dated directory.
    pub file_name: String,
    /// The dated directory to copy into.
    pub dest_dir: String,
}

/// The mathematical shape of a copy job.
pub ghost struct ImportJobView {
    pub src_path: Seq<char>,
    pub file_name: Seq<char>,
    pub dest_dir: Seq<char>,
}

impl View for ImportJob {
    type V = ImportJobView;

    open spec fn view(&self) -> ImportJobView {
        ImportJobView {
            src_path: self.src_path@,
            file_name: self.file_name@,
            dest_dir: self.dest_dir@,
        }
    }
}

/// The views of a job vector, in order.
pub open spec fn job_views(s: Seq<ImportJob>) -> Seq<ImportJobView> {
    s.map_values(|j: ImportJob| j@)
}

/// The jobs of one file run: each file tagged `Import` whose path
/// has a base name, in session order.
pub open spec fn spec_file_jobs(fs: Seq<FileView>, dest_dir: Seq<char>) -> Seq<ImportJobView>
    decreases fs,
{
    if fs.len() == 0 {
        Seq::empty()
    } else {
        (if fs[0].status == Some(Status::Import) && spec_basename(fs[0].path).len() > 0 {
            seq![
                ImportJobView {
                    src_path: fs[0].path,
                    file_name: spec_basename(fs[0].path),
                    dest_dir: dest_dir,
                },
            ]
        } else {
            Seq::empty()
        }) + spec_file_jobs(fs.subrange(1, fs.len() as int), dest_dir)
    }
}

/// The jobs of one session: nothing without a destination, else its
/// tagged files aimed at `<destination>/<date>`.
pub open spec fn spec_session_jobs(s: SessionView) -> Seq<ImportJobView> {
    match s.destination {
        Option::None => Seq::empty(),
        Some(d) => spec_file_jobs(s.files, d.abs + "/"@ + s.date),
    }
}

/// The whole plan: every session's jobs, in session order.
pub open spec fn spec_plan(ss: Seq<SessionView>) -> Seq<ImportJobView>
    decreases ss,
{
    if ss.len() == 0 {
        Seq::empty()
    } else {
        spec_session_jobs(ss[0]) + spec_plan(ss.subrange(1, ss.len() as int))
    }
}

proof fn lemma_plan_drop(ss: Seq<SessionView>, i: int)
    requires
        0 <= i < ss.len(),
    ensures
        spec_plan(ss.subrange(i, ss.len() as int)) == spec_session_jobs(ss[i]) + spec_plan(
            ss.subrange(i + 1, ss.len() as int),
        ),
{
    let t = ss.subrange(i, ss.len() as int);
    assert(t[0] == ss[i]);
    assert(t.subrange(1, t.len() as int) =~= ss.subrange(i + 1, ss.len() as int));
}

proof fn lemma_file_jobs_drop(fs: Seq<FileView>, dest_dir: Seq<char>, i: int)
    requires
        0 <= i < fs.len(),
    ensures
        spec_file_jobs(fs.subrange(i, fs.len() as int), dest_dir) == (if fs[i].status == Some(
            Status::Import,
        ) && spec_basename(fs[i].path).len() > 0 {
            seq![
                ImportJobView {
                    src_path: fs[i].path,
                    file_name: spec_basename(fs[i].path),
                    dest_dir: dest_dir,
                },
            ]
        } else {
            Seq::empty()
        }) + spec_file_jobs(fs.subrange(i + 1, fs.len() as int), dest_dir),
{
    let t = fs.subrange(i, fs.len() as int);
    assert(t[0] == fs[i]);
    assert(t.subrange(1, t.len() as int) =~= fs.subrange(i + 1, fs.len() as int));
}

/// Plans the import batch for a snapshot of the sessions
/// (`spec_plan`).
pub fn plan_import(sessions: &Vec<Session>) -> (r: Vec<ImportJob>)
    ensures
        job_views(r@) == spec_plan(session_views(sessions@)),
{
    let ghost vs = session_views(sessions@);
    let mut out: Vec<ImportJob> = Vec::new();
    let n = sessions.len();
    let mut si: usize = 0;
    proof {
        assert(vs.subrange(0, n as int) =~= vs);
        assert(job_views(out@) =~= Seq::<ImportJobView>::empty());
        assert(Seq::<ImportJobView>::empty() + spec_plan(vs) =~= spec_plan(vs));
    }
    while si < n
        invariant
            si <= n,
            n == sessions@.len(),
            vs == session_views(sessions@),
            job_views(out@) + spec_plan(vs.subrange(si as int, n as int)) == spec_plan(vs),
        decreases n - si,
    {
        proof {
            lemma_plan_drop(vs, si as int);
            assert(vs[si as int] == sessions@[si as int]@);
        }
        let sess = &sessions[si];
        match &sess.destination {
            Some(dest) => {
                let dest_dir = join(dest.abs.as_str(), sess.date.as_str());
                let ghost dd = dest_dir@;
                proof {
                    assert(dd == vs[si as int].destination->0.abs + "/"@ + vs[si as int].date);
                }
                let m = sess.files.len();
                let mut fi: usize = 0;
                proof {
                    assert(vs[si as int].files.subrange(0, m as int) =~= vs[si as int].files);
                    assert(spec_session_jobs(vs[si as int]) == spec_file_jobs(
                        vs[si as int].files,
                        dd,
                    ));
                    assert(job_views(out@) + spec_file_jobs(
                        vs[si as int].files.subrange(0, m as int),
                        dd,
                    ) + spec_plan(vs.subrange(si as int + 1, n as int)) =~= job_views(out@)
                        + spec_plan(vs.subrange(si as int, n as int)));
                }
                while fi < m
                    invariant
                        fi <= m,
                        si < n,
                        n == sessions@.len(),
                        vs == session_views(sessions@),
                        m == sessions@[si as int].files@.len(),
                        vs[si as int] == sessions@[si as int]@,
                        *sess == sessions@[si as int],
                        dd == vs[si as int].destination->0.abs + "/"@ + vs[si as int].date,
                        vs[si as int].destination is Some,
                        dest_dir@ == dd,
                        job_views(out@) + spec_file_jobs(
                            vs[si as int].files.subrange(fi as int, m as int),
                            dd,
                        ) + spec_plan(vs.subrange(si as int + 1, n as int)) == spec_plan(vs),
                    decreases m - fi,
                {
                    proof {
                        lemma_file_jobs_drop(vs[si as int].files, dd, fi as int);
                        assert(vs[si as int].files[fi as int] == sessions@[si as int].files@[fi as int]@);
                    }
                    let f = &sess.files[fi];
                    let take = match f.status {
                        Some(Status::Import) => true,
                        _ => false,
                    };
                    if take {
                        match file_name(f.path.as_str()) {
                            Some(base) => {
                                let job = ImportJob {
                                    src_path: f.path.clone(),
                                    file_name: base,
                                    dest_dir: dest_dir.clone(),
                                };
                                let ghost jv = job@;
                                let ghost ov = job_views(out@);
                                out.push(job);
                                proof {
                                    assert(job_views(out@) =~= ov.push(jv));
                                    assert(jv == ImportJobView {
                                        src_path: vs[si as int].files[fi as int].path,
                                        file_name: spec_basename(
                                            vs[si as int].files[fi as int].path,
                                        ),
                                        dest_dir: dd,
                                    });
                                    assert(job_views(out@) + spec_file_jobs(
                                        vs[si as int].files.subrange(fi as int + 1, m as int),
                                        dd,
                                    ) + spec_plan(vs.subrange(si as int + 1, n as int)) =~= (ov
                                        + spec_file_jobs(
                                        vs[si as int].files.subrange(fi as int, m as int),
                                        dd,
                                    )) + spec_plan(vs.subrange(si as int + 1, n as int)));
                                }
                            },
                            Option::None => {
                                proof {
                                    assert(spec_basename(
                                        vs[si as int].files[fi as int].path,
                                    ).len() == 0);
                                    assert(spec_file_jobs(
                                        vs[si as int].files.subrange(fi as int, m as int),
                                        dd,
                                    ) =~= spec_file_jobs(
                                        vs[si as int].files.subrange(fi as int + 1, m as int),
                                        dd,
                                    ));
                                }
                            },
                        }
                    } else {
                        proof {
                            assert(vs[si as int].files[fi as int].status != Some(Status::Import));
                            assert(spec_file_jobs(
                                vs[si as int].files.subrange(fi as int, m as int),
                                dd,
                            ) =~= spec_file_jobs(
                                vs[si as int].files.subrange(fi as int + 1, m as int),
                                dd,
                            ));
                        }
                    }
                    fi = fi + 1;
                }
                proof {
                    assert(vs[si as int].files.subrange(m as int, m as int)
                        =~= Seq::<FileView>::empty());
                    assert(job_views(out@) + Seq::<ImportJobView>::empty() =~= job_views(out@));
                }
            },
            Option::None => {
                proof {
                    assert(spec_session_jobs(vs[si as int]) =~= Seq::<ImportJobView>::empty());
                    assert(job_views(out@) + Seq::<ImportJobView>::empty() =~= job_views(out@));
                }
            },
        }
        si = si + 1;
    }
    proof {
        assert(vs.subrange(n as int, n as int) =~= Seq::<SessionView>::empty());
        assert(job_views(out@) + Seq::<ImportJobView>::empty() =~= job_views(out@));
    }
    out
}

} // verus!
