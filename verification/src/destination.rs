//! A candidate destination directory under the destination root.

use crate::paths::{file_name, rel_to, spec_basename, spec_rel_to};
use vstd::prelude::*;

verus! {

/// A directory an operator can bind a session to: its absolute path,
/// its path relative to the destination root, and its base name.
pub struct Destination {
    pub abs: String,
    pub rel: String,
    pub base: String,
}

/// The mathematical shape of a destination.
pub ghost struct DestinationView {
    pub abs: Seq<char>,
    pub rel: Seq<char>,
    pub base: Seq<char>,
}

impl View for Destination {
    type V = DestinationView;

    open spec fn view(&self) -> DestinationView {
        DestinationView { abs: self.abs@, rel: self.rel@, base: self.base@ }
    }
}

impl Destination {
    /// Describes `abs_path` relative to the destination root `root`.
    /// `None` when the path does not lie under the root or has no
    /// base name.
    pub fn new(abs_path: &str, root: &str) -> (r: Option<Self>)
        ensures
            r is Some <==> spec_rel_to(abs_path@, root@) is Some && spec_basename(
                abs_path@,
            ).len() > 0,
            r matches Some(d) ==> d.abs@ == abs_path@ && Some(d.rel@) == spec_rel_to(
                abs_path@,
                root@,
            ) && d.base@ == spec_basename(abs_path@),
    {
        let rel = match rel_to(abs_path, root) {
            Some(rel) => rel,
            Option::None => {
                return Option::None;
            },
        };
        let base = match file_name(abs_path) {
            Some(base) => base,
            Option::None => {
                return Option::None;
            },
        };
        Some(Destination { abs: abs_path.to_owned(), rel, base })
    }

    /// A copy with the same view.
    pub fn duplicate(&self) -> (r: Self)
        ensures
            r@ == self@,
    {
        Destination { abs: self.abs.clone(), rel: self.rel.clone(), base: self.base.clone() }
    }
}

} // verus!
