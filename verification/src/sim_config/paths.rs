//! The files that configured paths stand for.

use vstd::prelude::*;
use vstd::string::*;

use crate::assoc::{assoc, lemma_assoc_at, lemma_assoc_push};
use crate::counter::texts;
use crate::text::same_text;

verus! {

/// The files that were found for paths, so that each path is searched for once.
#[derive(Debug)]
pub struct ResolvedPaths {
    paths: Vec<String>,
    files: Vec<String>,
}

impl View for ResolvedPaths {
    type V = Map<Seq<char>, Seq<char>>;

    closed spec fn view(&self) -> Map<Seq<char>, Seq<char>> {
        assoc(texts(self.paths@), texts(self.files@))
    }
}

impl ResolvedPaths {
    /// Every path is listed once, beside its file.
    pub closed spec fn wf(&self) -> bool {
        &&& self.paths@.len() == self.files@.len()
        &&& texts(self.paths@).no_duplicates()
    }

    /// No file was found yet.
    pub fn new() -> (resolved: Self)
        ensures
            resolved.wf(),
            resolved@ == Map::<Seq<char>, Seq<char>>::empty(),
    {
        let resolved = ResolvedPaths { paths: Vec::new(), files: Vec::new() };
        assert(resolved@ =~= Map::<Seq<char>, Seq<char>>::empty());
        resolved
    }

    /// The file that was found for a path.
    pub fn get(&self, path: &str) -> (file: Option<String>)
        requires
            self.wf(),
        ensures
            match file {
                Some(f) => self@.contains_key(path@) && f@ == self@[path@],
                None => !self@.contains_key(path@),
            },
    {
        let ghost listed = texts(self.paths@);
        let mut i: usize = 0;
        while i < self.paths.len()
            invariant
                self.wf(),
                listed == texts(self.paths@),
                i <= self.paths@.len(),
                forall|j: int| 0 <= j < i ==> #[trigger] listed[j] != path@,
            decreases self.paths@.len() - i,
        {
            if same_text(self.paths[i].as_str(), path) {
                proof {
                    lemma_assoc_at(listed, texts(self.files@), i as int);
                }
                return Some(self.files[i].as_str().to_owned());
            }
            i += 1;
        }
        None
    }

    /// A file was found for a path that had none.
    pub fn insert(&mut self, path: &str, file: &str)
        requires
            old(self).wf(),
            !old(self)@.contains_key(path@),
        ensures
            final(self).wf(),
            final(self)@ == old(self)@.insert(path@, file@),
    {
        proof {
            lemma_assoc_push(texts(self.paths@), texts(self.files@), path@, file@);
        }
        self.paths.push(path.to_owned());
        self.files.push(file.to_owned());
        assert(texts(self.paths@) =~= texts(old(self).paths@).push(path@));
        assert(texts(self.files@) =~= texts(old(self).files@).push(file@));
    }
}

} // verus!
