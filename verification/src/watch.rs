//! What is watched of a configuration file, and which events concern it.

use crate::paths::{components, file_name, file_name_of, path_components};
use crate::text::{opt_view, owned, same, same_opt, views};
use vstd::prelude::*;

verus! {

/// The names along a path, put together again.
pub open spec fn path_of(cs: Seq<Seq<char>>) -> Seq<char>
    decreases cs.len(),
{
    if cs.len() == 0 {
        Seq::empty()
    } else {
        let before = path_of(cs.drop_last());
        if before.len() == 0 || before == "/"@ {
            before + cs.last()
        } else {
            before + "/"@ + cs.last()
        }
    }
}

/// The directory a file is in: the working directory for a bare name and for
/// a path without a parent.
pub open spec fn directory_of(path: Seq<char>) -> Seq<char> {
    let cs = components(path);
    if cs.len() < 2 {
        "."@
    } else {
        path_of(cs.drop_last())
    }
}

/// Put together the first `n` names along a path.
fn build_path(cs: &Vec<String>, n: usize) -> (r: String)
    requires
        n <= cs.len(),
    ensures
        r@ == path_of(views(cs@).take(n as int)),
{
    let ghost v = views(cs@);
    let mut out: String = String::new();
    let mut i: usize = 0;
    assert(out@ =~= path_of(v.take(0)));
    while i < n
        invariant
            i <= n <= cs.len(),
            v == views(cs@),
            out@ == path_of(v.take(i as int)),
        decreases n - i,
    {
        assert(v.take(i + 1).drop_last() =~= v.take(i as int));
        assert(v.take(i + 1).last() == cs@[i as int]@);
        if out.as_str().unicode_len() > 0 && !same(out.as_str(), "/") {
            out.append("/");
        }
        out.append(cs[i].as_str());
        i = i + 1;
    }
    out
}

/// A watch on a configuration file: the directory that is watched, and the
/// name that an event there must bear.
#[derive(Debug)]
pub struct Watcher {
    dir: String,
    name: Option<String>,
}

impl Watcher {
    /// The directory that is watched.
    pub closed spec fn watched(&self) -> Seq<char> {
        self.dir@
    }

    /// The name that an event must bear.
    pub closed spec fn wanted(&self) -> Option<Seq<char>> {
        opt_view(self.name)
    }

    /// Watch the file at `path`. Its directory is what is watched, so that a
    /// file renamed over it is seen too.
    pub fn new(path: &str) -> (r: Watcher)
        ensures
            r.watched() == directory_of(path@),
            r.wanted() == file_name_of(path@),
    {
        let cs: Vec<String> = path_components(path);
        let n: usize = cs.len();
        assert(views(cs@).len() == n);
        let dir: String = if n < 2 {
            owned(".")
        } else {
            assert(views(cs@).take(n - 1) =~= views(cs@).drop_last());
            build_path(&cs, n - 1)
        };
        Watcher { dir, name: file_name(path) }
    }

    /// The directory to watch.
    pub fn dir(&self) -> (r: String)
        ensures
            r@ == self.watched(),
    {
        self.dir.clone()
    }

    /// Whether an event on `paths` concerns the file. Names are compared, not
    /// whole paths: the same directory may be reported under another path.
    pub fn concerns(&self, paths: &Vec<String>) -> (r: bool)
        ensures
            r == exists|i: int|
                0 <= i < paths.len() && file_name_of((#[trigger] paths@[i])@) == self.wanted(),
    {
        let mut i: usize = 0;
        while i < paths.len()
            invariant
                i <= paths.len(),
                forall|k: int| 0 <= k < i ==> file_name_of((#[trigger] paths@[k])@) != self.wanted(),
            decreases paths.len() - i,
        {
            let n: Option<String> = file_name(paths[i].as_str());
            if same_opt(&n, &self.name) {
                assert(file_name_of(paths@[i as int]@) == self.wanted());
                return true;
            }
            i = i + 1;
        }
        false
    }
}

} // verus!
