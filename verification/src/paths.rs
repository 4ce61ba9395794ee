//! Unix paths as text: components, file names and the `~` of a home directory.

use crate::text::{chars_of, opt_view, owned, same, string_of, views};
use vstd::prelude::*;

verus! {

/// The pieces of `s` between slashes; one more than there are slashes.
pub open spec fn segments(s: Seq<char>) -> Seq<Seq<char>>
    decreases s.len(),
{
    if s.len() == 0 {
        seq![Seq::empty()]
    } else {
        let before = segments(s.drop_last());
        if s.last() == '/' {
            before.push(Seq::empty())
        } else {
            before.drop_last().push(before.last().push(s.last()))
        }
    }
}

/// Those of `segs` that name something: neither empty nor a lone dot.
pub open spec fn named(segs: Seq<Seq<char>>) -> Seq<Seq<char>>
    decreases segs.len(),
{
    if segs.len() == 0 {
        Seq::empty()
    } else if segs.last().len() == 0 || segs.last() == seq!['.'] {
        named(segs.drop_last())
    } else {
        named(segs.drop_last()).push(segs.last())
    }
}

/// What the first segment of a path contributes: the root of an absolute
/// path, nothing for the empty path, itself otherwise.
pub open spec fn first_component(segs: Seq<Seq<char>>) -> Seq<Seq<char>> {
    if segs[0].len() > 0 {
        seq![segs[0]]
    } else if segs.len() > 1 {
        seq![seq!['/']]
    } else {
        Seq::empty()
    }
}

/// The components of a path: `/` first where it is absolute, then the names
/// along it. Repeated slashes and dots in the middle are skipped.
pub open spec fn components(s: Seq<char>) -> Seq<Seq<char>> {
    first_component(segments(s)) + named(segments(s).skip(1))
}

/// The last component, where it is a name.
pub open spec fn file_name_of(s: Seq<char>) -> Option<Seq<char>> {
    let cs = components(s);
    if cs.len() == 0 || cs.last() == seq!['/'] || cs.last() == seq!['.'] || cs.last() == seq![
        '.',
        '.',
    ] {
        None
    } else {
        Some(cs.last())
    }
}

/// The file name of a path, or the whole path where it has none.
pub open spec fn basename_of(s: Seq<char>) -> Seq<char> {
    match file_name_of(s) {
        Some(n) => n,
        None => s,
    }
}

/// `rest` below `base`: `rest` itself where it is absolute, else the two with
/// exactly one slash added where it is missing.
pub open spec fn joined(base: Seq<char>, rest: Seq<char>) -> Seq<char> {
    if rest.len() > 0 && rest[0] == '/' {
        rest
    } else if base.len() > 0 && base.last() != '/' {
        base.push('/') + rest
    } else {
        base + rest
    }
}

/// `s` with a leading `~` replaced by the home directory, where there is one.
pub open spec fn tilde_expanded(s: Seq<char>, home: Option<Seq<char>>) -> Seq<char> {
    match home {
        Some(h) => {
            if s == seq!['~'] {
                h
            } else if s.len() >= 2 && s[0] == '~' && s[1] == '/' {
                joined(h, s.skip(2))
            } else {
                s
            }
        },
        None => s,
    }
}

/// The identity of a directory: its path without one trailing slash, except
/// for the root itself.
pub open spec fn dir_key(s: Seq<char>) -> Seq<char> {
    if s.len() > 1 && s.last() == '/' {
        s.drop_last()
    } else {
        s
    }
}

/// The names of the folders strictly between `root` and `dir`; none where
/// `dir` is not below `root`.
pub open spec fn tree_path_of(root: Seq<char>, dir: Seq<char>) -> Seq<Seq<char>> {
    let r = components(root);
    let d = components(dir);
    if r.len() < d.len() && d.take(r.len() as int) == r {
        d.subrange(r.len() as int, d.len() - 1)
    } else {
        Seq::empty()
    }
}

/// The pieces of `s` between slashes.
fn split_segments(s: &str) -> (r: Vec<String>)
    ensures
        views(r@) == segments(s@),
        r.len() > 0,
{
    let cs: Vec<char> = chars_of(s);
    let mut done: Vec<String> = Vec::new();
    let mut cur: String = String::new();
    let mut i: usize = 0;
    assert(cs@.take(0) =~= Seq::empty());
    assert(views(done@).push(cur@) =~= segments(cs@.take(0)));
    while i < cs.len()
        invariant
            i <= cs.len(),
            views(done@).push(cur@) == segments(cs@.take(i as int)),
        decreases cs.len() - i,
    {
        let ghost before = segments(cs@.take(i as int));
        let ghost done0 = done@;
        let ghost cur0 = cur@;
        assert(cs@.take(i + 1).drop_last() =~= cs@.take(i as int));
        assert(cs@.take(i + 1).last() == cs@[i as int]);
        assert(before.last() == cur0);
        assert(before.drop_last() =~= views(done0));
        if cs[i] == '/' {
            done.push(cur);
            cur = String::new();
            assert(views(done@) =~= views(done0).push(cur0));
        } else {
            cur.push(cs[i]);
        }
        i = i + 1;
        assert(views(done@).push(cur@) =~= segments(cs@.take(i as int)));
    }
    assert(cs@.take(i as int) =~= s@);
    let ghost done0 = done@;
    done.push(cur);
    assert(views(done@) =~= views(done0).push(cur@));
    done
}

/// The components of a path.
pub fn path_components(s: &str) -> (r: Vec<String>)
    ensures
        views(r@) == components(s@),
{
    let segs: Vec<String> = split_segments(s);
    let ghost sv = segments(s@);
    assert(segs@[0]@ == sv[0]);
    let mut out: Vec<String> = Vec::new();
    if segs[0].as_str().unicode_len() > 0 {
        out.push(segs[0].clone());
    } else if segs.len() > 1 {
        let mut slash: String = String::new();
        slash.push('/');
        assert(slash@ =~= seq!['/']);
        out.push(slash);
    }
    assert(views(out@) =~= first_component(sv));
    let mut i: usize = 1;
    assert(sv.skip(1).take(0) =~= Seq::empty());
    assert(views(out@) =~= first_component(sv) + named(sv.skip(1).take(0)));
    while i < segs.len()
        invariant
            1 <= i <= segs.len(),
            views(segs@) == sv,
            views(out@) == first_component(sv) + named(sv.skip(1).take(i - 1)),
        decreases segs.len() - i,
    {
        let ghost out0 = out@;
        proof {
            let t = sv.skip(1).take(i as int);
            assert(t.drop_last() =~= sv.skip(1).take(i - 1));
            assert(t.last() == sv[i as int]);
            assert(segs@[i as int]@ == sv[i as int]);
            reveal_strlit(".");
            assert("."@ =~= seq!['.']);
        }
        if segs[i].as_str().unicode_len() > 0 && !same(segs[i].as_str(), ".") {
            out.push(segs[i].clone());
            assert(views(out@) =~= views(out0).push(sv[i as int]));
        }
        i = i + 1;
        assert(views(out@) =~= first_component(sv) + named(sv.skip(1).take(i - 1)));
    }
    assert(sv.skip(1).take(i - 1) =~= sv.skip(1));
    out
}

/// The last component, where it is a name.
pub fn file_name(s: &str) -> (r: Option<String>)
    ensures
        opt_view(r) == file_name_of(s@),
{
    let mut cs: Vec<String> = path_components(s);
    let ghost cv = components(s@);
    proof {
        reveal_strlit("/");
        reveal_strlit(".");
        reveal_strlit("..");
        assert("/"@ =~= seq!['/']);
        assert("."@ =~= seq!['.']);
        assert(".."@ =~= seq!['.', '.']);
        assert(views(cs@) == cv);
        if cv.len() > 0 {
            assert(cv.last() == cs@.last()@);
        }
    }
    match cs.pop() {
        None => None,
        Some(last) => {
            if same(last.as_str(), "/") || same(last.as_str(), ".") || same(last.as_str(), "..") {
                None
            } else {
                Some(last)
            }
        },
    }
}

/// The file name of a path, or the whole path where it has none.
pub fn basename(p: &str) -> (r: String)
    ensures
        r@ == basename_of(p@),
{
    match file_name(p) {
        Some(n) => n,
        None => owned(p),
    }
}

/// `rest` below `base`.
pub fn join(base: &str, rest: &str) -> (r: String)
    ensures
        r@ == joined(base@, rest@),
{
    if rest.unicode_len() > 0 && rest.get_char(0) == '/' {
        return owned(rest);
    }
    let mut out: String = owned(base);
    let n: usize = base.unicode_len();
    if n > 0 && base.get_char(n - 1) != '/' {
        out.push('/');
    }
    out.append(rest);
    out
}

/// `s` with a leading `~` replaced by the home directory, where there is one.
pub fn expand_tilde(s: &str, home: &Option<String>) -> (r: String)
    ensures
        r@ == tilde_expanded(s@, opt_view(*home)),
{
    proof {
        reveal_strlit("~");
        assert("~"@ =~= seq!['~']);
    }
    match home {
        Some(h) => {
            if same(s, "~") {
                return h.clone();
            }
            if s.unicode_len() >= 2 && s.get_char(0) == '~' && s.get_char(1) == '/' {
                let cs: Vec<char> = chars_of(s);
                let rest: String = string_of(&cs, 2, cs.len());
                assert(rest@ =~= s@.skip(2));
                return join(h.as_str(), rest.as_str());
            }
            owned(s)
        },
        None => owned(s),
    }
}

/// The identity of a directory: its path without one trailing slash, except
/// for the root itself.
pub fn normalize_dir_key(dir: &str) -> (r: String)
    ensures
        r@ == dir_key(dir@),
{
    let n: usize = dir.unicode_len();
    if n > 1 && dir.get_char(n - 1) == '/' {
        let cs: Vec<char> = chars_of(dir);
        let r: String = string_of(&cs, 0, n - 1);
        assert(r@ =~= dir@.drop_last());
        r
    } else {
        owned(dir)
    }
}

/// The names of the folders strictly between `root` and `dir`.
pub fn tree_path(root: &str, dir: &str) -> (r: Vec<String>)
    ensures
        views(r@) == tree_path_of(root@, dir@),
{
    let rc: Vec<String> = path_components(root);
    let dc: Vec<String> = path_components(dir);
    let ghost rv = components(root@);
    let ghost dv = components(dir@);
    let mut out: Vec<String> = Vec::new();
    assert(views(out@) =~= Seq::empty());
    if rc.len() >= dc.len() {
        return out;
    }
    let mut i: usize = 0;
    while i < rc.len()
        invariant
            i <= rc.len() < dc.len(),
            views(rc@) == rv,
            views(dc@) == dv,
            rv == components(root@),
            dv == components(dir@),
            views(out@) == Seq::<Seq<char>>::empty(),
            forall|k: int| 0 <= k < i ==> rv[k] == dv[k],
        decreases rc.len() - i,
    {
        assert(rc@[i as int]@ == rv[i as int]);
        assert(dc@[i as int]@ == dv[i as int]);
        if !same(rc[i].as_str(), dc[i].as_str()) {
            assert(dv.take(rv.len() as int)[i as int] != rv[i as int]);
            return out;
        }
        i = i + 1;
    }
    assert(dv.take(rv.len() as int) =~= rv);
    while i < dc.len() - 1
        invariant
            rc.len() <= i <= dc.len() - 1,
            views(dc@) == dv,
            rv.len() == rc.len(),
            views(out@) == dv.subrange(rv.len() as int, i as int),
        decreases dc.len() - i,
    {
        let ghost out0 = out@;
        assert(dc@[i as int]@ == dv[i as int]);
        out.push(dc[i].clone());
        assert(views(out@) =~= views(out0).push(dv[i as int]));
        i = i + 1;
        assert(views(out@) =~= dv.subrange(rv.len() as int, i as int));
    }
    out
}

} // verus!
