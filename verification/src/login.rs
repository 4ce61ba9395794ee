//! What is taken from the user's login environment: the shell, the search
//! path, and where the configuration file is.

use crate::paths::{expand_tilde, tilde_expanded};
use crate::text::{
    chars_of, found_at, is_blank, opt_str, opt_view, owned, starts_with, string_of, trim, trimmed,
};
use vstd::prelude::*;

verus! {

/// The shell where the environment names none.
pub const SYSTEM_SHELL: &'static str = "/bin/zsh";

/// Where the configuration file is, unless the environment says otherwise.
pub const CONFIG_FILE: &'static str = "~/.config/warden/config.toml";

/// What the login shell prints before the search path.
pub const PATH_SENTINEL_START: &'static str = "__WARDEN_PATH_START__";

/// What it prints after it.
pub const PATH_SENTINEL_END: &'static str = "__WARDEN_PATH_END__";

/// The login shell: the shell of the environment, or the system's where that
/// is unset or blank, as a login shell.
pub open spec fn login_shell_of(shell: Option<Seq<char>>) -> Seq<char> {
    match shell {
        Some(s) => if is_blank(s) {
            SYSTEM_SHELL@ + " -l"@
        } else {
            s + " -l"@
        },
        None => SYSTEM_SHELL@ + " -l"@,
    }
}

/// The login shell, given the environment's `SHELL`.
pub fn login_shell(shell: Option<&str>) -> (r: String)
    ensures
        r@ == login_shell_of(opt_str(shell)),
{
    let mut out: String = match shell {
        Some(s) => {
            if trim(s).unicode_len() == 0 {
                owned(SYSTEM_SHELL)
            } else {
                owned(s)
            }
        },
        None => owned(SYSTEM_SHELL),
    };
    out.append(" -l");
    out
}

/// `s` cut in two around the first `mark` in it.
pub open spec fn split_once(s: Seq<char>, mark: Seq<char>) -> Option<(Seq<char>, Seq<char>)>
    decreases s.len(),
{
    if starts_with(s, mark) {
        Some((Seq::empty(), s.skip(mark.len() as int)))
    } else if s.len() == 0 {
        None
    } else {
        match split_once(s.skip(1), mark) {
            Some((before, after)) => Some((seq![s[0]] + before, after)),
            None => None,
        }
    }
}

/// A cut of what follows `prefix`, as a cut of the whole.
pub open spec fn after_prefix(prefix: Seq<char>, cut: Option<(Seq<char>, Seq<char>)>) -> Option<
    (Seq<char>, Seq<char>),
> {
    match cut {
        Some((before, after)) => Some((prefix + before, after)),
        None => None,
    }
}

/// Where the first `mark` at or after `from` stands.
fn find_mark(cs: &Vec<char>, from: usize, mark: &Vec<char>) -> (r: Option<usize>)
    requires
        from <= cs.len(),
    ensures
        match r {
            Some(i) => {
                &&& from <= i
                &&& i + mark.len() <= cs.len()
                &&& split_once(cs@.skip(from as int), mark@) == Some(
                    (cs@.subrange(from as int, i as int), cs@.skip(i + mark.len())),
                )
            },
            None => split_once(cs@.skip(from as int), mark@) is None,
        },
{
    let ghost s = cs@.skip(from as int);
    let ghost m = mark@;
    let mut k: usize = from;
    assert(forall|b: Seq<char>| #[trigger] (cs@.subrange(from as int, from as int) + b) =~= b);
    while k <= cs.len()
        invariant
            from <= k <= cs.len() + 1,
            from <= cs.len(),
            m == mark@,
            s == cs@.skip(from as int),
            k <= cs.len() ==> split_once(s, m) == after_prefix(
                cs@.subrange(from as int, k as int),
                split_once(cs@.skip(k as int), m),
            ),
            k == cs.len() + 1 ==> split_once(s, m) is None,
        decreases cs.len() + 1 - k,
    {
        let ghost rest = cs@.skip(k as int);
        if found_at(cs, k, mark) {
            assert(cs@.subrange(from as int, k as int) + Seq::<char>::empty() =~= cs@.subrange(
                from as int,
                k as int,
            ));
            assert(rest.skip(m.len() as int) =~= cs@.skip(k + m.len()));
            return Some(k);
        }
        if k == cs.len() {
            return None;
        }
        proof {
            assert(rest.skip(1) =~= cs@.skip(k + 1));
            match split_once(cs@.skip(k + 1), m) {
                Some((b, _)) => {
                    assert(cs@.subrange(from as int, k as int) + (seq![rest[0]] + b)
                        =~= cs@.subrange(from as int, k + 1) + b);
                },
                None => {},
            }
        }
        k = k + 1;
    }
    None
}

/// The search path between the two sentinels, without surrounding white space.
pub open spec fn sentinel_path(output: Seq<char>) -> Option<Seq<char>> {
    match split_once(output, PATH_SENTINEL_START@) {
        Some((_, after)) => match split_once(after, PATH_SENTINEL_END@) {
            Some((inner, _)) => Some(trimmed(inner)),
            None => None,
        },
        None => None,
    }
}

/// The search path that a login shell printed between the sentinels, whatever
/// else it printed around them. `None` unless both are there.
pub fn extract_sentinel_path(output: &str) -> (r: Option<String>)
    ensures
        opt_view(r) == sentinel_path(output@),
{
    let cs: Vec<char> = chars_of(output);
    let start: Vec<char> = chars_of(PATH_SENTINEL_START);
    let end: Vec<char> = chars_of(PATH_SENTINEL_END);
    assert(cs@.skip(0) =~= output@);
    match find_mark(&cs, 0, &start) {
        Some(i) => {
            let from: usize = i + start.len();
            match find_mark(&cs, from, &end) {
                Some(j) => {
                    let inner: String = string_of(&cs, from, j);
                    Some(owned(trim(inner.as_str())))
                },
                None => None,
            }
        },
        None => None,
    }
}

/// The search path to adopt: what the login shell printed, unless it is empty
/// or missing; then the inherited one stays.
pub fn adopted_path(output: &str) -> (r: Option<String>)
    ensures
        opt_view(r) == (match sentinel_path(output@) {
            Some(p) => if p.len() > 0 {
                Some(p)
            } else {
                None
            },
            None => None,
        }),
{
    match extract_sentinel_path(output) {
        Some(p) => {
            if p.as_str().unicode_len() > 0 {
                Some(p)
            } else {
                None
            }
        },
        None => None,
    }
}

/// Where the configuration file is: where the environment says, unless that is
/// unset or empty.
pub open spec fn config_file(env: Option<Seq<char>>, home: Option<Seq<char>>) -> Seq<char> {
    match env {
        Some(p) => if p.len() > 0 {
            p
        } else {
            tilde_expanded(CONFIG_FILE@, home)
        },
        None => tilde_expanded(CONFIG_FILE@, home),
    }
}

/// Where the configuration file is, given the environment's `WARDEN_CONFIG`
/// and the home directory.
pub fn config_path(env: Option<&str>, home: &Option<String>) -> (r: String)
    ensures
        r@ == config_file(opt_str(env), opt_view(*home)),
{
    match env {
        Some(p) => {
            if p.unicode_len() > 0 {
                owned(p)
            } else {
                expand_tilde(CONFIG_FILE, home)
            }
        },
        None => expand_tilde(CONFIG_FILE, home),
    }
}

/// Whatever is printed around the sentinels, the path between them is found:
/// all that is asked is that no sentinel begins before its place.
pub proof fn law_noise_does_not_matter(before: Seq<char>, path: Seq<char>, after: Seq<char>)
    requires
        first_here(before, PATH_SENTINEL_START@, path + PATH_SENTINEL_END@ + after),
        first_here(path, PATH_SENTINEL_END@, after),
    ensures
        sentinel_path(before + PATH_SENTINEL_START@ + path + PATH_SENTINEL_END@ + after) == Some(
            trimmed(path),
        ),
{
    let rest = path + PATH_SENTINEL_END@ + after;
    lemma_split_at(before, PATH_SENTINEL_START@, rest);
    lemma_split_at(path, PATH_SENTINEL_END@, after);
    assert(before + PATH_SENTINEL_START@ + path + PATH_SENTINEL_END@ + after =~= before
        + PATH_SENTINEL_START@ + rest);
}

/// Whether, in `head`, `mark` and `tail` run together, the first `mark` is the
/// one after `head`.
pub open spec fn first_here(head: Seq<char>, mark: Seq<char>, tail: Seq<char>) -> bool {
    forall|i: int|
        0 <= i < head.len() ==> !#[trigger] starts_with((head + mark + tail).skip(i), mark)
}

proof fn lemma_split_at(head: Seq<char>, mark: Seq<char>, tail: Seq<char>)
    requires
        first_here(head, mark, tail),
    ensures
        split_once(head + mark + tail, mark) == Some((head, tail)),
    decreases head.len(),
{
    let s = head + mark + tail;
    if head.len() == 0 {
        assert(s.take(mark.len() as int) =~= mark);
        assert(s.skip(mark.len() as int) =~= tail);
        assert(head =~= Seq::empty());
    } else {
        let h = head.skip(1);
        assert(s.skip(0) =~= s);
        assert(!starts_with(s.skip(0), mark));
        assert(s.skip(1) =~= h + mark + tail);
        assert forall|i: int| 0 <= i < h.len() implies !#[trigger] starts_with(
            (h + mark + tail).skip(i),
            mark,
        ) by {
            assert((h + mark + tail).skip(i) =~= s.skip(i + 1));
            assert(!starts_with(s.skip(i + 1), mark));
        }
        lemma_split_at(h, mark, tail);
        assert(seq![s[0]] + h =~= head);
    }
}

} // verus!
