//! What holds of every label and of every set of window specs.

use crate::model::{ConfigView, WindowView};
use crate::plan::{
    configured, dashed, detach_token, escaped, free_suffix, is_label_char, is_token_char, label_for,
    label_of, labelled, lemma_free_suffix, ops_of, reopen_target, sanitized, spec_of, suffixed,
    token_code, undashed_end, undashed_start, HOME_LABEL, WindowOpView,
};
use crate::resolve_laws::distinct_titles;
use crate::text::{decimal, lemma_decimal_injective, lemma_decimal_len};
use crate::reconcile::ReconciliationView;
use vstd::prelude::*;

verus! {

/// Whether a text can be the label of a window.
pub open spec fn is_label(s: Seq<char>) -> bool {
    &&& s.len() > 0
    &&& forall|i: int| 0 <= i < s.len() ==> is_label_char(#[trigger] s[i])
}

proof fn lemma_undashed_start(s: Seq<char>)
    ensures
        undashed_start(s).len() <= s.len(),
        undashed_start(s) == s.skip(s.len() - undashed_start(s).len()),
        undashed_start(s).len() > 0 ==> undashed_start(s)[0] != '-',
    decreases s.len(),
{
    if s.len() > 0 && s[0] == '-' {
        lemma_undashed_start(s.skip(1));
        let n = undashed_start(s).len();
        assert(s.skip(1).skip(s.skip(1).len() - n) =~= s.skip(s.len() - n));
    } else {
        assert(s.skip(0) =~= s);
    }
}

proof fn lemma_undashed_end(s: Seq<char>)
    ensures
        undashed_end(s).len() <= s.len(),
        undashed_end(s) == s.take(undashed_end(s).len() as int),
        undashed_end(s).len() > 0 ==> undashed_end(s).last() != '-',
    decreases s.len(),
{
    if s.len() > 0 && s.last() == '-' {
        lemma_undashed_end(s.drop_last());
        let n = undashed_end(s).len();
        assert(s.drop_last().take(n as int) =~= s.take(n as int));
    } else {
        assert(s.take(s.len() as int) =~= s);
    }
}

/// A sanitized title is a label, and has a dash at neither end.
pub proof fn law_sanitized_is_a_label(name: Seq<char>)
    ensures
        is_label(sanitized(name)),
        sanitized(name)[0] != '-',
        sanitized(name).last() != '-',
{
    let d = dashed(name);
    let a = undashed_start(d);
    let b = undashed_end(a);
    lemma_undashed_start(d);
    lemma_undashed_end(a);
    reveal_strlit("window");
    if b.len() > 0 {
        assert(b[0] == a[0]);
        assert forall|i: int| 0 <= i < b.len() implies is_label_char(#[trigger] b[i]) by {
            assert(b[i] == a[i]);
            assert(a[i] == d[d.len() - a.len() + i]);
        }
    }
}

/// A title that is a label already, without a dash at either end, is its own
/// label.
pub proof fn law_sanitized_keeps_labels(name: Seq<char>)
    requires
        is_label(name),
        name[0] != '-',
        name.last() != '-',
    ensures
        sanitized(name) == name,
{
    assert(dashed(name) =~= name);
    assert(undashed_start(name) == name);
    assert(undashed_end(name) == name);
}

/// The label for a title is a label, and is never one of those taken.
pub proof fn law_label_is_free(name: Seq<char>, taken: Seq<Seq<char>>)
    ensures
        is_label(label_for(name, taken)),
        !taken.contains(label_for(name, taken)),
{
    law_sanitized_is_a_label(name);
    let base = sanitized(name);
    if taken.contains(base) {
        lemma_free_suffix(base, taken, 2, taken.len());
        let n = free_suffix(base, taken, 2, taken.len());
        lemma_decimal_len(n);
        let l = suffixed(base, n);
        assert forall|i: int| 0 <= i < l.len() implies is_label_char(#[trigger] l[i]) by {
            if i < base.len() {
                assert(l[i] == base[i]);
            } else if i > base.len() {
                assert(l[i] == decimal(n)[i - base.len() - 1]);
            }
        }
    }
}

/// The suffix of a label is the smallest that is free: every smaller one is
/// taken, and so is the title without one.
pub proof fn law_label_suffix_is_the_smallest(name: Seq<char>, taken: Seq<Seq<char>>, n: nat)
    requires
        n >= 2,
        label_for(name, taken) == suffixed(sanitized(name), n),
    ensures
        taken.contains(sanitized(name)),
        forall|m: nat| 2 <= m < n ==> taken.contains(#[trigger] suffixed(sanitized(name), m)),
{
    let base = sanitized(name);
    assert(suffixed(base, n).len() > base.len());
    lemma_free_suffix(base, taken, 2, taken.len());
    let k = free_suffix(base, taken, 2, taken.len());
    assert forall|m: nat| 2 <= m < n implies taken.contains(#[trigger] suffixed(base, m)) by {
        if m >= k {
            let len = base.len() + 1;
            assert(suffixed(base, k).skip(len as int) =~= decimal(k));
            assert(suffixed(base, n).skip(len as int) =~= decimal(n));
            lemma_decimal_injective(k, n);
        }
    }
}

/// Whether live labels are kept apart: each is taken, and no two titles share
/// one.
pub open spec fn live_apart(
    live: Seq<(Seq<char>, Seq<char>)>,
    taken: Seq<Seq<char>>,
) -> bool {
    &&& forall|t: Seq<char>|
        #![trigger label_of(live, t)]
        label_of(live, t) matches Some(l) ==> taken.contains(l)
    &&& forall|t: Seq<char>, u: Seq<char>|
        #![trigger label_of(live, t), label_of(live, u)]
        t != u && label_of(live, t) is Some ==> label_of(live, t) != label_of(live, u)
}

/// Labelling windows gives each of them a label of its own.
pub proof fn lemma_labelled(
    windows: Seq<WindowView>,
    live: Seq<(Seq<char>, Seq<char>)>,
    taken: Seq<Seq<char>>,
)
    requires
        distinct_titles(windows),
        live_apart(live, taken),
    ensures
        ({
            let r = labelled(windows, live, taken);
            &&& r.specs.len() == windows.len()
            &&& forall|i: int|
                0 <= i < windows.len() ==> {
                    &&& (#[trigger] r.specs[i]).title == windows[i].title
                    &&& r.specs[i] == spec_of(windows[i], r.specs[i].label)
                    &&& r.taken.contains(r.specs[i].label)
                    &&& label_of(live, windows[i].title) is Some ==> Some(r.specs[i].label)
                        == label_of(live, windows[i].title)
                    &&& label_of(live, windows[i].title) is None ==> !taken.contains(
                        r.specs[i].label,
                    )
                }
            &&& forall|i: int, j: int|
                0 <= i < j < r.specs.len() ==> (#[trigger] r.specs[i]).label != (
                #[trigger] r.specs[j]).label
            &&& forall|l: Seq<char>| taken.contains(l) ==> #[trigger] r.taken.contains(l)
        }),
    decreases windows.len(),
{
    if windows.len() > 0 {
        let rest = windows.drop_last();
        let w = windows.last();
        assert forall|i: int, j: int| 0 <= i < j < rest.len() implies (#[trigger] rest[i]).title
            != (#[trigger] rest[j]).title by {
            assert(rest[i] == windows[i] && rest[j] == windows[j]);
        }
        lemma_labelled(rest, live, taken);
        let p = labelled(rest, live, taken);
        let r = labelled(windows, live, taken);
        assert forall|i: int| 0 <= i < rest.len() implies (#[trigger] rest[i]).title != w.title by {
            assert(rest[i] == windows[i]);
            assert(windows[windows.len() - 1] == w);
        }
        match label_of(live, w.title) {
            Some(l) => {
                assert(taken.contains(l));
                assert(p.taken.contains(l));
                assert forall|i: int, j: int| 0 <= i < j < r.specs.len() implies (
                #[trigger] r.specs[i]).label != (#[trigger] r.specs[j]).label by {
                    assert(r.specs[i] == p.specs[i]);
                    if j < p.specs.len() {
                        assert(r.specs[j] == p.specs[j]);
                    } else {
                        assert(rest[i].title != w.title);
                        if label_of(live, rest[i].title) is Some {
                            assert(label_of(live, rest[i].title) != label_of(live, w.title));
                        }
                    }
                }
            },
            None => {
                let l = label_for(w.title, p.taken);
                law_label_is_free(w.title, p.taken);
                assert(r.taken[p.taken.len() as int] == l);
                assert forall|x: Seq<char>| p.taken.contains(x) implies #[trigger] r.taken.contains(
                    x,
                ) by {
                    let k = choose|k: int| 0 <= k < p.taken.len() && p.taken[k] == x;
                    assert(r.taken[k] == x);
                }
                assert(!taken.contains(l)) by {
                    if taken.contains(l) {
                        assert(p.taken.contains(l));
                    }
                }
                assert forall|i: int, j: int| 0 <= i < j < r.specs.len() implies (
                #[trigger] r.specs[i]).label != (#[trigger] r.specs[j]).label by {
                    assert(r.specs[i] == p.specs[i]);
                    if j < p.specs.len() {
                        assert(r.specs[j] == p.specs[j]);
                    }
                }
            },
        }
        assert forall|i: int| 0 <= i < windows.len() implies {
            &&& (#[trigger] r.specs[i]).title == windows[i].title
            &&& r.specs[i] == spec_of(windows[i], r.specs[i].label)
            &&& r.taken.contains(r.specs[i].label)
            &&& label_of(live, windows[i].title) is Some ==> Some(r.specs[i].label) == label_of(
                live,
                windows[i].title,
            )
            &&& label_of(live, windows[i].title) is None ==> !taken.contains(r.specs[i].label)
        } by {
            if i < rest.len() {
                assert(r.specs[i] == p.specs[i]);
                assert(rest[i] == windows[i]);
            }
        }
    }
}

/// The specs of a configuration are its windows in order, each under a label
/// of its own: an open window under the one it has live, every other under one
/// that neither a live window nor the home surface has.
pub proof fn law_labels_are_unique(
    c: ConfigView,
    live: Seq<(Seq<char>, Seq<char>)>,
    live_labels: Seq<Seq<char>>,
)
    requires
        distinct_titles(c.windows),
        live_apart(live, live_labels),
    ensures
        ({
            let specs = configured(c, live, live_labels);
            &&& specs.len() == c.windows.len()
            &&& forall|i: int|
                0 <= i < specs.len() ==> {
                    &&& specs[i] == spec_of(c.windows[i], (#[trigger] specs[i]).label)
                    &&& label_of(live, c.windows[i].title) is Some ==> Some(specs[i].label)
                        == label_of(live, c.windows[i].title)
                    &&& label_of(live, c.windows[i].title) is None ==> {
                        &&& !live_labels.contains(specs[i].label)
                        &&& specs[i].label != HOME_LABEL@
                    }
                }
            &&& forall|i: int, j: int|
                0 <= i < j < specs.len() ==> (#[trigger] specs[i]).label != (
                #[trigger] specs[j]).label
        }),
{
    let taken = live_labels.push(HOME_LABEL@);
    assert forall|l: Seq<char>| live_labels.contains(l) implies taken.contains(l) by {
        let k = choose|k: int| 0 <= k < live_labels.len() && live_labels[k] == l;
        assert(taken[k] == l);
    }
    assert(taken[live_labels.len() as int] == HOME_LABEL@);
    lemma_labelled(c.windows, live, taken);
    let specs = configured(c, live, live_labels);
    assert forall|i: int| 0 <= i < specs.len() implies {
        &&& specs[i] == spec_of(c.windows[i], (#[trigger] specs[i]).label)
        &&& label_of(live, c.windows[i].title) is Some ==> Some(specs[i].label) == label_of(
            live,
            c.windows[i].title,
        )
        &&& label_of(live, c.windows[i].title) is None ==> {
            &&& !live_labels.contains(specs[i].label)
            &&& specs[i].label != HOME_LABEL@
        }
    } by {
        assert(taken.contains(HOME_LABEL@));
    }
}

/// What is reopened was closed, is configured and is not open, and everything
/// closed after it is no longer configured or is open again.
pub proof fn law_reopens_the_most_recent(
    closed: Seq<Seq<char>>,
    configured: Seq<Seq<char>>,
    open: Seq<Seq<char>>,
)
    ensures
        match reopen_target(closed, configured, open) {
            Some(l) => exists|i: int|
                {
                    &&& 0 <= i < closed.len()
                    &&& #[trigger] closed[i] == l
                    &&& configured.contains(l) && !open.contains(l)
                    &&& forall|j: int|
                        i < j < closed.len() ==> !(configured.contains(#[trigger] closed[j])
                            && !open.contains(closed[j]))
                },
            None => forall|j: int|
                0 <= j < closed.len() ==> !(configured.contains(#[trigger] closed[j])
                    && !open.contains(closed[j])),
        },
    decreases closed.len(),
{
    if closed.len() > 0 {
        let last = closed.last();
        let n = closed.len() - 1;
        if configured.contains(last) && !open.contains(last) {
            assert(closed[n] == last);
        } else {
            let rest = closed.drop_last();
            law_reopens_the_most_recent(rest, configured, open);
            match reopen_target(rest, configured, open) {
                Some(l) => {
                    let i = choose|i: int|
                        {
                            &&& 0 <= i < rest.len()
                            &&& #[trigger] rest[i] == l
                            &&& configured.contains(l) && !open.contains(l)
                            &&& forall|j: int|
                                i < j < rest.len() ==> !(configured.contains(#[trigger] rest[j])
                                    && !open.contains(rest[j]))
                        };
                    assert(closed[i] == l);
                    assert forall|j: int| i < j < closed.len() implies !(configured.contains(
                        #[trigger] closed[j],
                    ) && !open.contains(closed[j])) by {
                        if j < n {
                            assert(rest[j] == closed[j]);
                        }
                    }
                },
                None => {
                    assert forall|j: int| 0 <= j < closed.len() implies !(configured.contains(
                        #[trigger] closed[j],
                    ) && !open.contains(closed[j])) by {
                        if j < n {
                            assert(rest[j] == closed[j]);
                        }
                    }
                },
            }
        }
    }
}

/// One half of a token holds nothing but what a label may, and no colon.
proof fn lemma_escaped_chars(s: Seq<char>)
    ensures
        forall|i: int|
            0 <= i < escaped(s).len() ==> is_label_char(#[trigger] escaped(s)[i]) && escaped(s)[i]
                != ':',
    decreases s.len(),
{
    if s.len() > 0 {
        let rest = escaped(s.drop_last());
        lemma_escaped_chars(s.drop_last());
        lemma_decimal_len(s.last() as nat);
        let code = token_code(s.last());
        assert forall|i: int| 0 <= i < escaped(s).len() implies is_label_char(
            #[trigger] escaped(s)[i],
        ) && escaped(s)[i] != ':' by {
            if i < rest.len() {
                assert(escaped(s)[i] == rest[i]);
            } else {
                let k = i - rest.len();
                assert(escaped(s)[i] == code[k]);
                if !is_token_char(s.last()) && 0 < k < code.len() - 1 {
                    assert(code[k] == decimal(s.last() as nat)[k - 1]);
                }
            }
        }
    }
}

/// The number at the end of a text is where the digits before its last
/// underscore end.
proof fn lemma_number_ends(p: Seq<char>, a: nat, q: Seq<char>, b: nat)
    requires
        p + (seq!['_'] + decimal(a) + seq!['_']) == q + (seq!['_'] + decimal(b) + seq!['_']),
    ensures
        a == b,
        p == q,
{
    let s = p + (seq!['_'] + decimal(a) + seq!['_']);
    let t = q + (seq!['_'] + decimal(b) + seq!['_']);
    lemma_decimal_len(a);
    lemma_decimal_len(b);
    let m = decimal(a).len() as int;
    let n = decimal(b).len() as int;
    let i = p.len() as int;
    let j = q.len() as int;
    assert(s.len() == i + m + 2);
    assert(t.len() == j + n + 2);
    if m < n {
        assert(s[i] == '_');
        assert(t[i] == decimal(b)[i - j - 1]);
    } else if n < m {
        assert(t[j] == '_');
        assert(s[j] == decimal(a)[j - i - 1]);
    }
    assert(s.take(i) =~= p);
    assert(t.take(j) =~= q);
    assert(s.subrange(i + 1, i + 1 + m) =~= decimal(a));
    assert(t.subrange(j + 1, j + 1 + n) =~= decimal(b));
    lemma_decimal_injective(a, b);
}

/// Different characters have different numbers.
proof fn lemma_char_numbers(x: char, y: char)
    requires
        x as nat == y as nat,
    ensures
        x == y,
{
}

/// Different texts are different as halves of a token.
proof fn lemma_escaped_injective(a: Seq<char>, b: Seq<char>)
    requires
        escaped(a) == escaped(b),
    ensures
        a == b,
    decreases a.len(),
{
    if a.len() == 0 || b.len() == 0 {
        assert(a =~= b);
    } else {
        let p = escaped(a.drop_last());
        let q = escaped(b.drop_last());
        let x = a.last();
        let y = b.last();
        assert((p + token_code(x)).last() == token_code(x).last());
        assert((q + token_code(y)).last() == token_code(y).last());
        if is_token_char(x) {
            assert(is_token_char(y));
            assert((p + token_code(x)).drop_last() =~= p);
            assert((q + token_code(y)).drop_last() =~= q);
        } else {
            assert(!is_token_char(y));
            lemma_number_ends(p, x as nat, q, y as nat);
            lemma_char_numbers(x, y);
        }
        lemma_escaped_injective(a.drop_last(), b.drop_last());
        assert(a =~= a.drop_last().push(x));
        assert(b =~= b.drop_last().push(y));
    }
}

/// The token of a popped-out tab can be a label, whatever the label of its
/// window and the tab's identity hold.
pub proof fn law_detach_token_is_a_label(origin: Seq<char>, tab: Seq<char>)
    ensures
        is_label(detach_token(origin, tab)),
{
    let t = detach_token(origin, tab);
    let o = escaped(origin);
    lemma_escaped_chars(origin);
    lemma_escaped_chars(tab);
    assert forall|i: int| 0 <= i < t.len() implies is_label_char(#[trigger] t[i]) by {
        if i < o.len() {
            assert(t[i] == o[i]);
        } else if i > o.len() {
            assert(t[i] == escaped(tab)[i - o.len() - 1]);
        }
    }
}

/// No two tabs share a token: where the tokens are alike, so are the windows
/// that the tabs came from and the tabs' identities.
pub proof fn law_detach_tokens_are_distinct(
    o: Seq<char>,
    a: Seq<char>,
    p: Seq<char>,
    b: Seq<char>,
)
    requires
        o != p || a != b,
    ensures
        detach_token(o, a) != detach_token(p, b),
{
    let s = detach_token(o, a);
    let t = detach_token(p, b);
    if s == t {
        let m = escaped(o).len() as int;
        let n = escaped(p).len() as int;
        lemma_escaped_chars(o);
        lemma_escaped_chars(p);
        assert(s[m] == ':' && t[n] == ':');
        if m < n {
            assert(t[m] == escaped(p)[m]);
        } else if n < m {
            assert(s[n] == escaped(o)[n]);
        }
        assert(s.take(m) =~= escaped(o));
        assert(t.take(n) =~= escaped(p));
        assert(s.skip(m + 1) =~= escaped(a));
        assert(t.skip(n + 1) =~= escaped(b));
        lemma_escaped_injective(o, p);
        lemma_escaped_injective(a, b);
    }
}

/// Sanitizing replaces each character that a label cannot have by a dash, and
/// takes none away between two that it can.
pub proof fn law_sanitizing_replaces_one_for_one(name: Seq<char>, k: int)
    requires
        0 <= k < name.len(),
        is_label_char(name[0]) && name[0] != '-',
        is_label_char(name.last()) && name.last() != '-',
    ensures
        sanitized(name).len() == name.len(),
        is_label_char(name[k]) ==> sanitized(name)[k] == name[k],
        !is_label_char(name[k]) ==> sanitized(name)[k] == '-',
{
    let d = dashed(name);
    assert(d[0] == name[0]);
    assert(d.last() == name.last());
    assert(undashed_start(d) == d);
    assert(undashed_end(d) == d);
}

/// Dashes at the ends of a title make no difference to its label.
pub proof fn law_outer_dashes_do_not_matter(name: Seq<char>)
    ensures
        sanitized(seq!['-'] + name) == sanitized(name),
        sanitized(seq![' '] + name) == sanitized(name),
{
    let a = seq!['-'] + name;
    let b = seq![' '] + name;
    assert(dashed(a) =~= seq!['-'] + dashed(name));
    assert(dashed(b) =~= seq!['-'] + dashed(name));
    assert((seq!['-'] + dashed(name)).skip(1) =~= dashed(name));
}

/// A window that a reload opens gets a label that no live window and not the
/// home surface has, and no two that it opens share one.
pub proof fn law_opened_windows_have_labels_of_their_own(
    recon: ReconciliationView,
    new: ConfigView,
    names: Seq<(Seq<char>, Seq<char>)>,
    taken: Seq<Seq<char>>,
    i: int,
    j: int,
)
    requires
        distinct_titles(recon.open),
        0 <= i < j < recon.open.len(),
    ensures
        ({
            let ops = ops_of(recon, new, names, taken);
            &&& ops.len() >= recon.open.len()
            &&& ops[i] is Open && ops[j] is Open
            &&& ops[i]->Open_0.title == recon.open[i].title
            &&& ops[i]->Open_0.label != ops[j]->Open_0.label
            &&& !taken.contains(ops[i]->Open_0.label) && ops[i]->Open_0.label != HOME_LABEL@
            &&& !taken.contains(ops[j]->Open_0.label) && ops[j]->Open_0.label != HOME_LABEL@
        }),
{
    let none = Seq::<(Seq<char>, Seq<char>)>::empty();
    let all = taken.push(HOME_LABEL@);
    assert forall|t: Seq<char>| (#[trigger] label_of(none, t)) is None by {}
    lemma_labelled(recon.open, none, all);
    let specs = labelled(recon.open, none, all).specs;
    let ops = ops_of(recon, new, names, taken);
    assert(ops[i] == WindowOpView::Open(specs[i]));
    assert(ops[j] == WindowOpView::Open(specs[j]));
    assert(specs[i].label != specs[j].label);
    assert forall|l: Seq<char>| !#[trigger] all.contains(l) implies !taken.contains(l) && l
        != HOME_LABEL@ by {
        assert(all[taken.len() as int] == HOME_LABEL@);
        if taken.contains(l) {
            let k = choose|k: int| 0 <= k < taken.len() && taken[k] == l;
            assert(all[k] == l);
        }
    }
}

} // verus!
