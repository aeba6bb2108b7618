//! The file watcher's decision: which changed paths to report, relative to the vault
//! root, sorted and without repeats.

use vstd::prelude::*;
use crate::models::strs;
use crate::models::lemma_strs_push;
use crate::paths::{is_relevant, relevant_path, stripped_path, strip_root};
use crate::text::chars_of;

verus! {

/// Lexicographic order of texts by code point (the byte order of their UTF-8 encodings).
pub open spec fn lex_lt(a: Seq<char>, b: Seq<char>) -> bool
    decreases a.len(),
{
    if a.len() == 0 {
        b.len() > 0
    } else if b.len() == 0 {
        false
    } else if a[0] < b[0] {
        true
    } else if a[0] > b[0] {
        false
    } else {
        lex_lt(a.drop_first(), b.drop_first())
    }
}

pub proof fn lemma_lex_trans(a: Seq<char>, b: Seq<char>, c: Seq<char>)
    requires
        lex_lt(a, b),
        lex_lt(b, c),
    ensures
        lex_lt(a, c),
    decreases a.len(),
{
    if a.len() > 0 && b.len() > 0 && c.len() > 0 && a[0] == b[0] && b[0] == c[0] {
        lemma_lex_trans(a.drop_first(), b.drop_first(), c.drop_first());
    }
}

pub proof fn lemma_lex_total(a: Seq<char>, b: Seq<char>)
    requires
        a != b,
    ensures
        lex_lt(a, b) || lex_lt(b, a),
    decreases a.len(),
{
    if a.len() > 0 && b.len() > 0 && a[0] == b[0] {
        if a.drop_first() == b.drop_first() {
            assert(a =~= seq![a[0]] + a.drop_first());
            assert(b =~= seq![b[0]] + b.drop_first());
        }
        lemma_lex_total(a.drop_first(), b.drop_first());
    } else if a.len() > 0 && b.len() > 0 {
        assert(a[0] != b[0]);
    } else if a.len() == 0 && b.len() == 0 {
        assert(a =~= b);
    }
}

fn lex_less(a: &Vec<char>, b: &Vec<char>) -> (r: bool)
    ensures
        r == lex_lt(a@, b@),
{
    let mut i: usize = 0;
    assert(a@.skip(0) == a@ && b@.skip(0) == b@);
    while i < a.len() && i < b.len() && a[i] == b[i]
        invariant
            i <= a.len(),
            i <= b.len(),
            lex_lt(a@, b@) == lex_lt(a@.skip(i as int), b@.skip(i as int)),
        decreases a.len() - i,
    {
        assert(a@.skip(i as int).drop_first() == a@.skip(i + 1));
        assert(b@.skip(i as int).drop_first() == b@.skip(i + 1));
        i = i + 1;
    }
    if i == a.len() {
        i < b.len()
    } else if i == b.len() {
        false
    } else {
        assert(a@.skip(i as int)[0] == a@[i as int]);
        assert(b@.skip(i as int)[0] == b@[i as int]);
        a[i] < b[i]
    }
}

/// Strictly increasing in lexicographic order.
pub open spec fn strictly_sorted(s: Seq<Seq<char>>) -> bool {
    forall|i: int, j: int| 0 <= i < j < s.len() ==> lex_lt(#[trigger] s[i], #[trigger] s[j])
}

/// The changed paths that lie under the root, relative to it.
pub open spec fn under_root(ps: Seq<Seq<char>>, root: Seq<char>) -> Set<Seq<char>> {
    Set::new(
        |r: Seq<char>| exists|i: int| 0 <= i < ps.len() && stripped_path(#[trigger] ps[i], root) == Some(r),
    )
}

/// Inserts `x` into the strictly sorted `v` unless present.
fn insert_sorted(v: &mut Vec<String>, x: String)
    requires
        strictly_sorted(strs(old(v)@)),
    ensures
        strictly_sorted(strs(final(v)@)),
        strs(final(v)@).to_set() == strs(old(v)@).to_set().insert(x@),
{
    let xc = chars_of(x.as_str());
    let mut pos: usize = 0;
    while pos < v.len() && lex_less(&chars_of(v[pos].as_str()), &xc)
        invariant
            pos <= v.len(),
            xc@ == x@,
            forall|k: int| 0 <= k < pos ==> lex_lt(#[trigger] strs(v@)[k], x@),
        decreases v.len() - pos,
    {
        pos = pos + 1;
    }
    let ghost sv = strs(v@);
    if pos < v.len() && crate::storage::string_eq(&v[pos], x.as_str()) {
        assert(sv[pos as int] == x@);
        assert(sv.to_set().insert(x@) =~= sv.to_set());
        return;
    }
    proof {
        if pos < v.len() {
            assert(!lex_lt(sv[pos as int], x@));
            assert(sv[pos as int] != x@);
            lemma_lex_total(sv[pos as int], x@);
        }
    }
    v.insert(pos, x);
    let ghost nv = strs(v@);
    assert(nv =~= sv.insert(pos as int, x@));
    assert forall|i: int, j: int| 0 <= i < j < nv.len() implies lex_lt(#[trigger] nv[i], #[trigger] nv[j]) by {
        if j < pos {
            assert(nv[i] == sv[i] && nv[j] == sv[j]);
        } else if j == pos {
            assert(nv[i] == sv[i]);
        } else if i == pos {
            assert(nv[j] == sv[j - 1]);
            if j - 1 > pos {
                lemma_lex_trans(x@, sv[pos as int], sv[j - 1]);
            }
        } else if i < pos {
            assert(nv[i] == sv[i] && nv[j] == sv[j - 1]);
        } else {
            assert(nv[i] == sv[i - 1] && nv[j] == sv[j - 1]);
        }
    }
    assert forall|y: Seq<char>| nv.to_set().contains(y) <==> sv.to_set().insert(x@).contains(y) by {
        if nv.to_set().contains(y) {
            let k = choose|k: int| 0 <= k < nv.len() && nv[k] == y;
            if k < pos {
                assert(sv[k] == y);
            } else if k > pos {
                assert(sv[k - 1] == y);
            }
        }
        if sv.to_set().contains(y) {
            let k = choose|k: int| 0 <= k < sv.len() && sv[k] == y;
            if k < pos {
                assert(nv[k] == y);
            } else {
                assert(nv[k + 1] == y);
            }
        }
        if y == x@ {
            assert(nv[pos as int] == y);
        }
    }
    assert(nv.to_set() =~= sv.to_set().insert(x@));
}

/// The batch that the watcher reports for the paths that changed: each path under the
/// vault root, relative to it, once, in sorted order.
pub fn changed_paths(pending: &Vec<String>, root: &str) -> (r: Vec<String>)
    ensures
        strictly_sorted(strs(r@)),
        strs(r@).to_set() == under_root(strs(pending@), root@),
{
    let mut r: Vec<String> = Vec::new();
    let ghost ps = strs(pending@);
    let mut i: usize = 0;
    assert(strs(r@).to_set() =~= Set::<Seq<char>>::empty());
    while i < pending.len()
        invariant
            i <= pending.len(),
            ps == strs(pending@),
            strictly_sorted(strs(r@)),
            strs(r@).to_set() == under_root(ps.take(i as int), root@),
        decreases pending.len() - i,
    {
        let ghost pre = ps.take(i as int);
        let ghost cur = ps.take(i + 1);
        let ghost before = under_root(pre, root@);
        assert(cur[i as int] == ps[i as int]);
        assert(forall|k: int| 0 <= k < i ==> #[trigger] cur[k] == pre[k]);
        match strip_root(pending[i].as_str(), root) {
            Some(rel) => {
                let ghost relv = rel@;
                insert_sorted(&mut r, rel);
                assert forall|y: Seq<char>| #[trigger] under_root(cur, root@).contains(y) implies before.insert(relv).contains(y) by {
                    let k = choose|k: int| 0 <= k < cur.len() && stripped_path(#[trigger] cur[k], root@) == Some(y);
                    if k < i {
                        assert(stripped_path(pre[k], root@) == Some(y));
                    }
                }
                assert forall|y: Seq<char>| before.contains(y) implies #[trigger] under_root(cur, root@).contains(y) by {
                    let k = choose|k: int| 0 <= k < pre.len() && stripped_path(#[trigger] pre[k], root@) == Some(y);
                    assert(stripped_path(cur[k], root@) == Some(y));
                }
                assert(under_root(cur, root@).contains(relv)) by {
                    assert(stripped_path(cur[i as int], root@) == Some(relv));
                }
                assert(under_root(cur, root@) =~= before.insert(relv));
            },
            None => {
                assert forall|y: Seq<char>| #[trigger] under_root(cur, root@).contains(y) implies before.contains(y) by {
                    let k = choose|k: int| 0 <= k < cur.len() && stripped_path(#[trigger] cur[k], root@) == Some(y);
                    if k < i {
                        assert(stripped_path(pre[k], root@) == Some(y));
                    }
                }
                assert forall|y: Seq<char>| before.contains(y) implies #[trigger] under_root(cur, root@).contains(y) by {
                    let k = choose|k: int| 0 <= k < pre.len() && stripped_path(#[trigger] pre[k], root@) == Some(y);
                    assert(stripped_path(cur[k], root@) == Some(y));
                }
                assert(under_root(cur, root@) =~= before);
            },
        }
        i = i + 1;
    }
    assert(ps.take(pending@.len() as int) == ps);
    r
}

/// The watcher's debounce state: the relevant paths seen since the last batch, and the
/// time (milliseconds on a monotonic clock) of the last event that brought one.
pub struct Debounce {
    pub pending: Vec<String>,
    pub last_event_ms: Option<u64>,
}

/// How long the watcher waits, after the last relevant event, before reporting a batch.
pub open spec fn debounce_ms() -> int {
    300
}

/// The paths among `ps` with a `.yaml`, `.yml` or `.md` extension, in order.
pub open spec fn relevant_of(ps: Seq<Seq<char>>) -> Seq<Seq<char>>
    decreases ps.len(),
{
    if ps.len() == 0 {
        Seq::empty()
    } else if relevant_path(ps.last()) {
        relevant_of(ps.drop_last()).push(ps.last())
    } else {
        relevant_of(ps.drop_last())
    }
}

/// The relevant paths of an event (none when the turn's wait timed out).
pub open spec fn event_relevant(paths: Option<Vec<String>>) -> Seq<Seq<char>> {
    match paths {
        Some(ps) => relevant_of(strs(ps@)),
        None => Seq::empty(),
    }
}

/// The pending paths after the turn's event.
pub open spec fn pending_after(old_pending: Seq<Seq<char>>, paths: Option<Vec<String>>) -> Seq<Seq<char>> {
    old_pending + event_relevant(paths)
}

/// The time of the last relevant event after the turn's event.
pub open spec fn last_after(old_last: Option<u64>, paths: Option<Vec<String>>, now_ms: u64) -> Option<u64> {
    if event_relevant(paths).len() > 0 {
        Some(now_ms)
    } else {
        old_last
    }
}

/// Whether the turn ends the wait: a relevant event came at least the debounce time ago
/// and paths are pending.
pub open spec fn quiet_long_enough(old_pending: Seq<Seq<char>>, old_last: Option<u64>, paths: Option<Vec<String>>, now_ms: u64) -> bool {
    &&& last_after(old_last, paths, now_ms) matches Some(l)
    &&& now_ms - l >= debounce_ms()
    &&& pending_after(old_pending, paths).len() > 0
}

proof fn lemma_relevant_of(ps: Seq<Seq<char>>)
    ensures
        forall|i: int| 0 <= i < relevant_of(ps).len() ==> relevant_path(#[trigger] relevant_of(ps)[i]),
    decreases ps.len(),
{
    if ps.len() > 0 {
        let r = relevant_of(ps.drop_last());
        lemma_relevant_of(ps.drop_last());
        if relevant_path(ps.last()) {
            assert forall|i: int| 0 <= i < relevant_of(ps).len() implies relevant_path(#[trigger] relevant_of(ps)[i]) by {
                if i < r.len() {
                    assert(relevant_of(ps)[i] == r[i]);
                }
            }
        }
    }
}

fn relevant_paths(ps: &Vec<String>) -> (r: Vec<String>)
    ensures
        strs(r@) == relevant_of(strs(ps@)),
{
    let mut r: Vec<String> = Vec::new();
    let mut i: usize = 0;
    assert(strs(ps@).take(0) =~= Seq::<Seq<char>>::empty());
    while i < ps.len()
        invariant
            i <= ps.len(),
            strs(r@) == relevant_of(strs(ps@).take(i as int)),
        decreases ps.len() - i,
    {
        assert(strs(ps@).take(i + 1).drop_last() =~= strs(ps@).take(i as int));
        assert(strs(ps@).take(i + 1).last() == ps@[i as int]@);
        if is_relevant(ps[i].as_str()) {
            let ghost old_r = r@;
            r.push(ps[i].clone());
            proof {
                lemma_strs_push(old_r, r@.last());
            }
        }
        i = i + 1;
    }
    assert(strs(ps@).take(ps@.len() as int) =~= strs(ps@));
    r
}

/// One turn of the watcher loop. `paths` are the paths of the event that came in this
/// turn (none when the wait timed out) and `now_ms` the time after it. The event's
/// relevant paths join the pending ones; once the debounce time has passed since the last
/// relevant event, the pending paths are turned into a batch (as `changed_paths` makes
/// it) and the state starts afresh. The batch is handed on when it is not empty.
pub fn debounce_step(state: &mut Debounce, paths: Option<Vec<String>>, now_ms: u64, root: &str) -> (batch: Option<Vec<String>>)
    requires
        old(state).last_event_ms matches Some(l) ==> l <= now_ms,
    ensures
        quiet_long_enough(strs(old(state).pending@), old(state).last_event_ms, paths, now_ms) ==> {
            &&& final(state).pending@.len() == 0
            &&& final(state).last_event_ms is None
            &&& (batch is Some) == (under_root(pending_after(strs(old(state).pending@), paths), root@)
                != Set::<Seq<char>>::empty())
        },
        !quiet_long_enough(strs(old(state).pending@), old(state).last_event_ms, paths, now_ms) ==> {
            &&& strs(final(state).pending@) == pending_after(strs(old(state).pending@), paths)
            &&& final(state).last_event_ms == last_after(old(state).last_event_ms, paths, now_ms)
            &&& batch is None
        },
        (forall|i: int| 0 <= i < old(state).pending@.len() ==> relevant_path(#[trigger] old(state).pending@[i]@))
            ==> (forall|i: int| 0 <= i < final(state).pending@.len() ==> relevant_path(#[trigger] final(state).pending@[i]@)),
        batch matches Some(b) ==> {
            &&& b@.len() > 0
            &&& strictly_sorted(strs(b@))
            &&& strs(b@).to_set() == under_root(pending_after(strs(old(state).pending@), paths), root@)
        },
{
    let ghost old_pending = strs(state.pending@);
    assert(forall|i: int| 0 <= i < old_pending.len() ==> old_pending[i] == state.pending@[i]@);
    let ghost old_last = state.last_event_ms;
    let ghost pv = paths;
    match paths {
        Some(ps) => {
            let rel = relevant_paths(&ps);
            if rel.len() > 0 {
                let mut j: usize = 0;
                while j < rel.len()
                    invariant
                        j <= rel.len(),
                        strs(state.pending@) == old_pending + strs(rel@).take(j as int),
                    decreases rel.len() - j,
                {
                    let ghost before = state.pending@;
                    state.pending.push(rel[j].clone());
                    proof {
                        lemma_strs_push(before, state.pending@.last());
                    }
                    assert(strs(rel@).take(j + 1) =~= strs(rel@).take(j as int).push(rel@[j as int]@));
                    j = j + 1;
                }
                assert(strs(rel@).take(rel@.len() as int) =~= strs(rel@));
                state.last_event_ms = Some(now_ms);
            } else {
                assert(strs(rel@) =~= Seq::<Seq<char>>::empty());
                assert(old_pending + strs(rel@) =~= old_pending);
            }
        },
        None => {
            assert(old_pending + Seq::<Seq<char>>::empty() =~= old_pending);
        },
    }
    assert(strs(state.pending@) == pending_after(old_pending, pv));
    assert(state.last_event_ms == last_after(old_last, pv, now_ms));
    proof {
        let rel = event_relevant(pv);
        match pv {
            Some(ps) => lemma_relevant_of(strs(ps@)),
            None => {},
        }
        if forall|i: int| 0 <= i < old_pending.len() ==> relevant_path(#[trigger] old_pending[i]) {
            assert forall|i: int| 0 <= i < state.pending@.len() implies relevant_path(#[trigger] state.pending@[i]@) by {
                assert(strs(state.pending@)[i] == state.pending@[i]@);
                if i < old_pending.len() {
                    assert(strs(state.pending@)[i] == old_pending[i]);
                } else {
                    assert(strs(state.pending@)[i] == rel[i - old_pending.len()]);
                }
            }
        }
    }
    match state.last_event_ms {
        Some(l) => {
            if now_ms - l >= 300 && state.pending.len() > 0 {
                let b = changed_paths(&state.pending, root);
                state.pending = Vec::new();
                state.last_event_ms = None;
                if b.len() > 0 {
                    assert(strs(b@)[0] == b@[0]@);
                    assert(strs(b@).contains(b@[0]@));
                    assert(strs(b@).to_set().contains(b@[0]@));
                    Some(b)
                } else {
                    assert(strs(b@) =~= Seq::<Seq<char>>::empty());
                    assert(strs(b@).to_set() =~= Set::<Seq<char>>::empty());
                    None
                }
            } else {
                None
            }
        },
        None => None,
    }
}

} // verus!
