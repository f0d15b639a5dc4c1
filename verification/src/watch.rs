//! The watched-directory list and the debouncing of file change events.
use vstd::prelude::*;
use crate::text::{
    chars_of, eq_ignore_ascii_case, eq_ignore_case, strip_bounds, strip_end, strip_start,
    string_from_range, trim, Strip,
};

verus! {

// ───────────────────────── watched directories ─────────────────────────

/// A path as typed by a user: trimmed, then stripped of surrounding quotes.
pub open spec fn clean_path_text(raw: Seq<char>) -> Seq<char> {
    strip_end(strip_start(trim(raw), Strip::Exactly('"')), Strip::Exactly('"'))
}

/// `raw.trim().trim_matches('"')`.
pub fn clean_watch_path(raw: &str) -> (r: String)
    ensures
        r@ == clean_path_text(raw@),
{
    let v = chars_of(raw);
    let (i, j) = strip_bounds(&v, Strip::Whitespace, Strip::Whitespace);
    let t = string_from_range(&v, i, j);
    let tv = chars_of(&t);
    let (a, b) = strip_bounds(&tv, Strip::Exactly('"'), Strip::Exactly('"'));
    string_from_range(&tv, a, b)
}

/// Some entry of `dirs` equals `d` up to ASCII case.
pub open spec fn watched(dirs: Seq<Seq<char>>, d: Seq<char>) -> bool {
    exists|i: int| 0 <= i < dirs.len() && #[trigger] eq_ignore_ascii_case(dirs[i], d)
}

/// `i` is the first entry of `dirs` equal to `d` up to ASCII case.
pub open spec fn first_watched(dirs: Seq<Seq<char>>, d: Seq<char>, i: int) -> bool {
    &&& 0 <= i < dirs.len()
    &&& eq_ignore_ascii_case(dirs[i], d)
    &&& forall|j: int| 0 <= j < i ==> !#[trigger] eq_ignore_ascii_case(dirs[j], d)
}

/// No two entries are equal up to ASCII case.
pub open spec fn distinct_ignoring_case(dirs: Seq<Seq<char>>) -> bool {
    forall|i: int, j: int|
        0 <= i < j < dirs.len() ==> !#[trigger] eq_ignore_ascii_case(dirs[i], dirs[j])
}

/// Why a directory cannot be added.
#[derive(Debug)]
pub enum WatchDirError {
    /// It is already in the list (up to ASCII case).
    AlreadyWatching,
}

/// Index of the first entry equal to `d` up to ASCII case.
pub fn position_ignoring_case(dirs: &Vec<String>, d: &str) -> (r: Option<usize>)
    ensures
        match r {
            Some(i) => first_watched(dirs.deep_view(), d@, i as int),
            None => !watched(dirs.deep_view(), d@),
        },
{
    let ghost ds = dirs.deep_view();
    let mut i: usize = 0;
    while i < dirs.len()
        invariant
            i <= dirs@.len(),
            ds == dirs.deep_view(),
            forall|j: int| 0 <= j < i ==> !#[trigger] eq_ignore_ascii_case(ds[j], d@),
        decreases dirs@.len() - i,
    {
        if eq_ignore_case(&dirs[i], d) {
            return Some(i);
        }
        i += 1;
    }
    None
}

/// Adds `dir` to the watch list unless an entry equals it up to ASCII case.
pub fn add_watch_dir(dirs: &mut Vec<String>, dir: String) -> (r: Result<(), WatchDirError>)
    ensures
        r is Ok <==> !watched(old(dirs).deep_view(), dir@),
        r is Ok ==> final(dirs).deep_view() == old(dirs).deep_view().push(dir@),
        r is Err ==> final(dirs).deep_view() == old(dirs).deep_view(),
{
    match position_ignoring_case(dirs, &dir) {
        Some(_) => Err(WatchDirError::AlreadyWatching),
        None => {
            let ghost before = dirs.deep_view();
            dirs.push(dir);
            assert(dirs.deep_view() =~= before.push(dir@));
            Ok(())
        },
    }
}

/// Removes the first entry equal to `raw` up to ASCII case, and returns it.
pub fn remove_watch_dir(dirs: &mut Vec<String>, raw: &str) -> (r: Option<String>)
    ensures
        match r {
            Some(removed) => exists|i: int|
                first_watched(old(dirs).deep_view(), raw@, i) && removed@ == old(dirs).deep_view()[i]
                    && final(dirs).deep_view() == old(dirs).deep_view().remove(i),
            None => !watched(old(dirs).deep_view(), raw@) && final(dirs).deep_view() == old(
                dirs,
            ).deep_view(),
        },
{
    match position_ignoring_case(dirs, raw) {
        Some(i) => {
            let ghost before = dirs.deep_view();
            let removed = dirs.remove(i);
            assert(dirs.deep_view() =~= before.remove(i as int));
            Some(removed)
        },
        None => None,
    }
}

proof fn lemma_eq_ignore_case_symmetric(a: Seq<char>, b: Seq<char>)
    requires
        eq_ignore_ascii_case(a, b),
    ensures
        eq_ignore_ascii_case(b, a),
{
}

/// Adding a directory to a list whose entries differ up to ASCII case keeps
/// them differing: the list never holds the same directory twice.
pub proof fn law_add_keeps_distinct(dirs: Seq<Seq<char>>, d: Seq<char>)
    requires
        distinct_ignoring_case(dirs),
        !watched(dirs, d),
    ensures
        distinct_ignoring_case(dirs.push(d)),
{
    let n = dirs.push(d);
    assert forall|i: int, j: int| 0 <= i < j < n.len() implies !#[trigger] eq_ignore_ascii_case(
        n[i],
        n[j],
    ) by {
        if j == dirs.len() {
            assert(n[i] == dirs[i]);
            if eq_ignore_ascii_case(n[i], n[j]) {
                assert(eq_ignore_ascii_case(dirs[i], d));
            }
        } else {
            assert(n[i] == dirs[i] && n[j] == dirs[j]);
        }
    }
}

/// Removing a directory right after adding it gives back the directory and
/// the list as it was.
pub proof fn law_remove_undoes_add(dirs: Seq<Seq<char>>, d: Seq<char>, i: int)
    requires
        !watched(dirs, d),
        first_watched(dirs.push(d), d, i),
    ensures
        i == dirs.len(),
        dirs.push(d)[i] == d,
        dirs.push(d).remove(i) == dirs,
{
    if i < dirs.len() {
        assert(dirs.push(d)[i] == dirs[i]);
        lemma_eq_ignore_case_symmetric(dirs.push(d)[i], d);
        assert(eq_ignore_ascii_case(dirs[i], d));
    }
    assert(dirs.push(d).remove(i) =~= dirs);
}

// ───────────────────────── debouncing ─────────────────────────

/// What happened to a path.
#[derive(Debug, Clone, Copy, PartialEq, Eq, Structural)]
pub enum ChangeKind {
    Create,
    Modify,
    Remove,
    Other,
}

/// A change waiting for its debounce window to pass.
#[derive(Debug)]
pub struct PendingChange {
    pub path: String,
    pub kind: ChangeKind,
    /// When the window of this path opened, in nanoseconds on a monotonic clock.
    pub since_ns: u64,
}

/// Coalesces bursts of change events per path: a path is handed out once no
/// new window has opened for it for `debounce_ms` milliseconds.
///
/// The pending changes are a `Vec` with at most one entry per path, seen as a
/// `Map` from path to change. vstd specifies `HashMap` lookups only for key
/// types whose hashing it models (`obeys_key_model`), which it states for
/// integers but not for `String`; the `Vec` gives the same lookups with
/// contracts that are proved.
pub struct Debouncer {
    debounce_ms: u64,
    pending: Vec<PendingChange>,
}

/// `j` is one of the indices in `s`.
pub open spec fn sourced(s: Seq<int>, j: int) -> bool {
    exists|k: int| 0 <= k < s.len() && s[k] == j
}

/// Whole milliseconds from `since` to `now` (zero when `since` is later).
pub open spec fn elapsed_ms(since: u64, now: u64) -> int {
    if now >= since {
        (now - since) / 1_000_000
    } else {
        0
    }
}

/// Pending changes after a change of `p` of kind `k` at time `t`: a path
/// pending for less than `window` ms keeps its window start and takes the
/// new kind; otherwise its window starts at `t`.
pub open spec fn after_record(
    v: Map<Seq<char>, (ChangeKind, u64)>,
    window: u64,
    p: Seq<char>,
    k: ChangeKind,
    t: u64,
) -> Map<Seq<char>, (ChangeKind, u64)> {
    v.insert(
        p,
        (
            k,
            if v.dom().contains(p) && elapsed_ms(v[p].1, t) < window {
                v[p].1
            } else {
                t
            },
        ),
    )
}

/// A pending path whose window has passed at `now`.
pub open spec fn due(v: Map<Seq<char>, (ChangeKind, u64)>, window: u64, p: Seq<char>, now: u64) -> bool {
    v.dom().contains(p) && elapsed_ms(v[p].1, now) >= window
}

/// Pending changes after handing out those due at `now`.
pub open spec fn after_flush(v: Map<Seq<char>, (ChangeKind, u64)>, window: u64, now: u64) -> Map<
    Seq<char>,
    (ChangeKind, u64),
> {
    Map::new(|p: Seq<char>| v.dom().contains(p) && !due(v, window, p, now), |p: Seq<char>| v[p])
}

impl Debouncer {
    /// The debounce window in milliseconds.
    pub closed spec fn window(&self) -> u64 {
        self.debounce_ms
    }

    /// Pending changes by path: kind and window start.
    pub closed spec fn view(&self) -> Map<Seq<char>, (ChangeKind, u64)> {
        Map::new(
            |p: Seq<char>| exists|i: int| 0 <= i < self.pending@.len() && self.pending@[i].path@ == p,
            |p: Seq<char>|
                {
                    let i = choose|i: int| 0 <= i < self.pending@.len() && self.pending@[i].path@ == p;
                    (self.pending@[i].kind, self.pending@[i].since_ns)
                },
        )
    }

    /// No path is pending twice.
    pub closed spec fn wf(&self) -> bool {
        forall|i: int, j: int|
            0 <= i < j < self.pending@.len() ==> self.pending@[i].path@ != self.pending@[j].path@
    }

    pub fn new(debounce_ms: u64) -> (d: Self)
        ensures
            d.wf(),
            d.window() == debounce_ms,
            d.view() == Map::<Seq<char>, (ChangeKind, u64)>::empty(),
    {
        let d = Debouncer { debounce_ms, pending: Vec::new() };
        assert(d.view() =~= Map::<Seq<char>, (ChangeKind, u64)>::empty());
        d
    }

    proof fn lemma_view_at(&self, i: int)
        requires
            self.wf(),
            0 <= i < self.pending@.len(),
        ensures
            self.view().dom().contains(self.pending@[i].path@),
            self.view()[self.pending@[i].path@] == (self.pending@[i].kind, self.pending@[i].since_ns),
    {
        let p = self.pending@[i].path@;
        let k = choose|k: int| 0 <= k < self.pending@.len() && self.pending@[k].path@ == p;
        if k != i {
            if k < i {
            } else {
            }
        }
    }

    fn find(&self, path: &str) -> (r: Option<usize>)
        requires
            self.wf(),
        ensures
            match r {
                Some(i) => i < self.pending@.len() && self.pending@[i as int].path@ == path@,
                None => !self.view().dom().contains(path@),
            },
    {
        let mut i: usize = 0;
        while i < self.pending.len()
            invariant
                i <= self.pending@.len(),
                forall|j: int| 0 <= j < i ==> self.pending@[j].path@ != path@,
            decreases self.pending@.len() - i,
        {
            if self.pending[i].path.eq(&crate::text::owned(path)) {
                return Some(i);
            }
            i += 1;
        }
        None
    }

    /// Records a change of `path` at time `now_ns`. A path already pending
    /// whose window opened less than `debounce_ms` ago keeps its window and
    /// takes the new kind; otherwise a new window opens at `now_ns`.
    pub fn record(&mut self, path: String, kind: ChangeKind, now_ns: u64)
        requires
            old(self).wf(),
        ensures
            final(self).wf(),
            final(self).window() == old(self).window(),
            final(self).view() == after_record(
                old(self).view(),
                old(self).window(),
                path@,
                kind,
                now_ns,
            ),
    {
        let ghost old_view = self.view();
        match self.find(&path) {
            Some(i) => {
                proof {
                    self.lemma_view_at(i as int);
                }
                let since = self.pending[i].since_ns;
                let elapsed = if now_ns >= since {
                    (now_ns - since) / 1_000_000
                } else {
                    0
                };
                let start = if elapsed < self.debounce_ms {
                    since
                } else {
                    now_ns
                };
                let ghost p = path@;
                self.pending.set(i, PendingChange { path, kind, since_ns: start });
                assert(self.wf());
                assert forall|q: Seq<char>| #[trigger] self.view().dom().contains(q) <==> old_view.insert(p, (kind, start)).dom().contains(q) by {
                    if q != p {
                        if self.view().dom().contains(q) {
                            let k = choose|k: int| 0 <= k < self.pending@.len() && self.pending@[k].path@ == q;
                            assert(old(self).pending@[k].path@ == q);
                        }
                        if old_view.dom().contains(q) {
                            let k = choose|k: int| 0 <= k < old(self).pending@.len() && old(self).pending@[k].path@ == q;
                            assert(self.pending@[k].path@ == q);
                        }
                    } else {
                        self.lemma_view_at(i as int);
                    }
                }
                assert forall|q: Seq<char>| #[trigger] self.view().dom().contains(q) implies self.view()[q] == old_view.insert(p, (kind, start))[q] by {
                    let k = choose|k: int| 0 <= k < self.pending@.len() && self.pending@[k].path@ == q;
                    self.lemma_view_at(k);
                    if q != p {
                        old(self).lemma_view_at(k);
                    }
                }
                assert(self.view() =~= old_view.insert(p, (kind, start)));
            },
            None => {
                let ghost p = path@;
                self.pending.push(PendingChange { path, kind, since_ns: now_ns });
                assert(self.wf()) by {
                    assert forall|i: int, j: int| 0 <= i < j < self.pending@.len() implies self.pending@[i].path@ != self.pending@[j].path@ by {
                        if j == self.pending@.len() - 1 {
                            if self.pending@[i].path@ == p {
                                old(self).lemma_view_at(i);
                            }
                        }
                    }
                }
                assert forall|q: Seq<char>| #[trigger] self.view().dom().contains(q) <==> old_view.insert(p, (kind, now_ns)).dom().contains(q) by {
                    if q != p {
                        if self.view().dom().contains(q) {
                            let k = choose|k: int| 0 <= k < self.pending@.len() && self.pending@[k].path@ == q;
                            assert(old(self).pending@[k].path@ == q);
                        }
                        if old_view.dom().contains(q) {
                            let k = choose|k: int| 0 <= k < old(self).pending@.len() && old(self).pending@[k].path@ == q;
                            assert(self.pending@[k].path@ == q);
                        }
                    } else {
                        self.lemma_view_at(self.pending@.len() - 1);
                    }
                }
                assert forall|q: Seq<char>| #[trigger] self.view().dom().contains(q) implies self.view()[q] == old_view.insert(p, (kind, now_ns))[q] by {
                    let k = choose|k: int| 0 <= k < self.pending@.len() && self.pending@[k].path@ == q;
                    self.lemma_view_at(k);
                    if q != p {
                        old(self).lemma_view_at(k);
                    }
                }
                assert(self.view() =~= old_view.insert(p, (kind, now_ns)));
            },
        }
    }

    /// Whether the window of a pending path has passed at `now_ns`.
    pub open spec fn expired(&self, p: Seq<char>, now_ns: u64) -> bool {
        due(self.view(), self.window(), p, now_ns)
    }

    /// Hands out every pending change whose window has passed at `now_ns`,
    /// with its latest kind, and forgets them; the others stay pending.
    pub fn flush(&mut self, now_ns: u64) -> (out: Vec<(String, ChangeKind)>)
        requires
            old(self).wf(),
        ensures
            final(self).wf(),
            final(self).window() == old(self).window(),
            forall|i: int, j: int| 0 <= i < j < out@.len() ==> out@[i].0@ != out@[j].0@,
            forall|i: int|
                0 <= i < out@.len() ==> old(self).expired(#[trigger] out@[i].0@, now_ns)
                    && out@[i].1 == old(self).view()[out@[i].0@].0,
            forall|p: Seq<char>|
                old(self).expired(p, now_ns) ==> exists|i: int| 0 <= i < out@.len() && #[trigger] out@[i].0@ == p,
            final(self).view() == after_flush(old(self).view(), old(self).window(), now_ns),
    {
        let ghost src = self.pending@;
        let mut kept: Vec<PendingChange> = Vec::new();
        let mut out: Vec<(String, ChangeKind)> = Vec::new();
        let ghost mut kept_src: Seq<int> = Seq::empty();
        let ghost mut out_src: Seq<int> = Seq::empty();
        let mut i: usize = 0;
        while i < self.pending.len()
            invariant
                self.pending@ == src,
                old(self).wf(),
                self.debounce_ms == old(self).debounce_ms,
                i <= src.len(),
                kept_src.len() == kept@.len(),
                out_src.len() == out@.len(),
                forall|k: int| 0 <= k < kept_src.len() ==> 0 <= #[trigger] kept_src[k] < i,
                forall|k: int| 0 <= k < out_src.len() ==> 0 <= #[trigger] out_src[k] < i,
                forall|a: int, b: int| 0 <= a < b < kept_src.len() ==> kept_src[a] < kept_src[b],
                forall|a: int, b: int| 0 <= a < b < out_src.len() ==> out_src[a] < out_src[b],
                forall|k: int|
                    0 <= k < kept@.len() ==> kept@[k].path@ == src[#[trigger] kept_src[k]].path@
                        && kept@[k].kind == src[kept_src[k]].kind && kept@[k].since_ns
                        == src[kept_src[k]].since_ns && elapsed_ms(src[kept_src[k]].since_ns, now_ns)
                        < self.debounce_ms,
                forall|k: int|
                    0 <= k < out@.len() ==> out@[k].0@ == src[#[trigger] out_src[k]].path@
                        && out@[k].1 == src[out_src[k]].kind && elapsed_ms(
                        src[out_src[k]].since_ns,
                        now_ns,
                    ) >= self.debounce_ms,
                forall|j: int| 0 <= j < i ==> #[trigger] sourced(kept_src, j) || sourced(out_src, j),
            decreases src.len() - i,
        {
            let since = self.pending[i].since_ns;
            let elapsed = if now_ns >= since {
                (now_ns - since) / 1_000_000
            } else {
                0
            };
            let path = self.pending[i].path.clone();
            let kind = self.pending[i].kind;
            let ghost ks0 = kept_src;
            let ghost os0 = out_src;
            if elapsed >= self.debounce_ms {
                out.push((path, kind));
                proof {
                    out_src = out_src.push(i as int);
                }
            } else {
                kept.push(PendingChange { path, kind, since_ns: since });
                proof {
                    kept_src = kept_src.push(i as int);
                }
            }
            assert forall|j: int| 0 <= j < i + 1 implies #[trigger] sourced(kept_src, j) || sourced(out_src, j) by {
                if j < i {
                    assert(sourced(ks0, j) || sourced(os0, j));
                    if sourced(ks0, j) {
                        let k = choose|k: int| 0 <= k < ks0.len() && ks0[k] == j;
                        assert(kept_src[k] == j);
                    } else {
                        let k = choose|k: int| 0 <= k < os0.len() && os0[k] == j;
                        assert(out_src[k] == j);
                    }
                } else {
                    if elapsed >= self.debounce_ms {
                        assert(out_src[out_src.len() - 1] == j);
                    } else {
                        assert(kept_src[kept_src.len() - 1] == j);
                    }
                }
            }
            i += 1;
        }
        self.pending = kept;
        proof {
            let old_view = old(self).view();
            assert(self.wf()) by {
                assert forall|a: int, b: int| 0 <= a < b < self.pending@.len() implies self.pending@[a].path@ != self.pending@[b].path@ by {
                    assert(kept_src[a] < kept_src[b]);
                }
            }
            assert forall|a: int, b: int| 0 <= a < b < out@.len() implies out@[a].0@ != out@[b].0@ by {
                assert(out_src[a] < out_src[b]);
            }
            assert forall|k: int| 0 <= k < out@.len() implies old(self).expired(#[trigger] out@[k].0@, now_ns)
                && out@[k].1 == old_view[out@[k].0@].0 by {
                old(self).lemma_view_at(out_src[k]);
            }
            assert forall|p: Seq<char>| old(self).expired(p, now_ns) implies exists|k: int| 0 <= k < out@.len() && #[trigger] out@[k].0@ == p by {
                let j = choose|j: int| 0 <= j < src.len() && src[j].path@ == p;
                old(self).lemma_view_at(j);
                assert(sourced(kept_src, j) || sourced(out_src, j));
                if sourced(kept_src, j) {
                    let k = choose|k: int| 0 <= k < kept_src.len() && kept_src[k] == j;
                    assert(kept@[k].path@ == src[kept_src[k]].path@);
                } else {
                    let k = choose|k: int| 0 <= k < out_src.len() && out_src[k] == j;
                    assert(out@[k].0@ == p);
                }
            }
            let target = after_flush(old_view, old(self).window(), now_ns);
            assert forall|p: Seq<char>| #[trigger] self.view().dom().contains(p) <==> target.dom().contains(p) by {
                if self.view().dom().contains(p) {
                    let k = choose|k: int| 0 <= k < self.pending@.len() && self.pending@[k].path@ == p;
                    assert(kept@[k].path@ == src[kept_src[k]].path@);
                    old(self).lemma_view_at(kept_src[k]);
                }
                if target.dom().contains(p) {
                    let j = choose|j: int| 0 <= j < src.len() && src[j].path@ == p;
                    old(self).lemma_view_at(j);
                    assert(sourced(kept_src, j) || sourced(out_src, j));
                if sourced(kept_src, j) {
                        let k = choose|k: int| 0 <= k < kept_src.len() && kept_src[k] == j;
                        assert(self.pending@[k].path@ == p);
                    } else {
                        let k = choose|k: int| 0 <= k < out_src.len() && out_src[k] == j;
                        assert(out@[k].0@ == src[out_src[k]].path@);
                    }
                }
            }
            assert forall|p: Seq<char>| #[trigger] self.view().dom().contains(p) implies self.view()[p] == target[p] by {
                let k = choose|k: int| 0 <= k < self.pending@.len() && self.pending@[k].path@ == p;
                self.lemma_view_at(k);
                old(self).lemma_view_at(kept_src[k]);
            }
            assert(self.view() =~= target);
        }
        out
    }
}

// ───────────────────────── laws of the debouncer ─────────────────────────

/// After a flush at `now`, nothing left pending is due at `now`, and
/// nothing new is pending.
pub proof fn law_flush_leaves_nothing_due(v: Map<Seq<char>, (ChangeKind, u64)>, window: u64, now: u64)
    ensures
        forall|p: Seq<char>| !due(after_flush(v, window, now), window, p, now),
        forall|p: Seq<char>|
            #[trigger] after_flush(v, window, now).dom().contains(p) ==> v.dom().contains(p)
                && after_flush(v, window, now)[p] == v[p],
{
}

/// A second flush at the same time hands out nothing and changes nothing.
pub proof fn law_flush_twice(v: Map<Seq<char>, (ChangeKind, u64)>, window: u64, now: u64)
    ensures
        after_flush(after_flush(v, window, now), window, now) == after_flush(v, window, now),
{
    assert(after_flush(after_flush(v, window, now), window, now) =~= after_flush(v, window, now));
}

/// Changes of a path within its window coalesce: the window start stays and
/// the latest kind wins.
pub proof fn law_burst_coalesces(
    v: Map<Seq<char>, (ChangeKind, u64)>,
    window: u64,
    p: Seq<char>,
    k: ChangeKind,
    t: u64,
)
    requires
        v.dom().contains(p),
        elapsed_ms(v[p].1, t) < window,
    ensures
        after_record(v, window, p, k, t)[p] == (k, v[p].1),
        after_record(v, window, p, k, t).dom() == v.dom(),
{
    assert(after_record(v, window, p, k, t).dom() =~= v.dom());
}

/// With time running forward, a recorded change is due, with its latest
/// kind, once `window` ms have passed since it was recorded; other pending
/// paths are unaffected.
pub proof fn law_recorded_change_comes_due(
    v: Map<Seq<char>, (ChangeKind, u64)>,
    window: u64,
    p: Seq<char>,
    k: ChangeKind,
    t: u64,
    now: u64,
)
    requires
        forall|q: Seq<char>| #[trigger] v.dom().contains(q) ==> v[q].1 <= t,
        t <= now,
        elapsed_ms(t, now) >= window,
    ensures
        due(after_record(v, window, p, k, t), window, p, now),
        after_record(v, window, p, k, t)[p].0 == k,
        forall|q: Seq<char>|
            q != p ==> (#[trigger] due(after_record(v, window, p, k, t), window, q, now) <==> due(
                v,
                window,
                q,
                now,
            )),
{
    let s = after_record(v, window, p, k, t)[p].1;
    assert(s <= t);
    vstd::arithmetic::div_mod::lemma_div_is_ordered(now - t, now - s, 1_000_000);
}

/// A change that opens a new window is not due before `window` ms have
/// passed.
pub proof fn law_change_waits_its_window(
    v: Map<Seq<char>, (ChangeKind, u64)>,
    window: u64,
    p: Seq<char>,
    k: ChangeKind,
    t: u64,
    now: u64,
)
    requires
        !(v.dom().contains(p) && elapsed_ms(v[p].1, t) < window),
        elapsed_ms(t, now) < window,
    ensures
        after_record(v, window, p, k, t).dom().contains(p),
        !due(after_record(v, window, p, k, t), window, p, now),
{
}

}
