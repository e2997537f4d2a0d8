use vstd::prelude::*;

verus! {

/// One registry entry as the poller sees it: a session id and whether the
/// circuit's transport is established.
pub struct SessionEntry {
    pub id: String,
    pub established: bool,
}

impl View for SessionEntry {
    type V = (Seq<char>, bool);

    open spec fn view(&self) -> (Seq<char>, bool) {
        (self.id@, self.established)
    }
}

/// A registry snapshot as (id, established) pairs, in the registry's order.
pub open spec fn snapshot_view(entries: Seq<SessionEntry>) -> Seq<(Seq<char>, bool)> {
    entries.map_values(|e: SessionEntry| e@)
}

/// Index of the first entry at or after `i` whose id has not been announced.
pub open spec fn first_fresh_from(
    announced: Seq<Seq<char>>,
    snap: Seq<(Seq<char>, bool)>,
    i: int,
) -> Option<int>
    decreases snap.len() - i,
{
    if i < 0 || i >= snap.len() {
        None
    } else if !announced.contains(snap[i].0) {
        Some(i)
    } else {
        first_fresh_from(announced, snap, i + 1)
    }
}

pub open spec fn first_fresh(announced: Seq<Seq<char>>, snap: Seq<(Seq<char>, bool)>) -> Option<int> {
    first_fresh_from(announced, snap, 0)
}

/// What one poll cycle announces: the first unannounced entry of the
/// snapshot, provided its transport is established.
pub open spec fn cycle_announcement(
    announced: Seq<Seq<char>>,
    snap: Seq<(Seq<char>, bool)>,
) -> Option<Seq<char>> {
    match first_fresh(announced, snap) {
        Some(i) => if snap[i].1 {
            Some(snap[i].0)
        } else {
            None
        },
        None => None,
    }
}

/// The announced ids, in push order, after one poll cycle.
pub open spec fn after_cycle(announced: Seq<Seq<char>>, snap: Seq<(Seq<char>, bool)>) -> Seq<Seq<char>> {
    match cycle_announcement(announced, snap) {
        Some(id) => announced.push(id),
        None => announced,
    }
}

/// The announced ids after one poll cycle on each snapshot in turn.
pub open spec fn after_cycles(
    announced: Seq<Seq<char>>,
    snaps: Seq<Seq<(Seq<char>, bool)>>,
) -> Seq<Seq<char>>
    decreases snaps.len(),
{
    if snaps.len() == 0 {
        announced
    } else {
        after_cycle(after_cycles(announced, snaps.drop_last()), snaps.last())
    }
}

/// The announced ids after `n` poll cycles over an unchanging snapshot.
pub open spec fn repeat_cycles(
    announced: Seq<Seq<char>>,
    snap: Seq<(Seq<char>, bool)>,
    n: nat,
) -> Seq<Seq<char>>
    decreases n,
{
    if n == 0 {
        announced
    } else {
        after_cycle(repeat_cycles(announced, snap, (n - 1) as nat), snap)
    }
}

/// How many entries of the snapshot have not been announced.
pub open spec fn fresh_count(announced: Seq<Seq<char>>, snap: Seq<(Seq<char>, bool)>) -> nat
    decreases snap.len(),
{
    if snap.len() == 0 {
        0
    } else {
        fresh_count(announced, snap.drop_last()) + if announced.contains(snap.last().0) {
            0nat
        } else {
            1nat
        }
    }
}

/// Registry keys are unique.
pub open spec fn distinct_ids(snap: Seq<(Seq<char>, bool)>) -> bool {
    forall|i: int, j: int| 0 <= i < j < snap.len() ==> snap[i].0 != snap[j].0
}

/// The set of sessions already surfaced to the application, kept in the
/// order in which they were pushed onto the notification channel. Entries
/// are never removed.
pub struct SessionDiscovery {
    announced: Vec<String>,
}

impl SessionDiscovery {
    /// The announced ids, in push order.
    pub closed spec fn announced(&self) -> Seq<Seq<char>> {
        self.announced@.map_values(|s: String| s@)
    }

    pub open spec fn wf(&self) -> bool {
        self.announced().no_duplicates()
    }

    pub fn new() -> (r: Self)
        ensures
            r.wf(),
            r.announced() == Seq::<Seq<char>>::empty(),
    {
        let r = SessionDiscovery { announced: Vec::new() };
        assert(r.announced() =~= Seq::<Seq<char>>::empty());
        r
    }

    /// The number of sessions announced so far.
    pub fn announced_count(&self) -> (r: usize)
        ensures
            r == self.announced().len(),
    {
        self.announced.len()
    }

    pub fn is_announced(&self, id: &String) -> (r: bool)
        ensures
            r == self.announced().contains(id@),
    {
        let mut i: usize = 0;
        while i < self.announced.len()
            invariant
                i <= self.announced@.len(),
                forall|k: int| 0 <= k < i ==> self.announced()[k] != id@,
            decreases self.announced@.len() - i,
        {
            if self.announced[i] == *id {
                assert(self.announced()[i as int] == id@);
                return true;
            }
            i = i + 1;
        }
        false
    }

    /// The index of the entry this cycle should announce, if any.
    pub fn select_announcement(&self, snapshot: &Vec<SessionEntry>) -> (r: Option<usize>)
        ensures
            match r {
                Some(i) => i < snapshot@.len() && cycle_announcement(
                    self.announced(),
                    snapshot_view(snapshot@),
                ) == Some(snapshot@[i as int].id@),
                None => cycle_announcement(self.announced(), snapshot_view(snapshot@)) is None,
            },
    {
        let ghost a = self.announced();
        let ghost s = snapshot_view(snapshot@);
        let mut i: usize = 0;
        while i < snapshot.len()
            invariant
                i <= snapshot@.len(),
                a == self.announced(),
                s == snapshot_view(snapshot@),
                first_fresh(a, s) == first_fresh_from(a, s, i as int),
            decreases snapshot@.len() - i,
        {
            assert(s[i as int] == snapshot@[i as int]@);
            if !self.is_announced(&snapshot[i].id) {
                if snapshot[i].established {
                    return Some(i);
                } else {
                    return None;
                }
            }
            i = i + 1;
        }
        None
    }

    /// Records that `id` was pushed onto the notification channel.
    pub fn record_announced(&mut self, id: String)
        requires
            old(self).wf(),
            !old(self).announced().contains(id@),
        ensures
            final(self).wf(),
            final(self).announced() == old(self).announced().push(id@),
    {
        let ghost a = self.announced();
        self.announced.push(id);
        assert(self.announced() =~= a.push(id@));
        proof {
            lemma_push_fresh_keeps_distinct(a, id@);
        }
    }

    /// One poll cycle: selects the first unannounced entry of the snapshot
    /// and, where its transport is established, records and returns its id,
    /// which the caller then pushes onto the notification channel.
    pub fn poll_cycle(&mut self, snapshot: &Vec<SessionEntry>) -> (r: Option<String>)
        requires
            old(self).wf(),
        ensures
            final(self).wf(),
            final(self).announced() == after_cycle(old(self).announced(), snapshot_view(snapshot@)),
            match r {
                Some(id) => cycle_announcement(old(self).announced(), snapshot_view(snapshot@))
                    == Some(id@),
                None => cycle_announcement(old(self).announced(), snapshot_view(snapshot@)) is None,
            },
    {
        match self.select_announcement(snapshot) {
            None => None,
            Some(i) => {
                proof {
                    lemma_first_fresh_from_is_fresh(self.announced(), snapshot_view(snapshot@), 0);
                }
                let id = snapshot[i].id.clone();
                self.record_announced(id.clone());
                Some(id)
            },
        }
    }
}

proof fn lemma_push_fresh_keeps_distinct(a: Seq<Seq<char>>, x: Seq<char>)
    requires
        a.no_duplicates(),
        !a.contains(x),
    ensures
        a.push(x).no_duplicates(),
{
    assert forall|i: int, j: int| 0 <= i < a.push(x).len() && 0 <= j < a.push(x).len() && i != j
        implies a.push(x)[i] != a.push(x)[j] by {
        if i == a.len() as int {
            assert(a[j] == a.push(x)[j]);
        } else if j == a.len() as int {
            assert(a[i] == a.push(x)[i]);
        }
    }
}

proof fn lemma_first_fresh_from_is_fresh(a: Seq<Seq<char>>, s: Seq<(Seq<char>, bool)>, i: int)
    requires
        0 <= i,
    ensures
        match first_fresh_from(a, s, i) {
            Some(j) => i <= j < s.len() && !a.contains(s[j].0),
            None => forall|k: int| i <= k < s.len() ==> a.contains(#[trigger] s[k].0),
        },
    decreases s.len() - i,
{
    if i < s.len() && a.contains(s[i].0) {
        lemma_first_fresh_from_is_fresh(a, s, i + 1);
    }
}


proof fn lemma_push_contains(a: Seq<Seq<char>>, x: Seq<char>, y: Seq<char>)
    ensures
        a.push(x).contains(y) <==> (a.contains(y) || y == x),
{
    if a.contains(y) {
        let k = choose|k: int| 0 <= k < a.len() && a[k] == y;
        assert(a.push(x)[k] == y);
    }
    if y == x {
        assert(a.push(x)[a.len() as int] == y);
    }
    if a.push(x).contains(y) && y != x {
        let k = choose|k: int| 0 <= k < a.push(x).len() && a.push(x)[k] == y;
        assert(a[k] == y);
    }
}

/// One cycle either announces nothing or appends one id that was not yet
/// announced and whose entry in the snapshot is established.
proof fn lemma_cycle_step(a: Seq<Seq<char>>, s: Seq<(Seq<char>, bool)>)
    ensures
        after_cycle(a, s) == a || (exists|i: int|
            0 <= i < s.len() && s[i].1 && !a.contains(s[i].0) && after_cycle(a, s) == a.push(
                s[i].0,
            )),
{
    lemma_first_fresh_from_is_fresh(a, s, 0);
}

/// Each session id is announced at most once, only after its transport is
/// established, and announced ids are never withdrawn: for any series of
/// registry snapshots, the ids pushed over the cycles are distinct, each one
/// new was established in the snapshot of its cycle, and the ids announced
/// before stay announced, in place.
pub proof fn lemma_announced_at_most_once(
    start: Seq<Seq<char>>,
    snaps: Seq<Seq<(Seq<char>, bool)>>,
)
    requires
        start.no_duplicates(),
    ensures
        after_cycles(start, snaps).no_duplicates(),
        after_cycles(start, snaps).len() >= start.len(),
        after_cycles(start, snaps).subrange(0, start.len() as int) == start,
        forall|k: int|
            #![trigger after_cycles(start, snaps)[k]]
            start.len() <= k < after_cycles(start, snaps).len() ==> exists|c: int, i: int|
                0 <= c < snaps.len() && 0 <= i < snaps[c].len() && #[trigger] snaps[c][i] == (
                    after_cycles(start, snaps)[k],
                    true,
                ),
    decreases snaps.len(),
{
    if snaps.len() > 0 {
        let prev = snaps.drop_last();
        let last = snaps.last();
        lemma_announced_at_most_once(start, prev);
        let a = after_cycles(start, prev);
        let b = after_cycles(start, snaps);
        lemma_cycle_step(a, last);
        if b != a {
            let i = choose|i: int|
                0 <= i < last.len() && last[i].1 && !a.contains(last[i].0) && after_cycle(a, last)
                    == a.push(last[i].0);
            lemma_push_fresh_keeps_distinct(a, last[i].0);
            assert(b.subrange(0, start.len() as int) =~= a.subrange(0, start.len() as int));
            assert forall|k: int| #![trigger b[k]] start.len() <= k < b.len() implies exists|c: int, j: int|
                0 <= c < snaps.len() && 0 <= j < snaps[c].len() && #[trigger] snaps[c][j] == (
                    b[k],
                    true,
                ) by {
                if k == a.len() as int {
                    assert(snaps[snaps.len() - 1][i] == (b[k], true));
                } else {
                    let (c, j) = choose|c: int, j: int|
                        0 <= c < prev.len() && 0 <= j < prev[c].len() && #[trigger] prev[c][j] == (
                            a[k],
                            true,
                        );
                    assert(snaps[c][j] == prev[c][j]);
                }
            }
        } else {
            assert forall|k: int| #![trigger b[k]] start.len() <= k < b.len() implies exists|c: int, j: int|
                0 <= c < snaps.len() && 0 <= j < snaps[c].len() && #[trigger] snaps[c][j] == (
                    b[k],
                    true,
                ) by {
                let (c, j) = choose|c: int, j: int|
                    0 <= c < prev.len() && 0 <= j < prev[c].len() && #[trigger] prev[c][j] == (
                        a[k],
                        true,
                    );
                assert(snaps[c][j] == prev[c][j]);
            }
        }
    }
}

/// A session that was announced once is never announced again, whatever
/// the registry holds later (even after its circuit was disconnected and
/// its entry removed, or an entry under the same id reappeared), and it
/// stays in the announced set.
pub proof fn lemma_never_redelivered(
    announced: Seq<Seq<char>>,
    snap: Seq<(Seq<char>, bool)>,
    id: Seq<char>,
)
    requires
        announced.contains(id),
    ensures
        cycle_announcement(announced, snap) != Some(id),
        after_cycle(announced, snap).contains(id),
{
    lemma_first_fresh_from_is_fresh(announced, snap, 0);
    match cycle_announcement(announced, snap) {
        Some(x) => lemma_push_contains(announced, x, id),
        None => {},
    }
}

proof fn lemma_fresh_count_zero(a: Seq<Seq<char>>, s: Seq<(Seq<char>, bool)>)
    ensures
        fresh_count(a, s) == 0 <==> forall|k: int| 0 <= k < s.len() ==> a.contains(#[trigger] s[k].0),
    decreases s.len(),
{
    if s.len() > 0 {
        let p = s.drop_last();
        lemma_fresh_count_zero(a, p);
        if fresh_count(a, s) == 0 {
            assert forall|k: int| 0 <= k < s.len() implies a.contains(#[trigger] s[k].0) by {
                if k < s.len() - 1 {
                    assert(s[k] == p[k]);
                }
            }
        }
        if forall|k: int| 0 <= k < s.len() ==> a.contains(#[trigger] s[k].0) {
            assert forall|k: int| 0 <= k < p.len() implies a.contains(#[trigger] p[k].0) by {
                assert(s[k] == p[k]);
            }
            assert(a.contains(s[s.len() - 1].0));
        }
    }
}

/// Announcing an id that no entry of the snapshot carries leaves the count
/// of unannounced entries unchanged.
proof fn lemma_fresh_count_other(a: Seq<Seq<char>>, s: Seq<(Seq<char>, bool)>, x: Seq<char>)
    requires
        forall|k: int| 0 <= k < s.len() ==> (#[trigger] s[k]).0 != x,
    ensures
        fresh_count(a.push(x), s) == fresh_count(a, s),
    decreases s.len(),
{
    if s.len() > 0 {
        let p = s.drop_last();
        assert forall|k: int| 0 <= k < p.len() implies (#[trigger] p[k]).0 != x by {
            assert(s[k] == p[k]);
        }
        lemma_fresh_count_other(a, p, x);
        lemma_push_contains(a, x, s.last().0);
    }
}

/// Announcing the id of one unannounced entry of a snapshot with distinct
/// ids lowers the count of unannounced entries by one.
proof fn lemma_fresh_count_dec(a: Seq<Seq<char>>, s: Seq<(Seq<char>, bool)>, j: int)
    requires
        distinct_ids(s),
        0 <= j < s.len(),
        !a.contains(s[j].0),
    ensures
        fresh_count(a.push(s[j].0), s) + 1 == fresh_count(a, s),
    decreases s.len(),
{
    let x = s[j].0;
    let p = s.drop_last();
    lemma_push_contains(a, x, s.last().0);
    if j == s.len() - 1 {
        assert forall|k: int| 0 <= k < p.len() implies (#[trigger] p[k]).0 != x by {
            assert(s[k] == p[k]);
        }
        lemma_fresh_count_other(a, p, x);
    } else {
        assert(p[j] == s[j]);
        assert(distinct_ids(p)) by {
            assert forall|i: int, k: int| 0 <= i < k < p.len() implies p[i].0 != p[k].0 by {
                assert(p[i] == s[i] && p[k] == s[k]);
            }
        }
        lemma_fresh_count_dec(a, p, j);
    }
}

/// Given a snapshot whose unannounced sessions are all established (and
/// whose ids are distinct, as registry keys are), as many cycles as there
/// are unannounced sessions announce them all, one on each cycle.
pub proof fn lemma_all_announced_within_count(
    start: Seq<Seq<char>>,
    snap: Seq<(Seq<char>, bool)>,
)
    requires
        start.no_duplicates(),
        distinct_ids(snap),
        forall|i: int| 0 <= i < snap.len() && !start.contains(snap[i].0) ==> (#[trigger] snap[i]).1,
    ensures
        forall|c: nat|
            c < fresh_count(start, snap) ==> (#[trigger] repeat_cycles(start, snap, c + 1)).len()
                == repeat_cycles(start, snap, c).len() + 1,
        forall|i: int|
            0 <= i < snap.len() ==> repeat_cycles(start, snap, fresh_count(start, snap)).contains(
                (#[trigger] snap[i]).0,
            ),
{
    lemma_repeat_progress(start, snap, fresh_count(start, snap));
    assert forall|c: nat| c < fresh_count(start, snap) implies (#[trigger] repeat_cycles(
        start,
        snap,
        c + 1,
    )).len() == repeat_cycles(start, snap, c).len() + 1 by {
        lemma_repeat_progress(start, snap, c);
        lemma_repeat_progress(start, snap, (c + 1) as nat);
    }
}

/// After `n` cycles (no more than the unannounced count), exactly `n` ids
/// were added, every entry still unannounced is established, and the
/// unannounced count fell by `n`.
proof fn lemma_repeat_progress(start: Seq<Seq<char>>, snap: Seq<(Seq<char>, bool)>, n: nat)
    requires
        start.no_duplicates(),
        distinct_ids(snap),
        forall|i: int| 0 <= i < snap.len() && !start.contains(snap[i].0) ==> (#[trigger] snap[i]).1,
        n <= fresh_count(start, snap),
    ensures
        repeat_cycles(start, snap, n).no_duplicates(),
        repeat_cycles(start, snap, n).len() == start.len() + n,
        fresh_count(repeat_cycles(start, snap, n), snap) + n == fresh_count(start, snap),
        forall|i: int|
            0 <= i < snap.len() && !repeat_cycles(start, snap, n).contains(snap[i].0)
                ==> (#[trigger] snap[i]).1,
        fresh_count(repeat_cycles(start, snap, n), snap) == 0 ==> forall|i: int|
            0 <= i < snap.len() ==> repeat_cycles(start, snap, n).contains((#[trigger] snap[i]).0),
    decreases n,
{
    let r = repeat_cycles(start, snap, n);
    if n > 0 {
        let m = (n - 1) as nat;
        lemma_repeat_progress(start, snap, m);
        let a = repeat_cycles(start, snap, m);
        lemma_fresh_count_zero(a, snap);
        lemma_first_fresh_from_is_fresh(a, snap, 0);
        let j = first_fresh(a, snap)->0;
        let x = snap[j].0;
        assert(r == a.push(x));
        lemma_push_fresh_keeps_distinct(a, x);
        lemma_fresh_count_dec(a, snap, j);
        assert forall|i: int| 0 <= i < snap.len() && !r.contains(snap[i].0) implies (
        #[trigger] snap[i]).1 by {
            lemma_push_contains(a, x, snap[i].0);
        }
    }
    lemma_fresh_count_zero(r, snap);
}

} // verus!
