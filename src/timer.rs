//! Keeps the set of periodic profile-refresh jobs in step with the configured profiles.
use vstd::prelude::*;
use crate::assoc::{
    assoc_map, unique_keys, find_key, lemma_assoc_push, lemma_assoc_dom, lemma_assoc_index,
    lemma_assoc_update, lemma_assoc_remove, lemma_assoc_len,
};

verus! {

pub type TaskID = u64;

/// A profile as the configuration store hands it over.
pub struct ProfileItem {
    pub uid: String,
    /// Refresh interval in minutes; only a positive one is scheduled.
    pub update_interval: Option<u64>,
    /// Last update, in seconds since the Unix epoch.
    pub updated: Option<u64>,
}

pub open spec fn interval_of(p: ProfileItem) -> u64 {
    match p.update_interval {
        Some(v) => v,
        None => 0,
    }
}

/// The schedule that a profile list asks for: uid to interval, over profiles with a
/// positive interval; where a uid repeats, the later profile wins.
pub open spec fn desired_map(ps: Seq<ProfileItem>) -> Map<Seq<char>, u64>
    decreases ps.len(),
{
    if ps.len() == 0 {
        Map::empty()
    } else if interval_of(ps.last()) > 0 {
        desired_map(ps.drop_last()).insert(ps.last().uid@, interval_of(ps.last()))
    } else {
        desired_map(ps.drop_last())
    }
}

/// Builds the uid to interval list of the profiles that ask for a schedule.
pub fn gen_map(profiles: &Vec<ProfileItem>) -> (r: Vec<(String, u64)>)
    ensures
        unique_keys(r@),
        assoc_map(r@) == desired_map(profiles@),
        forall|i: int| 0 <= i < r@.len() ==> r@[i].1 > 0,
        r@.len() <= profiles@.len(),
{
    let mut new_map: Vec<(String, u64)> = Vec::new();
    let mut i: usize = 0;
    while i < profiles.len()
        invariant
            i <= profiles@.len(),
            new_map@.len() <= i,
            unique_keys(new_map@),
            assoc_map(new_map@) == desired_map(profiles@.take(i as int)),
            forall|j: int| 0 <= j < new_map@.len() ==> new_map@[j].1 > 0,
        decreases profiles@.len() - i,
    {
        let item = &profiles[i];
        let interval: u64 = match item.update_interval {
            Some(v) => v,
            None => 0,
        };
        assert(profiles@.take(i + 1).drop_last() =~= profiles@.take(i as int));
        assert(profiles@.take(i + 1).last() == profiles@[i as int]);
        if interval > 0 {
            let x = (item.uid.clone(), interval);
            match find_key(&new_map, &item.uid) {
                Some(j) => {
                    proof {
                        lemma_assoc_update(new_map@, j as int, x);
                    }
                    new_map.set(j, x);
                },
                None => {
                    proof {
                        lemma_assoc_push(new_map@, x);
                    }
                    new_map.push(x);
                },
            }
        }
        i += 1;
    }
    assert(profiles@.take(profiles@.len() as int) =~= profiles@);
    new_map
}

/// One change of the schedule, keyed by profile uid.
#[derive(Clone, Copy, Debug, PartialEq, Eq, Structural)]
pub enum DiffFlag {
    /// Remove the job with this id.
    Del(TaskID),
    /// Schedule a new job under a fresh id, with this interval in minutes.
    Add(TaskID, u64),
    /// Reschedule the job with this id at a new interval.
    Mod(TaskID, u64),
}

/// Whether the scheduled entry for `k` must change to meet `d`.
pub open spec fn needs_change(r: Map<Seq<char>, (TaskID, u64)>, d: Map<Seq<char>, u64>, k: Seq<char>) -> bool {
    r.contains_key(k) && (!d.contains_key(k) || d[k] != r[k].1)
}

/// The change owed to a scheduled entry that `needs_change`.
pub open spec fn change_of(r: Map<Seq<char>, (TaskID, u64)>, d: Map<Seq<char>, u64>, k: Seq<char>) -> DiffFlag {
    if !d.contains_key(k) {
        DiffFlag::Del(r[k].0)
    } else {
        DiffFlag::Mod(r[k].0, d[k])
    }
}

/// `m` takes the schedule `r` to the desired intervals `d`, drawing the ids of new jobs
/// from `c0` up to (not including) `c1`, each exactly once.
pub open spec fn is_diff(
    r: Map<Seq<char>, (TaskID, u64)>,
    d: Map<Seq<char>, u64>,
    m: Map<Seq<char>, DiffFlag>,
    c0: int,
    c1: int,
) -> bool {
    &&& c0 <= c1
    &&& forall|k: Seq<char>|
        m.contains_key(k) <==> (needs_change(r, d, k) || (d.contains_key(k) && !r.contains_key(k)))
    &&& forall|k: Seq<char>| needs_change(r, d, k) ==> m[k] == change_of(r, d, k)
    &&& forall|k: Seq<char>|
        d.contains_key(k) && !r.contains_key(k) ==> {
            &&& m[k] is Add
            &&& m[k]->Add_1 == d[k]
            &&& c0 <= m[k]->Add_0 < c1
        }
    &&& forall|k1: Seq<char>, k2: Seq<char>|
        m.contains_key(k1) && m.contains_key(k2) && k1 != k2 && m[k1] is Add && m[k2] is Add
            ==> m[k1]->Add_0 != m[k2]->Add_0
    &&& forall|t: int| c0 <= t < c1 ==> #[trigger] id_used(m, t)
}

/// Some new job in `m` has the id `t`.
pub open spec fn id_used(m: Map<Seq<char>, DiffFlag>, t: int) -> bool {
    exists|k: Seq<char>| m.contains_key(k) && m[k] is Add && m[k]->Add_0 == t
}

/// Compares the schedule `cur` with the desired intervals `new_map`; new jobs get the ids
/// `count`, `count + 1`, ... The second result is the next unused id.
pub fn diff_against(cur: &Vec<(String, (TaskID, u64))>, new_map: &Vec<(String, u64)>, count: TaskID) -> (res: (
    Vec<(String, DiffFlag)>,
    TaskID,
))
    requires
        unique_keys(cur@),
        unique_keys(new_map@),
        count as int + new_map@.len() <= u64::MAX,
    ensures
        unique_keys(res.0@),
        is_diff(assoc_map(cur@), assoc_map(new_map@), assoc_map(res.0@), count as int, res.1 as int),
        res.1 <= count + new_map@.len(),
{
    let ghost r = assoc_map(cur@);
    let ghost d = assoc_map(new_map@);
    let mut diff_map: Vec<(String, DiffFlag)> = Vec::new();
    let ghost mut src: Seq<int> = Seq::empty();
    let mut i: usize = 0;
    while i < cur.len()
        invariant
            i <= cur@.len(),
            r == assoc_map(cur@),
            d == assoc_map(new_map@),
            unique_keys(cur@),
            unique_keys(new_map@),
            unique_keys(diff_map@),
            src.len() == diff_map@.len(),
            forall|b: int| 0 <= b < diff_map@.len() ==> !(#[trigger] diff_map@[b].1 is Add),
            forall|b: int|
                0 <= b < diff_map@.len() ==> 0 <= #[trigger] src[b] < i && diff_map@[b].0@
                    == cur@[src[b]].0@,
            forall|k: Seq<char>|
                #[trigger] assoc_map(diff_map@).contains_key(k) ==> needs_change(r, d, k)
                    && assoc_map(diff_map@)[k] == change_of(r, d, k),
            forall|a: int|
                0 <= a < i && needs_change(r, d, #[trigger] cur@[a].0@) ==> assoc_map(
                    diff_map@,
                ).contains_key(cur@[a].0@),
        decreases cur@.len() - i,
    {
        let uid = &cur[i].0;
        let tid = cur[i].1.0;
        let val = cur[i].1.1;
        proof {
            lemma_assoc_index(cur@, i as int);
            lemma_assoc_dom(diff_map@, uid@);
            if assoc_map(diff_map@).contains_key(uid@) {
                let b = choose|b: int| 0 <= b < diff_map@.len() && diff_map@[b].0@ == uid@;
                assert(src[b] < i);
                assert(cur@[src[b]].0@ != cur@[i as int].0@);
            }
        }
        let flag: Option<DiffFlag> = match find_key(new_map, uid) {
            None => {
                proof {
                    lemma_assoc_dom(new_map@, uid@);
                }
                Some(DiffFlag::Del(tid))
            },
            Some(j) => {
                proof {
                    lemma_assoc_index(new_map@, j as int);
                }
                let new_val = new_map[j].1;
                if new_val != val {
                    Some(DiffFlag::Mod(tid, new_val))
                } else {
                    None
                }
            },
        };
        match flag {
            Some(f) => {
                let x = (uid.clone(), f);
                proof {
                    lemma_assoc_push(diff_map@, x);
                    assert forall|a: int, b: int|
                        0 <= a < diff_map@.len() + 1 && 0 <= b < diff_map@.len() + 1 && a != b
                        implies diff_map@.push(x)[a].0@ != diff_map@.push(x)[b].0@ by {
                        if a < diff_map@.len() && b < diff_map@.len() {
                        } else if a < diff_map@.len() {
                            assert(src[a] < i);
                            assert(cur@[src[a]].0@ != cur@[i as int].0@);
                        } else if b < diff_map@.len() {
                            assert(src[b] < i);
                            assert(cur@[src[b]].0@ != cur@[i as int].0@);
                        }
                    }
                    src = src.push(i as int);
                }
                diff_map.push(x);
            },
            None => {},
        }
        i += 1;
    }
    proof {
        assert forall|k: Seq<char>| needs_change(r, d, k) implies #[trigger] assoc_map(
            diff_map@,
        ).contains_key(k) by {
            lemma_assoc_dom(cur@, k);
            let a = choose|a: int| 0 <= a < cur@.len() && cur@[a].0@ == k;
            assert(needs_change(r, d, cur@[a].0@));
        }
    }
    let mut count = count;
    let ghost c0 = count as int;
    let ghost n1 = diff_map@.len();
    let ghost mut pos: Seq<int> = Seq::new(diff_map@.len(), |b: int| 0);
    let mut j: usize = 0;
    while j < new_map.len()
        invariant
            j <= new_map@.len(),
            r == assoc_map(cur@),
            d == assoc_map(new_map@),
            unique_keys(cur@),
            unique_keys(new_map@),
            unique_keys(diff_map@),
            c0 <= count <= c0 + j,
            c0 + new_map@.len() <= u64::MAX,
            pos.len() == diff_map@.len(),
            forall|b: int|
                0 <= b < diff_map@.len() && diff_map@[b].1 is Add ==> 0 <= #[trigger] pos[b] < j
                    && diff_map@[b].0@ == new_map@[pos[b]].0@,
            forall|k: Seq<char>|
                #[trigger] assoc_map(diff_map@).contains_key(k) && !(assoc_map(diff_map@)[k] is Add)
                    ==> needs_change(r, d, k) && assoc_map(diff_map@)[k] == change_of(r, d, k),
            forall|k: Seq<char>|
                needs_change(r, d, k) ==> #[trigger] assoc_map(diff_map@).contains_key(k),
            forall|k: Seq<char>|
                #[trigger] assoc_map(diff_map@).contains_key(k) && assoc_map(diff_map@)[k] is Add
                    ==> {
                    &&& d.contains_key(k)
                    &&& !r.contains_key(k)
                    &&& assoc_map(diff_map@)[k]->Add_1 == d[k]
                    &&& c0 <= assoc_map(diff_map@)[k]->Add_0 < count
                },
            forall|k1: Seq<char>, k2: Seq<char>|
                #[trigger] assoc_map(diff_map@).contains_key(k1) && #[trigger] assoc_map(
                    diff_map@,
                ).contains_key(k2) && k1 != k2 && assoc_map(diff_map@)[k1] is Add && assoc_map(
                    diff_map@,
                )[k2] is Add ==> assoc_map(diff_map@)[k1]->Add_0 != assoc_map(diff_map@)[k2]->Add_0,
            forall|t: int| c0 <= t < count ==> #[trigger] id_used(assoc_map(diff_map@), t),
            forall|a: int|
                0 <= a < j && !r.contains_key(#[trigger] new_map@[a].0@) ==> assoc_map(
                    diff_map@,
                ).contains_key(new_map@[a].0@),
        decreases new_map@.len() - j,
    {
        let uid = &new_map[j].0;
        let val = new_map[j].1;
        proof {
            lemma_assoc_index(new_map@, j as int);
        }
        match find_key(cur, uid) {
            Some(a) => {
                proof {
                    lemma_assoc_index(cur@, a as int);
                }
            },
            None => {
                let ghost m0 = assoc_map(diff_map@);
                proof {
                    lemma_assoc_dom(cur@, uid@);
                    lemma_assoc_dom(diff_map@, uid@);
                    if m0.contains_key(uid@) {
                        let b = choose|b: int| 0 <= b < diff_map@.len() && diff_map@[b].0@ == uid@;
                        lemma_assoc_index(diff_map@, b);
                        if diff_map@[b].1 is Add {
                            assert(pos[b] < j);
                            assert(new_map@[pos[b]].0@ != new_map@[j as int].0@);
                        }
                    }
                }
                let x = (uid.clone(), DiffFlag::Add(count, val));
                proof {
                    lemma_assoc_push(diff_map@, x);
                    let m1 = assoc_map(diff_map@.push(x));
                    assert(m1 == m0.insert(uid@, DiffFlag::Add(count, val)));
                    assert forall|a: int, b: int|
                        0 <= a < diff_map@.len() + 1 && 0 <= b < diff_map@.len() + 1 && a != b
                        implies diff_map@.push(x)[a].0@ != diff_map@.push(x)[b].0@ by {
                        if a < diff_map@.len() && b < diff_map@.len() {
                        } else if a < diff_map@.len() {
                            lemma_assoc_index(diff_map@, a);
                        } else if b < diff_map@.len() {
                            lemma_assoc_index(diff_map@, b);
                        }
                    }
                    assert forall|t: int| c0 <= t < count + 1 implies #[trigger] id_used(m1, t) by {
                        if t < count {
                            assert(id_used(m0, t));
                            let k = choose|k: Seq<char>|
                                #[trigger] m0.contains_key(k) && m0[k] is Add && m0[k]->Add_0 == t;
                            assert(!m0.contains_key(uid@));
                            assert(k != uid@);
                            assert(m1.contains_key(k) && m1[k] == m0[k]);
                        } else {
                            assert(m1.contains_key(uid@) && m1[uid@] == DiffFlag::Add(count, val));
                        }
                    }
                    pos = pos.push(j as int);
                }
                diff_map.push(x);
                count = count + 1;
            },
        }
        j += 1;
    }
    proof {
        let m = assoc_map(diff_map@);
        assert forall|k: Seq<char>| d.contains_key(k) && !r.contains_key(k) implies #[trigger] m.contains_key(k) by {
            lemma_assoc_dom(new_map@, k);
            let a = choose|a: int| 0 <= a < new_map@.len() && new_map@[a].0@ == k;
            assert(!r.contains_key(new_map@[a].0@));
        }
        assert forall|k: Seq<char>| needs_change(r, d, k) implies m[k] == change_of(r, d, k) by {
            assert(m.contains_key(k));
        }
        assert forall|k: Seq<char>|
            m.contains_key(k) <==> (needs_change(r, d, k) || (d.contains_key(k) && !r.contains_key(k))) by {
            if m.contains_key(k) && !(m[k] is Add) {
                assert(needs_change(r, d, k));
            }
        }
    }
    (diff_map, count)
}

/// The schedule `r` after the changes `m`.
pub open spec fn apply_diff(r: Map<Seq<char>, (TaskID, u64)>, m: Map<Seq<char>, DiffFlag>) -> Map<
    Seq<char>,
    (TaskID, u64),
> {
    Map::new(
        |k: Seq<char>|
            if m.contains_key(k) {
                !(m[k] is Del)
            } else {
                r.contains_key(k)
            },
        |k: Seq<char>|
            if m.contains_key(k) {
                match m[k] {
                    DiffFlag::Add(t, v) => (t, v),
                    DiffFlag::Mod(t, v) => (t, v),
                    DiffFlag::Del(t) => (t, 0),
                }
            } else {
                r[k]
            },
    )
}

proof fn lemma_apply_step(r: Map<Seq<char>, (TaskID, u64)>, m: Map<Seq<char>, DiffFlag>, k: Seq<char>, f: DiffFlag)
    requires
        !m.contains_key(k),
    ensures
        apply_diff(r, m.insert(k, f)) == match f {
            DiffFlag::Del(_) => apply_diff(r, m).remove(k),
            DiffFlag::Add(t, v) => apply_diff(r, m).insert(k, (t, v)),
            DiffFlag::Mod(t, v) => apply_diff(r, m).insert(k, (t, v)),
        },
{
    let lhs = apply_diff(r, m.insert(k, f));
    let rhs = match f {
        DiffFlag::Del(_) => apply_diff(r, m).remove(k),
        DiffFlag::Add(t, v) => apply_diff(r, m).insert(k, (t, v)),
        DiffFlag::Mod(t, v) => apply_diff(r, m).insert(k, (t, v)),
    };
    assert(lhs =~= rhs);
}

/// Applies the changes `diff` to the schedule `cur`, in the order they are listed.
pub fn apply_changes(cur: &mut Vec<(String, (TaskID, u64))>, diff: &Vec<(String, DiffFlag)>)
    requires
        unique_keys(old(cur)@),
        unique_keys(diff@),
    ensures
        unique_keys(final(cur)@),
        assoc_map(final(cur)@) == apply_diff(assoc_map(old(cur)@), assoc_map(diff@)),
{
    let ghost r = assoc_map(cur@);
    proof {
        assert(apply_diff(r, assoc_map(diff@.take(0))) =~= r);
    }
    let mut i: usize = 0;
    while i < diff.len()
        invariant
            i <= diff@.len(),
            unique_keys(diff@),
            unique_keys(cur@),
            assoc_map(cur@) == apply_diff(r, assoc_map(diff@.take(i as int))),
        decreases diff@.len() - i,
    {
        let uid = &diff[i].0;
        let flag = diff[i].1;
        proof {
            let p = diff@.take(i as int);
            assert(diff@.take(i + 1).drop_last() =~= p);
            assert(diff@.take(i + 1).last() == diff@[i as int]);
            lemma_assoc_dom(p, uid@);
            if assoc_map(p).contains_key(uid@) {
                let b = choose|b: int| 0 <= b < p.len() && p[b].0@ == uid@;
                assert(diff@[b].0@ != diff@[i as int].0@);
            }
            lemma_apply_step(r, assoc_map(p), uid@, flag);
        }
        let found = find_key(cur, uid);
        match flag {
            DiffFlag::Del(_) => {
                match found {
                    Some(j) => {
                        proof {
                            lemma_assoc_remove(cur@, j as int);
                        }
                        cur.remove(j);
                    },
                    None => {
                        proof {
                            lemma_assoc_dom(cur@, uid@);
                            assert(assoc_map(cur@).remove(uid@) =~= assoc_map(cur@));
                        }
                    },
                }
            },
            DiffFlag::Add(t, v) | DiffFlag::Mod(t, v) => {
                let x = (uid.clone(), (t, v));
                match found {
                    Some(j) => {
                        proof {
                            lemma_assoc_update(cur@, j as int, x);
                        }
                        cur.set(j, x);
                    },
                    None => {
                        proof {
                            lemma_assoc_push(cur@, x);
                            assert forall|a: int, b: int|
                                0 <= a < cur@.len() + 1 && 0 <= b < cur@.len() + 1 && a != b
                                implies cur@.push(x)[a].0@ != cur@.push(x)[b].0@ by {}
                        }
                        cur.push(x);
                    },
                }
            },
        }
        i += 1;
    }
    proof {
        assert(diff@.take(diff@.len() as int) =~= diff@);
    }
}

/// `s` schedules exactly the intervals `d`.
pub open spec fn in_sync(s: Map<Seq<char>, (TaskID, u64)>, d: Map<Seq<char>, u64>) -> bool {
    &&& s.dom() == d.dom()
    &&& forall|k: Seq<char>| #[trigger] s.contains_key(k) ==> s[k].1 == d[k]
}

/// A well-formed schedule: positive intervals, distinct ids, each in `1..next`.
pub open spec fn schedule_wf(s: Map<Seq<char>, (TaskID, u64)>, next: int) -> bool {
    &&& forall|k: Seq<char>| #[trigger] s.contains_key(k) ==> 1 <= s[k].0 < next && s[k].1 > 0
    &&& forall|k1: Seq<char>, k2: Seq<char>|
        #[trigger] s.contains_key(k1) && #[trigger] s.contains_key(k2) && k1 != k2 ==> s[k1].0 != s[k2].0
}

/// Applying a diff of a schedule against `d` yields a schedule in step with `d` that keeps
/// the id of every profile it kept, and stays well formed when the new ids are fresh.
pub proof fn lemma_apply_diff(
    r: Map<Seq<char>, (TaskID, u64)>,
    d: Map<Seq<char>, u64>,
    m: Map<Seq<char>, DiffFlag>,
    c0: int,
    c1: int,
)
    requires
        is_diff(r, d, m, c0, c1),
    ensures
        in_sync(apply_diff(r, m), d),
        forall|k: Seq<char>|
            r.contains_key(k) && d.contains_key(k) ==> #[trigger] apply_diff(r, m)[k].0 == r[k].0,
        forall|k: Seq<char>|
            !r.contains_key(k) && d.contains_key(k) ==> c0 <= #[trigger] apply_diff(r, m)[k].0 < c1,
        schedule_wf(r, c0) && c0 >= 1 && (forall|k: Seq<char>| d.contains_key(k) ==> d[k] > 0)
            ==> schedule_wf(apply_diff(r, m), c1),
{
    let a = apply_diff(r, m);
    assert(a.dom() =~= d.dom());
    if schedule_wf(r, c0) && c0 >= 1 && (forall|k: Seq<char>| d.contains_key(k) ==> d[k] > 0) {
        assert forall|k1: Seq<char>, k2: Seq<char>|
            #[trigger] a.contains_key(k1) && #[trigger] a.contains_key(k2) && k1 != k2 implies a[k1].0
            != a[k2].0 by {
            assert(d.contains_key(k1) && d.contains_key(k2));
        }
    }
}

/// Errors of a reconciliation.
#[derive(Clone, Copy, Debug, PartialEq, Eq, Structural)]
pub enum TimerError {
    /// The task ids that a reconciliation may need would not fit in a `u64`.
    IdsExhausted,
}

/// The registry of scheduled profile-refresh jobs.
pub struct Timer {
    /// uid to (task id, interval in minutes) of each scheduled profile
    timer_map: Vec<(String, (TaskID, u64))>,
    /// the next task id to hand out
    timer_count: TaskID,
    /// whether the start-up catch-up has run
    initialized: bool,
}

impl Timer {
    /// What is scheduled: uid to (task id, interval in minutes).
    pub closed spec fn schedule(&self) -> Map<Seq<char>, (TaskID, u64)> {
        assoc_map(self.timer_map@)
    }

    /// The next task id to be handed out.
    pub closed spec fn next_id(&self) -> int {
        self.timer_count as int
    }

    pub closed spec fn is_initialized(&self) -> bool {
        self.initialized
    }

    pub closed spec fn wf(&self) -> bool {
        &&& unique_keys(self.timer_map@)
        &&& self.timer_count >= 1
        &&& schedule_wf(self.schedule(), self.next_id())
    }

    /// An empty registry whose first task id is 1.
    pub fn new() -> (r: Timer)
        ensures
            r.wf(),
            r.schedule() == Map::<Seq<char>, (TaskID, u64)>::empty(),
            r.next_id() == 1,
            !r.is_initialized(),
    {
        let r = Timer { timer_map: Vec::new(), timer_count: 1, initialized: false };
        proof {
            assert(r.schedule() =~= Map::<Seq<char>, (TaskID, u64)>::empty());
        }
        r
    }

    /// The changes that take the schedule to `new_map`; the ids of new jobs are drawn from
    /// this registry's counter, which moves past them.
    pub fn gen_diff(&mut self, new_map: &Vec<(String, u64)>) -> (r: Vec<(String, DiffFlag)>)
        requires
            old(self).wf(),
            unique_keys(new_map@),
            old(self).next_id() + new_map@.len() <= u64::MAX,
        ensures
            unique_keys(r@),
            is_diff(old(self).schedule(), assoc_map(new_map@), assoc_map(r@), old(self).next_id(), final(self).next_id()),
            final(self).schedule() == old(self).schedule(),
            final(self).is_initialized() == old(self).is_initialized(),
            final(self).wf(),
    {
        let (diff_map, count) = diff_against(&self.timer_map, new_map, self.timer_count);
        self.timer_count = count;
        diff_map
    }

    /// Brings the schedule in step with `profiles` and returns the changes it made.
    pub fn refresh(&mut self, profiles: &Vec<ProfileItem>) -> (r: Result<Vec<(String, DiffFlag)>, TimerError>)
        requires
            old(self).wf(),
        ensures
            final(self).wf(),
            final(self).is_initialized() == old(self).is_initialized(),
            r is Err <==> old(self).next_id() + profiles@.len() > u64::MAX,
            r is Err ==> r == Err::<Vec<(String, DiffFlag)>, TimerError>(TimerError::IdsExhausted)
                && final(self).schedule() == old(self).schedule()
                && final(self).next_id() == old(self).next_id(),
            r matches Ok(diff) ==> {
                &&& unique_keys(diff@)
                &&& is_diff(old(self).schedule(), desired_map(profiles@), assoc_map(diff@), old(self).next_id(), final(self).next_id())
                &&& final(self).schedule() == apply_diff(old(self).schedule(), assoc_map(diff@))
                &&& in_sync(final(self).schedule(), desired_map(profiles@))
            },
    {
        if profiles.len() as u128 + self.timer_count as u128 > u64::MAX as u128 {
            return Err(TimerError::IdsExhausted);
        }
        let new_map = gen_map(profiles);
        let diff_map = self.gen_diff(&new_map);
        let ghost s0 = assoc_map(self.timer_map@);
        apply_changes(&mut self.timer_map, &diff_map);
        proof {
            let d = assoc_map(new_map@);
            assert forall|k: Seq<char>| d.contains_key(k) implies d[k] > 0 by {
                lemma_assoc_dom(new_map@, k);
                let a = choose|a: int| 0 <= a < new_map@.len() && new_map@[a].0@ == k;
                lemma_assoc_index(new_map@, a);
            }
            lemma_apply_diff(s0, assoc_map(new_map@), assoc_map(diff_map@), old(self).next_id(), self.next_id());
        }
        Ok(diff_map)
    }
}

/// An operation on the task runtime.
#[derive(Clone, Debug, PartialEq, Eq)]
pub enum TaskAction {
    /// Remove the job with this id.
    Remove(TaskID),
    /// Register a job with this id, repeating every so many minutes, at most one run at a
    /// time, that refreshes the profile with this uid.
    Register(TaskID, u64, String),
    /// Run the job with this id once now, keeping its schedule.
    Advance(TaskID),
}

/// What the task runtime must do for one change.
pub open spec fn flag_actions(uid: String, f: DiffFlag) -> Seq<TaskAction> {
    match f {
        DiffFlag::Del(t) => seq![TaskAction::Remove(t)],
        DiffFlag::Add(t, v) => seq![TaskAction::Register(t, v, uid)],
        DiffFlag::Mod(t, v) => seq![TaskAction::Remove(t), TaskAction::Register(t, v, uid)],
    }
}

pub open spec fn diff_actions(diff: Seq<(String, DiffFlag)>) -> Seq<TaskAction>
    decreases diff.len(),
{
    if diff.len() == 0 {
        Seq::empty()
    } else {
        diff_actions(diff.drop_last()) + flag_actions(diff.last().0, diff.last().1)
    }
}

/// The task runtime operations that carry out `diff`, in its order: a rescheduled job is
/// removed and registered again under the same id.
pub fn task_actions(diff: &Vec<(String, DiffFlag)>) -> (r: Vec<TaskAction>)
    ensures
        r@ == diff_actions(diff@),
{
    let mut acts: Vec<TaskAction> = Vec::new();
    let mut i: usize = 0;
    while i < diff.len()
        invariant
            i <= diff@.len(),
            acts@ == diff_actions(diff@.take(i as int)),
        decreases diff@.len() - i,
    {
        proof {
            assert(diff@.take(i + 1).drop_last() =~= diff@.take(i as int));
            assert(diff@.take(i + 1).last() == diff@[i as int]);
        }
        let ghost before = acts@;
        let uid = diff[i].0.clone();
        match diff[i].1 {
            DiffFlag::Del(t) => {
                acts.push(TaskAction::Remove(t));
            },
            DiffFlag::Add(t, v) => {
                acts.push(TaskAction::Register(t, v, uid));
            },
            DiffFlag::Mod(t, v) => {
                acts.push(TaskAction::Remove(t));
                acts.push(TaskAction::Register(t, v, uid));
            },
        }
        proof {
            assert(acts@ =~= before + flag_actions(diff@[i as int].0, diff@[i as int].1));
        }
        i += 1;
    }
    proof {
        assert(diff@.take(diff@.len() as int) =~= diff@);
    }
    acts
}

/// A profile whose last update lies a whole interval or more before `now` (seconds).
pub open spec fn overdue(p: ProfileItem, now: int) -> bool {
    &&& interval_of(p) > 0
    &&& p.updated is Some
    &&& now - p.updated->Some_0 >= interval_of(p) * 60
}

/// One immediate run for each overdue profile that has a job in `s`, in profile order.
pub open spec fn catch_up(ps: Seq<ProfileItem>, s: Map<Seq<char>, (TaskID, u64)>, now: int) -> Seq<TaskAction>
    decreases ps.len(),
{
    if ps.len() == 0 {
        Seq::empty()
    } else {
        let p = ps.last();
        catch_up(ps.drop_last(), s, now) + if overdue(p, now) && s.contains_key(p.uid@) {
            seq![TaskAction::Advance(s[p.uid@].0)]
        } else {
            Seq::empty()
        }
    }
}

/// What a first initialization against `ps` at time `now` does: one reconciliation, whose
/// runtime operations come first, then the catch-up runs on the new schedule.
pub open spec fn initialized_by(pre: Timer, post: Timer, ps: Seq<ProfileItem>, now: int, acts: Seq<TaskAction>) -> bool {
    exists|diff: Seq<(String, DiffFlag)>|
        {
            &&& unique_keys(diff)
            &&& is_diff(pre.schedule(), desired_map(ps), assoc_map(diff), pre.next_id(), post.next_id())
            &&& post.schedule() == apply_diff(pre.schedule(), assoc_map(diff))
            &&& acts == diff_actions(diff) + catch_up(ps, post.schedule(), now)
        }
}

/// Relies on chrono's Local::now and DateTime::timestamp: the current time in seconds since
/// the Unix epoch. Nothing is known of the value.
#[verifier::external_body]
fn now_timestamp() -> (r: i64) {
    chrono::Local::now().timestamp()
}

impl Timer {
    /// The catch-up runs for `profiles` at time `now` (seconds since the Unix epoch).
    pub fn catch_up_actions(&self, profiles: &Vec<ProfileItem>, now: i64) -> (r: Vec<TaskAction>)
        requires
            self.wf(),
        ensures
            r@ == catch_up(profiles@, self.schedule(), now as int),
    {
        let mut acts: Vec<TaskAction> = Vec::new();
        let mut i: usize = 0;
        while i < profiles.len()
            invariant
                i <= profiles@.len(),
                self.wf(),
                acts@ == catch_up(profiles@.take(i as int), self.schedule(), now as int),
            decreases profiles@.len() - i,
        {
            let item = &profiles[i];
            proof {
                assert(profiles@.take(i + 1).drop_last() =~= profiles@.take(i as int));
                assert(profiles@.take(i + 1).last() == profiles@[i as int]);
            }
            let interval: u64 = match item.update_interval {
                Some(v) => v,
                None => 0,
            };
            let ghost before = acts@;
            if interval > 0 {
                if let Some(updated) = item.updated {
                    if now as i128 - updated as i128 >= interval as i128 * 60 {
                        match find_key(&self.timer_map, &item.uid) {
                            Some(j) => {
                                proof {
                                    lemma_assoc_index(self.timer_map@, j as int);
                                }
                                acts.push(TaskAction::Advance(self.timer_map[j].1.0));
                            },
                            None => {
                                proof {
                                    lemma_assoc_dom(self.timer_map@, item.uid@);
                                }
                            },
                        }
                    }
                }
            }
            proof {
                let p = profiles@[i as int];
                if overdue(p, now as int) && self.schedule().contains_key(p.uid@) {
                    assert(acts@ =~= before + seq![TaskAction::Advance(self.schedule()[p.uid@].0)]);
                } else {
                    assert(acts@ =~= before + Seq::<TaskAction>::empty());
                }
            }
            i += 1;
        }
        proof {
            assert(profiles@.take(profiles@.len() as int) =~= profiles@);
        }
        acts
    }

    /// First-time start-up at time `now`: reconciles against `profiles`, then runs at once
    /// every job whose profile is overdue. Once it has succeeded, a later call does nothing.
    pub fn init_at(&mut self, profiles: &Vec<ProfileItem>, now: i64) -> (r: Result<Vec<TaskAction>, TimerError>)
        requires
            old(self).wf(),
        ensures
            final(self).wf(),
            old(self).is_initialized() ==> (r matches Ok(acts) && acts@.len() == 0),
            old(self).is_initialized() ==> final(self).schedule() == old(self).schedule()
                && final(self).next_id() == old(self).next_id() && final(self).is_initialized(),
            !old(self).is_initialized() ==> {
                &&& r is Err <==> old(self).next_id() + profiles@.len() > u64::MAX
                &&& r is Err ==> r == Err::<Vec<TaskAction>, TimerError>(TimerError::IdsExhausted)
                    && final(self).schedule() == old(self).schedule()
                    && final(self).next_id() == old(self).next_id() && !final(self).is_initialized()
                &&& r matches Ok(acts) ==> final(self).is_initialized()
                    && initialized_by(*old(self), *final(self), profiles@, now as int, acts@)
                    && in_sync(final(self).schedule(), desired_map(profiles@))
            },
    {
        if self.initialized {
            return Ok(Vec::new());
        }
        let diff = match self.refresh(profiles) {
            Ok(d) => d,
            Err(e) => {
                return Err(e);
            },
        };
        let mut acts = task_actions(&diff);
        let mut advances = self.catch_up_actions(profiles, now);
        acts.append(&mut advances);
        self.initialized = true;
        proof {
            assert(self.schedule() == apply_diff(old(self).schedule(), assoc_map(diff@)));
            assert(initialized_by(*old(self), *self, profiles@, now as int, acts@));
        }
        Ok(acts)
    }

    /// First-time start-up at the current time; see `init_at`.
    pub fn init(&mut self, profiles: &Vec<ProfileItem>) -> (r: Result<Vec<TaskAction>, TimerError>)
        requires
            old(self).wf(),
        ensures
            final(self).wf(),
            old(self).is_initialized() ==> (r matches Ok(acts) && acts@.len() == 0),
            old(self).is_initialized() ==> final(self).schedule() == old(self).schedule()
                && final(self).next_id() == old(self).next_id() && final(self).is_initialized(),
            !old(self).is_initialized() ==> {
                &&& r is Err <==> old(self).next_id() + profiles@.len() > u64::MAX
                &&& r is Err ==> final(self).schedule() == old(self).schedule()
                    && final(self).next_id() == old(self).next_id() && !final(self).is_initialized()
                &&& r matches Ok(acts) ==> final(self).is_initialized()
                    && (exists|now: i64| initialized_by(*old(self), *final(self), profiles@, now as int, acts@))
                    && in_sync(final(self).schedule(), desired_map(profiles@))
            },
    {
        if self.initialized {
            return Ok(Vec::new());
        }
        let now = now_timestamp();
        self.init_at(profiles, now)
    }
}

/// Reconciling a schedule that is already in step with the desired intervals changes
/// nothing and hands out no id: refreshing twice against the same profiles yields an empty
/// diff the second time.
pub proof fn lemma_refresh_idempotent(
    s: Map<Seq<char>, (TaskID, u64)>,
    d: Map<Seq<char>, u64>,
    diff: Seq<(String, DiffFlag)>,
    c0: int,
    c1: int,
)
    requires
        in_sync(s, d),
        is_diff(s, d, assoc_map(diff), c0, c1),
    ensures
        diff.len() == 0,
        c1 == c0,
{
    if diff.len() > 0 {
        lemma_assoc_dom(diff, diff[0].0@);
        let k = diff[0].0@;
        assert(s.contains_key(k) ==> d.contains_key(k));
    }
    if c1 > c0 {
        assert(id_used(assoc_map(diff), c0));
    }
}

/// Task ids are never reused: every id that a reconciliation hands out is at least the
/// counter it started from, so it differs from every id the schedule held, and the counter
/// never goes back.
pub proof fn lemma_ids_fresh(
    s: Map<Seq<char>, (TaskID, u64)>,
    d: Map<Seq<char>, u64>,
    m: Map<Seq<char>, DiffFlag>,
    c0: int,
    c1: int,
)
    requires
        schedule_wf(s, c0),
        is_diff(s, d, m, c0, c1),
    ensures
        c0 <= c1,
        forall|k: Seq<char>|
            #[trigger] m.contains_key(k) && m[k] is Add ==> c0 <= m[k]->Add_0 < c1,
        forall|k: Seq<char>, j: Seq<char>|
            #[trigger] m.contains_key(k) && m[k] is Add && #[trigger] s.contains_key(j) ==> m[k]->Add_0
                != s[j].0,
{
    assert forall|k: Seq<char>| #[trigger] m.contains_key(k) && m[k] is Add implies c0 <= m[k]->Add_0 < c1 by {
        if needs_change(s, d, k) {
            assert(m[k] == change_of(s, d, k));
        }
    }
}

impl Timer {
    /// The task id and interval scheduled for `uid`, if any.
    pub fn task_of(&self, uid: &String) -> (r: Option<(TaskID, u64)>)
        requires
            self.wf(),
        ensures
            r == (if self.schedule().contains_key(uid@) {
                Some(self.schedule()[uid@])
            } else {
                None::<(TaskID, u64)>
            }),
    {
        match find_key(&self.timer_map, uid) {
            Some(j) => {
                proof {
                    lemma_assoc_index(self.timer_map@, j as int);
                }
                Some(self.timer_map[j].1)
            },
            None => {
                proof {
                    lemma_assoc_dom(self.timer_map@, uid@);
                }
                None
            },
        }
    }

    /// How many profiles are scheduled.
    pub fn scheduled_count(&self) -> (r: usize)
        requires
            self.wf(),
        ensures
            r == self.schedule().dom().len(),
    {
        proof {
            lemma_assoc_len(self.timer_map@);
        }
        self.timer_map.len()
    }

    /// The id the next new job will get.
    pub fn next_task_id(&self) -> (r: TaskID)
        ensures
            r == self.next_id(),
    {
        self.timer_count
    }

    pub fn initialized(&self) -> (r: bool)
        ensures
            r == self.is_initialized(),
    {
        self.initialized
    }
}

} // verus!
