//! Which messages leave the hot bus for the archive, and where they go.

use vstd::prelude::*;

use crate::clock;
use crate::clock::Moment;
use crate::mesh::message;
use crate::mesh::message::Letter;
use crate::package;
use crate::text;

verus! {

// ---- which ----------------------------------------------------------------

/// Whether a message of that age is old enough. One whose age is unknown never
/// is.
pub open spec fn is_old(age: Option<i64>, older_than: i64) -> bool {
    age is Some && age->0 >= older_than
}

/// How many of the oldest messages are not among the newest `keep`.
pub open spec fn unprotected(n: nat, keep: nat) -> nat {
    if keep >= n {
        0
    } else {
        (n - keep) as nat
    }
}

/// The places of the old messages among the first `n`.
pub open spec fn old_among(ages: Seq<Option<i64>>, n: nat, older_than: i64) -> Seq<usize>
    decreases n,
{
    if n == 0 {
        Seq::empty()
    } else {
        let before = old_among(ages, (n - 1) as nat, older_than);
        if is_old(ages[n - 1], older_than) {
            before.push((n - 1) as usize)
        } else {
            before
        }
    }
}

/// The places of the messages to archive, the oldest first: all that are old
/// enough, except the newest `keep`.
pub fn select_archive(ages_days: &[Option<i64>], keep: usize, older_than_days: i64) -> (r: Vec<
    usize,
>)
    ensures
        r@ == old_among(
            ages_days@,
            unprotected(ages_days@.len(), keep as nat),
            older_than_days,
        ),
{
    let n: usize = if keep >= ages_days.len() {
        0
    } else {
        ages_days.len() - keep
    };
    let mut out: Vec<usize> = Vec::new();
    let mut i: usize = 0;
    while i < n
        invariant
            i <= n <= ages_days@.len(),
            out@ == old_among(ages_days@, i as nat, older_than_days),
        decreases n - i,
    {
        match ages_days[i] {
            Some(a) => {
                if a >= older_than_days {
                    out.push(i);
                }
            },
            None => {},
        }
        i = i + 1;
    }
    out
}

/// The places to archive are those of the messages that are old enough and not
/// among the newest `keep`: no others, in their order.
pub proof fn archive_takes_the_old(ages: Seq<Option<i64>>, n: nat, older_than: i64)
    requires
        n <= ages.len(),
        n <= usize::MAX,
    ensures
        forall|k: int|
            0 <= k < old_among(ages, n, older_than).len() ==> {
                let i = #[trigger] old_among(ages, n, older_than)[k];
                i < n && is_old(ages[i as int], older_than)
            },
        forall|i: int|
            0 <= i < n && is_old(#[trigger] ages[i], older_than) ==> old_among(
                ages,
                n,
                older_than,
            ).contains(i as usize),
        forall|j: int, k: int|
            0 <= j < k < old_among(ages, n, older_than).len() ==> old_among(ages, n, older_than)[j]
                < old_among(ages, n, older_than)[k],
    decreases n,
{
    if n > 0 {
        let m = (n - 1) as nat;
        archive_takes_the_old(ages, m, older_than);
        let a = old_among(ages, m, older_than);
        let r = old_among(ages, n, older_than);
        assert forall|k: int| 0 <= k < r.len() implies {
            let i = #[trigger] r[k];
            i < n && is_old(ages[i as int], older_than)
        } by {
            if k < a.len() {
                assert(r[k] == a[k]);
            }
        }
        assert forall|i: int| 0 <= i < n && is_old(#[trigger] ages[i], older_than) implies r.contains(
            i as usize,
        ) by {
            if i < m {
                let k = choose|k: int| 0 <= k < a.len() && a[k] == i as usize;
                assert(r[k] == a[k]);
            } else {
                assert(r[a.len() as int] == i as usize);
            }
        }
        assert forall|j: int, k: int| 0 <= j < k < r.len() implies r[j] < r[k] by {
            assert(r[j] == a[j]);
            if k < a.len() {
                assert(r[k] == a[k]);
            }
        }
    }
}

/// The ages of those among the first `n` messages that are not old.
pub open spec fn young_among(ages: Seq<Option<i64>>, n: nat, older_than: i64) -> Seq<Option<i64>>
    decreases n,
{
    if n == 0 {
        Seq::empty()
    } else {
        let before = young_among(ages, (n - 1) as nat, older_than);
        if is_old(ages[n - 1], older_than) {
            before
        } else {
            before.push(ages[n - 1])
        }
    }
}

/// The ages of the messages that stay.
pub open spec fn staying(ages: Seq<Option<i64>>, keep: nat, older_than: i64) -> Seq<Option<i64>> {
    let n = unprotected(ages.len(), keep);
    young_among(ages, n, older_than) + ages.skip(n as int)
}

proof fn lemma_young(ages: Seq<Option<i64>>, n: nat, older_than: i64)
    requires
        n <= ages.len(),
    ensures
        young_among(ages, n, older_than).len() + old_among(ages, n, older_than).len() == n,
        forall|i: int|
            0 <= i < young_among(ages, n, older_than).len() ==> !is_old(
                #[trigger] young_among(ages, n, older_than)[i],
                older_than,
            ),
    decreases n,
{
    if n > 0 {
        let m = (n - 1) as nat;
        lemma_young(ages, m, older_than);
        let a = young_among(ages, m, older_than);
        let r = young_among(ages, n, older_than);
        assert forall|i: int| 0 <= i < r.len() implies !is_old(#[trigger] r[i], older_than) by {
            if i < a.len() {
                assert(r[i] == a[i]);
            }
        }
    }
}

proof fn lemma_none_old(ages: Seq<Option<i64>>, n: nat, older_than: i64)
    requires
        n <= ages.len(),
        forall|i: int| 0 <= i < n ==> !is_old(#[trigger] ages[i], older_than),
    ensures
        old_among(ages, n, older_than) == Seq::<usize>::empty(),
    decreases n,
{
    if n > 0 {
        lemma_none_old(ages, (n - 1) as nat, older_than);
        assert(!is_old(ages[n - 1], older_than));
    }
}

/// Archiving twice is archiving once: what stays is not archived by the same
/// rule. The hot bus always keeps the newest `keep` messages.
pub proof fn archiving_is_idempotent(ages: Seq<Option<i64>>, keep: nat, older_than: i64)
    ensures
        ({
            let rest = staying(ages, keep, older_than);
            &&& old_among(rest, unprotected(rest.len(), keep), older_than) == Seq::<usize>::empty()
            &&& rest.len() + old_among(
                ages,
                unprotected(ages.len(), keep),
                older_than,
            ).len() == ages.len()
            &&& rest.len() >= keep || rest.len() == ages.len()
        }),
{
    let n = unprotected(ages.len(), keep);
    let young = young_among(ages, n, older_than);
    let rest = staying(ages, keep, older_than);
    lemma_young(ages, n, older_than);
    let m = unprotected(rest.len(), keep);
    assert forall|i: int| 0 <= i < m implies !is_old(#[trigger] rest[i], older_than) by {
        assert(rest[i] == young[i]);
    }
    lemma_none_old(rest, m, older_than);
}

// ---- when -----------------------------------------------------------------

/// A message file in the hot bus.
pub struct Filed {
    pub name: String,
    pub id: String,
    pub ts: String,
    /// When the file was changed, in seconds since 1970.
    pub mtime: Option<i64>,
}

/// What a `Filed` says.
pub struct Slip {
    pub name: Seq<char>,
    pub id: Seq<char>,
    pub ts: Seq<char>,
    pub mtime: Option<i64>,
}

impl View for Filed {
    type V = Slip;

    open spec fn view(&self) -> Slip {
        Slip { name: self.name@, id: self.id@, ts: self.ts@, mtime: self.mtime }
    }
}

/// What the files of a list say.
pub open spec fn slips(v: Seq<Filed>) -> Seq<Slip> {
    v.map_values(|f: Filed| f@)
}

/// Whether a file is older than another: by its time, then by its identifier.
pub open spec fn older(a: Slip, b: Slip) -> bool {
    text::before(a.ts, b.ts) || (a.ts == b.ts && text::before(a.id, b.id))
}

/// A list with one more file, behind all that it is not older than.
pub open spec fn placed(v: Seq<Slip>, x: Slip) -> Seq<Slip>
    decreases v.len(),
{
    if v.len() == 0 || !older(x, v.last()) {
        v.push(x)
    } else {
        placed(v.drop_last(), x).push(v.last())
    }
}

/// The files of a list, the oldest first.
pub open spec fn oldest_first(v: Seq<Slip>) -> Seq<Slip>
    decreases v.len(),
{
    if v.len() == 0 {
        Seq::empty()
    } else {
        placed(oldest_first(v.drop_last()), v.last())
    }
}

proof fn lemma_placed(v: Seq<Slip>, x: Slip, k: int)
    requires
        0 <= k <= v.len(),
        k == 0 || !older(x, v[k - 1]),
        forall|i: int| k <= i < v.len() ==> older(x, v[i]),
    ensures
        placed(v, x) == v.take(k).push(x) + v.skip(k),
    decreases v.len(),
{
    if k == v.len() {
        assert(v.take(k).push(x) + v.skip(k) =~= v.push(x));
    } else {
        let w = v.drop_last();
        lemma_placed(w, x, k);
        assert(w.take(k) =~= v.take(k));
        assert(w.skip(k).push(v.last()) =~= v.skip(k));
        assert(placed(v, x) =~= v.take(k).push(x) + v.skip(k));
    }
}

/// The files of a list, the oldest first.
pub fn sort_filed(v: &Vec<Filed>) -> (r: Vec<Filed>)
    ensures
        slips(r@) == oldest_first(slips(v@)),
{
    let ghost all = slips(v@);
    let mut out: Vec<Filed> = Vec::new();
    let mut i: usize = 0;
    assert(all.take(0) =~= Seq::empty());
    assert(slips(out@) =~= Seq::empty());
    while i < v.len()
        invariant
            i <= v@.len(),
            all == slips(v@),
            slips(out@) == oldest_first(all.take(i as int)),
        decreases v@.len() - i,
    {
        let f = Filed {
            name: v[i].name.clone(),
            id: v[i].id.clone(),
            ts: v[i].ts.clone(),
            mtime: v[i].mtime,
        };
        let ghost before = slips(out@);
        let mut k: usize = out.len();
        while k > 0 && (text::is_before(f.ts.as_str(), out[k - 1].ts.as_str()) || (text::same(
            f.ts.as_str(),
            out[k - 1].ts.as_str(),
        ) && text::is_before(f.id.as_str(), out[k - 1].id.as_str())))
            invariant
                k <= out@.len(),
                before == slips(out@),
                forall|j: int| k <= j < out@.len() ==> older(f@, #[trigger] before[j]),
            decreases k,
        {
            k = k - 1;
            assert(before[k as int] == out@[k as int]@);
        }
        proof {
            assert(all.take(i + 1).drop_last() =~= all.take(i as int));
            assert(all.take(i + 1).last() == f@);
            if k > 0 {
                assert(before[k - 1] == out@[k - 1]@);
            }
            lemma_placed(before, f@, k as int);
        }
        out.insert(k, f);
        assert(slips(out@) =~= before.take(k as int).push(f@) + before.skip(k as int));
        i = i + 1;
    }
    assert(all.take(i as int) =~= all);
    out
}

/// When a message was written: what it says itself, or when its file was
/// changed.
pub open spec fn written_at(ts: Seq<char>, mtime: Option<i64>) -> Option<Moment> {
    match clock::rfc3339_moment(ts) {
        Some(m) => Some(m),
        None => match mtime {
            Some(secs) => if clock::FIRST_SECOND <= secs <= clock::LAST_SECOND {
                Some(Moment { secs, nanos: 0 })
            } else {
                None
            },
            None => None,
        },
    }
}

/// When a message was written; `None` where neither it nor its file says.
pub fn msg_datetime(ts: &str, mtime: Option<i64>) -> (r: Option<Moment>)
    ensures
        r == written_at(ts@, mtime),
        r matches Some(m) ==> m.wf(),
{
    match clock::parse_rfc3339(ts) {
        Some(m) => Some(m),
        None => match mtime {
            Some(secs) => clock::moment_at(secs),
            None => None,
        },
    }
}

/// The age of a file in whole days.
pub open spec fn age_of(f: Slip, now: Moment) -> Option<i64> {
    match written_at(f.ts, f.mtime) {
        Some(m) => Some(clock::days_between(now, m) as i64),
        None => None,
    }
}

/// The ages of the files of a list.
pub open spec fn ages_of(v: Seq<Slip>, now: Moment) -> Seq<Option<i64>> {
    v.map_values(|f: Slip| age_of(f, now))
}

/// The ages of the files of a list, in whole days.
pub fn file_ages(v: &Vec<Filed>, now: Moment) -> (r: Vec<Option<i64>>)
    requires
        now.wf(),
    ensures
        r@ == ages_of(slips(v@), now),
{
    let ghost all = ages_of(slips(v@), now);
    let mut out: Vec<Option<i64>> = Vec::new();
    let mut i: usize = 0;
    while i < v.len()
        invariant
            i <= v@.len(),
            now.wf(),
            all == ages_of(slips(v@), now),
            out@ == all.take(i as int),
        decreases v@.len() - i,
    {
        let age: Option<i64> = match msg_datetime(v[i].ts.as_str(), v[i].mtime) {
            Some(m) => Some(clock::whole_days(now, m)),
            None => None,
        };
        assert(slips(v@)[i as int] == v@[i as int]@);
        assert(all[i as int] == age);
        out.push(age);
        assert(out@ =~= all.take(i + 1));
        i = i + 1;
    }
    assert(all.take(i as int) =~= all);
    out
}

// ---- where ----------------------------------------------------------------

/// A move into the archive.
pub struct Shelving {
    /// The file name in the hot bus.
    pub name: String,
    pub id: String,
    /// Its age in whole days.
    pub age: i64,
    /// The directory of its month, and the file in it, from the repository.
    pub dir: String,
    pub dest: String,
}

/// What a `Shelving` says.
pub struct Shelved {
    pub name: Seq<char>,
    pub id: Seq<char>,
    pub age: int,
    pub dir: Seq<char>,
    pub dest: Seq<char>,
}

impl View for Shelving {
    type V = Shelved;

    open spec fn view(&self) -> Shelved {
        Shelved {
            name: self.name@,
            id: self.id@,
            age: self.age as int,
            dir: self.dir@,
            dest: self.dest@,
        }
    }
}

/// Where a file goes in the archive: under the month it was written in.
pub open spec fn shelved(f: Slip, now: Moment) -> Shelved {
    let m = written_at(f.ts, f.mtime)->0;
    let month = clock::month_of(m.secs as int);
    let dir = "archive/"@ + clock::month_text(month.0, month.1);
    Shelved {
        name: f.name,
        id: f.id,
        age: clock::days_between(now, m),
        dir,
        dest: dir + "/"@ + f.name,
    }
}

/// Where the files at those places go.
pub open spec fn all_shelved(v: Seq<Slip>, picks: Seq<usize>, now: Moment) -> Seq<Shelved> {
    picks.map_values(|i: usize| shelved(v[i as int], now))
}

/// The moves of a run over the files of the hot bus: those that are at least
/// `older_than` days old, except the newest `keep`.
pub open spec fn planned(files: Seq<Slip>, now: Moment, keep: nat, older_than: i64) -> Seq<Shelved> {
    let v = oldest_first(files);
    all_shelved(v, old_among(ages_of(v, now), unprotected(v.len(), keep), older_than), now)
}

/// What the moves of a list say.
pub open spec fn moves(v: Seq<Shelving>) -> Seq<Shelved> {
    v.map_values(|s: Shelving| s@)
}

/// The moves that archive the files of the hot bus which are at least
/// `older_than` days old, except the newest `keep`.
pub fn plan_archive(files: &Vec<Filed>, now: Moment, keep: usize, older_than: i64) -> (r: Vec<
    Shelving,
>)
    requires
        now.wf(),
    ensures
        moves(r@) == planned(slips(files@), now, keep as nat, older_than),
{
    let sorted = sort_filed(files);
    let ghost v = oldest_first(slips(files@));
    let ages = file_ages(&sorted, now);
    let picks = select_archive(ages.as_slice(), keep, older_than);
    let ghost all = all_shelved(v, picks@, now);
    proof {
        archive_takes_the_old(ages@, unprotected(v.len(), keep as nat), older_than);
    }
    let mut out: Vec<Shelving> = Vec::new();
    let mut i: usize = 0;
    assert(moves(out@) =~= all.take(0));
    while i < picks.len()
        invariant
            i <= picks@.len(),
            now.wf(),
            v == slips(sorted@),
            ages@ == ages_of(v, now),
            all == all_shelved(v, picks@, now),
            forall|k: int|
                0 <= k < picks@.len() ==> (#[trigger] picks@[k]) < v.len() && is_old(
                    ages@[picks@[k] as int],
                    older_than,
                ),
            moves(out@) == all.take(i as int),
        decreases picks@.len() - i,
    {
        let f = &sorted[picks[i]];
        assert(v[picks@[i as int] as int] == f@);
        assert(ages@[picks@[i as int] as int] == age_of(f@, now));
        match msg_datetime(f.ts.as_str(), f.mtime) {
            Some(m) => {
                let mut dir = String::from_str("archive/");
                dir.append(clock::year_month(m.secs).as_str());
                let mut dest = dir.clone();
                dest.append("/");
                dest.append(f.name.as_str());
                let s = Shelving {
                    name: f.name.clone(),
                    id: f.id.clone(),
                    age: clock::whole_days(now, m),
                    dir,
                    dest,
                };
                assert(s@ == all[i as int]);
                let ghost was = out@;
                out.push(s);
                assert(moves(out@) =~= moves(was).push(s@));
                assert(moves(out@) =~= all.take(i + 1));
            },
            None => {
                assert(false);
            },
        }
        i = i + 1;
    }
    assert(all.take(i as int) =~= all);
    out
}

// ---- laws of a run --------------------------------------------------------

/// Whether the files of a list have names of their own.
pub open spec fn names_apart(v: Seq<Slip>) -> bool {
    forall|i: int, j: int|
        0 <= i < v.len() && 0 <= j < v.len() && i != j ==> (#[trigger] v[i]).name != (
        #[trigger] v[j]).name
}

/// Whether no file of a list is older than one before it.
pub open spec fn by_age(v: Seq<Slip>) -> bool {
    forall|i: int, j: int| 0 <= i < j < v.len() ==> !older(#[trigger] v[j], #[trigger] v[i])
}

/// Whether a file of that name is moved.
pub open spec fn is_moved(plan: Seq<Shelved>, name: Seq<char>) -> bool {
    exists|k: int| 0 <= k < plan.len() && (#[trigger] plan[k]).name == name
}

proof fn lemma_older_asymmetric(a: Slip, b: Slip)
    requires
        older(a, b),
    ensures
        !older(b, a),
{
    text::lemma_before_total(a.ts, b.ts);
    text::lemma_before_total(a.id, b.id);
    text::lemma_before_irreflexive(a.ts);
}

proof fn lemma_not_older_transitive(a: Slip, b: Slip, c: Slip)
    requires
        !older(b, a),
        !older(c, b),
    ensures
        !older(c, a),
{
    text::lemma_before_irreflexive(a.ts);
    text::lemma_before_total(a.ts, b.ts);
    text::lemma_before_total(b.ts, c.ts);
    text::lemma_before_total(a.ts, c.ts);
    text::lemma_before_total(a.id, b.id);
    text::lemma_before_total(b.id, c.id);
    text::lemma_before_total(a.id, c.id);
    if text::before(a.ts, b.ts) && text::before(b.ts, c.ts) {
        text::lemma_before_transitive(a.ts, b.ts, c.ts);
    }
    if text::before(a.id, b.id) && text::before(b.id, c.id) {
        text::lemma_before_transitive(a.id, b.id, c.id);
    }
}

proof fn lemma_placed_somewhere(v: Seq<Slip>, x: Slip) -> (k: int)
    ensures
        0 <= k <= v.len(),
        placed(v, x) == v.take(k).push(x) + v.skip(k),
        k > 0 ==> !older(x, v[k - 1]),
        forall|i: int| k <= i < v.len() ==> older(x, #[trigger] v[i]),
    decreases v.len(),
{
    if v.len() == 0 || !older(x, v.last()) {
        let k = v.len() as int;
        assert(v.take(k).push(x) + v.skip(k) =~= v.push(x));
        k
    } else {
        let w = v.drop_last();
        let k = lemma_placed_somewhere(w, x);
        assert(w.take(k) =~= v.take(k));
        assert(placed(v, x) =~= v.take(k).push(x) + v.skip(k));
        assert forall|i: int| k <= i < v.len() implies older(x, #[trigger] v[i]) by {
            if i < w.len() {
                assert(older(x, w[i]));
            }
        }
        k
    }
}

proof fn lemma_placed_by_age(v: Seq<Slip>, x: Slip)
    requires
        by_age(v),
    ensures
        by_age(placed(v, x)),
{
    let k = lemma_placed_somewhere(v, x);
    let r = placed(v, x);
    assert forall|i: int, j: int| 0 <= i < j < r.len() implies !older(#[trigger] r[j], #[trigger] r[i]) by {
        if j < k {
            assert(r[i] == v[i] && r[j] == v[j]);
        } else if j == k {
            assert(r[i] == v[i]);
            assert(r[j] == x);
            if i < k - 1 {
                assert(!older(v[k - 1], v[i]));
                lemma_not_older_transitive(v[i], v[k - 1], x);
            }
        } else {
            assert(r[j] == v[j - 1]);
            if i < k {
                assert(r[i] == v[i]);
            } else if i == k {
                assert(r[i] == x);
                lemma_older_asymmetric(x, v[j - 1]);
            } else {
                assert(r[i] == v[i - 1]);
            }
        }
    }
}

proof fn lemma_oldest_first(v: Seq<Slip>)
    ensures
        oldest_first(v).len() == v.len(),
        by_age(oldest_first(v)),
        forall|f: Slip| #[trigger] oldest_first(v).contains(f) <==> v.contains(f),
        names_apart(v) ==> names_apart(oldest_first(v)),
    decreases v.len(),
{
    if v.len() > 0 {
        let w = v.drop_last();
        let x = v.last();
        let o = oldest_first(w);
        let r = oldest_first(v);
        lemma_oldest_first(w);
        lemma_placed_by_age(o, x);
        let k = lemma_placed_somewhere(o, x);
        assert forall|f: Slip| #[trigger] r.contains(f) <==> v.contains(f) by {
            if r.contains(f) {
                let i = choose|i: int| 0 <= i < r.len() && r[i] == f;
                if i == k {
                    assert(v[v.len() - 1] == f);
                } else {
                    if i < k {
                        assert(o[i] == f);
                    } else {
                        assert(o[i - 1] == f);
                    }
                    assert(o.contains(f));
                    let j = choose|j: int| 0 <= j < w.len() && w[j] == f;
                    assert(v[j] == f);
                }
            }
            if v.contains(f) {
                let j = choose|j: int| 0 <= j < v.len() && v[j] == f;
                if j == v.len() - 1 {
                    assert(r[k] == f);
                } else {
                    assert(w[j] == f);
                    assert(o.contains(f));
                    let i = choose|i: int| 0 <= i < o.len() && o[i] == f;
                    if i < k {
                        assert(r[i] == f);
                    } else {
                        assert(r[i + 1] == f);
                    }
                }
            }
        }
        if names_apart(v) {
            assert forall|i: int, j: int|
                0 <= i < w.len() && 0 <= j < w.len() && i != j implies (#[trigger] w[i]).name != (
            #[trigger] w[j]).name by {
                assert(w[i] == v[i] && w[j] == v[j]);
            }
            assert forall|i: int| 0 <= i < o.len() implies (#[trigger] o[i]).name != x.name by {
                assert(o.contains(o[i]));
                let j = choose|j: int| 0 <= j < w.len() && w[j] == o[i];
                assert(v[j] == o[i]);
                assert(v[v.len() - 1] == x);
            }
            assert forall|i: int, j: int|
                0 <= i < r.len() && 0 <= j < r.len() && i != j implies (#[trigger] r[i]).name != (
            #[trigger] r[j]).name by {
                let a = if i < k {
                    i
                } else {
                    i - 1
                };
                let b = if j < k {
                    j
                } else {
                    j - 1
                };
                if i == k {
                    assert(r[j] == o[b]);
                } else if j == k {
                    assert(r[i] == o[a]);
                } else {
                    assert(r[i] == o[a] && r[j] == o[b]);
                }
            }
        }
    }
}

/// Whether a move is that of a file of a list, which is old enough and goes under
/// the month of its date.
pub open spec fn is_move_of(s: Shelved, f: Slip, now: Moment, older_than: i64) -> bool {
    is_old(age_of(f, now), older_than) && s == shelved(f, now)
}

/// A run moves the files that are old enough and not among the newest `keep`, each
/// into the directory of its month and under its name. The newest stay, and so
/// does every file without a date.
pub proof fn archive_spares_the_new(files: Seq<Slip>, now: Moment, keep: nat, older_than: i64)
    requires
        names_apart(files),
        files.len() <= usize::MAX,
    ensures
        ({
            let v = oldest_first(files);
            let plan = planned(files, now, keep, older_than);
            let n = unprotected(files.len(), keep);
            &&& v.len() == files.len()
            &&& by_age(v)
            &&& forall|f: Slip| #[trigger] v.contains(f) <==> files.contains(f)
            &&& forall|j: int|
                0 <= j < v.len() ==> (is_moved(plan, (#[trigger] v[j]).name) <==> j < n && is_old(
                    age_of(v[j], now),
                    older_than,
                ))
            &&& forall|i: int|
                0 <= i < files.len() && written_at(
                    (#[trigger] files[i]).ts,
                    files[i].mtime,
                ) is None ==> !is_moved(plan, files[i].name)
            &&& forall|k: int|
                0 <= k < plan.len() ==> exists|i: int|
                    0 <= i < files.len() && is_move_of(
                        #[trigger] plan[k],
                        #[trigger] files[i],
                        now,
                        older_than,
                    )
        }),
{
    let v = oldest_first(files);
    lemma_oldest_first(files);
    let ages = ages_of(v, now);
    let n = unprotected(files.len(), keep);
    let picks = old_among(ages, n, older_than);
    archive_takes_the_old(ages, n, older_than);
    let plan = planned(files, now, keep, older_than);
    assert forall|j: int| 0 <= j < v.len() implies (is_moved(plan, (#[trigger] v[j]).name) <==> j < n
        && is_old(age_of(v[j], now), older_than)) by {
        assert(ages[j] == age_of(v[j], now));
        if is_moved(plan, v[j].name) {
            let k = choose|k: int| 0 <= k < plan.len() && (#[trigger] plan[k]).name == v[j].name;
            let i = picks[k] as int;
            assert(plan[k] == shelved(v[i], now));
            assert(v[i].name == v[j].name);
            assert(i == j);
        }
        if j < n && is_old(age_of(v[j], now), older_than) {
            let k = choose|k: int| 0 <= k < picks.len() && picks[k] == j as usize;
            assert(plan[k] == shelved(v[j], now));
        }
    }
    assert forall|i: int|
        0 <= i < files.len() && written_at((#[trigger] files[i]).ts, files[i].mtime) is None implies !is_moved(
        plan,
        files[i].name,
    ) by {
        assert(files.contains(files[i]));
        assert(v.contains(files[i]));
        let j = choose|j: int| 0 <= j < v.len() && v[j] == files[i];
        assert(is_moved(plan, v[j].name) <==> j < n && is_old(age_of(v[j], now), older_than));
    }
    assert forall|k: int| 0 <= k < plan.len() implies exists|i: int|
        0 <= i < files.len() && is_move_of(
            #[trigger] plan[k],
            #[trigger] files[i],
            now,
            older_than,
        ) by {
        let j = picks[k] as int;
        assert(plan[k] == shelved(v[j], now));
        assert(ages[j] == age_of(v[j], now));
        assert(v.contains(v[j]));
        let i = choose|i: int| 0 <= i < files.len() && files[i] == v[j];
        assert(is_move_of(plan[k], files[i], now, older_than));
    }
}

/// A file of the hot bus with the message in it.
pub struct Held {
    pub name: Seq<char>,
    pub letter: Letter,
    pub mtime: Option<i64>,
}

/// What a file of the hot bus says to the archive.
pub open spec fn slip_of(h: Held) -> Slip {
    Slip { name: h.name, id: h.letter.id, ts: h.letter.ts, mtime: h.mtime }
}

/// What the files of the hot bus say to the archive.
pub open spec fn slips_of(bus: Seq<Held>) -> Seq<Slip> {
    bus.map_values(|h: Held| slip_of(h))
}

/// The message in the file of that name.
pub open spec fn letter_named(bus: Seq<Held>, name: Seq<char>) -> Letter {
    bus[choose|i: int| 0 <= i < bus.len() && (#[trigger] bus[i]).name == name].letter
}

/// The hot bus once the moves are made.
pub open spec fn bus_after(bus: Seq<Held>, plan: Seq<Shelved>) -> Seq<Held>
    decreases bus.len(),
{
    if bus.len() == 0 {
        Seq::empty()
    } else if is_moved(plan, bus.last().name) {
        bus_after(bus.drop_last(), plan)
    } else {
        bus_after(bus.drop_last(), plan).push(bus.last())
    }
}

/// The archive, by the paths of its files, once the moves are made, the first
/// first. A file takes the place of one that is there.
pub open spec fn shelves_after(
    bus: Seq<Held>,
    shelves: Map<Seq<char>, Letter>,
    plan: Seq<Shelved>,
) -> Map<Seq<char>, Letter>
    decreases plan.len(),
{
    if plan.len() == 0 {
        shelves
    } else {
        shelves_after(bus, shelves, plan.drop_last()).insert(
            plan.last().dest,
            letter_named(bus, plan.last().name),
        )
    }
}

/// Whether a message lies in the hot bus or in the archive.
pub open spec fn lies_in(bus: Seq<Held>, shelves: Map<Seq<char>, Letter>, m: Letter) -> bool {
    ||| exists|i: int| 0 <= i < bus.len() && (#[trigger] bus[i]).letter == m
    ||| exists|p: Seq<char>| #[trigger] shelves.dom().contains(p) && shelves[p] == m
}

proof fn lemma_no_slash(y: int, m: int)
    ensures
        !clock::month_text(y, m).contains('/'),
{
    reveal_strlit("-");
    reveal_strlit("+");
    lemma_filled_no_slash(y as nat, 4);
    lemma_filled_no_slash((-y) as nat, 4);
    lemma_filled_no_slash(m as nat, 2);
    text::lemma_lacks("-"@, clock::zero_filled((-y) as nat, 4), '/');
    text::lemma_lacks("+"@, clock::zero_filled(y as nat, 4), '/');
    text::lemma_lacks(clock::year_text(y), clock::zero_filled(m as nat, 2), '/');
}

proof fn lemma_filled_no_slash(n: nat, width: nat)
    ensures
        !clock::zero_filled(n, width).contains('/'),
{
    let d = text::decimal(n);
    let z = clock::zero_filled(n, width);
    text::lemma_decimal_digits(n);
    assert forall|i: int| 0 <= i < z.len() implies z[i] != '/' by {
        if d.len() < width && i >= width - d.len() {
            assert(z[i] == d[i - (width - d.len())]);
        }
    }
}

proof fn lemma_dest_tells_name(f: Slip, g: Slip, now: Moment)
    requires
        shelved(f, now).dest == shelved(g, now).dest,
    ensures
        f.name == g.name,
{
    reveal_strlit("/");
    let head = "archive/"@;
    let p = clock::month_of((written_at(f.ts, f.mtime)->0).secs as int);
    let q = clock::month_of((written_at(g.ts, g.mtime)->0).secs as int);
    let a = clock::month_text(p.0, p.1);
    let b = clock::month_text(q.0, q.1);
    lemma_no_slash(p.0, p.1);
    lemma_no_slash(q.0, q.1);
    let h = head.len() as int;
    let s = shelved(f, now).dest;
    assert(s == head + a + "/"@ + f.name);
    assert(s == head + b + "/"@ + g.name);
    assert(s[h + a.len()] == '/');
    assert(s[h + b.len()] == '/');
    if a.len() < b.len() {
        assert(s[h + a.len()] == b[a.len() as int]);
        assert(b.contains('/'));
    }
    if b.len() < a.len() {
        assert(s[h + b.len()] == a[b.len() as int]);
        assert(a.contains('/'));
    }
    assert(f.name =~= s.skip(h + a.len() + 1));
    assert(g.name =~= s.skip(h + b.len() + 1));
}

proof fn lemma_letter_named(bus: Seq<Held>, i: int)
    requires
        names_apart(slips_of(bus)),
        0 <= i < bus.len(),
    ensures
        letter_named(bus, bus[i].name) == bus[i].letter,
{
    let v = slips_of(bus);
    let name = bus[i].name;
    let k = choose|k: int| 0 <= k < bus.len() && (#[trigger] bus[k]).name == name;
    assert(v[k].name == v[i].name);
}

proof fn lemma_bus_after(bus: Seq<Held>, plan: Seq<Shelved>)
    ensures
        forall|h: Held| #[trigger]
            bus_after(bus, plan).contains(h) <==> bus.contains(h) && !is_moved(plan, h.name),
    decreases bus.len(),
{
    if bus.len() > 0 {
        let w = bus.drop_last();
        let x = bus.last();
        let a = bus_after(w, plan);
        let r = bus_after(bus, plan);
        lemma_bus_after(w, plan);
        assert forall|h: Held| #[trigger] r.contains(h) <==> bus.contains(h) && !is_moved(plan, h.name) by {
            if r.contains(h) {
                let i = choose|i: int| 0 <= i < r.len() && r[i] == h;
                if i < a.len() {
                    assert(a[i] == h);
                    assert(a.contains(h));
                    let j = choose|j: int| 0 <= j < w.len() && w[j] == h;
                    assert(bus[j] == h);
                } else {
                    assert(bus[bus.len() - 1] == h);
                }
            }
            if bus.contains(h) && !is_moved(plan, h.name) {
                let j = choose|j: int| 0 <= j < bus.len() && bus[j] == h;
                if j < w.len() {
                    assert(w[j] == h);
                    assert(a.contains(h));
                    let i = choose|i: int| 0 <= i < a.len() && a[i] == h;
                    assert(r[i] == h);
                } else {
                    assert(r[a.len() as int] == h);
                }
            }
        }
    }
}

/// Whether it is known when a file was written.
pub open spec fn is_dated(h: Held) -> bool {
    written_at(h.letter.ts, h.mtime) is Some
}

/// Whether a file that a run may move meets none in the archive but one with the
/// same message.
pub open spec fn room_for(
    bus: Seq<Held>,
    shelves: Map<Seq<char>, Letter>,
    now: Moment,
) -> bool {
    forall|i: int|
        #![trigger bus[i]]
        0 <= i < bus.len() && is_dated(bus[i]) ==> {
            let dest = shelved(slip_of(bus[i]), now).dest;
            shelves.dom().contains(dest) ==> shelves[dest] == bus[i].letter
        }
}

/// Whether a file that a run may move meets none in the archive but one with a
/// message of the same identifier.
pub open spec fn room_for_ids(
    bus: Seq<Held>,
    shelves: Map<Seq<char>, Letter>,
    now: Moment,
) -> bool {
    forall|i: int|
        #![trigger bus[i]]
        0 <= i < bus.len() && is_dated(bus[i]) ==> {
            let dest = shelved(slip_of(bus[i]), now).dest;
            shelves.dom().contains(dest) ==> shelves[dest].id == bus[i].letter.id
        }
}

/// Whether moves are those of files of the hot bus.
spec fn moves_from(bus: Seq<Held>, plan: Seq<Shelved>, now: Moment) -> bool {
    forall|k: int|
        0 <= k < plan.len() ==> exists|i: int|
            0 <= i < bus.len() && is_dated(bus[i]) && #[trigger] plan[k] == shelved(
                slip_of(#[trigger] bus[i]),
                now,
            )
}

/// Whether a message is that of a file which would go to that place.
spec fn lands_at(bus: Seq<Held>, p: Seq<char>, m: Letter, now: Moment) -> bool {
    exists|i: int|
        0 <= i < bus.len() && is_dated(bus[i]) && (#[trigger] bus[i]).letter == m && shelved(
            slip_of(bus[i]),
            now,
        ).dest == p
}

proof fn lemma_shelves_after(
    bus: Seq<Held>,
    shelves: Map<Seq<char>, Letter>,
    plan: Seq<Shelved>,
    now: Moment,
)
    requires
        names_apart(slips_of(bus)),
        moves_from(bus, plan, now),
    ensures
        forall|p: Seq<char>|
            shelves.dom().contains(p) ==> #[trigger] shelves_after(
                bus,
                shelves,
                plan,
            ).dom().contains(p),
        forall|i: int|
            #![trigger bus[i]]
            0 <= i < bus.len() && is_moved(plan, bus[i].name) ==> {
                let dest = shelved(slip_of(bus[i]), now).dest;
                shelves_after(bus, shelves, plan).dom().contains(dest) && shelves_after(
                    bus,
                    shelves,
                    plan,
                )[dest] == bus[i].letter
            },
        forall|p: Seq<char>| #[trigger]
            shelves_after(bus, shelves, plan).dom().contains(p) ==> (shelves.dom().contains(p)
                && shelves_after(bus, shelves, plan)[p] == shelves[p]) || lands_at(
                bus,
                p,
                shelves_after(bus, shelves, plan)[p],
                now,
            ),
    decreases plan.len(),
{
    if plan.len() > 0 {
        let rest = plan.drop_last();
        let s = plan.last();
        assert forall|k: int| 0 <= k < rest.len() implies exists|i: int|
            0 <= i < bus.len() && is_dated(bus[i]) && #[trigger] rest[k] == shelved(
                slip_of(#[trigger] bus[i]),
                now,
            ) by {
            assert(rest[k] == plan[k]);
        }
        lemma_shelves_after(bus, shelves, rest, now);
        assert(plan[plan.len() - 1] == s);
        let x = choose|i: int|
            0 <= i < bus.len() && is_dated(bus[i]) && s == shelved(
                slip_of(#[trigger] bus[i]),
                now,
            );
        lemma_letter_named(bus, x);
        let was = shelves_after(bus, shelves, rest);
        let made = shelves_after(bus, shelves, plan);
        assert(made == was.insert(s.dest, bus[x].letter));
        assert forall|p: Seq<char>| shelves.dom().contains(p) implies #[trigger] made.dom().contains(
            p,
        ) by {
            assert(was.dom().contains(p));
        }
        assert forall|i: int|
            #![trigger bus[i]]
            0 <= i < bus.len() && is_moved(plan, bus[i].name) implies {
            let dest = shelved(slip_of(bus[i]), now).dest;
            made.dom().contains(dest) && made[dest] == bus[i].letter
        } by {
            let dest = shelved(slip_of(bus[i]), now).dest;
            if dest == s.dest {
                lemma_dest_tells_name(slip_of(bus[i]), slip_of(bus[x]), now);
                assert(slips_of(bus)[i].name == slips_of(bus)[x].name);
            } else {
                let k = choose|k: int| 0 <= k < plan.len() && (#[trigger] plan[k]).name
                    == bus[i].name;
                if k == plan.len() - 1 {
                    assert(slips_of(bus)[i].name == slips_of(bus)[x].name);
                }
                assert(rest[k] == plan[k]);
                assert(is_moved(rest, bus[i].name));
            }
        }
        assert forall|p: Seq<char>| #[trigger] made.dom().contains(p) implies (
        shelves.dom().contains(p) && made[p] == shelves[p]) || lands_at(bus, p, made[p], now) by {
            if p == s.dest {
                assert(bus[x].letter == made[p]);
            } else {
                assert(was.dom().contains(p));
            }
        }
    }
}

proof fn lemma_plan_is_from_the_bus(bus: Seq<Held>, now: Moment, keep: nat, older_than: i64)
    requires
        names_apart(slips_of(bus)),
        bus.len() <= usize::MAX,
    ensures
        moves_from(bus, planned(slips_of(bus), now, keep, older_than), now),
{
    let files = slips_of(bus);
    let plan = planned(files, now, keep, older_than);
    archive_spares_the_new(files, now, keep, older_than);
    assert forall|k: int| 0 <= k < plan.len() implies exists|i: int|
        0 <= i < bus.len() && is_dated(bus[i]) && #[trigger] plan[k] == shelved(
            slip_of(#[trigger] bus[i]),
            now,
        ) by {
        let i = choose|i: int|
            0 <= i < files.len() && is_move_of(plan[k], #[trigger] files[i], now, older_than);
        assert(files[i] == slip_of(bus[i]));
    }
}

/// What lay in the hot bus lies there or in the archive once moves are made, and
/// what lies there then was in one of them before.
proof fn lemma_what_lies(
    bus: Seq<Held>,
    shelves: Map<Seq<char>, Letter>,
    plan: Seq<Shelved>,
    now: Moment,
    m: Letter,
)
    requires
        names_apart(slips_of(bus)),
        moves_from(bus, plan, now),
    ensures
        (exists|i: int| 0 <= i < bus.len() && (#[trigger] bus[i]).letter == m) ==> lies_in(
            bus_after(bus, plan),
            shelves_after(bus, shelves, plan),
            m,
        ),
        lies_in(bus_after(bus, plan), shelves_after(bus, shelves, plan), m) ==> lies_in(
            bus,
            shelves,
            m,
        ),
{
    lemma_shelves_after(bus, shelves, plan, now);
    lemma_bus_after(bus, plan);
    let b = bus_after(bus, plan);
    let s = shelves_after(bus, shelves, plan);
    if exists|i: int| 0 <= i < bus.len() && (#[trigger] bus[i]).letter == m {
        let i = choose|i: int| 0 <= i < bus.len() && (#[trigger] bus[i]).letter == m;
        if is_moved(plan, bus[i].name) {
            assert(s.dom().contains(shelved(slip_of(bus[i]), now).dest));
        } else {
            assert(bus.contains(bus[i]));
            assert(b.contains(bus[i]));
            let j = choose|j: int| 0 <= j < b.len() && b[j] == bus[i];
            assert(b[j].letter == m);
        }
    }
    if lies_in(b, s, m) {
        if exists|i: int| 0 <= i < b.len() && (#[trigger] b[i]).letter == m {
            let i = choose|i: int| 0 <= i < b.len() && (#[trigger] b[i]).letter == m;
            assert(b.contains(b[i]));
            let j = choose|j: int| 0 <= j < bus.len() && bus[j] == b[i];
            assert(bus[j].letter == m);
        } else {
            let p = choose|p: Seq<char>| #[trigger] s.dom().contains(p) && s[p] == m;
            if !(shelves.dom().contains(p) && s[p] == shelves[p]) {
                assert(lands_at(bus, p, m, now));
            }
        }
    }
}

/// Archiving loses no message and makes none up: once the moves of a run are made,
/// the hot bus and the archive hold between them what they held before.
pub proof fn archive_keeps_every_message(
    bus: Seq<Held>,
    shelves: Map<Seq<char>, Letter>,
    now: Moment,
    keep: nat,
    older_than: i64,
    m: Letter,
)
    requires
        names_apart(slips_of(bus)),
        bus.len() <= usize::MAX,
        room_for(bus, shelves, now),
    ensures
        ({
            let plan = planned(slips_of(bus), now, keep, older_than);
            lies_in(bus, shelves, m) <==> lies_in(
                bus_after(bus, plan),
                shelves_after(bus, shelves, plan),
                m,
            )
        }),
{
    let plan = planned(slips_of(bus), now, keep, older_than);
    lemma_plan_is_from_the_bus(bus, now, keep, older_than);
    lemma_what_lies(bus, shelves, plan, now, m);
    lemma_shelves_after(bus, shelves, plan, now);
    let s = shelves_after(bus, shelves, plan);
    if exists|p: Seq<char>| #[trigger] shelves.dom().contains(p) && shelves[p] == m {
        let p = choose|p: Seq<char>| #[trigger] shelves.dom().contains(p) && shelves[p] == m;
        assert(s.dom().contains(p));
        if s[p] != shelves[p] {
            assert(lands_at(bus, p, s[p], now));
            let i = choose|i: int|
                0 <= i < bus.len() && is_dated(bus[i]) && (#[trigger] bus[i]).letter == s[p]
                    && shelved(slip_of(bus[i]), now).dest == p;
            assert(shelves[p] == bus[i].letter);
        }
    }
}

/// Whoever reads the hot bus and the archive reads the same identifiers before and
/// after a run, whatever messages share one. `before` and `after` are what there
/// is to read, found in whatever order.
pub proof fn archived_identifiers_are_kept(
    bus: Seq<Held>,
    shelves: Map<Seq<char>, Letter>,
    now: Moment,
    keep: nat,
    older_than: i64,
    before: Seq<Letter>,
    after: Seq<Letter>,
    id: Seq<char>,
)
    requires
        names_apart(slips_of(bus)),
        bus.len() <= usize::MAX,
        room_for_ids(bus, shelves, now),
        forall|m: Letter| #[trigger] before.contains(m) <==> lies_in(bus, shelves, m),
        ({
            let plan = planned(slips_of(bus), now, keep, older_than);
            forall|m: Letter| #[trigger]
                after.contains(m) <==> lies_in(
                    bus_after(bus, plan),
                    shelves_after(bus, shelves, plan),
                    m,
                )
        }),
    ensures
        message::has_id(message::in_order(message::arrivals(before)), id) <==> message::has_id(
            message::in_order(message::arrivals(after)),
            id,
        ),
{
    let plan = planned(slips_of(bus), now, keep, older_than);
    let b = bus_after(bus, plan);
    let s = shelves_after(bus, shelves, plan);
    lemma_plan_is_from_the_bus(bus, now, keep, older_than);
    lemma_shelves_after(bus, shelves, plan, now);
    message::reading_keeps_identifiers(before, id);
    message::reading_keeps_identifiers(after, id);
    if message::has_id(before, id) {
        let k = choose|k: int| 0 <= k < before.len() && (#[trigger] before[k]).id == id;
        let m = before[k];
        assert(before.contains(m));
        lemma_what_lies(bus, shelves, plan, now, m);
        let there = if exists|i: int| 0 <= i < bus.len() && (#[trigger] bus[i]).letter == m {
            m
        } else {
            let p = choose|p: Seq<char>| #[trigger] shelves.dom().contains(p) && shelves[p] == m;
            assert(s.dom().contains(p));
            if s[p] != shelves[p] {
                assert(lands_at(bus, p, s[p], now));
                let i = choose|i: int|
                    0 <= i < bus.len() && is_dated(bus[i]) && (#[trigger] bus[i]).letter == s[p]
                        && shelved(slip_of(bus[i]), now).dest == p;
                assert(shelves[p].id == bus[i].letter.id);
            }
            s[p]
        };
        assert(lies_in(b, s, there));
        assert(after.contains(there));
        let j = choose|j: int| 0 <= j < after.len() && after[j] == there;
        assert(after[j].id == id);
    }
    if message::has_id(after, id) {
        let k = choose|k: int| 0 <= k < after.len() && (#[trigger] after[k]).id == id;
        let m = after[k];
        assert(after.contains(m));
        lemma_what_lies(bus, shelves, plan, now, m);
        assert(before.contains(m));
        let j = choose|j: int| 0 <= j < before.len() && before[j] == m;
        assert(before[j].id == id);
    }
}

/// Whoever reads the hot bus and the archive reads the same messages in the same
/// order before and after a run, where an identifier stands for one message.
pub proof fn archived_messages_stay_readable(
    bus: Seq<Held>,
    shelves: Map<Seq<char>, Letter>,
    now: Moment,
    keep: nat,
    older_than: i64,
    before: Seq<Letter>,
    after: Seq<Letter>,
)
    requires
        names_apart(slips_of(bus)),
        bus.len() <= usize::MAX,
        room_for(bus, shelves, now),
        message::consistent(before),
        forall|m: Letter| #[trigger] before.contains(m) <==> lies_in(bus, shelves, m),
        ({
            let plan = planned(slips_of(bus), now, keep, older_than);
            forall|m: Letter| #[trigger]
                after.contains(m) <==> lies_in(
                    bus_after(bus, plan),
                    shelves_after(bus, shelves, plan),
                    m,
                )
        }),
    ensures
        message::in_order(message::arrivals(before)) == message::in_order(
            message::arrivals(after),
        ),
{
    assert forall|m: Letter| #[trigger] before.contains(m) <==> after.contains(m) by {
        archive_keeps_every_message(bus, shelves, now, keep, older_than, m);
    }
    message::moved_messages_stay_readable(before, after);
}

// ---- reports --------------------------------------------------------------

/// The line for a run that finds nothing to archive.
pub open spec fn nothing_text(hot: nat, keep: nat, older_than: int) -> Seq<char> {
    "archive: nothing to move ("@ + text::decimal(hot) + " in hot bus, keep "@ + text::decimal(keep)
        + ", older-than "@ + text::signed_decimal(older_than) + "d)"@
}

/// The line for a run that finds nothing to archive.
pub fn nothing_report(hot: usize, keep: usize, older_than: i64) -> (r: String)
    ensures
        r@ == nothing_text(hot as nat, keep as nat, older_than as int),
{
    let mut r = String::from_str("archive: nothing to move (");
    r.append(text::show_usize(hot).as_str());
    r.append(" in hot bus, keep ");
    r.append(text::show_usize(keep).as_str());
    r.append(", older-than ");
    r.append(text::show_i64(older_than).as_str());
    r.append("d)");
    r
}

/// The line for a move that is only shown.
pub fn dry_line(s: &Shelving) -> (r: String)
    requires
        text::cuttable(s@.id, 8),
    ensures
        r@ == dry_text(s@),
{
    let mut r = String::from_str("  would archive ");
    r.append(text::byte_head(s.id.as_str(), 8).as_str());
    r.append("  (");
    r.append(text::show_i64(s.age).as_str());
    r.append("d)  -> ");
    r.append(s.dest.as_str());
    r
}

/// The line after moves that were only shown.
pub open spec fn dry_total(moved: nat) -> Seq<char> {
    "archive --dry-run: "@ + text::decimal(moved) + " message(s) would move; nothing changed"@
}

/// The line after moves that were only shown.
pub fn dry_report(moved: usize) -> (r: String)
    ensures
        r@ == dry_total(moved as nat),
{
    let mut r = String::from_str("archive --dry-run: ");
    r.append(text::show_usize(moved).as_str());
    r.append(" message(s) would move; nothing changed");
    r
}

/// What a run does: the moves to make and the lines to print before that.
pub struct Rotation {
    pub moves: Vec<Shelving>,
    pub lines: Vec<String>,
}

/// The line for a move that is only shown.
pub open spec fn dry_text(s: Shelved) -> Seq<char> {
    "  would archive "@ + text::head(s.id, 8) + "  ("@ + text::signed_decimal(s.age) + "d)  -> "@
        + s.dest
}

/// What a run prints before it moves anything.
pub open spec fn rotation_text(
    plan: Seq<Shelved>,
    hot: nat,
    keep: nat,
    older_than: int,
    dry_run: bool,
) -> Seq<Seq<char>> {
    if plan.len() == 0 {
        seq![nothing_text(hot, keep, older_than)]
    } else if dry_run {
        plan.map_values(|s: Shelved| dry_text(s)).push(dry_total(plan.len()))
    } else {
        Seq::empty()
    }
}

/// What a run does with the moves that are planned: it makes them, and only shows
/// them where it is a dry one.
pub fn rotation(
    plan: Vec<Shelving>,
    hot: usize,
    keep: usize,
    older_than: i64,
    dry_run: bool,
) -> (r: Rotation)
    requires
        dry_run ==> forall|k: int|
            0 <= k < plan@.len() ==> text::cuttable((#[trigger] plan@[k])@.id, 8),
    ensures
        dry_run ==> r.moves@.len() == 0,
        !dry_run ==> r.moves@ == plan@,
        text::texts(r.lines@) == rotation_text(
            moves(plan@),
            hot as nat,
            keep as nat,
            older_than as int,
            dry_run,
        ),
{
    let mut lines: Vec<String> = Vec::new();
    let ghost all = moves(plan@);
    if plan.len() == 0 {
        text::say(&mut lines, nothing_report(hot, keep, older_than));
        assert(text::texts(lines@) =~= rotation_text(
            all,
            hot as nat,
            keep as nat,
            older_than as int,
            dry_run,
        ));
        return Rotation { moves: plan, lines };
    }
    if !dry_run {
        assert(text::texts(lines@) =~= Seq::empty());
        return Rotation { moves: plan, lines };
    }
    let ghost rows = all.map_values(|s: Shelved| dry_text(s));
    let mut i: usize = 0;
    assert(text::texts(lines@) =~= rows.take(0));
    while i < plan.len()
        invariant
            i <= plan@.len(),
            all == moves(plan@),
            rows == all.map_values(|s: Shelved| dry_text(s)),
            forall|k: int| 0 <= k < plan@.len() ==> text::cuttable((#[trigger] plan@[k])@.id, 8),
            text::texts(lines@) == rows.take(i as int),
        decreases plan@.len() - i,
    {
        assert(all[i as int] == plan@[i as int]@);
        text::say(&mut lines, dry_line(&plan[i]));
        assert(text::texts(lines@) =~= rows.take(i + 1));
        i = i + 1;
    }
    assert(rows.take(i as int) =~= rows);
    text::say(&mut lines, dry_report(plan.len()));
    Rotation { moves: Vec::new(), lines }
}

/// The message of the commit that archives.
pub fn archive_message(moved: usize, older_than: i64) -> (r: String)
    ensures
        r@ == "archive: "@ + text::decimal(moved as nat) + " message(s) older than "@
            + text::signed_decimal(older_than as int) + "d -> archive/"@,
{
    let mut r = String::from_str("archive: ");
    r.append(text::show_usize(moved).as_str());
    r.append(" message(s) older than ");
    r.append(text::show_i64(older_than).as_str());
    r.append("d -> archive/");
    r
}

/// The line after messages were archived.
pub fn archive_report(moved: usize, hot: usize, pushed: bool) -> (r: String)
    requires
        moved <= hot,
    ensures
        r@ == "archived "@ + text::decimal(moved as nat) + " message(s) -> archive/ ("@ + (
        if pushed {
            "pushed"@
        } else {
            package::named("local commit — run: "@, "-mesh sync"@)
        }) + "); hot bus now "@ + text::decimal((hot - moved) as nat) + " message(s)"@,
{
    let mut r = String::from_str("archived ");
    r.append(text::show_usize(moved).as_str());
    r.append(" message(s) -> archive/ (");
    let how = if pushed {
        String::from_str("pushed")
    } else {
        package::name_in("local commit — run: ", "-mesh sync")
    };
    r.append(how.as_str());
    r.append("); hot bus now ");
    r.append(text::show_usize(hot - moved).as_str());
    r.append(" message(s)");
    r
}

// ---- what is picked -------------------------------------------------------

/// What is archived is what has a date, is at least so many days old, and is not
/// among the newest that are kept: each message of that kind, and none of
/// another.
pub proof fn archive_picks_by_age_and_place(
    ages: Seq<Option<i64>>,
    keep: nat,
    older_than: i64,
    i: usize,
)
    requires
        ages.len() <= usize::MAX,
        i < ages.len(),
    ensures
        old_among(ages, unprotected(ages.len(), keep), older_than).contains(i) <==> i + keep
            < ages.len() && (ages[i as int] matches Some(days) && days >= older_than),
{
    let n = unprotected(ages.len(), keep);
    let r = old_among(ages, n, older_than);
    archive_takes_the_old(ages, n, older_than);
    if r.contains(i) {
        let k = choose|k: int| 0 <= k < r.len() && r[k] == i;
        assert(r[k] < n && is_old(ages[r[k] as int], older_than));
    }
    if i < n && is_old(ages[i as int], older_than) {
        assert(r.contains(i));
    }
}

/// The age of a message is the number of whole days since it says it was written,
/// or since its file was changed where it does not say.
pub proof fn messages_age_by_the_day(f: Slip, now: Moment, days: int)
    requires
        days > 0,
        now.wf() && now.nanos < 1_000_000_000,
        written_at(f.ts, f.mtime) matches Some(m) ==> m.wf() && m.nanos < 1_000_000_000,
    ensures
        written_at(f.ts, f.mtime) matches Some(m) ==> (age_of(f, now)->0 >= days <==> (now.secs
            * 1_000_000_000 + now.nanos) - (m.secs * 1_000_000_000 + m.nanos) >= days
            * 86_400_000_000_000),
        written_at(f.ts, f.mtime) is None ==> age_of(f, now) is None,
        clock::rfc3339_moment(f.ts) is Some ==> written_at(f.ts, f.mtime) == clock::rfc3339_moment(
            f.ts,
        ),
        clock::rfc3339_moment(f.ts) is None && f.mtime is None ==> written_at(f.ts, f.mtime) is None,
{
    if written_at(f.ts, f.mtime) is Some {
        clock::time_passes_in_full(now, written_at(f.ts, f.mtime)->0, days);
    }
}

/// A file goes to the shelf of the month that it was written in, under the name
/// that it has.
pub proof fn archived_files_keep_their_names(f: Slip, now: Moment)
    ensures
        ({
            let s = shelved(f, now);
            &&& s.name == f.name && s.id == f.id
            &&& s.dest == s.dir + "/"@ + f.name
            &&& text::begins(s.dir, "archive/"@)
        }),
{
    let s = shelved(f, now);
    let head = "archive/"@;
    assert(s.dir.subrange(0, head.len() as int) =~= head);
}

} // verus!
