//! One polling cycle over all watches: which watches need a request, which
//! listings are new for each watch, where each watermark moves, and which
//! listings are handed on for delivery.
use vstd::prelude::*;
use crate::history::{has_pair, HistoryEntry, ItemHistory};

verus! {

/// A user's standing search: the search link, its owner, and the publish time
/// of the newest listing already processed (the watermark).
#[derive(Clone, Debug)]
pub struct Vahti {
    pub url: String,
    pub user_id: i64,
    pub last_updated: i64,
}

/// One listing of the marketplace, as read from a query-API response.
#[derive(Clone, Debug)]
pub struct Listing {
    pub ad_id: i64,
    pub title: String,
    pub url: String,
    pub price: i64,
    pub seller_name: String,
    pub location: String,
    pub published: i64,
    pub ad_type: String,
    pub img_url: String,
}

/// What the cycle decided for one watch.
#[derive(Debug)]
pub enum WatchOutcome {
    /// The request that serves this watch failed; the watch is left as it is.
    Failed,
    /// The watch was checked: move its watermark to `advance_to`, if any, and
    /// deliver the listings at positions `deliver`, in that order.
    Checked { advance_to: Option<i64>, deliver: Vec<usize> },
}

/// Listing id and publish time of each listing.
pub open spec fn stamps(ls: Seq<Listing>) -> Seq<(i64, i64)> {
    ls.map_values(|l: Listing| (l.ad_id, l.published))
}

pub open spec fn fetched_view(fs: Seq<Option<Vec<Listing>>>) -> Seq<Option<Seq<(i64, i64)>>> {
    fs.map_values(
        |o: Option<Vec<Listing>>|
            match o {
                Some(v) => Some(stamps(v@)),
                None => None,
            },
    )
}

pub open spec fn positions(d: Seq<usize>) -> Seq<int> {
    d.map_values(|x: usize| x as int)
}

pub open spec fn outcome_view(o: WatchOutcome) -> Option<(Option<i64>, Seq<int>)> {
    match o {
        WatchOutcome::Failed => None,
        WatchOutcome::Checked { advance_to, deliver } => Some((advance_to, positions(deliver@))),
    }
}

pub open spec fn outcomes_view(os: Seq<WatchOutcome>) -> Seq<Option<(Option<i64>, Seq<int>)>> {
    os.map_values(|o: WatchOutcome| outcome_view(o))
}

/// Whether watch `i` starts a new request: it is the first, or its link
/// differs from the previous watch's.
pub open spec fn starts_request(ws: Seq<Vahti>, i: int) -> bool {
    i == 0 || ws[i - 1].url@ != ws[i].url@
}

/// The watch whose request serves watch `i`: the nearest one at or before `i`
/// that starts a request.
pub open spec fn source_of(ws: Seq<Vahti>, i: int) -> int
    decreases i,
{
    if i <= 0 || starts_request(ws, i) {
        i
    } else {
        source_of(ws, i - 1)
    }
}

/// The publish time of the first listing published after `wm`.
pub open spec fn newest_after(ls: Seq<(i64, i64)>, wm: i64) -> Option<i64>
    decreases ls.len(),
{
    if ls.len() == 0 {
        None
    } else {
        match newest_after(ls.drop_last(), wm) {
            Some(t) => Some(t),
            None => if ls.last().1 > wm { Some(ls.last().1) } else { None },
        }
    }
}

/// The history and the delivered positions after visiting the last `k`
/// listings, from the last one backwards (oldest first, for a newest-first
/// list): a listing published after `wm` and not yet delivered to `user` is
/// delivered and recorded at `now`.
pub open spec fn select(
    h: Seq<HistoryEntry>,
    ls: Seq<(i64, i64)>,
    user: i64,
    wm: i64,
    now: i64,
    k: nat,
) -> (Seq<HistoryEntry>, Seq<int>)
    decreases k,
{
    if k == 0 || k > ls.len() {
        (h, Seq::empty())
    } else {
        let (h1, d1) = select(h, ls, user, wm, now, (k - 1) as nat);
        let j = ls.len() - k;
        if ls[j].1 > wm && !has_pair(h1, ls[j].0, user) {
            (h1.push(HistoryEntry { ad_id: ls[j].0, user_id: user, added: now }), d1.push(j))
        } else {
            (h1, d1)
        }
    }
}

/// What checking one watch against the listings `f` (or a failed request)
/// does to the history, and its outcome.
pub open spec fn check_spec(
    h: Seq<HistoryEntry>,
    w: Vahti,
    f: Option<Seq<(i64, i64)>>,
    now: i64,
) -> (Seq<HistoryEntry>, Option<(Option<i64>, Seq<int>)>) {
    match f {
        None => (h, None),
        Some(ls) => {
            let (h2, d) = select(h, ls, w.user_id, w.last_updated, now, ls.len());
            (h2, Some((newest_after(ls, w.last_updated), d)))
        },
    }
}

/// The history and the outcomes after the first `k` watches of a cycle.
pub open spec fn cycle(
    h: Seq<HistoryEntry>,
    ws: Seq<Vahti>,
    fs: Seq<Option<Seq<(i64, i64)>>>,
    now: i64,
    k: nat,
) -> (Seq<HistoryEntry>, Seq<Option<(Option<i64>, Seq<int>)>>)
    decreases k,
{
    if k == 0 {
        (h, Seq::empty())
    } else {
        let (h1, os) = cycle(h, ws, fs, now, (k - 1) as nat);
        let i = k - 1;
        let (h2, o) = check_spec(h1, ws[i], fs[source_of(ws, i)], now);
        (h2, os.push(o))
    }
}

/// For each watch, whether the cycle sends a request for it.
pub fn fetch_plan(vahtis: &Vec<Vahti>) -> (r: Vec<bool>)
    ensures
        r@.len() == vahtis@.len(),
        forall|i: int| 0 <= i < r@.len() ==> r@[i] == starts_request(vahtis@, i),
{
    let mut r: Vec<bool> = Vec::new();
    let mut i: usize = 0;
    while i < vahtis.len()
        invariant
            i <= vahtis@.len(),
            r@.len() == i,
            forall|j: int| 0 <= j < i ==> r@[j] == starts_request(vahtis@, j),
        decreases vahtis@.len() - i,
    {
        let s = i == 0 || vahtis[i - 1].url != vahtis[i].url;
        r.push(s);
        i = i + 1;
    }
    r
}

/// For each watch, the watch whose request serves it (see `source_of`).
pub fn request_sources(vahtis: &Vec<Vahti>) -> (r: Vec<usize>)
    ensures
        r@.len() == vahtis@.len(),
        forall|i: int| 0 <= i < r@.len() ==> r@[i] as int == source_of(vahtis@, i),
{
    let mut r: Vec<usize> = Vec::new();
    let mut src: usize = 0;
    let mut i: usize = 0;
    while i < vahtis.len()
        invariant
            i <= vahtis@.len(),
            r@.len() == i,
            src <= i,
            i > 0 ==> src == source_of(vahtis@, i - 1),
            forall|j: int| 0 <= j < i ==> r@[j] as int == source_of(vahtis@, j),
        decreases vahtis@.len() - i,
    {
        if i == 0 || vahtis[i - 1].url != vahtis[i].url {
            src = i;
        }
        r.push(src);
        i = i + 1;
    }
    r
}

/// Checks one watch against the listings its request returned (newest first).
///
/// The watermark moves to the first listing published after it, if any. The
/// listings after the watermark are visited from the last one backwards, and
/// each one not yet delivered to the watch's owner is recorded in `history`
/// and listed for delivery.
pub fn check_watch(history: &mut ItemHistory, vahti: &Vahti, items: &Vec<Listing>, now: i64) -> (r: (
    Option<i64>,
    Vec<usize>,
))
    ensures
        (final(history)@, Some((r.0, positions(r.1@)))) == check_spec(
            old(history)@,
            *vahti,
            Some(stamps(items@)),
            now,
        ),
        final(history).retention_spec() == old(history).retention_spec(),
{
    let ghost ls = stamps(items@);
    let ghost h0 = history@;
    let n = items.len();
    let wm = vahti.last_updated;
    let user = vahti.user_id;
    let mut deliver: Vec<usize> = Vec::new();
    let mut k: usize = 0;
    while k < n
        invariant
            n == items@.len(),
            ls == stamps(items@),
            k <= n,
            wm == vahti.last_updated,
            user == vahti.user_id,
            (history@, positions(deliver@)) == select(h0, ls, user, wm, now, k as nat),
            history.retention_spec() == old(history).retention_spec(),
        decreases n - k,
    {
        let j = n - 1 - k;
        let l = &items[j];
        if l.published > wm && !history.contains(l.ad_id, user) {
            history.add_item(l.ad_id, user, now);
            deliver.push(j);
        }
        assert(positions(deliver@) =~= select(h0, ls, user, wm, now, (k + 1) as nat).1);
        k = k + 1;
    }
    let mut advance: Option<i64> = None;
    let mut i: usize = 0;
    while i < n
        invariant
            n == items@.len(),
            ls == stamps(items@),
            i <= n,
            wm == vahti.last_updated,
            advance == newest_after(ls.subrange(0, i as int), wm),
        decreases n - i,
    {
        assert(ls.subrange(0, i + 1).drop_last() =~= ls.subrange(0, i as int));
        if advance.is_none() && items[i].published > wm {
            advance = Some(items[i].published);
        }
        i = i + 1;
    }
    assert(ls.subrange(0, n as int) =~= ls);
    (advance, deliver)
}

/// Runs the decisions of one cycle over `vahtis`, in order.
///
/// `fetched[i]` is the outcome of the request for watch `i` (`None` when it
/// failed) and is read only where `fetch_plan` says a request was sent; the
/// other watches reuse the listings of the nearest watch before them that
/// started a request. A failed request leaves only the watches it serves
/// unchecked.
pub fn process_cycle(
    history: &mut ItemHistory,
    vahtis: &Vec<Vahti>,
    fetched: &Vec<Option<Vec<Listing>>>,
    now: i64,
) -> (r: Vec<WatchOutcome>)
    requires
        fetched@.len() == vahtis@.len(),
    ensures
        (final(history)@, outcomes_view(r@)) == cycle(
            old(history)@,
            vahtis@,
            fetched_view(fetched@),
            now,
            vahtis@.len(),
        ),
        final(history).retention_spec() == old(history).retention_spec(),
{
    let ghost fs = fetched_view(fetched@);
    let ghost h0 = history@;
    let mut out: Vec<WatchOutcome> = Vec::new();
    let mut src: usize = 0;
    let mut i: usize = 0;
    while i < vahtis.len()
        invariant
            i <= vahtis@.len(),
            fetched@.len() == vahtis@.len(),
            fs == fetched_view(fetched@),
            src < vahtis@.len() || i == 0,
            i > 0 ==> src == source_of(vahtis@, i - 1),
            (history@, outcomes_view(out@)) == cycle(h0, vahtis@, fs, now, i as nat),
            history.retention_spec() == old(history).retention_spec(),
        decreases vahtis@.len() - i,
    {
        if i == 0 || vahtis[i - 1].url != vahtis[i].url {
            src = i;
        }
        assert(src == source_of(vahtis@, i as int));
        let o = match &fetched[src] {
            None => WatchOutcome::Failed,
            Some(items) => {
                let (advance_to, deliver) = check_watch(history, &vahtis[i], items, now);
                WatchOutcome::Checked { advance_to, deliver }
            },
        };
        out.push(o);
        assert(outcomes_view(out@) =~= cycle(h0, vahtis@, fs, now, (i + 1) as nat).1);
        i = i + 1;
    }
    out
}


/// What one pass of `select` guarantees, for the last `k` listings.
proof fn lemma_select(h: Seq<HistoryEntry>, ls: Seq<(i64, i64)>, user: i64, wm: i64, now: i64, k: nat)
    requires
        k <= ls.len(),
    ensures
        ({
            let (h2, d) = select(h, ls, user, wm, now, k);
            &&& h2.len() == h.len() + d.len()
            &&& h2.subrange(0, h.len() as int) == h
            &&& forall|m: int|
                0 <= m < d.len() ==> h2[h.len() + m] == HistoryEntry {
                    ad_id: ls[d[m] as int].0,
                    user_id: user,
                    added: now,
                }
            &&& forall|m: int|
                0 <= m < d.len() ==> ls.len() - k <= #[trigger] d[m] < ls.len() && ls[d[m] as int].1
                    > wm && !has_pair(h, ls[d[m] as int].0, user)
            &&& forall|m1: int, m2: int|
                0 <= m1 < m2 < d.len() ==> #[trigger] d[m1] > #[trigger] d[m2] && ls[d[m1] as int].0
                    != ls[d[m2] as int].0
            &&& forall|j: int|
                ls.len() - k <= j < ls.len() && ls[j].1 > wm ==> has_pair(h2, #[trigger] ls[j].0, user)
        }),
    decreases k,
{
    if k == 0 {
        assert(h.subrange(0, h.len() as int) =~= h);
    } else {
        lemma_select(h, ls, user, wm, now, (k - 1) as nat);
        let (h1, d1) = select(h, ls, user, wm, now, (k - 1) as nat);
        let (h2, d) = select(h, ls, user, wm, now, k);
        let j = ls.len() - k;
        if ls[j].1 > wm && !has_pair(h1, ls[j].0, user) {
            let e = HistoryEntry { ad_id: ls[j].0, user_id: user, added: now };
            assert(h2 == h1.push(e));
            assert(d == d1.push(j));
            assert(h2.subrange(0, h.len() as int) =~= h1.subrange(0, h.len() as int));
            assert(h2[(h.len() + d1.len()) as int] == e);
            assert forall|m: int| 0 <= m < d1.len() implies ls[d1[m] as int].0 != ls[j].0 by {
                assert(h1[h.len() + m].ad_id == ls[d1[m] as int].0);
                assert(h1[h.len() + m].user_id == user);
            }
            assert(!has_pair(h, ls[j].0, user)) by {
                if has_pair(h, ls[j].0, user) {
                    let q = choose|q: int|
                        0 <= q < h.len() && (#[trigger] h[q]).ad_id == ls[j].0 && h[q].user_id
                            == user;
                    assert(h1[q] == h[q]);
                }
            }
            assert forall|i: int|
                ls.len() - k <= i < ls.len() && ls[i].1 > wm implies has_pair(
                h2,
                #[trigger] ls[i].0,
                user,
            ) by {
                if i == j {
                    assert(h2[h1.len() as int] == e);
                } else {
                    let q = choose|q: int|
                        0 <= q < h1.len() && (#[trigger] h1[q]).ad_id == ls[i].0 && h1[q].user_id
                            == user;
                    assert(h2[q] == h1[q]);
                }
            }
        } else {
            assert forall|i: int|
                ls.len() - k <= i < ls.len() && ls[i].1 > wm implies has_pair(
                h2,
                #[trigger] ls[i].0,
                user,
            ) by {
                if i == j {
                }
            }
        }
    }
}

/// A listing is announced to a user at most once: if a check delivers
/// listing `a` to `user`, no later check for the same user, on a history that
/// still holds the first check's entries, delivers it again; and a listing
/// after the watermark that the user never had is delivered exactly once.
pub proof fn lemma_delivered_once(
    h: Seq<HistoryEntry>,
    ls1: Seq<(i64, i64)>,
    ls2: Seq<(i64, i64)>,
    user: i64,
    wm1: i64,
    wm2: i64,
    now1: i64,
    now2: i64,
    a: i64,
)
    requires
        !has_pair(h, a, user),
        exists|j: int| 0 <= j < ls1.len() && (#[trigger] ls1[j]).0 == a && ls1[j].1 > wm1,
    ensures
        ({
            let (h1, d1) = select(h, ls1, user, wm1, now1, ls1.len());
            let (h2, d2) = select(h1, ls2, user, wm2, now2, ls2.len());
            &&& exists|m: int| 0 <= m < d1.len() && ls1[#[trigger] d1[m] as int].0 == a
            &&& forall|m1: int, m2: int|
                0 <= m1 < d1.len() && 0 <= m2 < d1.len() && ls1[#[trigger] d1[m1] as int].0 == a
                    && ls1[#[trigger] d1[m2] as int].0 == a ==> m1 == m2
            &&& forall|m: int| 0 <= m < d2.len() ==> ls2[#[trigger] d2[m] as int].0 != a
        }),
{
    lemma_select(h, ls1, user, wm1, now1, ls1.len());
    let (h1, d1) = select(h, ls1, user, wm1, now1, ls1.len());
    lemma_select(h1, ls2, user, wm2, now2, ls2.len());
    let j = choose|j: int| 0 <= j < ls1.len() && (#[trigger] ls1[j]).0 == a && ls1[j].1 > wm1;
    assert(has_pair(h1, ls1[j].0, user));
    let q = choose|q: int| 0 <= q < h1.len() && (#[trigger] h1[q]).ad_id == a && h1[q].user_id == user;
    if q < h.len() {
        assert(h1.subrange(0, h.len() as int)[q] == h[q]);
    }
    let m = q - h.len();
    assert(ls1[d1[m] as int].0 == a);
    assert forall|m1: int, m2: int|
        0 <= m1 < d1.len() && 0 <= m2 < d1.len() && ls1[#[trigger] d1[m1] as int].0 == a
            && ls1[#[trigger] d1[m2] as int].0 == a implies m1 == m2 by {
        if m1 < m2 {
        } else if m2 < m1 {
        }
    }
}

/// Deliveries come in the reverse of the listing order: for a newest-first
/// list, oldest first.
pub proof fn lemma_deliveries_oldest_first(
    h: Seq<HistoryEntry>,
    ls: Seq<(i64, i64)>,
    user: i64,
    wm: i64,
    now: i64,
)
    ensures
        ({
            let d = select(h, ls, user, wm, now, ls.len()).1;
            forall|m1: int, m2: int| 0 <= m1 < m2 < d.len() ==> #[trigger] d[m1] > #[trigger] d[m2]
        }),
{
    lemma_select(h, ls, user, wm, now, ls.len());
}


/// The listings, or the failure, that serve watch `i` in a cycle.
pub open spec fn served(ws: Seq<Vahti>, fs: Seq<Option<Seq<(i64, i64)>>>, i: int) -> Option<
    Seq<(i64, i64)>,
> {
    fs[source_of(ws, i)]
}

/// Whether `f` holds no listing published after `wm`.
pub open spec fn nothing_new(f: Option<Seq<(i64, i64)>>, wm: i64) -> bool {
    f matches Some(ls) ==> forall|j: int| 0 <= j < ls.len() ==> (#[trigger] ls[j]).1 <= wm
}

/// An outcome that moves no watermark and delivers nothing.
pub open spec fn unchanged_outcome(o: Option<(Option<i64>, Seq<int>)>) -> bool {
    o matches Some((adv, d)) ==> adv is None && d.len() == 0
}

proof fn lemma_source_bounds(ws: Seq<Vahti>, i: int)
    requires
        0 <= i,
    ensures
        0 <= source_of(ws, i) <= i,
    decreases i,
{
    if i > 0 && !starts_request(ws, i) {
        lemma_source_bounds(ws, i - 1);
    }
}

proof fn lemma_newest_after(ls: Seq<(i64, i64)>, wm: i64)
    ensures
        newest_after(ls, wm) matches Some(t) ==> exists|j: int|
            0 <= j < ls.len() && (#[trigger] ls[j]).1 == t && t > wm,
    decreases ls.len(),
{
    if ls.len() > 0 {
        lemma_newest_after(ls.drop_last(), wm);
        if let Some(t) = newest_after(ls.drop_last(), wm) {
            let j = choose|j: int| 0 <= j < ls.drop_last().len() && (#[trigger] ls.drop_last()[j]).1 == t && t > wm;
            assert(ls[j] == ls.drop_last()[j]);
        } else if ls.last().1 > wm {
            assert(ls[ls.len() - 1] == ls.last());
        }
    }
}

proof fn lemma_has_pair_extends(a: Seq<HistoryEntry>, b: Seq<HistoryEntry>, ad: i64, user: i64)
    requires
        a.len() <= b.len(),
        b.subrange(0, a.len() as int) == a,
        has_pair(a, ad, user),
    ensures
        has_pair(b, ad, user),
{
    let q = choose|q: int| 0 <= q < a.len() && (#[trigger] a[q]).ad_id == ad && a[q].user_id == user;
    assert(b[q] == b.subrange(0, a.len() as int)[q]);
}

proof fn lemma_cycle_extends(
    h: Seq<HistoryEntry>,
    ws: Seq<Vahti>,
    fs: Seq<Option<Seq<(i64, i64)>>>,
    now: i64,
    a: nat,
    b: nat,
)
    requires
        a <= b <= ws.len(),
    ensures
        cycle(h, ws, fs, now, a).0.len() <= cycle(h, ws, fs, now, b).0.len(),
        cycle(h, ws, fs, now, b).0.subrange(0, cycle(h, ws, fs, now, a).0.len() as int) == cycle(
            h,
            ws,
            fs,
            now,
            a,
        ).0,
        cycle(h, ws, fs, now, b).1.len() == b,
        cycle(h, ws, fs, now, b).1.subrange(0, a as int) == cycle(h, ws, fs, now, a).1,
    decreases b,
{
    let ca = cycle(h, ws, fs, now, a);
    if b == a {
        assert(ca.0.subrange(0, ca.0.len() as int) =~= ca.0);
        if b > 0 {
            lemma_cycle_extends(h, ws, fs, now, (b - 1) as nat, (b - 1) as nat);
        }
        assert(ca.1.subrange(0, a as int) =~= ca.1);
    } else {
        lemma_cycle_extends(h, ws, fs, now, a, (b - 1) as nat);
        let c1 = cycle(h, ws, fs, now, (b - 1) as nat);
        let i = b - 1;
        let f = fs[source_of(ws, i)];
        if let Some(ls) = f {
            lemma_select(c1.0, ls, ws[i].user_id, ws[i].last_updated, now, ls.len());
        }
        let c2 = cycle(h, ws, fs, now, b);
        assert(c2.0.subrange(0, ca.0.len() as int) =~= c2.0.subrange(0, c1.0.len() as int).subrange(
            0,
            ca.0.len() as int,
        ));
        assert(c2.1.subrange(0, a as int) =~= c1.1.subrange(0, a as int));
    }
}

/// Re-running a cycle in which no watch sees a listing newer than its
/// watermark changes nothing: the history stays as it was, and no watch
/// moves its watermark or delivers anything.
pub proof fn lemma_quiet_cycle(
    h: Seq<HistoryEntry>,
    ws: Seq<Vahti>,
    fs: Seq<Option<Seq<(i64, i64)>>>,
    now: i64,
)
    requires
        fs.len() == ws.len(),
        forall|i: int|
            0 <= i < ws.len() ==> nothing_new(#[trigger] served(ws, fs, i), ws[i].last_updated),
    ensures
        cycle(h, ws, fs, now, ws.len()).0 == h,
        forall|i: int|
            0 <= i < ws.len() ==> unchanged_outcome(#[trigger] cycle(h, ws, fs, now, ws.len()).1[i]),
{
    lemma_quiet_prefix(h, ws, fs, now, ws.len());
}

proof fn lemma_quiet_prefix(
    h: Seq<HistoryEntry>,
    ws: Seq<Vahti>,
    fs: Seq<Option<Seq<(i64, i64)>>>,
    now: i64,
    k: nat,
)
    requires
        fs.len() == ws.len(),
        k <= ws.len(),
        forall|i: int|
            0 <= i < ws.len() ==> nothing_new(#[trigger] served(ws, fs, i), ws[i].last_updated),
    ensures
        cycle(h, ws, fs, now, k).0 == h,
        cycle(h, ws, fs, now, k).1.len() == k,
        forall|i: int|
            0 <= i < k ==> unchanged_outcome(#[trigger] cycle(h, ws, fs, now, k).1[i]),
    decreases k,
{
    if k > 0 {
        lemma_quiet_prefix(h, ws, fs, now, (k - 1) as nat);
        let i = k - 1;
        lemma_source_bounds(ws, i);
        assert(nothing_new(served(ws, fs, i), ws[i].last_updated));
        if let Some(ls) = fs[source_of(ws, i)] {
            let wm = ws[i].last_updated;
            lemma_select(h, ls, ws[i].user_id, wm, now, ls.len());
            lemma_newest_after(ls, wm);
            let (h2, d) = select(h, ls, ws[i].user_id, wm, now, ls.len());
            if d.len() > 0 {
                assert(ls[d[0]].1 > wm);
            }
            assert(h2 =~= h2.subrange(0, h.len() as int));
        }
    }
}

/// A failed request leaves the other watches alone: a watch whose own
/// listings arrived is checked whatever happened to the other requests, its
/// watermark moves to the first listing after it, and every listing after its
/// watermark ends the cycle delivered to its owner (now, or in an earlier
/// check).
pub proof fn lemma_failure_isolated(
    h: Seq<HistoryEntry>,
    ws: Seq<Vahti>,
    fs: Seq<Option<Seq<(i64, i64)>>>,
    now: i64,
    i: int,
    ls: Seq<(i64, i64)>,
)
    requires
        fs.len() == ws.len(),
        0 <= i < ws.len(),
        served(ws, fs, i) == Some(ls),
    ensures
        cycle(h, ws, fs, now, ws.len()).1[i] matches Some((adv, _)) && adv == newest_after(
            ls,
            ws[i].last_updated,
        ),
        forall|j: int|
            0 <= j < ls.len() && ls[j].1 > ws[i].last_updated ==> has_pair(
                cycle(h, ws, fs, now, ws.len()).0,
                #[trigger] ls[j].0,
                ws[i].user_id,
            ),
{
    let k = (i + 1) as nat;
    let c0 = cycle(h, ws, fs, now, i as nat);
    let ck = cycle(h, ws, fs, now, k);
    let cn = cycle(h, ws, fs, now, ws.len());
    lemma_select(c0.0, ls, ws[i].user_id, ws[i].last_updated, now, ls.len());
    lemma_cycle_extends(h, ws, fs, now, i as nat, i as nat);
    lemma_cycle_extends(h, ws, fs, now, k, ws.len());
    assert(cn.1[i] == cn.1.subrange(0, k as int)[i]);
    assert forall|j: int|
        0 <= j < ls.len() && ls[j].1 > ws[i].last_updated implies has_pair(
        cn.0,
        #[trigger] ls[j].0,
        ws[i].user_id,
    ) by {
        lemma_has_pair_extends(ck.0, cn.0, ls[j].0, ws[i].user_id);
    }
}


/// Every listing that a cycle delivers to a watch's owner was not recorded for
/// that owner in the history the cycle started from.
proof fn lemma_cycle_delivers_unrecorded(
    h: Seq<HistoryEntry>,
    ws: Seq<Vahti>,
    fs: Seq<Option<Seq<(i64, i64)>>>,
    now: i64,
    k: int,
    ls: Seq<(i64, i64)>,
)
    requires
        fs.len() == ws.len(),
        0 <= k < ws.len(),
        served(ws, fs, k) == Some(ls),
    ensures
        cycle(h, ws, fs, now, ws.len()).1[k] matches Some((_, d)) && forall|m: int|
            0 <= m < d.len() ==> 0 <= #[trigger] d[m] < ls.len() && !has_pair(
                h,
                ls[d[m]].0,
                ws[k].user_id,
            ),
{
    let c0 = cycle(h, ws, fs, now, k as nat);
    let cn = cycle(h, ws, fs, now, ws.len());
    let n1 = (k + 1) as nat;
    lemma_select(c0.0, ls, ws[k].user_id, ws[k].last_updated, now, ls.len());
    lemma_cycle_extends(h, ws, fs, now, 0, k as nat);
    lemma_cycle_extends(h, ws, fs, now, n1, ws.len());
    assert(cn.1[k] == cn.1.subrange(0, n1 as int)[k]);
    let d = select(c0.0, ls, ws[k].user_id, ws[k].last_updated, now, ls.len()).1;
    assert forall|m: int| 0 <= m < d.len() implies 0 <= #[trigger] d[m] < ls.len() && !has_pair(
        h,
        ls[d[m]].0,
        ws[k].user_id,
    ) by {
        if has_pair(h, ls[d[m]].0, ws[k].user_id) {
            lemma_has_pair_extends(h, c0.0, ls[d[m]].0, ws[k].user_id);
        }
    }
}

/// A listing is not announced twice to a user over two cycles: once a cycle
/// has checked a watch, none of the listings that were new for it is
/// delivered again to the same user by any watch in the next cycle (run on the
/// history the first cycle left, with nothing purged in between).
pub proof fn lemma_no_repeat_next_cycle(
    h: Seq<HistoryEntry>,
    ws1: Seq<Vahti>,
    fs1: Seq<Option<Seq<(i64, i64)>>>,
    now1: i64,
    ws2: Seq<Vahti>,
    fs2: Seq<Option<Seq<(i64, i64)>>>,
    now2: i64,
    i: int,
    ls1: Seq<(i64, i64)>,
    k: int,
    ls2: Seq<(i64, i64)>,
)
    requires
        fs1.len() == ws1.len(),
        fs2.len() == ws2.len(),
        0 <= i < ws1.len(),
        served(ws1, fs1, i) == Some(ls1),
        0 <= k < ws2.len(),
        served(ws2, fs2, k) == Some(ls2),
        ws2[k].user_id == ws1[i].user_id,
    ensures
        cycle(cycle(h, ws1, fs1, now1, ws1.len()).0, ws2, fs2, now2, ws2.len()).1[k] matches Some(
            (_, d),
        ) && forall|m: int, j: int|
            0 <= m < d.len() && 0 <= j < ls1.len() && ls1[j].1 > ws1[i].last_updated ==> ls2[#[trigger] d[m]].0
                != (#[trigger] ls1[j]).0,
{
    let h1 = cycle(h, ws1, fs1, now1, ws1.len()).0;
    lemma_failure_isolated(h, ws1, fs1, now1, i, ls1);
    lemma_cycle_delivers_unrecorded(h1, ws2, fs2, now2, k, ls2);
}


/// The entries a cycle adds for its first `k` watches belong to the owners of
/// those watches.
proof fn lemma_cycle_owners(
    h: Seq<HistoryEntry>,
    ws: Seq<Vahti>,
    fs: Seq<Option<Seq<(i64, i64)>>>,
    now: i64,
    k: nat,
)
    requires
        fs.len() == ws.len(),
        k <= ws.len(),
    ensures
        h.len() <= cycle(h, ws, fs, now, k).0.len(),
        cycle(h, ws, fs, now, k).0.subrange(0, h.len() as int) == h,
        forall|q: int|
            h.len() <= q < cycle(h, ws, fs, now, k).0.len() ==> exists|p: int|
                0 <= p < k && (#[trigger] cycle(h, ws, fs, now, k).0[q]).user_id == ws[p].user_id,
    decreases k,
{
    if k == 0 {
        assert(h.subrange(0, h.len() as int) =~= h);
    } else {
        lemma_cycle_owners(h, ws, fs, now, (k - 1) as nat);
        let c1 = cycle(h, ws, fs, now, (k - 1) as nat);
        let c2 = cycle(h, ws, fs, now, k);
        let i = k - 1;
        lemma_source_bounds(ws, i);
        if let Some(ls) = fs[source_of(ws, i)] {
            lemma_select(c1.0, ls, ws[i].user_id, ws[i].last_updated, now, ls.len());
            let d = select(c1.0, ls, ws[i].user_id, ws[i].last_updated, now, ls.len()).1;
            assert(c2.0 == select(c1.0, ls, ws[i].user_id, ws[i].last_updated, now, ls.len()).0);
            assert forall|q: int| c1.0.len() <= q < c2.0.len() implies (#[trigger] c2.0[q]).user_id
                == ws[i].user_id by {
                let m = q - c1.0.len();
                assert(0 <= m < d.len());
                assert(d[m] == d[m]);
                assert(c2.0[c1.0.len() + m] == HistoryEntry {
                    ad_id: ls[d[m]].0,
                    user_id: ws[i].user_id,
                    added: now,
                });
            }
        } else {
            assert(c2.0 == c1.0);
        }
        assert(c2.0.subrange(0, h.len() as int) =~= c2.0.subrange(0, c1.0.len() as int).subrange(
            0,
            h.len() as int,
        ));
        assert forall|q: int| h.len() <= q < c2.0.len() implies exists|p: int|
            0 <= p < k && (#[trigger] c2.0[q]).user_id == ws[p].user_id by {
            if q < c1.0.len() {
                assert(c2.0[q] == c2.0.subrange(0, c1.0.len() as int)[q]);
                let p = choose|p: int| 0 <= p < k - 1 && (#[trigger] c1.0[q]).user_id == ws[p].user_id;
            } else {
                assert(c2.0[q].user_id == ws[i].user_id);
            }
        }
    }
}

/// Each listing new for a checked watch is in that watch's own delivery list
/// (as one copy per listing id), provided its owner never had it and no
/// earlier watch in the cycle belongs to the same owner; this holds whatever
/// the other watches' requests did.
pub proof fn lemma_new_listings_delivered(
    h: Seq<HistoryEntry>,
    ws: Seq<Vahti>,
    fs: Seq<Option<Seq<(i64, i64)>>>,
    now: i64,
    i: int,
    ls: Seq<(i64, i64)>,
)
    requires
        fs.len() == ws.len(),
        0 <= i < ws.len(),
        served(ws, fs, i) == Some(ls),
        forall|p: int| 0 <= p < i ==> (#[trigger] ws[p]).user_id != ws[i].user_id,
    ensures
        cycle(h, ws, fs, now, ws.len()).1[i] matches Some((_, d)) && forall|j: int|
            0 <= j < ls.len() && ls[j].1 > ws[i].last_updated && !has_pair(
                h,
                #[trigger] ls[j].0,
                ws[i].user_id,
            ) ==> exists|m: int| 0 <= m < d.len() && ls[#[trigger] d[m]].0 == ls[j].0,
{
    let u = ws[i].user_id;
    let c0 = cycle(h, ws, fs, now, i as nat);
    let cn = cycle(h, ws, fs, now, ws.len());
    let n1 = (i + 1) as nat;
    lemma_cycle_owners(h, ws, fs, now, i as nat);
    lemma_select(c0.0, ls, u, ws[i].last_updated, now, ls.len());
    lemma_cycle_extends(h, ws, fs, now, i as nat, i as nat);
    lemma_cycle_extends(h, ws, fs, now, n1, ws.len());
    assert(cn.1[i] == cn.1.subrange(0, n1 as int)[i]);
    let (h2, d) = select(c0.0, ls, u, ws[i].last_updated, now, ls.len());
    assert(cycle(h, ws, fs, now, n1).0 == h2);
    assert(cn.1[i] == Some((newest_after(ls, ws[i].last_updated), d)));
    assert forall|j: int|
        0 <= j < ls.len() && ls[j].1 > ws[i].last_updated && !has_pair(h, #[trigger] ls[j].0, u)
        implies exists|m: int| 0 <= m < d.len() && ls[#[trigger] d[m]].0 == ls[j].0 by {
        let a = ls[j].0;
        assert(has_pair(h2, a, u));
        let q = choose|q: int| 0 <= q < h2.len() && (#[trigger] h2[q]).ad_id == a && h2[q].user_id == u;
        if q < h.len() {
            assert(c0.0[q] == c0.0.subrange(0, h.len() as int)[q]);
            assert(h2[q] == h2.subrange(0, c0.0.len() as int)[q]);
            assert(h[q] == h2[q]);
        } else if q < c0.0.len() {
            assert(h2[q] == h2.subrange(0, c0.0.len() as int)[q]);
            let p = choose|p: int| 0 <= p < i && (#[trigger] c0.0[q]).user_id == ws[p].user_id;
            assert(ws[p].user_id != u);
        } else {
            let m = q - c0.0.len();
            assert(ls[d[m]].0 == a);
        }
    }
    assert(cn.1[i]->Some_0.1 == d);
}


proof fn lemma_all_new_prefix(
    h: Seq<HistoryEntry>,
    ls: Seq<(i64, i64)>,
    user: i64,
    wm: i64,
    now: i64,
    k: nat,
)
    requires
        k <= ls.len(),
        forall|j: int| 0 <= j < ls.len() ==> (#[trigger] ls[j]).1 > wm && !has_pair(h, ls[j].0, user),
        forall|j1: int, j2: int|
            0 <= j1 < ls.len() && 0 <= j2 < ls.len() && j1 != j2 ==> (#[trigger] ls[j1]).0
                != (#[trigger] ls[j2]).0,
    ensures
        select(h, ls, user, wm, now, k).1 == Seq::new(k, |m: int| ls.len() - 1 - m),
    decreases k,
{
    if k == 0 {
        assert(select(h, ls, user, wm, now, 0).1 =~= Seq::new(0, |m: int| ls.len() - 1 - m));
    } else {
        lemma_all_new_prefix(h, ls, user, wm, now, (k - 1) as nat);
        lemma_select(h, ls, user, wm, now, (k - 1) as nat);
        let (h1, d1) = select(h, ls, user, wm, now, (k - 1) as nat);
        let j = ls.len() - k;
        assert(!has_pair(h1, ls[j].0, user)) by {
            if has_pair(h1, ls[j].0, user) {
                let q = choose|q: int|
                    0 <= q < h1.len() && (#[trigger] h1[q]).ad_id == ls[j].0 && h1[q].user_id == user;
                if q < h.len() {
                    assert(h1.subrange(0, h.len() as int)[q] == h[q]);
                } else {
                    let m = q - h.len();
                    assert(d1[m] == ls.len() - 1 - m);
                    assert(ls[d1[m]].0 == ls[j].0);
                }
            }
        }
        assert(select(h, ls, user, wm, now, k).1 =~= Seq::new(k, |m: int| ls.len() - 1 - m));
    }
}

/// When every listing is after the watermark, has its own id, and was never
/// delivered to the user, all of them are delivered, from the last position
/// to the first: oldest first for a newest-first list.
pub proof fn lemma_all_new_delivered_oldest_first(
    h: Seq<HistoryEntry>,
    ls: Seq<(i64, i64)>,
    user: i64,
    wm: i64,
    now: i64,
)
    requires
        forall|j: int| 0 <= j < ls.len() ==> (#[trigger] ls[j]).1 > wm && !has_pair(h, ls[j].0, user),
        forall|j1: int, j2: int|
            0 <= j1 < ls.len() && 0 <= j2 < ls.len() && j1 != j2 ==> (#[trigger] ls[j1]).0
                != (#[trigger] ls[j2]).0,
    ensures
        select(h, ls, user, wm, now, ls.len()).1 == Seq::new(ls.len(), |m: int| ls.len() - 1 - m),
        ls.len() > 0 ==> newest_after(ls, wm) == Some(ls[0].1),
{
    lemma_all_new_prefix(h, ls, user, wm, now, ls.len());
    if ls.len() > 0 {
        lemma_newest_first(ls, wm);
    }
}

proof fn lemma_newest_first(ls: Seq<(i64, i64)>, wm: i64)
    requires
        ls.len() > 0,
        ls[0].1 > wm,
    ensures
        newest_after(ls, wm) == Some(ls[0].1),
    decreases ls.len(),
{
    if ls.len() > 1 {
        assert(ls.drop_last()[0] == ls[0]);
        lemma_newest_first(ls.drop_last(), wm);
    } else {
        assert(ls.drop_last().len() == 0);
        assert(newest_after(ls.drop_last(), wm) is None);
        assert(ls.last() == ls[0]);
    }
}

} // verus!
