//! Copying changed rows from one mapping store into another: rows are
//! matched by domain and front prefix; a missing row is inserted under a
//! new id, a row whose routing fields differ is rewritten in place.

use vstd::prelude::*;

use crate::mapping::{needs_update, Mapping, MappingView};
use crate::store::lemma_chars_lt_transitive;
use crate::store::{
    chars_less_str, chars_lt, first_key, fresh_id, lemma_first_key_found, route_of, routes_of, sort_rows, sorted_by, MappingTable, Route,
    RowOrder, StoreError,
};
use crate::text::{chars_of, join_path, joined_path, string_of};


verus! {

/// The marker used when no synchronization has run yet.
pub const EPOCH: &'static str = "1970-01-01 00:00:00";

/// Name of the file, in the working directory, that holds the time of the
/// last synchronization.
pub const LASTSYNC_FILENAME: &'static str = ".lastsync";

/// Relies on `chrono::Utc::now`, written out with `format("%Y-%m-%d
/// %H:%M:%S")`. Nothing is promised of the value: it is the time of the call.
#[verifier::external_body]
fn marker_now() -> (r: String) {
    chrono::Utc::now().format("%Y-%m-%d %H:%M:%S").to_string()
}

/// Where the marker file of the last synchronization lives in `dir`.
pub fn lastsync_path(dir: &str) -> (r: String)
    ensures
        r@ == joined_path(dir@, LASTSYNC_FILENAME@),
{
    join_path(dir, LASTSYNC_FILENAME)
}

/// The characters that `char::is_whitespace` accepts (Unicode
/// `White_Space`).
pub open spec fn is_white(c: char) -> bool {
    ('\u{9}' <= c && c <= '\u{d}') || c == ' ' || c == '\u{85}' || c == '\u{a0}' || c == '\u{1680}'
        || ('\u{2000}' <= c && c <= '\u{200a}') || c == '\u{2028}' || c == '\u{2029}' || c
        == '\u{202f}' || c == '\u{205f}' || c == '\u{3000}'
}

fn white(c: char) -> (r: bool)
    ensures
        r == is_white(c),
{
    ('\u{9}' <= c && c <= '\u{d}') || c == ' ' || c == '\u{85}' || c == '\u{a0}' || c == '\u{1680}'
        || ('\u{2000}' <= c && c <= '\u{200a}') || c == '\u{2028}' || c == '\u{2029}' || c
        == '\u{202f}' || c == '\u{205f}' || c == '\u{3000}'
}

/// `s` without leading and trailing whitespace, given as the bounds of
/// what remains.
pub open spec fn trimmed(s: Seq<char>, lo: int, hi: int) -> bool {
    &&& 0 <= lo <= hi <= s.len()
    &&& forall|k: int| 0 <= k < lo ==> is_white(#[trigger] s[k])
    &&& forall|k: int| hi <= k < s.len() ==> is_white(#[trigger] s[k])
    &&& lo < hi ==> !is_white(s[lo]) && !is_white(s[hi - 1])
}

/// The value of the marker: the file's contents without surrounding
/// whitespace, or the epoch when there is no readable file.
pub fn lastsync_value(contents: Option<&str>) -> (r: String)
    ensures
        match contents {
            Some(c) => exists|lo: int, hi: int| trimmed(c@, lo, hi) && r@ == c@.subrange(lo, hi),
            None => r@ == EPOCH@,
        },
{
    match contents {
        None => EPOCH.to_owned(),
        Some(c) => {
            let cs = chars_of(c);
            let n = cs.len();
            let mut lo: usize = 0;
            while lo < n && white(cs[lo])
                invariant
                    lo <= n == cs@.len(),
                    forall|k: int| 0 <= k < lo ==> is_white(#[trigger] cs@[k]),
                decreases n - lo,
            {
                lo = lo + 1;
            }
            let mut hi: usize = n;
            while hi > lo && white(cs[hi - 1])
                invariant
                    lo <= hi <= n == cs@.len(),
                    forall|k: int| hi <= k < n ==> is_white(#[trigger] cs@[k]),
                decreases hi,
            {
                hi = hi - 1;
            }
            let mut out: Vec<char> = Vec::new();
            let mut k: usize = lo;
            while k < hi
                invariant
                    lo <= k <= hi <= n == cs@.len(),
                    out@ == cs@.subrange(lo as int, k as int),
                decreases hi - k,
            {
                out.push(cs[k]);
                k = k + 1;
                assert(out@ =~= cs@.subrange(lo as int, k as int));
            }
            assert(trimmed(c@, lo as int, hi as int));
            string_of(&out)
        },
    }
}

/// The rows whose update stamp comes after `since`, in table order.
pub open spec fn changed_rows(rows: Seq<MappingView>, since: Seq<char>) -> Seq<MappingView>
    decreases rows.len(),
{
    if rows.len() == 0 {
        rows
    } else {
        let prev = changed_rows(rows.drop_last(), since);
        if chars_lt(since, rows.last().updated_at) {
            prev.push(rows.last())
        } else {
            prev
        }
    }
}

/// The source rows changed since the last synchronization: those whose
/// update stamp comes after `since` (compared as text), ordered by update
/// stamp.
pub fn changed_records(source: &Vec<Mapping>, since: &str) -> (r: Vec<Mapping>)
    ensures
        r@.map_values(|m: Mapping| m@).to_multiset() == changed_rows(
            source@.map_values(|m: Mapping| m@),
            since@,
        ).to_multiset(),
        sorted_by(r@.map_values(|m: Mapping| m@), RowOrder::UpdatedAt),
{
    let ghost sv = source@.map_values(|m: Mapping| m@);
    let mut picked: Vec<Mapping> = Vec::new();
    let mut i: usize = 0;
    assert(sv.subrange(0, 0) =~= Seq::<MappingView>::empty());
    assert(picked@.map_values(|m: Mapping| m@) =~= Seq::<MappingView>::empty());
    while i < source.len()
        invariant
            i <= source@.len(),
            sv == source@.map_values(|m: Mapping| m@),
            picked@.map_values(|m: Mapping| m@) == changed_rows(sv.subrange(0, i as int), since@),
        decreases source.len() - i,
    {
        let row = &source[i];
        assert(sv[i as int] == row@);
        assert(sv.subrange(0, i + 1).drop_last() =~= sv.subrange(0, i as int));
        if chars_less_str(since, row.updated_at.as_str()) {
            let ghost prev = picked@;
            picked.push(row.duplicate());
            assert(picked@.map_values(|m: Mapping| m@) =~= prev.map_values(|m: Mapping| m@).push(row@));
        }
        i = i + 1;
    }
    assert(sv.subrange(0, sv.len() as int) =~= sv);
    sort_rows(picked, RowOrder::UpdatedAt)
}

/// One changed row applied to the target's routes: rewritten in place when
/// the first route with its domain and front prefix differs, appended when
/// there is none. Also gives the number of insertions and updates (0 or 1).
pub open spec fn sync_one(routes: Seq<Route>, rec: Route) -> (Seq<Route>, nat, nat) {
    match first_key(routes, rec.0, rec.1) {
        Some(i) => if routes[i] != rec {
            (routes.update(i, rec), 0, 1)
        } else {
            (routes, 0, 0)
        },
        None => (routes.push(rec), 1, 0),
    }
}

/// The changed rows applied in order, with the totals of insertions and
/// updates.
pub open spec fn sync_routes(routes: Seq<Route>, recs: Seq<Route>) -> (Seq<Route>, nat, nat)
    decreases recs.len(),
{
    if recs.len() == 0 {
        (routes, 0, 0)
    } else {
        let prev = sync_routes(routes, recs.drop_last());
        let step = sync_one(prev.0, recs.last());
        (step.0, prev.1 + step.1, prev.2 + step.2)
    }
}

/// No two changed rows with the same domain and front prefix differ in
/// their routing fields.
pub open spec fn consistent(recs: Seq<Route>) -> bool {
    forall|i: int, j: int|
        0 <= i < recs.len() && 0 <= j < recs.len() && (#[trigger] recs[i]).0 == (#[trigger] recs[j]).0
            && recs[i].1 == recs[j].1 ==> recs[i] == recs[j]
}

/// For every changed row, the first route with its domain and front prefix
/// is that row's route.
pub open spec fn holds_all(routes: Seq<Route>, recs: Seq<Route>) -> bool {
    forall|k: int|
        0 <= k < recs.len() ==> (first_key(routes, (#[trigger] recs[k]).0, recs[k].1) matches Some(i)
            && routes[i] == recs[k])
}

proof fn lemma_first_key_update(s: Seq<Route>, i: int, v: Route, domain: Seq<char>, front_uri: Seq<char>)
    requires
        0 <= i < s.len(),
        v.0 == s[i].0 && v.1 == s[i].1,
    ensures
        first_key(s.update(i, v), domain, front_uri) == first_key(s, domain, front_uri),
    decreases s.len(),
{
    let u = s.update(i, v);
    if i == s.len() - 1 {
        assert(u.drop_last() =~= s.drop_last());
    } else {
        assert(u.drop_last() =~= s.drop_last().update(i, v));
        lemma_first_key_update(s.drop_last(), i, v, domain, front_uri);
    }
}

proof fn lemma_first_key_push(s: Seq<Route>, v: Route, domain: Seq<char>, front_uri: Seq<char>)
    ensures
        first_key(s.push(v), domain, front_uri) == match first_key(s, domain, front_uri) {
            Some(i) => Some(i),
            None => if v.0 == domain && v.1 == front_uri {
                Some(s.len() as int)
            } else {
                None
            },
        },
{
    assert(s.push(v).drop_last() =~= s);
}

proof fn lemma_sync_holds_all(routes: Seq<Route>, recs: Seq<Route>)
    requires
        consistent(recs),
    ensures
        holds_all(sync_routes(routes, recs).0, recs),
    decreases recs.len(),
{
    if recs.len() > 0 {
        let p = recs.drop_last();
        assert forall|i: int, j: int|
            0 <= i < p.len() && 0 <= j < p.len() && (#[trigger] p[i]).0 == (#[trigger] p[j]).0 && p[i].1
                == p[j].1 implies p[i] == p[j] by {
            assert(p[i] == recs[i] && p[j] == recs[j]);
        }
        lemma_sync_holds_all(routes, p);
        let sp = sync_routes(routes, p).0;
        let rec = recs.last();
        let sn = sync_one(sp, rec).0;
        lemma_first_key_found(sp, rec.0, rec.1);
        assert forall|k: int| 0 <= k < recs.len() implies (first_key(
            sn,
            (#[trigger] recs[k]).0,
            recs[k].1,
        ) matches Some(i) && sn[i] == recs[k]) by {
            let x = recs[k];
            lemma_first_key_found(sp, x.0, x.1);
            match first_key(sp, rec.0, rec.1) {
                Some(i) => {
                    if sp[i] != rec {
                        lemma_first_key_update(sp, i, rec, x.0, x.1);
                        if k < p.len() {
                            assert(p[k] == x);
                            let ix = first_key(sp, x.0, x.1).unwrap();
                            if ix == i {
                                assert(recs[recs.len() - 1] == rec);
                                assert(x == rec);
                            }
                        }
                    } else if k < p.len() {
                        assert(p[k] == x);
                    }
                },
                None => {
                    lemma_first_key_push(sp, rec, x.0, x.1);
                    if k < p.len() {
                        assert(p[k] == x);
                    }
                },
            }
        }
    }
}

proof fn lemma_sync_nothing_to_do(routes: Seq<Route>, recs: Seq<Route>, again: Seq<Route>)
    requires
        holds_all(routes, recs),
        forall|k: int| 0 <= k < again.len() ==> recs.contains(#[trigger] again[k]),
    ensures
        sync_routes(routes, again) == (routes, 0nat, 0nat),
    decreases again.len(),
{
    if again.len() > 0 {
        let p = again.drop_last();
        assert forall|k: int| 0 <= k < p.len() implies recs.contains(#[trigger] p[k]) by {
            assert(p[k] == again[k]);
        }
        lemma_sync_nothing_to_do(routes, recs, p);
        assert(again[again.len() - 1] == again.last());
        let w = choose|w: int| 0 <= w < recs.len() && recs[w] == again.last();
        assert(holds_all(routes, recs));
        assert(first_key(routes, recs[w].0, recs[w].1) matches Some(i) && routes[i] == recs[w]);
    }
}

/// Every row that `changed_rows` picks was in the table and was changed
/// after the marker.
proof fn lemma_changed_rows_from(rows: Seq<MappingView>, since: Seq<char>)
    ensures
        forall|j: int|
            0 <= j < changed_rows(rows, since).len() ==> rows.contains(#[trigger] changed_rows(rows, since)[j])
                && chars_lt(since, changed_rows(rows, since)[j].updated_at),
    decreases rows.len(),
{
    if rows.len() > 0 {
        let p = rows.drop_last();
        lemma_changed_rows_from(p, since);
        let c = changed_rows(rows, since);
        let cp = changed_rows(p, since);
        assert forall|j: int| 0 <= j < c.len() implies rows.contains(#[trigger] c[j]) && chars_lt(since, c[j].updated_at) by {
            if j < cp.len() {
                assert(c[j] == cp[j]);
                let w = choose|w: int| 0 <= w < p.len() && p[w] == cp[j];
                assert(rows[w] == p[w]);
            } else {
                assert(rows[rows.len() - 1] == rows.last());
            }
        }
    }
}

proof fn lemma_changed_rows_complete(rows: Seq<MappingView>, since: Seq<char>, x: MappingView)
    requires
        rows.contains(x),
        chars_lt(since, x.updated_at),
    ensures
        changed_rows(rows, since).contains(x),
    decreases rows.len(),
{
    let p = rows.drop_last();
    if rows.last() == x {
        assert(changed_rows(rows, since).last() == x);
        assert(changed_rows(rows, since)[changed_rows(rows, since).len() - 1] == x);
    } else {
        let w = choose|w: int| 0 <= w < rows.len() && rows[w] == x;
        assert(w < p.len() && p[w] == x);
        lemma_changed_rows_complete(p, since, x);
        let cp = changed_rows(p, since);
        let v = choose|v: int| 0 <= v < cp.len() && cp[v] == x;
        let c = changed_rows(rows, since);
        assert(c[v] == cp[v]);
    }
}

/// With no change in the source, a marker that does not come before the
/// first one picks no row that the first did not pick: a second run sees the same changed rows or
/// some of them.
pub proof fn lemma_later_marker_picks_fewer(rows: Seq<MappingView>, first: Seq<char>, later: Seq<char>)
    requires
        later == first || chars_lt(first, later),
    ensures
        forall|j: int|
            0 <= j < changed_rows(rows, later).len() ==> changed_rows(rows, first).contains(
                #[trigger] changed_rows(rows, later)[j],
            ),
{
    lemma_changed_rows_from(rows, later);
    assert forall|j: int| 0 <= j < changed_rows(rows, later).len() implies changed_rows(rows, first).contains(
        #[trigger] changed_rows(rows, later)[j],
    ) by {
        let x = changed_rows(rows, later)[j];
        if first != later {
            lemma_chars_lt_transitive(first, later, x.updated_at);
        }
        lemma_changed_rows_complete(rows, first, x);
    }
}

/// Synchronizing twice with no change in between changes nothing the
/// second time. After a first `sync_records` over `recs` turned the target
/// rows `before` into `after` (its contract gives the routes), a second run
/// over the same changed rows, or some of them, finds a counterpart for
/// every row (so it succeeds), inserts and updates nothing (so its rows stay
/// as they are). This holds as long as no two changed rows with the same
/// domain and front prefix differ in their routing fields.
pub proof fn lemma_sync_twice(
    before: Seq<MappingView>,
    after: Seq<MappingView>,
    recs: Seq<MappingView>,
    again: Seq<MappingView>,
)
    requires
        routes_of(after) == sync_routes(routes_of(before), routes_of(recs)).0,
        consistent(routes_of(recs)),
        forall|k: int| 0 <= k < again.len() ==> recs.contains(#[trigger] again[k]),
    ensures
        all_present(after, again),
        sync_routes(routes_of(after), routes_of(again)) == (routes_of(after), 0nat, 0nat),
{
    let rr = routes_of(recs);
    let ra = routes_of(again);
    lemma_sync_holds_all(routes_of(before), rr);
    assert forall|k: int| 0 <= k < ra.len() implies rr.contains(#[trigger] ra[k]) by {
        let w = choose|w: int| 0 <= w < recs.len() && recs[w] == again[k];
        assert(rr[w] == ra[k]);
    }
    lemma_sync_nothing_to_do(routes_of(after), rr, ra);
    assert forall|k: int| 0 <= k < again.len() implies first_key(
        routes_of(after),
        (#[trigger] again[k]).domain,
        again[k].front_uri,
    ) is Some by {
        let w = choose|w: int| 0 <= w < recs.len() && recs[w] == again[k];
        assert(rr[w] == route_of(again[k]));
    }
}

/// A change that the synchronization makes in the target store.
pub enum SyncAction {
    /// A new row, under a freshly generated id.
    Insert(Mapping),
    /// The row with this id takes the routing fields and update stamp of
    /// the source row.
    Update { target_id: String, source: Mapping },
}

/// The spec-level counterpart of `SyncAction`.
pub enum ActionView {
    Insert(MappingView),
    Update(Seq<char>, MappingView),
}

impl View for SyncAction {
    type V = ActionView;

    open spec fn view(&self) -> ActionView {
        match self {
            SyncAction::Insert(m) => ActionView::Insert(m@),
            SyncAction::Update { target_id, source } => ActionView::Update(target_id@, source@),
        }
    }
}

pub open spec fn actions_view(acts: Seq<SyncAction>) -> Seq<ActionView> {
    acts.map_values(|a: SyncAction| a@)
}

/// The ids of the inserted rows, in order.
pub open spec fn inserted_ids(acts: Seq<ActionView>) -> Seq<Seq<char>>
    decreases acts.len(),
{
    if acts.len() == 0 {
        Seq::empty()
    } else {
        let prev = inserted_ids(acts.drop_last());
        match acts.last() {
            ActionView::Insert(m) => prev.push(m.id),
            ActionView::Update(_, _) => prev,
        }
    }
}

/// A changed row as inserted into the target, under the id `id`.
pub open spec fn inserted_row(rec: MappingView, id: Seq<char>) -> MappingView {
    MappingView { id: id, ..rec }
}

/// A target row after taking the routing fields and update stamp of `rec`.
pub open spec fn rerouted_row(row: MappingView, rec: MappingView) -> MappingView {
    MappingView { id: row.id, created_at: row.created_at, updated_at: rec.updated_at, ..rec }
}

/// The synchronization applied to whole rows: the target rows afterwards,
/// the actions taken, in order, and the number of ids used. Inserted rows
/// take their ids from `ids`, in order.
pub open spec fn sync_plan(rows: Seq<MappingView>, recs: Seq<MappingView>, ids: Seq<Seq<char>>) -> (Seq<MappingView>, Seq<ActionView>, nat)
    decreases recs.len(),
{
    if recs.len() == 0 {
        (rows, Seq::empty(), 0)
    } else {
        let prev = sync_plan(rows, recs.drop_last(), ids);
        let rec = recs.last();
        match first_key(routes_of(prev.0), rec.domain, rec.front_uri) {
            Some(i) => if route_of(prev.0[i]) != route_of(rec) {
                (
                    prev.0.update(i, rerouted_row(prev.0[i], rec)),
                    prev.1.push(ActionView::Update(prev.0[i].id, rec)),
                    prev.2,
                )
            } else {
                prev
            },
            None => {
                let row = inserted_row(rec, ids[prev.2 as int]);
                (prev.0.push(row), prev.1.push(ActionView::Insert(row)), prev.2 + 1)
            },
        }
    }
}

proof fn lemma_sync_plan_ids(rows: Seq<MappingView>, recs: Seq<MappingView>, ids: Seq<Seq<char>>, more: Seq<Seq<char>>)
    requires
        ids.is_prefix_of(more),
        sync_plan(rows, recs, ids).2 <= ids.len(),
    ensures
        sync_plan(rows, recs, more) == sync_plan(rows, recs, ids),
    decreases recs.len(),
{
    if recs.len() > 0 {
        lemma_sync_plan_ids(rows, recs.drop_last(), ids, more);
        let n = sync_plan(rows, recs.drop_last(), ids).2;
        if n < ids.len() {
            assert(more[n as int] == ids[n as int]);
        }
    }
}

/// Every changed row has a counterpart (same domain and front prefix) among
/// the rows.
pub open spec fn all_present(rows: Seq<MappingView>, recs: Seq<MappingView>) -> bool {
    forall|k: int| 0 <= k < recs.len() ==> first_key(routes_of(rows), (#[trigger] recs[k]).domain, recs[k].front_uri) is Some
}

/// The rows from `from` on have 36-character ids that no earlier row has.
pub open spec fn fresh_from(rows: Seq<MappingView>, from: int) -> bool {
    forall|i: int, j: int|
        from <= i < rows.len() && 0 <= j < i ==> (#[trigger] rows[i]).id.len() == 36 && (#[trigger] rows[j]).id != rows[i].id
}

/// What one synchronization did.
pub struct SyncReport {
    pub inserted: usize,
    pub updated: usize,
    pub actions: Vec<SyncAction>,
    /// The time to record as the last synchronization.
    pub marker: String,
}

/// Applies the changed source rows `changed`, in order, to `target` (see
/// `sync_plan`): a row with no counterpart (same domain and front prefix)
/// is inserted under a new id; a counterpart that differs in a routing field
/// takes the source's routing fields and update stamp, keeping its id. The
/// actions say what was done, in order. Inserted ids are 36 characters long
/// and were not used before. The only possible error is a generated id that
/// is already taken, so the run succeeds whenever every changed row has a
/// counterpart.
pub fn sync_records(target: &mut MappingTable, changed: &Vec<Mapping>) -> (r: Result<SyncReport, StoreError>)
    ensures
        r matches Ok(rep) ==> {
            let cv = changed@.map_values(|m: Mapping| m@);
            let av = actions_view(rep.actions@);
            let plan = sync_plan(old(target)@, cv, inserted_ids(av));
            let expected = sync_routes(routes_of(old(target)@), routes_of(cv));
            &&& final(target)@ == plan.0
            &&& av == plan.1
            &&& rep.inserted == plan.2
            &&& inserted_ids(av).len() == rep.inserted
            &&& rep.actions@.len() == rep.inserted + rep.updated
            &&& routes_of(final(target)@) == expected.0
            &&& rep.inserted == expected.1
            &&& rep.updated == expected.2
            &&& fresh_from(final(target)@, old(target)@.len() as int)
            &&& forall|j: int|
                0 <= j < old(target)@.len() ==> (#[trigger] final(target)@[j]).id == old(target)@[j].id
            &&& (rep.inserted == 0 && rep.updated == 0 ==> final(target)@ == old(target)@)
        },
        all_present(old(target)@, changed@.map_values(|m: Mapping| m@)) ==> r is Ok,
        r is Err ==> exists|k: int|
            0 <= k < changed@.len() && first_key(
                routes_of(old(target)@),
                (#[trigger] changed@[k])@.domain,
                changed@[k]@.front_uri,
            ) is None,
{
    let ghost start = old(target)@;
    let ghost cv = changed@.map_values(|m: Mapping| m@);
    let ghost recs = routes_of(cv);
    let mut inserted: usize = 0;
    let mut updated: usize = 0;
    let mut actions: Vec<SyncAction> = Vec::new();
    let mut k: usize = 0;
    assert(recs.subrange(0, 0) =~= Seq::<Route>::empty());
    assert(cv.subrange(0, 0) =~= Seq::<MappingView>::empty());
    assert(actions_view(actions@) =~= Seq::<ActionView>::empty());
    while k < changed.len()
        invariant
            k <= changed@.len(),
            start == old(target)@,
            cv == changed@.map_values(|m: Mapping| m@),
            recs == routes_of(cv),
            routes_of(target@) == sync_routes(routes_of(start), recs.subrange(0, k as int)).0,
            inserted == sync_routes(routes_of(start), recs.subrange(0, k as int)).1,
            updated == sync_routes(routes_of(start), recs.subrange(0, k as int)).2,
            inserted <= k && updated <= k,
            actions@.len() == inserted + updated,
            inserted_ids(actions_view(actions@)).len() == inserted,
            target@ == sync_plan(start, cv.subrange(0, k as int), inserted_ids(actions_view(actions@))).0,
            actions_view(actions@) == sync_plan(start, cv.subrange(0, k as int), inserted_ids(actions_view(actions@))).1,
            inserted == sync_plan(start, cv.subrange(0, k as int), inserted_ids(actions_view(actions@))).2,
            target@.len() >= start.len(),
            forall|j: int| 0 <= j < start.len() ==> (#[trigger] target@[j]).id == start[j].id,
            fresh_from(target@, start.len() as int),
            actions@.len() == 0 ==> target@ == start,
            all_present(start, cv) ==> forall|q: int|
                0 <= q < cv.len() ==> first_key(routes_of(target@), (#[trigger] cv[q]).domain, cv[q].front_uri) is Some,
        decreases changed.len() - k,
    {
        let rec = &changed[k];
        let ghost rv = route_of(rec@);
        let ghost ids = inserted_ids(actions_view(actions@));
        let ghost av0 = actions_view(actions@);
        assert(cv[k as int] == rec@);
        assert(recs[k as int] == rv);
        assert(recs.subrange(0, k + 1).drop_last() =~= recs.subrange(0, k as int));
        assert(recs.subrange(0, k + 1).last() == rv);
        assert(cv.subrange(0, k + 1).drop_last() =~= cv.subrange(0, k as int));
        assert(cv.subrange(0, k + 1).last() == rec@);
        let ghost before = target@;
        proof {
            lemma_first_key_found(routes_of(before), rec@.domain, rec@.front_uri);
        }
        match target.first_with_key(rec.domain.as_str(), rec.front_uri.as_str()) {
            Some(i) => {
                let existing = target.row(i);
                assert(routes_of(before)[i as int] == route_of(existing@));
                if needs_update(rec, existing) {
                    assert(route_of(existing@) != rv);
                    assert(sync_one(routes_of(before), rv) == (routes_of(before).update(i as int, rv), 0nat, 1nat));
                    let target_id = existing.id.clone();
                    target.set_route(i, rec);
                    assert(target@ =~= before.update(i as int, rerouted_row(before[i as int], rec@)));
                    assert(routes_of(target@) =~= routes_of(before).update(i as int, rv));
                    actions.push(SyncAction::Update { target_id, source: rec.duplicate() });
                    proof {
                        let av1 = actions_view(actions@);
                        assert(av1 =~= av0.push(ActionView::Update(before[i as int].id, rec@)));
                        assert(av1.drop_last() =~= av0);
                        assert(inserted_ids(av1) == ids);
                        assert forall|q: int| 0 <= q < cv.len() implies first_key(
                            routes_of(target@),
                            (#[trigger] cv[q]).domain,
                            cv[q].front_uri,
                        ) == first_key(routes_of(before), cv[q].domain, cv[q].front_uri) by {
                            lemma_first_key_update(routes_of(before), i as int, rv, cv[q].domain, cv[q].front_uri);
                        }
                        assert forall|a: int| 0 <= a < target@.len() implies (#[trigger] target@[a]).id == before[a].id by {}
                    }
                    updated = updated + 1;
                } else {
                    assert(route_of(existing@) == rv);
                    assert(sync_one(routes_of(before), rv) == (routes_of(before), 0nat, 0nat));
                }
            },
            None => {
                let row = Mapping {
                    id: fresh_id(),
                    domain: rec.domain.clone(),
                    front_uri: rec.front_uri.clone(),
                    back_port: rec.back_port,
                    back_uri: rec.back_uri.clone(),
                    backend: crate::mapping::copy_opt(&rec.backend),
                    created_at: rec.created_at.clone(),
                    updated_at: rec.updated_at.clone(),
                };
                let copy = row.duplicate();
                assert(copy@.id.len() == 36);
                match target.insert_row(row) {
                    Ok(()) => {},
                    Err(e) => {
                        proof {
                            if all_present(start, cv) {
                                assert(first_key(routes_of(before), cv[k as int].domain, cv[k as int].front_uri) is Some);
                            }
                            assert(!all_present(start, cv));
                            let w = choose|w: int|
                                0 <= w < cv.len() && !(first_key(routes_of(start), (#[trigger] cv[w]).domain, cv[w].front_uri) is Some);
                            assert(changed@[w]@ == cv[w]);
                        }
                        return Err(e);
                    },
                }
                assert(routes_of(target@) =~= routes_of(before).push(rv));
                actions.push(SyncAction::Insert(copy));
                proof {
                    let av1 = actions_view(actions@);
                    assert(av1 =~= av0.push(ActionView::Insert(copy@)));
                    assert(av1.drop_last() =~= av0);
                    let ids1 = inserted_ids(av1);
                    assert(ids1 == ids.push(copy@.id));
                    lemma_sync_plan_ids(start, cv.subrange(0, k as int), ids, ids1);
                    assert(ids1[inserted as int] == copy@.id);
                    assert(copy@ == inserted_row(rec@, copy@.id));
                    assert forall|a: int, b: int|
                        start.len() <= a < target@.len() && 0 <= b < a implies (#[trigger] target@[a]).id.len() == 36
                            && (#[trigger] target@[b]).id != target@[a].id by {
                        if a < before.len() {
                            assert(target@[a] == before[a] && target@[b] == before[b]);
                        } else {
                            assert(target@[b] == before[b]);
                        }
                    }
                }
                inserted = inserted + 1;
            },
        }
        k = k + 1;
    }
    assert(recs.subrange(0, changed@.len() as int) =~= recs);
    assert(cv.subrange(0, changed@.len() as int) =~= cv);
    Ok(SyncReport { inserted, updated, actions, marker: marker_now() })
}

} // verus!
