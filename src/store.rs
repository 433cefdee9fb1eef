//! The routing table: the rows of the persisted mapping store and the
//! operations on them (longest-prefix lookup, insertion, partial update,
//! deletion, ordered listing).

use vstd::prelude::*;
use vstd::seq_lib::{to_multiset_build, to_multiset_insert};
use vstd::utf8::char_u32_cast;

use crate::mapping::{copy_opt, normalize_uri, normalized_uri, opt_view, Mapping, MappingView};
use crate::rewrite::opt_str_view;
use crate::text::{chars_eq, chars_of, has_prefix, str_eq};

verus! {

/// Relies on `uuid::Uuid::new_v4`, written out in the hyphenated form of
/// its `Display` impl (36 characters).
#[verifier::external_body]
pub(crate) fn fresh_id() -> (r: String)
    ensures
        r@.len() == 36,
{
    uuid::Uuid::new_v4().to_string()
}

/// Relies on `chrono::Utc::now`, written out with `to_rfc3339`. Nothing is
/// promised of the value: it is the time of the call.
#[verifier::external_body]
fn timestamp_now() -> (r: String) {
    chrono::Utc::now().to_rfc3339()
}

/// Why a change to the table was refused.
#[derive(Debug, Clone, Copy, PartialEq, Eq)]
pub enum StoreError {
    /// The generated id is already taken by a row (the id is the table's
    /// primary key).
    DuplicateId,
}

/// A row routes requests for `domain` whose path is `path`: the domains are
/// equal and the row's front prefix is empty or `path` starts with
/// `/front_uri`.
pub open spec fn route_matches(m: MappingView, domain: Seq<char>, path: Seq<char>) -> bool {
    &&& m.domain == domain
    &&& (m.front_uri.len() == 0 || (seq!['/'] + m.front_uri).is_prefix_of(path))
}

/// The index of the row that routes `(domain, path)`: among the rows that
/// match, the one with the longest front prefix; of several as long, the
/// first.
pub open spec fn best_match(rows: Seq<MappingView>, domain: Seq<char>, path: Seq<char>) -> Option<int>
    decreases rows.len(),
{
    if rows.len() == 0 {
        None
    } else {
        let prev = best_match(rows.drop_last(), domain, path);
        let last = rows.last();
        if route_matches(last, domain, path) && (prev is None || last.front_uri.len()
            > rows[prev.unwrap()].front_uri.len()) {
            Some(rows.len() - 1)
        } else {
            prev
        }
    }
}

/// The row at `i` matches `(domain, path)` and no matching row has a longer
/// front prefix.
pub open spec fn longest_match_at(rows: Seq<MappingView>, domain: Seq<char>, path: Seq<char>, i: int) -> bool {
    &&& 0 <= i < rows.len()
    &&& route_matches(rows[i], domain, path)
    &&& forall|j: int|
        0 <= j < rows.len() && route_matches(#[trigger] rows[j], domain, path)
            ==> rows[j].front_uri.len() <= rows[i].front_uri.len()
}

/// `best_match` picks a matching row whose front prefix is at least as long
/// as that of every other matching row, and finds one whenever a row matches.
pub proof fn lemma_best_match_is_longest(rows: Seq<MappingView>, domain: Seq<char>, path: Seq<char>)
    ensures
        best_match(rows, domain, path) is None <==> (forall|j: int|
            0 <= j < rows.len() ==> !route_matches(#[trigger] rows[j], domain, path)),
        best_match(rows, domain, path) matches Some(i) ==> {
            &&& 0 <= i < rows.len()
            &&& route_matches(rows[i], domain, path)
            &&& forall|j: int|
                0 <= j < rows.len() && route_matches(#[trigger] rows[j], domain, path)
                    ==> rows[j].front_uri.len() <= rows[i].front_uri.len()
        },
    decreases rows.len(),
{
    if rows.len() > 0 {
        let p = rows.drop_last();
        lemma_best_match_is_longest(p, domain, path);
        assert forall|j: int| 0 <= j < p.len() implies #[trigger] p[j] == rows[j] by {}
        if best_match(rows, domain, path) is None {
            assert forall|j: int| 0 <= j < rows.len() implies !route_matches(
                #[trigger] rows[j],
                domain,
                path,
            ) by {
                if j < p.len() {
                    assert(p[j] == rows[j]);
                }
            }
        }
        if let Some(i) = best_match(rows, domain, path) {
            assert forall|j: int|
                0 <= j < rows.len() && route_matches(#[trigger] rows[j], domain, path)
                    implies rows[j].front_uri.len() <= rows[i].front_uri.len() by {
                if j < p.len() {
                    assert(p[j] == rows[j]);
                    if let Some(q) = best_match(p, domain, path) {
                        assert(p[q] == rows[q]);
                    }
                }
            }
        }
    }
}

/// Whether some row belongs to `domain`.
pub open spec fn domain_present(rows: Seq<MappingView>, domain: Seq<char>) -> bool {
    exists|j: int| 0 <= j < rows.len() && (#[trigger] rows[j]).domain == domain
}

/// A row as `add_mapping` stores it: prefixes in normal form and the
/// other fields as given.
pub open spec fn fresh_row(
    m: MappingView,
    domain: Seq<char>,
    front_uri: Seq<char>,
    back_port: u16,
    back_uri: Seq<char>,
    backend: Option<Seq<char>>,
) -> bool {
    &&& m.domain == domain
    &&& m.front_uri == normalized_uri(front_uri)
    &&& m.back_port == back_port
    &&& m.back_uri == normalized_uri(back_uri)
    &&& m.backend == backend
    &&& m.id.len() == 36
}

fn copy_str_opt(o: Option<&str>) -> (r: Option<String>)
    ensures
        opt_view(r) == opt_str_view(o),
{
    match o {
        Some(s) => Some(s.to_owned()),
        None => None,
    }
}

/// A new row with a freshly generated id and the current time as its
/// creation and update stamps; the prefixes are stored without leading or
/// trailing `/`.
pub fn new_mapping(
    domain: &str,
    front_uri: &str,
    back_port: u16,
    back_uri: &str,
    backend: Option<&str>,
) -> (r: Mapping)
    ensures
        fresh_row(r@, domain@, front_uri@, back_port, back_uri@, opt_str_view(backend)),
{
    let id = fresh_id();
    let created_at = timestamp_now();
    let updated_at = timestamp_now();
    Mapping {
        id,
        domain: domain.to_owned(),
        front_uri: normalize_uri(front_uri),
        back_port,
        back_uri: normalize_uri(back_uri),
        backend: copy_str_opt(backend),
        created_at,
        updated_at,
    }
}

/// A row as `update_mapping` leaves it: each supplied field replaced (the
/// prefixes in normal form), the update stamp set to `stamp`, the rest kept.
pub open spec fn updated_row(
    m: MappingView,
    front_uri: Option<Seq<char>>,
    back_uri: Option<Seq<char>>,
    back_port: Option<u16>,
    backend: Option<Seq<char>>,
    stamp: Seq<char>,
) -> MappingView {
    MappingView {
        id: m.id,
        domain: m.domain,
        front_uri: match front_uri {
            Some(f) => normalized_uri(f),
            None => m.front_uri,
        },
        back_port: match back_port {
            Some(p) => p,
            None => m.back_port,
        },
        back_uri: match back_uri {
            Some(b) => normalized_uri(b),
            None => m.back_uri,
        },
        backend: match backend {
            Some(b) => Some(b),
            None => m.backend,
        },
        created_at: m.created_at,
        updated_at: stamp,
    }
}

/// The row is one that `delete_mapping(domain, front_uri)` removes: it
/// belongs to `domain` and, when a front prefix is given, has that prefix
/// (compared in normal form).
pub open spec fn deleted_by(m: MappingView, domain: Seq<char>, front_uri: Option<Seq<char>>) -> bool {
    &&& m.domain == domain
    &&& match front_uri {
        Some(f) => m.front_uri == normalized_uri(f),
        None => true,
    }
}

/// The rows that `delete_mapping(domain, front_uri)` keeps, in order.
pub open spec fn kept_rows(rows: Seq<MappingView>, domain: Seq<char>, front_uri: Option<Seq<char>>) -> Seq<MappingView>
    decreases rows.len(),
{
    if rows.len() == 0 {
        rows
    } else {
        let prev = kept_rows(rows.drop_last(), domain, front_uri);
        if deleted_by(rows.last(), domain, front_uri) {
            prev
        } else {
            prev.push(rows.last())
        }
    }
}

/// The rows that `delete_mapping(domain, front_uri)` removes, in order.
pub open spec fn removed_rows(rows: Seq<MappingView>, domain: Seq<char>, front_uri: Option<Seq<char>>) -> Seq<MappingView>
    decreases rows.len(),
{
    if rows.len() == 0 {
        rows
    } else {
        let prev = removed_rows(rows.drop_last(), domain, front_uri);
        if deleted_by(rows.last(), domain, front_uri) {
            prev.push(rows.last())
        } else {
            prev
        }
    }
}

/// The rows that `list_mappings(domain)` shows, in table order: all rows,
/// or those of the given domain.
pub open spec fn listed_rows(rows: Seq<MappingView>, domain: Option<Seq<char>>) -> Seq<MappingView>
    decreases rows.len(),
{
    if rows.len() == 0 {
        rows
    } else {
        let prev = listed_rows(rows.drop_last(), domain);
        let shown = match domain {
            Some(d) => rows.last().domain == d,
            None => true,
        };
        if shown {
            prev.push(rows.last())
        } else {
            prev
        }
    }
}

/// Lexicographic order on character sequences, by code point; a proper
/// prefix comes first.
pub open spec fn chars_lt(a: Seq<char>, b: Seq<char>) -> bool
    decreases a.len(),
{
    if a.len() == 0 {
        b.len() > 0
    } else if b.len() == 0 {
        false
    } else if a[0] != b[0] {
        (a[0] as u32) < (b[0] as u32)
    } else {
        chars_lt(a.drop_first(), b.drop_first())
    }
}

/// Rows are listed by domain, then by front prefix.
pub open spec fn row_lt(a: MappingView, b: MappingView) -> bool {
    chars_lt(a.domain, b.domain) || (a.domain == b.domain && chars_lt(a.front_uri, b.front_uri))
}

/// The orders in which rows are listed.
#[derive(Debug, Clone, Copy, PartialEq, Eq)]
pub enum RowOrder {
    /// By domain, then by front prefix.
    DomainThenFront,
    /// By update stamp.
    UpdatedAt,
}

/// `a` comes strictly before `b` in the order.
pub open spec fn precedes(a: MappingView, b: MappingView, order: RowOrder) -> bool {
    match order {
        RowOrder::DomainThenFront => row_lt(a, b),
        RowOrder::UpdatedAt => chars_lt(a.updated_at, b.updated_at),
    }
}

/// No row stands after one that it comes before in the order.
pub open spec fn sorted_by(rows: Seq<MappingView>, order: RowOrder) -> bool {
    forall|i: int, j: int| 0 <= i < j < rows.len() ==> !precedes(#[trigger] rows[j], #[trigger] rows[i], order)
}

/// Rows listed by domain, then by front prefix.
pub open spec fn sorted_rows(rows: Seq<MappingView>) -> bool {
    sorted_by(rows, RowOrder::DomainThenFront)
}

pub proof fn lemma_chars_lt_transitive(a: Seq<char>, b: Seq<char>, c: Seq<char>)
    requires
        chars_lt(a, b),
        chars_lt(b, c),
    ensures
        chars_lt(a, c),
    decreases a.len(),
{
    if a.len() > 0 && a[0] == b[0] && b[0] == c[0] {
        lemma_chars_lt_transitive(a.drop_first(), b.drop_first(), c.drop_first());
    }
}

/// Two different sequences are ordered one way or the other.
pub proof fn lemma_chars_lt_total(a: Seq<char>, b: Seq<char>)
    requires
        a != b,
    ensures
        chars_lt(a, b) || chars_lt(b, a),
    decreases a.len(),
{
    if a.len() > 0 && b.len() > 0 && a[0] == b[0] {
        if a.drop_first() == b.drop_first() {
            assert(a =~= seq![a[0]] + a.drop_first());
            assert(b =~= seq![b[0]] + b.drop_first());
        }
        lemma_chars_lt_total(a.drop_first(), b.drop_first());
    } else if a.len() == 0 && b.len() == 0 {
        assert(a =~= b);
    } else if a.len() > 0 && b.len() > 0 {
        char_u32_cast(a[0], a[0] as u32);
        char_u32_cast(b[0], b[0] as u32);
    }
}

proof fn lemma_chars_lt_irreflexive(a: Seq<char>)
    ensures
        !chars_lt(a, a),
    decreases a.len(),
{
    if a.len() > 0 {
        lemma_chars_lt_irreflexive(a.drop_first());
    }
}

proof fn lemma_row_lt_irreflexive(a: MappingView)
    ensures
        !row_lt(a, a),
{
    lemma_chars_lt_irreflexive(a.domain);
    lemma_chars_lt_irreflexive(a.front_uri);
}

proof fn lemma_row_lt_transitive(a: MappingView, b: MappingView, c: MappingView)
    requires
        row_lt(a, b),
        row_lt(b, c),
    ensures
        row_lt(a, c),
{
    if chars_lt(a.domain, b.domain) && chars_lt(b.domain, c.domain) {
        lemma_chars_lt_transitive(a.domain, b.domain, c.domain);
    }
    if a.domain == b.domain && b.domain == c.domain {
        lemma_chars_lt_irreflexive(a.domain);
        lemma_chars_lt_transitive(a.front_uri, b.front_uri, c.front_uri);
    }
}

fn chars_less(a: &Vec<char>, b: &Vec<char>) -> (r: bool)
    ensures
        r == chars_lt(a@, b@),
{
    let mut i: usize = 0;
    assert(a@.subrange(0, a@.len() as int) =~= a@);
    assert(b@.subrange(0, b@.len() as int) =~= b@);
    while i < a.len() && i < b.len() && a[i] == b[i]
        invariant
            i <= a.len(),
            i <= b.len(),
            chars_lt(a@, b@) == chars_lt(a@.subrange(i as int, a@.len() as int), b@.subrange(i as int, b@.len() as int)),
        decreases a.len() - i,
    {
        assert(a@.subrange(i as int, a@.len() as int).drop_first() =~= a@.subrange(i + 1, a@.len() as int));
        assert(b@.subrange(i as int, b@.len() as int).drop_first() =~= b@.subrange(i + 1, b@.len() as int));
        i = i + 1;
    }
    if i == a.len() {
        i < b.len()
    } else if i == b.len() {
        false
    } else {
        (a[i] as u32) < (b[i] as u32)
    }
}

proof fn lemma_precedes_irreflexive(a: MappingView, order: RowOrder)
    ensures
        !precedes(a, a, order),
{
    lemma_row_lt_irreflexive(a);
    lemma_chars_lt_irreflexive(a.updated_at);
}

proof fn lemma_precedes_transitive(a: MappingView, b: MappingView, c: MappingView, order: RowOrder)
    requires
        precedes(a, b, order),
        precedes(b, c, order),
    ensures
        precedes(a, c, order),
{
    match order {
        RowOrder::DomainThenFront => lemma_row_lt_transitive(a, b, c),
        RowOrder::UpdatedAt => lemma_chars_lt_transitive(a.updated_at, b.updated_at, c.updated_at),
    }
}

fn comes_before(a: &Mapping, b: &Mapping, order: RowOrder) -> (r: bool)
    ensures
        r == precedes(a@, b@, order),
{
    match order {
        RowOrder::DomainThenFront => row_less(a, b),
        RowOrder::UpdatedAt => chars_less(&chars_of(a.updated_at.as_str()), &chars_of(b.updated_at.as_str())),
    }
}

/// Where `x` goes into `s`: before the first row that it comes before, or
/// at the end.
pub open spec fn insert_pos(s: Seq<MappingView>, x: MappingView, order: RowOrder) -> int
    decreases s.len(),
{
    if s.len() == 0 {
        0
    } else if precedes(x, s[0], order) {
        0
    } else {
        1 + insert_pos(s.drop_first(), x, order)
    }
}

/// The rows sorted by insertion, one after the other in table order: rows
/// that neither comes before the other keep their table order.
pub open spec fn stable_sorted(rows: Seq<MappingView>, order: RowOrder) -> Seq<MappingView>
    decreases rows.len(),
{
    if rows.len() == 0 {
        rows
    } else {
        let s = stable_sorted(rows.drop_last(), order);
        s.insert(insert_pos(s, rows.last(), order), rows.last())
    }
}

/// The rows, reordered: stable insertion by the given order.
pub fn sort_rows(rows: Vec<Mapping>, order: RowOrder) -> (r: Vec<Mapping>)
    ensures
        r@.map_values(|m: Mapping| m@) == stable_sorted(rows@.map_values(|m: Mapping| m@), order),
        r@.map_values(|m: Mapping| m@).to_multiset() == rows@.map_values(|m: Mapping| m@).to_multiset(),
        sorted_by(r@.map_values(|m: Mapping| m@), order),
{
    let ghost target = rows@.map_values(|m: Mapping| m@);
    let mut out: Vec<Mapping> = Vec::new();
    let mut k: usize = 0;
    assert(out@.map_values(|m: Mapping| m@) =~= Seq::<MappingView>::empty());
    assert(target.subrange(0, 0) =~= Seq::<MappingView>::empty());
    while k < rows.len()
        invariant
            k <= rows@.len(),
            rows@.map_values(|m: Mapping| m@) == target,
            out@.map_values(|m: Mapping| m@).to_multiset() == target.subrange(0, k as int).to_multiset(),
            sorted_by(out@.map_values(|m: Mapping| m@), order),
            out@.map_values(|m: Mapping| m@) == stable_sorted(target.subrange(0, k as int), order),
        decreases rows.len() - k,
    {
        let x = rows[k].duplicate();
        let ghost xv = x@;
        assert(target[k as int] == xv);
        let ghost ov = out@.map_values(|m: Mapping| m@);
        let mut pos: usize = 0;
        assert(ov.subrange(0, ov.len() as int) =~= ov);
        while pos < out.len() && !comes_before(&x, &out[pos], order)
            invariant
                pos <= out@.len(),
                ov == out@.map_values(|m: Mapping| m@),
                xv == x@,
                forall|q: int| 0 <= q < pos ==> !precedes(xv, #[trigger] ov[q], order),
                insert_pos(ov, xv, order) == pos + insert_pos(ov.subrange(pos as int, ov.len() as int), xv, order),
            decreases out.len() - pos,
        {
            assert(ov[pos as int] == out@[pos as int]@);
            assert(ov.subrange(pos as int, ov.len() as int).drop_first() =~= ov.subrange(pos + 1, ov.len() as int));
            pos = pos + 1;
        }
        proof {
            if pos < out@.len() {
                assert(ov[pos as int] == out@[pos as int]@);
            }
        }
        out.insert(pos, x);
        proof {
            let nv = out@.map_values(|m: Mapping| m@);
            assert(nv =~= ov.insert(pos as int, xv));
            to_multiset_insert(ov, pos as int, xv);
            assert(target.subrange(0, k + 1) =~= target.subrange(0, k as int).push(xv));
            to_multiset_build(target.subrange(0, k as int), xv);
            assert(target.subrange(0, k + 1).drop_last() =~= target.subrange(0, k as int));
            assert(insert_pos(ov, xv, order) == pos);
            assert forall|a: int, b: int| 0 <= a < b < nv.len() implies !precedes(
                #[trigger] nv[b],
                #[trigger] nv[a],
                order,
            ) by {
                if a < pos && b < pos {
                    assert(nv[a] == ov[a] && nv[b] == ov[b]);
                } else if a < pos && b == pos {
                    assert(nv[a] == ov[a]);
                } else if a < pos {
                    assert(nv[a] == ov[a] && nv[b] == ov[b - 1]);
                } else if a == pos {
                    assert(nv[b] == ov[b - 1]);
                    if b - 1 == pos {
                        lemma_precedes_irreflexive(ov[pos as int], order);
                    }
                    assert(!precedes(ov[b - 1], ov[pos as int], order));
                    if precedes(ov[b - 1], xv, order) {
                        lemma_precedes_transitive(ov[b - 1], xv, ov[pos as int], order);
                    }
                } else {
                    assert(nv[a] == ov[a - 1] && nv[b] == ov[b - 1]);
                }
            }
        }
        k = k + 1;
    }
    assert(target.subrange(0, target.len() as int) =~= target);
    out
}

/// Whether `a` comes before `b` in character order.
pub fn chars_less_str(a: &str, b: &str) -> (r: bool)
    ensures
        r == chars_lt(a@, b@),
{
    chars_less(&chars_of(a), &chars_of(b))
}

fn row_less(a: &Mapping, b: &Mapping) -> (r: bool)
    ensures
        r == row_lt(a@, b@),
{
    let ad = chars_of(a.domain.as_str());
    let bd = chars_of(b.domain.as_str());
    if chars_less(&ad, &bd) {
        true
    } else if chars_eq(&ad, &bd) {
        chars_less(&chars_of(a.front_uri.as_str()), &chars_of(b.front_uri.as_str()))
    } else {
        false
    }
}

/// The routing fields of a row: domain, front prefix, port, back prefix and
/// backend.
pub type Route = (Seq<char>, Seq<char>, u16, Seq<char>, Option<Seq<char>>);

pub open spec fn route_of(m: MappingView) -> Route {
    (m.domain, m.front_uri, m.back_port, m.back_uri, m.backend)
}

/// The routing fields of each row, in table order.
pub open spec fn routes_of(rows: Seq<MappingView>) -> Seq<Route> {
    rows.map_values(|m: MappingView| route_of(m))
}

/// The index of the first route with exactly this domain and front prefix.
pub open spec fn first_key(routes: Seq<Route>, domain: Seq<char>, front_uri: Seq<char>) -> Option<int>
    decreases routes.len(),
{
    if routes.len() == 0 {
        None
    } else {
        match first_key(routes.drop_last(), domain, front_uri) {
            Some(i) => Some(i),
            None => if routes.last().0 == domain && routes.last().1 == front_uri {
                Some(routes.len() - 1)
            } else {
                None
            },
        }
    }
}

/// The rows of the mapping store, in insertion order.
pub struct MappingTable {
    rows: Vec<Mapping>,
}

impl View for MappingTable {
    type V = Seq<MappingView>;

    closed spec fn view(&self) -> Seq<MappingView> {
        self.rows@.map_values(|m: Mapping| m@)
    }
}

impl MappingTable {
    /// An empty table.
    pub fn new() -> (r: MappingTable)
        ensures
            r@ == Seq::<MappingView>::empty(),
    {
        let r = MappingTable { rows: Vec::new() };
        assert(r@ =~= Seq::<MappingView>::empty());
        r
    }

    /// A table holding the given rows, in that order.
    pub fn from_rows(rows: Vec<Mapping>) -> (r: MappingTable)
        ensures
            r@ == rows@.map_values(|m: Mapping| m@),
    {
        MappingTable { rows }
    }

    /// The rows, in table order.
    pub fn rows(&self) -> (r: &Vec<Mapping>)
        ensures
            r@.map_values(|m: Mapping| m@) == self@,
    {
        &self.rows
    }

    /// The number of rows.
    pub fn len(&self) -> (r: usize)
        ensures
            r == self@.len(),
    {
        self.rows.len()
    }

    /// The row that routes a request for `domain` with the absolute path
    /// `path`: among the rows of that domain whose front prefix is empty or
    /// starts the path after a `/`, one with the longest front prefix (which
    /// of several equally long ones is left open). `None` when no row
    /// matches.
    pub fn find_mapping(&self, domain: &str, path: &str) -> (r: Option<Mapping>)
        ensures
            match r {
                Some(m) => exists|i: int| 0 <= i < self@.len() && #[trigger] self@[i] == m@ && longest_match_at(self@, domain@, path@, i),
                None => forall|j: int| 0 <= j < self@.len() ==> !route_matches(#[trigger] self@[j], domain@, path@),
            },
    {
        let d = chars_of(domain);
        let p = chars_of(path);
        let mut best: Option<usize> = None;
        let mut best_len: usize = 0;
        let mut i: usize = 0;
        while i < self.rows.len()
            invariant
                i <= self.rows@.len(),
                d@ == domain@,
                p@ == path@,
                match best_match(self@.subrange(0, i as int), domain@, path@) {
                    Some(b) => 0 <= b < i && best == Some(b as usize) && best_len as int
                        == self@[b].front_uri.len(),
                    None => best is None,
                },
            decreases self.rows.len() - i,
        {
            let row = &self.rows[i];
            let front = chars_of(row.front_uri.as_str());
            let mut pattern: Vec<char> = Vec::new();
            pattern.push('/');
            let mut k: usize = 0;
            while k < front.len()
                invariant
                    k <= front.len(),
                    pattern@ == seq!['/'] + front@.subrange(0, k as int),
                decreases front.len() - k,
            {
                pattern.push(front[k]);
                k = k + 1;
                assert(pattern@ =~= seq!['/'] + front@.subrange(0, k as int));
            }
            assert(front@.subrange(0, front@.len() as int) =~= front@);
            let matched = chars_eq(&chars_of(row.domain.as_str()), &d) && (front.len() == 0
                || has_prefix(&p, &pattern));
            let ghost sub = self@.subrange(0, i + 1);
            assert(sub.drop_last() =~= self@.subrange(0, i as int));
            assert(sub.last() == self@[i as int]);
            assert(self@[i as int] == self.rows@[i as int]@);
            assert(matched == route_matches(self@[i as int], domain@, path@));
            proof {
                let prev = best_match(self@.subrange(0, i as int), domain@, path@);
                if prev is Some {
                    assert(sub[prev.unwrap()] == self@[prev.unwrap()]);
                }
            }
            if matched && (best.is_none() || front.len() > best_len) {
                best = Some(i);
                best_len = front.len();
            }
            i = i + 1;
        }
        assert(self@.subrange(0, self.rows@.len() as int) =~= self@);
        proof {
            lemma_best_match_is_longest(self@, domain@, path@);
        }
        match best {
            Some(b) => Some(self.rows[b].duplicate()),
            None => None,
        }
    }

    /// Whether some row belongs to `domain`.
    pub fn domain_exists(&self, domain: &str) -> (r: bool)
        ensures
            r == domain_present(self@, domain@),
    {
        let mut i: usize = 0;
        while i < self.rows.len()
            invariant
                i <= self.rows@.len(),
                forall|j: int| 0 <= j < i ==> (#[trigger] self@[j]).domain != domain@,
            decreases self.rows.len() - i,
        {
            if str_eq(self.rows[i].domain.as_str(), domain) {
                assert(self@[i as int].domain == domain@);
                return true;
            }
            i = i + 1;
        }
        false
    }

    /// Whether some row has the id `id`.
    pub fn has_id(&self, id: &str) -> (r: bool)
        ensures
            r == exists|j: int| 0 <= j < self@.len() && (#[trigger] self@[j]).id == id@,
    {
        let mut i: usize = 0;
        while i < self.rows.len()
            invariant
                i <= self.rows@.len(),
                forall|j: int| 0 <= j < i ==> (#[trigger] self@[j]).id != id@,
            decreases self.rows.len() - i,
        {
            if str_eq(self.rows[i].id.as_str(), id) {
                assert(self@[i as int].id == id@);
                return true;
            }
            i = i + 1;
        }
        false
    }

    /// Stores a new row (see `new_mapping`) at the end of the table and
    /// returns it. Refused, leaving the table unchanged, when the generated
    /// id is already taken.
    pub fn add_mapping(
        &mut self,
        domain: &str,
        front_uri: &str,
        back_port: u16,
        back_uri: &str,
        backend: Option<&str>,
    ) -> (r: Result<Mapping, StoreError>)
        ensures
            match r {
                Ok(m) => {
                    &&& fresh_row(m@, domain@, front_uri@, back_port, back_uri@, opt_str_view(backend))
                    &&& forall|j: int| 0 <= j < old(self)@.len() ==> (#[trigger] old(self)@[j]).id != m@.id
                    &&& final(self)@ == old(self)@.push(m@)
                },
                Err(StoreError::DuplicateId) => final(self)@ == old(self)@,
            },
            (forall|j: int| 0 <= j < old(self)@.len() ==> (#[trigger] old(self)@[j]).id.len() != 36) ==> r is Ok,
            r is Err ==> exists|j: int| 0 <= j < old(self)@.len() && (#[trigger] old(self)@[j]).id.len() == 36,
    {
        let m = new_mapping(domain, front_uri, back_port, back_uri, backend);
        match self.insert_row(m.duplicate()) {
            Ok(()) => Ok(m),
            Err(e) => Err(e),
        }
    }

    /// The index of the first row whose domain and front prefix are exactly
    /// `domain` and `front_uri` (no normalization).
    pub fn first_with_key(&self, domain: &str, front_uri: &str) -> (r: Option<usize>)
        ensures
            match r {
                Some(i) => first_key(routes_of(self@), domain@, front_uri@) == Some(i as int),
                None => first_key(routes_of(self@), domain@, front_uri@) is None,
            },
    {
        let ghost rs = routes_of(self@);
        let mut i: usize = 0;
        assert(rs.subrange(0, 0) =~= Seq::<Route>::empty());
        while i < self.rows.len()
            invariant
                i <= self.rows@.len(),
                rs == routes_of(self@),
                first_key(rs.subrange(0, i as int), domain@, front_uri@) is None,
            decreases self.rows.len() - i,
        {
            let row = &self.rows[i];
            assert(rs[i as int] == route_of(row@));
            let ghost sub = rs.subrange(0, i + 1);
            assert(sub.drop_last() =~= rs.subrange(0, i as int));
            if str_eq(row.domain.as_str(), domain) && str_eq(row.front_uri.as_str(), front_uri) {
                proof {
                    lemma_first_key_prefix(rs, i as int + 1, domain@, front_uri@);
                }
                return Some(i);
            }
            i = i + 1;
        }
        assert(rs.subrange(0, rs.len() as int) =~= rs);
        None
    }

    /// The row at `i`.
    pub fn row(&self, i: usize) -> (r: &Mapping)
        requires
            i < self@.len(),
        ensures
            r@ == self@[i as int],
    {
        &self.rows[i]
    }

    /// Gives the row at `i` the routing fields and update stamp of
    /// `source`; its id and creation stamp stay.
    pub fn set_route(&mut self, i: usize, source: &Mapping)
        requires
            i < old(self)@.len(),
        ensures
            final(self)@ == old(self)@.update(
                i as int,
                MappingView {
                    id: old(self)@[i as int].id,
                    created_at: old(self)@[i as int].created_at,
                    updated_at: source@.updated_at,
                    ..source@
                },
            ),
    {
        let ghost before = self@;
        let old_row = self.rows[i].duplicate();
        let m = Mapping {
            id: old_row.id,
            domain: source.domain.clone(),
            front_uri: source.front_uri.clone(),
            back_port: source.back_port,
            back_uri: source.back_uri.clone(),
            backend: copy_opt(&source.backend),
            created_at: old_row.created_at,
            updated_at: source.updated_at.clone(),
        };
        self.rows.set(i, m);
        assert(self@ =~= before.update(
            i as int,
            MappingView {
                id: before[i as int].id,
                created_at: before[i as int].created_at,
                updated_at: source@.updated_at,
                ..source@
            },
        ));
    }

    /// Appends `m`, unless its id is already taken.
    pub fn insert_row(&mut self, m: Mapping) -> (r: Result<(), StoreError>)
        ensures
            match r {
                Ok(()) => {
                    &&& forall|j: int| 0 <= j < old(self)@.len() ==> (#[trigger] old(self)@[j]).id != m@.id
                    &&& final(self)@ == old(self)@.push(m@)
                },
                Err(StoreError::DuplicateId) => {
                    &&& exists|j: int| 0 <= j < old(self)@.len() && (#[trigger] old(self)@[j]).id == m@.id
                    &&& final(self)@ == old(self)@
                },
            },
    {
        if self.has_id(m.id.as_str()) {
            return Err(StoreError::DuplicateId);
        }
        let ghost before = self@;
        let ghost mv = m@;
        self.rows.push(m);
        assert(self@ =~= before.push(mv));
        Ok(())
    }

    /// A row of `domain` whose front prefix equals `front_uri` once that is
    /// put in normal form (which one, when several do, is left open).
    pub fn find_by_domain_and_uri(&self, domain: &str, front_uri: &str) -> (r: Option<Mapping>)
        ensures
            match r {
                Some(m) => exists|i: int|
                    0 <= i < self@.len() && #[trigger] self@[i] == m@ && m@.domain == domain@
                        && m@.front_uri == normalized_uri(front_uri@),
                None => forall|j: int|
                    0 <= j < self@.len() ==> !((#[trigger] self@[j]).domain == domain@
                        && self@[j].front_uri == normalized_uri(front_uri@)),
            },
    {
        let front = normalize_uri(front_uri);
        let mut i: usize = 0;
        while i < self.rows.len()
            invariant
                i <= self.rows@.len(),
                front@ == normalized_uri(front_uri@),
                forall|j: int|
                    0 <= j < i ==> !((#[trigger] self@[j]).domain == domain@ && self@[j].front_uri
                        == normalized_uri(front_uri@)),
            decreases self.rows.len() - i,
        {
            let row = &self.rows[i];
            assert(self@[i as int] == row@);
            if str_eq(row.domain.as_str(), domain) && str_eq(row.front_uri.as_str(), front.as_str()) {
                return Some(row.duplicate());
            }
            i = i + 1;
        }
        None
    }

    /// The first row with the id `id`.
    pub fn get_mapping_by_id(&self, id: &str) -> (r: Option<Mapping>)
        ensures
            match r {
                Some(m) => exists|i: int|
                    0 <= i < self@.len() && #[trigger] self@[i] == m@ && m@.id == id@ && forall|j: int|
                        0 <= j < i ==> (#[trigger] self@[j]).id != id@,
                None => forall|j: int| 0 <= j < self@.len() ==> (#[trigger] self@[j]).id != id@,
            },
    {
        let mut i: usize = 0;
        while i < self.rows.len()
            invariant
                i <= self.rows@.len(),
                forall|j: int| 0 <= j < i ==> (#[trigger] self@[j]).id != id@,
            decreases self.rows.len() - i,
        {
            let row = &self.rows[i];
            assert(self@[i as int] == row@);
            if str_eq(row.id.as_str(), id) {
                return Some(row.duplicate());
            }
            i = i + 1;
        }
        None
    }

    /// Changes the supplied fields of the row with the id `id` (prefixes put
    /// in normal form) and refreshes its update stamp. The result says
    /// whether any field was supplied; with none, nothing changes.
    pub fn update_mapping(
        &mut self,
        id: &str,
        front_uri: Option<&str>,
        back_uri: Option<&str>,
        back_port: Option<u16>,
        backend: Option<&str>,
    ) -> (r: bool)
        ensures
            (front_uri is None && back_uri is None && back_port is None && backend is None) ==> {
                &&& !r
                &&& final(self)@ == old(self)@
            },
            (front_uri is Some || back_uri is Some || back_port is Some || backend is Some) ==> {
                &&& r
                &&& final(self)@.len() == old(self)@.len()
                &&& forall|j: int|
                    0 <= j < old(self)@.len() ==> (#[trigger] final(self)@[j]) == if old(self)@[j].id == id@ {
                        updated_row(
                            old(self)@[j],
                            opt_str_view(front_uri),
                            opt_str_view(back_uri),
                            back_port,
                            opt_str_view(backend),
                            final(self)@[j].updated_at,
                        )
                    } else {
                        old(self)@[j]
                    }
            },
    {
        if front_uri.is_none() && back_uri.is_none() && back_port.is_none() && backend.is_none() {
            return false;
        }
        let new_front = match front_uri {
            Some(f) => Some(normalize_uri(f)),
            None => None,
        };
        let new_back = match back_uri {
            Some(b) => Some(normalize_uri(b)),
            None => None,
        };
        let stamp = timestamp_now();
        let ghost before = self@;
        let mut out: Vec<Mapping> = Vec::new();
        let mut i: usize = 0;
        while i < self.rows.len()
            invariant
                i <= self.rows@.len(),
                before == self@,
                out@.len() == i,
                opt_view(new_front) == match front_uri {
                    Some(f) => Some(normalized_uri(f@)),
                    None => None::<Seq<char>>,
                },
                opt_view(new_back) == match back_uri {
                    Some(b) => Some(normalized_uri(b@)),
                    None => None::<Seq<char>>,
                },
                forall|j: int|
                    0 <= j < i ==> (#[trigger] out@[j])@ == if before[j].id == id@ {
                        updated_row(
                            before[j],
                            opt_str_view(front_uri),
                            opt_str_view(back_uri),
                            back_port,
                            opt_str_view(backend),
                            stamp@,
                        )
                    } else {
                        before[j]
                    },
            decreases self.rows.len() - i,
        {
            let row = &self.rows[i];
            assert(before[i as int] == row@);
            if str_eq(row.id.as_str(), id) {
                let m = Mapping {
                    id: row.id.clone(),
                    domain: row.domain.clone(),
                    front_uri: match &new_front {
                        Some(f) => f.clone(),
                        None => row.front_uri.clone(),
                    },
                    back_port: match back_port {
                        Some(p) => p,
                        None => row.back_port,
                    },
                    back_uri: match &new_back {
                        Some(b) => b.clone(),
                        None => row.back_uri.clone(),
                    },
                    backend: match backend {
                        Some(b) => Some(b.to_owned()),
                        None => copy_opt(&row.backend),
                    },
                    created_at: row.created_at.clone(),
                    updated_at: stamp.clone(),
                };
                out.push(m);
            } else {
                out.push(row.duplicate());
            }
            i = i + 1;
        }
        self.rows = out;
        true
    }

    /// Removes every row of `domain`, or, when `front_uri` is given, every
    /// row of `domain` with that front prefix (compared in normal form).
    /// Returns how many rows were removed.
    pub fn delete_mapping(&mut self, domain: &str, front_uri: Option<&str>) -> (r: usize)
        ensures
            final(self)@ == kept_rows(old(self)@, domain@, opt_str_view(front_uri)),
            r == old(self)@.len() - final(self)@.len(),
    {
        let front = match front_uri {
            Some(f) => Some(normalize_uri(f)),
            None => None,
        };
        let ghost before = self@;
        let ghost fv = opt_str_view(front_uri);
        let mut out: Vec<Mapping> = Vec::new();
        let mut removed: usize = 0;
        let mut i: usize = 0;
        while i < self.rows.len()
            invariant
                i <= self.rows@.len(),
                before == self@,
                fv == opt_str_view(front_uri),
                opt_view(front) == match front_uri {
                    Some(f) => Some(normalized_uri(f@)),
                    None => None::<Seq<char>>,
                },
                out@.map_values(|m: Mapping| m@) == kept_rows(before.subrange(0, i as int), domain@, fv),
                removed + out@.len() == i,
            decreases self.rows.len() - i,
        {
            let row = &self.rows[i];
            assert(before[i as int] == row@);
            let ghost sub = before.subrange(0, i + 1);
            assert(sub.drop_last() =~= before.subrange(0, i as int));
            let same_domain = str_eq(row.domain.as_str(), domain);
            let same_front = match &front {
                Some(f) => str_eq(row.front_uri.as_str(), f.as_str()),
                None => true,
            };
            let gone = same_domain && same_front;
            proof {
                match front_uri {
                    Some(f) => {
                        assert(front is Some);
                        assert(front.unwrap()@ == normalized_uri(f@));
                    },
                    None => {
                        assert(front is None);
                    },
                }
            }
            assert(gone == deleted_by(row@, domain@, fv));
            if gone {
                removed = removed + 1;
            } else {
                let ghost prev = out@;
                out.push(row.duplicate());
                assert(out@.map_values(|m: Mapping| m@) =~= prev.map_values(|m: Mapping| m@).push(row@));
            }
            i = i + 1;
        }
        assert(before.subrange(0, before.len() as int) =~= before);
        self.rows = out;
        proof {
            lemma_kept_len(before, domain@, fv);
        }
        removed
    }

    /// The rows that `delete_mapping(domain, front_uri)` would remove, in
    /// table order.
    pub fn rows_to_delete(&self, domain: &str, front_uri: Option<&str>) -> (r: Vec<Mapping>)
        ensures
            r@.map_values(|m: Mapping| m@) == removed_rows(self@, domain@, opt_str_view(front_uri)),
    {
        let front = match front_uri {
            Some(f) => Some(normalize_uri(f)),
            None => None,
        };
        let ghost fv = opt_str_view(front_uri);
        let mut out: Vec<Mapping> = Vec::new();
        let mut i: usize = 0;
        assert(self@.subrange(0, 0) =~= Seq::<MappingView>::empty());
        assert(out@.map_values(|m: Mapping| m@) =~= Seq::<MappingView>::empty());
        while i < self.rows.len()
            invariant
                i <= self.rows@.len(),
                fv == opt_str_view(front_uri),
                opt_view(front) == match front_uri {
                    Some(f) => Some(normalized_uri(f@)),
                    None => None::<Seq<char>>,
                },
                out@.map_values(|m: Mapping| m@) == removed_rows(self@.subrange(0, i as int), domain@, fv),
            decreases self.rows.len() - i,
        {
            let row = &self.rows[i];
            assert(self@[i as int] == row@);
            assert(self@.subrange(0, i + 1).drop_last() =~= self@.subrange(0, i as int));
            let same_domain = str_eq(row.domain.as_str(), domain);
            let same_front = match &front {
                Some(f) => str_eq(row.front_uri.as_str(), f.as_str()),
                None => true,
            };
            proof {
                match front_uri {
                    Some(f) => {
                        assert(front.unwrap()@ == normalized_uri(f@));
                    },
                    None => {},
                }
            }
            if same_domain && same_front {
                let ghost prev = out@;
                out.push(row.duplicate());
                assert(out@.map_values(|m: Mapping| m@) =~= prev.map_values(|m: Mapping| m@).push(row@));
            }
            i = i + 1;
        }
        assert(self@.subrange(0, self@.len() as int) =~= self@);
        out
    }

    /// The rows, or those of one domain, ordered by domain and then by front
    /// prefix; rows with the same domain and front prefix keep their table
    /// order.
    pub fn list_mappings(&self, domain: Option<&str>) -> (r: Vec<Mapping>)
        ensures
            r@.map_values(|m: Mapping| m@) == stable_sorted(listed_rows(self@, opt_str_view(domain)), RowOrder::DomainThenFront),
            r@.map_values(|m: Mapping| m@).to_multiset() == listed_rows(self@, opt_str_view(domain)).to_multiset(),
            sorted_rows(r@.map_values(|m: Mapping| m@)),
    {
        let ghost dv = opt_str_view(domain);
        let mut shown: Vec<Mapping> = Vec::new();
        let mut i: usize = 0;
        while i < self.rows.len()
            invariant
                i <= self.rows@.len(),
                dv == opt_str_view(domain),
                shown@.map_values(|m: Mapping| m@) == listed_rows(self@.subrange(0, i as int), dv),
            decreases self.rows.len() - i,
        {
            let row = &self.rows[i];
            assert(self@[i as int] == row@);
            let ghost sub = self@.subrange(0, i + 1);
            assert(sub.drop_last() =~= self@.subrange(0, i as int));
            let keep = match domain {
                Some(d) => {
                    let e = str_eq(row.domain.as_str(), d);
                    assert(dv == Some(d@));
                    assert(e == (row@.domain == d@));
                    e
                },
                None => true,
            };
            assert(keep == match dv {
                Some(d) => row@.domain == d,
                None => true,
            });
            assert(sub.last() == row@);
            if keep {
                let ghost prev = shown@;
                shown.push(row.duplicate());
                assert(shown@.map_values(|m: Mapping| m@) =~= prev.map_values(|m: Mapping| m@).push(row@));
            }
            i = i + 1;
        }
        assert(self@.subrange(0, self@.len() as int) =~= self@);
        sort_rows(shown, RowOrder::DomainThenFront)
    }
}

/// A row just stored by `add_mapping` is what `find_mapping` returns for its
/// domain and any path under its front prefix: it is the only row with the
/// longest matching prefix, as long as no earlier row of that domain
/// matching the path has a front prefix at least as long.
pub proof fn lemma_added_row_is_found(rows: Seq<MappingView>, m: MappingView, path: Seq<char>)
    requires
        route_matches(m, m.domain, path),
        forall|j: int|
            0 <= j < rows.len() && route_matches(#[trigger] rows[j], m.domain, path)
                ==> rows[j].front_uri.len() < m.front_uri.len(),
    ensures
        longest_match_at(rows.push(m), m.domain, path, rows.len() as int),
        forall|i: int| longest_match_at(rows.push(m), m.domain, path, i) ==> i == rows.len(),
{
    let all = rows.push(m);
    assert(all[rows.len() as int] == m);
    assert forall|j: int| 0 <= j < rows.len() implies #[trigger] all[j] == rows[j] by {}
    assert forall|i: int| longest_match_at(all, m.domain, path, i) implies i == rows.len() by {
        if i < rows.len() {
            assert(all[i] == rows[i]);
            assert(route_matches(all[rows.len() as int], m.domain, path));
        }
    }
}

/// A host that no row belongs to is routed nowhere, whatever the path.
pub proof fn lemma_unmapped_host_not_found(rows: Seq<MappingView>, host: Seq<char>, path: Seq<char>)
    requires
        !domain_present(rows, host),
    ensures
        forall|j: int| 0 <= j < rows.len() ==> !route_matches(#[trigger] rows[j], host, path),
{
    assert forall|j: int| 0 <= j < rows.len() implies !route_matches(#[trigger] rows[j], host, path) by {
        if route_matches(rows[j], host, path) {
            assert(rows[j].domain == host);
        }
    }
}

/// Every row that `kept_rows` returns was in the table and is not one that
/// the deletion removes.
proof fn lemma_kept_rows_survive(rows: Seq<MappingView>, domain: Seq<char>, front_uri: Option<Seq<char>>)
    ensures
        forall|j: int|
            0 <= j < kept_rows(rows, domain, front_uri).len() ==> {
                &&& !deleted_by(#[trigger] kept_rows(rows, domain, front_uri)[j], domain, front_uri)
                &&& rows.contains(kept_rows(rows, domain, front_uri)[j])
            },
    decreases rows.len(),
{
    if rows.len() > 0 {
        let p = rows.drop_last();
        lemma_kept_rows_survive(p, domain, front_uri);
        let k = kept_rows(rows, domain, front_uri);
        let kp = kept_rows(p, domain, front_uri);
        assert forall|j: int| 0 <= j < k.len() implies {
            &&& !deleted_by(#[trigger] k[j], domain, front_uri)
            &&& rows.contains(k[j])
        } by {
            if j < kp.len() {
                assert(k[j] == kp[j]);
                let w = choose|w: int| 0 <= w < p.len() && p[w] == kp[j];
                assert(rows[w] == p[w]);
            } else {
                assert(k[j] == rows.last());
                assert(rows[rows.len() - 1] == rows.last());
            }
        }
    }
}

/// Every row that `listed_rows` returns was in the table.
proof fn lemma_listed_rows_from_table(rows: Seq<MappingView>, domain: Option<Seq<char>>)
    ensures
        forall|j: int|
            0 <= j < listed_rows(rows, domain).len() ==> rows.contains(#[trigger] listed_rows(rows, domain)[j]),
    decreases rows.len(),
{
    if rows.len() > 0 {
        let p = rows.drop_last();
        lemma_listed_rows_from_table(p, domain);
        let l = listed_rows(rows, domain);
        let lp = listed_rows(p, domain);
        assert forall|j: int| 0 <= j < l.len() implies rows.contains(#[trigger] l[j]) by {
            if j < lp.len() {
                assert(l[j] == lp[j]);
                let w = choose|w: int| 0 <= w < p.len() && p[w] == lp[j];
                assert(rows[w] == p[w]);
            } else {
                assert(rows[rows.len() - 1] == rows.last());
            }
        }
    }
}

/// After `delete_mapping(domain, front_uri)`, no row that it removes is
/// left: none is listed by `list_mappings` (for all domains or for any one),
/// and when the deletion covered every row of the domain, `domain_exists`
/// turns false.
pub proof fn lemma_deleted_rows_are_gone(
    rows: Seq<MappingView>,
    domain: Seq<char>,
    front_uri: Option<Seq<char>>,
    shown: Option<Seq<char>>,
)
    ensures
        forall|j: int|
            0 <= j < listed_rows(kept_rows(rows, domain, front_uri), shown).len() ==> !deleted_by(
                #[trigger] listed_rows(kept_rows(rows, domain, front_uri), shown)[j],
                domain,
                front_uri,
            ),
        (forall|j: int| 0 <= j < rows.len() && (#[trigger] rows[j]).domain == domain ==> deleted_by(
            rows[j],
            domain,
            front_uri,
        )) ==> !domain_present(kept_rows(rows, domain, front_uri), domain),
{
    let k = kept_rows(rows, domain, front_uri);
    lemma_kept_rows_survive(rows, domain, front_uri);
    lemma_listed_rows_from_table(k, shown);
    let l = listed_rows(k, shown);
    assert forall|j: int| 0 <= j < l.len() implies !deleted_by(#[trigger] l[j], domain, front_uri) by {
        let w = choose|w: int| 0 <= w < k.len() && k[w] == l[j];
        assert(!deleted_by(k[w], domain, front_uri));
    }
    if forall|j: int| 0 <= j < rows.len() && (#[trigger] rows[j]).domain == domain ==> deleted_by(
        rows[j],
        domain,
        front_uri,
    ) {
        assert forall|j: int| 0 <= j < k.len() implies (#[trigger] k[j]).domain != domain by {
            assert(!deleted_by(k[j], domain, front_uri));
            let w = choose|w: int| 0 <= w < rows.len() && rows[w] == k[j];
        }
    }
}

/// What `first_key` finds: an index in range whose route has the key, with
/// no earlier route having it.
pub proof fn lemma_first_key_found(rs: Seq<Route>, domain: Seq<char>, front_uri: Seq<char>)
    ensures
        first_key(rs, domain, front_uri) matches Some(i) ==> {
            &&& 0 <= i < rs.len()
            &&& rs[i].0 == domain && rs[i].1 == front_uri
            &&& forall|j: int| 0 <= j < i ==> !((#[trigger] rs[j]).0 == domain && rs[j].1 == front_uri)
        },
        first_key(rs, domain, front_uri) is None ==> forall|j: int|
            0 <= j < rs.len() ==> !((#[trigger] rs[j]).0 == domain && rs[j].1 == front_uri),
    decreases rs.len(),
{
    if rs.len() > 0 {
        let p = rs.drop_last();
        lemma_first_key_found(p, domain, front_uri);
        assert forall|j: int| 0 <= j < p.len() implies #[trigger] p[j] == rs[j] by {}
        if let Some(i) = first_key(rs, domain, front_uri) {
            assert forall|j: int| 0 <= j < i implies !((#[trigger] rs[j]).0 == domain && rs[j].1
                == front_uri) by {
                assert(p[j] == rs[j]);
            }
            if i == rs.len() - 1 {
                assert(rs[i] == rs.last());
            }
        }
        if first_key(rs, domain, front_uri) is None {
            assert forall|j: int| 0 <= j < rs.len() implies !((#[trigger] rs[j]).0 == domain && rs[j].1
                == front_uri) by {
                if j < p.len() {
                    assert(p[j] == rs[j]);
                }
            }
        }
    }
}

/// Once a prefix of the routes holds the key, longer prefixes find the same
/// first index.
proof fn lemma_first_key_prefix(rs: Seq<Route>, n: int, domain: Seq<char>, front_uri: Seq<char>)
    requires
        0 < n <= rs.len(),
        first_key(rs.subrange(0, n - 1), domain, front_uri) is None,
        rs[n - 1].0 == domain && rs[n - 1].1 == front_uri,
    ensures
        first_key(rs, domain, front_uri) == Some(n - 1),
    decreases rs.len(),
{
    assert(rs.subrange(0, n).drop_last() =~= rs.subrange(0, n - 1));
    if n < rs.len() {
        assert(rs.drop_last().subrange(0, n - 1) =~= rs.subrange(0, n - 1));
        assert(rs.drop_last()[n - 1] == rs[n - 1]);
        lemma_first_key_prefix(rs.drop_last(), n, domain, front_uri);
    } else {
        assert(rs.subrange(0, n) =~= rs);
    }
}

proof fn lemma_listed_concat(a: Seq<MappingView>, b: Seq<MappingView>, d: Option<Seq<char>>)
    ensures
        listed_rows(a + b, d) == listed_rows(a, d) + listed_rows(b, d),
    decreases b.len(),
{
    if b.len() == 0 {
        assert(a + b =~= a);
        assert(listed_rows(a, d) + listed_rows(b, d) =~= listed_rows(a, d));
    } else {
        lemma_listed_concat(a, b.drop_last(), d);
        assert((a + b).drop_last() =~= a + b.drop_last());
        assert((a + b).last() == b.last());
        let shown = match d {
            Some(dd) => b.last().domain == dd,
            None => true,
        };
        if shown {
            assert(listed_rows(a, d) + listed_rows(b, d) =~= (listed_rows(a, d) + listed_rows(b.drop_last(), d)).push(b.last()));
        }
    }
}

proof fn lemma_listed_single(x: MappingView, d: Seq<char>)
    ensures
        listed_rows(seq![x], Some(d)) == if x.domain == d { seq![x] } else { Seq::<MappingView>::empty() },
{
    let e = Seq::<MappingView>::empty();
    assert(seq![x].drop_last() =~= e);
    assert(seq![x].last() == x);
    assert(listed_rows(e, Some(d)) == e);
    assert(e.push(x) =~= seq![x]);
}

proof fn lemma_listed_domain(rows: Seq<MappingView>, d: Seq<char>)
    ensures
        forall|j: int| 0 <= j < listed_rows(rows, Some(d)).len() ==> (#[trigger] listed_rows(rows, Some(d))[j]).domain == d,
    decreases rows.len(),
{
    if rows.len() > 0 {
        lemma_listed_domain(rows.drop_last(), d);
        let l = listed_rows(rows, Some(d));
        let lp = listed_rows(rows.drop_last(), Some(d));
        assert forall|j: int| 0 <= j < l.len() implies (#[trigger] l[j]).domain == d by {
            if j < lp.len() {
                assert(l[j] == lp[j]);
            }
        }
    }
}

proof fn lemma_insert_pos_props(s: Seq<MappingView>, x: MappingView, order: RowOrder)
    ensures
        0 <= insert_pos(s, x, order) <= s.len(),
        forall|q: int| 0 <= q < insert_pos(s, x, order) ==> !precedes(x, #[trigger] s[q], order),
        insert_pos(s, x, order) < s.len() ==> precedes(x, s[insert_pos(s, x, order)], order),
    decreases s.len(),
{
    if s.len() > 0 && !precedes(x, s[0], order) {
        lemma_insert_pos_props(s.drop_first(), x, order);
        assert forall|q: int| 0 <= q < insert_pos(s, x, order) implies !precedes(x, #[trigger] s[q], order) by {
            if q > 0 {
                assert(s[q] == s.drop_first()[q - 1]);
            }
        }
    }
}

proof fn lemma_insert_pos_unique(s: Seq<MappingView>, x: MappingView, order: RowOrder, i: int)
    requires
        0 <= i <= s.len(),
        forall|q: int| 0 <= q < i ==> !precedes(x, #[trigger] s[q], order),
        i < s.len() ==> precedes(x, s[i], order),
    ensures
        insert_pos(s, x, order) == i,
    decreases s.len(),
{
    if s.len() > 0 && i > 0 {
        assert(!precedes(x, s[0], order));
        assert forall|q: int| 0 <= q < i - 1 implies !precedes(x, #[trigger] s.drop_first()[q], order) by {
            assert(s.drop_first()[q] == s[q + 1]);
        }
        lemma_insert_pos_unique(s.drop_first(), x, order, i - 1);
    }
}

proof fn lemma_row_lt_total(a: MappingView, b: MappingView)
    requires
        !row_lt(a, b),
        !row_lt(b, a),
    ensures
        a.domain == b.domain && a.front_uri == b.front_uri,
{
    if a.domain != b.domain {
        lemma_chars_lt_total(a.domain, b.domain);
    }
    if a.front_uri != b.front_uri {
        lemma_chars_lt_total(a.front_uri, b.front_uri);
    }
}

proof fn lemma_stable_sorted_props(rows: Seq<MappingView>, order: RowOrder)
    ensures
        sorted_by(stable_sorted(rows, order), order),
        stable_sorted(rows, order).len() == rows.len(),
    decreases rows.len(),
{
    if rows.len() > 0 {
        let ov = stable_sorted(rows.drop_last(), order);
        let xv = rows.last();
        lemma_stable_sorted_props(rows.drop_last(), order);
        lemma_insert_pos_props(ov, xv, order);
        let pos = insert_pos(ov, xv, order);
        let nv = ov.insert(pos, xv);
        assert forall|a: int, b: int| 0 <= a < b < nv.len() implies !precedes(
            #[trigger] nv[b],
            #[trigger] nv[a],
            order,
        ) by {
            if a < pos && b < pos {
                assert(nv[a] == ov[a] && nv[b] == ov[b]);
            } else if a < pos && b == pos {
                assert(nv[a] == ov[a]);
            } else if a < pos {
                assert(nv[a] == ov[a] && nv[b] == ov[b - 1]);
            } else if a == pos {
                assert(nv[b] == ov[b - 1]);
                if b - 1 == pos {
                    lemma_precedes_irreflexive(ov[pos], order);
                }
                assert(!precedes(ov[b - 1], ov[pos], order));
                if precedes(ov[b - 1], xv, order) {
                    lemma_precedes_transitive(ov[b - 1], xv, ov[pos], order);
                }
            } else {
                assert(nv[a] == ov[a - 1] && nv[b] == ov[b - 1]);
            }
        }
    }
}

/// Inserting a row of domain `d` into sorted rows, then keeping the rows of
/// `d`, is inserting it into the rows of `d`.
proof fn lemma_listed_insert(s: Seq<MappingView>, x: MappingView, d: Seq<char>)
    requires
        sorted_by(s, RowOrder::DomainThenFront),
    ensures
        listed_rows(s.insert(insert_pos(s, x, RowOrder::DomainThenFront), x), Some(d)) == if x.domain == d {
            let f = listed_rows(s, Some(d));
            f.insert(insert_pos(f, x, RowOrder::DomainThenFront), x)
        } else {
            listed_rows(s, Some(d))
        },
{
    let o = RowOrder::DomainThenFront;
    let dd = Some(d);
    lemma_insert_pos_props(s, x, o);
    let i = insert_pos(s, x, o);
    let lo = s.subrange(0, i);
    let hi = s.subrange(i, s.len() as int);
    assert(s =~= lo + hi);
    assert(s.insert(i, x) =~= lo + seq![x] + hi);
    lemma_listed_concat(lo + seq![x], hi, dd);
    lemma_listed_concat(lo, seq![x], dd);
    lemma_listed_concat(lo, hi, dd);
    lemma_listed_single(x, d);
    let flo = listed_rows(lo, dd);
    let fhi = listed_rows(hi, dd);
    if x.domain == d {
        let f = listed_rows(s, dd);
        let n = flo.len() as int;
        assert(f == flo + fhi);
        lemma_listed_rows_from_table(lo, dd);
        lemma_listed_rows_from_table(hi, dd);
        lemma_listed_domain(hi, d);
        assert forall|q: int| 0 <= q < n implies !precedes(x, #[trigger] f[q], o) by {
            assert(f[q] == flo[q]);
            let w = choose|w: int| 0 <= w < lo.len() && lo[w] == flo[q];
            assert(lo[w] == s[w]);
        }
        if n < f.len() {
            assert(f[n] == fhi[0]);
            let w = choose|w: int| 0 <= w < hi.len() && hi[w] == fhi[0];
            let j = i + w;
            assert(hi[w] == s[j]);
            assert(hi[0] == s[i]);
            assert(precedes(x, s[i], o));
            if j > i {
                assert(!precedes(s[j], s[i], o));
                if !precedes(s[i], s[j], o) {
                    lemma_row_lt_total(s[i], s[j]);
                } else {
                    lemma_precedes_transitive(x, s[i], s[j], o);
                }
            }
        }
        lemma_insert_pos_unique(f, x, o, n);
        assert(f.insert(n, x) =~= flo + seq![x] + fhi);
    } else {
        assert(flo + Seq::<MappingView>::empty() + fhi =~= flo + fhi);
    }
}

/// Listing one domain gives the rows of that domain in the order of the
/// full listing.
pub proof fn lemma_domain_listing_is_restriction(rows: Seq<MappingView>, d: Seq<char>)
    ensures
        stable_sorted(listed_rows(rows, Some(d)), RowOrder::DomainThenFront) == listed_rows(
            stable_sorted(listed_rows(rows, None), RowOrder::DomainThenFront),
            Some(d),
        ),
    decreases rows.len(),
{
    let o = RowOrder::DomainThenFront;
    lemma_listed_all(rows);
    if rows.len() > 0 {
        let p = rows.drop_last();
        let x = rows.last();
        lemma_domain_listing_is_restriction(p, d);
        lemma_listed_all(p);
        let sp = stable_sorted(p, o);
        lemma_stable_sorted_props(p, o);
        lemma_listed_insert(sp, x, d);
        if x.domain == d {
            assert(listed_rows(rows, Some(d)).drop_last() =~= listed_rows(p, Some(d)));
        }
    }
}

proof fn lemma_listed_all(rows: Seq<MappingView>)
    ensures
        listed_rows(rows, None) == rows,
    decreases rows.len(),
{
    if rows.len() > 0 {
        lemma_listed_all(rows.drop_last());
        assert(rows.drop_last().push(rows.last()) =~= rows);
    }
}

/// Deleting never adds rows.
proof fn lemma_kept_len(rows: Seq<MappingView>, domain: Seq<char>, front_uri: Option<Seq<char>>)
    ensures
        kept_rows(rows, domain, front_uri).len() <= rows.len(),
    decreases rows.len(),
{
    if rows.len() > 0 {
        lemma_kept_len(rows.drop_last(), domain, front_uri);
    }
}

} // verus!
