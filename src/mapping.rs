//! The routing rule stored for each domain, and the normal form of its
//! path prefixes.

use vstd::prelude::*;

use crate::text::{chars_of, string_of};

verus! {

/// One routing rule: requests for `domain` whose path starts with
/// `/front_uri` go to `back_port` (on `backend`, or on localhost), with the
/// prefix replaced by `/back_uri`.
#[derive(Debug, Clone)]
pub struct Mapping {
    pub id: String,
    pub domain: String,
    pub front_uri: String,
    pub back_port: u16,
    pub back_uri: String,
    pub backend: Option<String>,
    pub created_at: String,
    pub updated_at: String,
}

/// What a `Mapping` holds, as mathematical values.
pub struct MappingView {
    pub id: Seq<char>,
    pub domain: Seq<char>,
    pub front_uri: Seq<char>,
    pub back_port: u16,
    pub back_uri: Seq<char>,
    pub backend: Option<Seq<char>>,
    pub created_at: Seq<char>,
    pub updated_at: Seq<char>,
}

pub open spec fn opt_view(o: Option<String>) -> Option<Seq<char>> {
    match o {
        Some(s) => Some(s@),
        None => None,
    }
}

impl View for Mapping {
    type V = MappingView;

    open spec fn view(&self) -> MappingView {
        MappingView {
            id: self.id@,
            domain: self.domain@,
            front_uri: self.front_uri@,
            back_port: self.back_port,
            back_uri: self.back_uri@,
            backend: opt_view(self.backend),
            created_at: self.created_at@,
            updated_at: self.updated_at@,
        }
    }
}

impl MappingView {
    /// The fields that decide where traffic goes (everything but the id and
    /// the timestamps) are the same in both rows.
    pub open spec fn same_route(self, other: MappingView) -> bool {
        &&& self.domain == other.domain
        &&& self.front_uri == other.front_uri
        &&& self.back_port == other.back_port
        &&& self.back_uri == other.back_uri
        &&& self.backend == other.backend
    }
}

/// Copies an optional string, keeping its contents.
pub fn copy_opt(o: &Option<String>) -> (r: Option<String>)
    ensures
        opt_view(r) == opt_view(*o),
{
    match o {
        Some(s) => Some(s.clone()),
        None => None,
    }
}

impl Mapping {
    /// A field-for-field copy.
    pub fn duplicate(&self) -> (r: Mapping)
        ensures
            r@ == self@,
    {
        Mapping {
            id: self.id.clone(),
            domain: self.domain.clone(),
            front_uri: self.front_uri.clone(),
            back_port: self.back_port,
            back_uri: self.back_uri.clone(),
            backend: copy_opt(&self.backend),
            created_at: self.created_at.clone(),
            updated_at: self.updated_at.clone(),
        }
    }
}

/// Compares two optional strings by contents.
pub fn opt_str_eq(a: &Option<String>, b: &Option<String>) -> (r: bool)
    ensures
        r == (opt_view(*a) == opt_view(*b)),
{
    match (a, b) {
        (Some(x), Some(y)) => *x == *y,
        (None, None) => true,
        _ => false,
    }
}

/// Whether a target row must be rewritten to match a source row: true
/// exactly when the two differ in a routing field. Ids and timestamps are
/// not compared.
pub fn needs_update(source: &Mapping, target: &Mapping) -> (r: bool)
    ensures
        r == !source@.same_route(target@),
{
    !(source.domain == target.domain && source.front_uri == target.front_uri
        && source.back_port == target.back_port && source.back_uri == target.back_uri
        && opt_str_eq(&source.backend, &target.backend))
}

/// `s` without its leading `/` characters.
pub open spec fn trim_leading_slashes(s: Seq<char>) -> Seq<char>
    decreases s.len(),
{
    if s.len() > 0 && s[0] == '/' {
        trim_leading_slashes(s.drop_first())
    } else {
        s
    }
}

/// `s` without its trailing `/` characters.
pub open spec fn trim_trailing_slashes(s: Seq<char>) -> Seq<char>
    decreases s.len(),
{
    if s.len() > 0 && s.last() == '/' {
        trim_trailing_slashes(s.drop_last())
    } else {
        s
    }
}

/// The stored form of a path prefix: no `/` at either end.
pub open spec fn normalized_uri(s: Seq<char>) -> Seq<char> {
    trim_trailing_slashes(trim_leading_slashes(s))
}

/// A path prefix in stored form.
pub open spec fn is_normalized(s: Seq<char>) -> bool {
    s.len() > 0 ==> (s[0] != '/' && s.last() != '/')
}

pub proof fn lemma_normalized_is_normalized(s: Seq<char>)
    ensures
        is_normalized(normalized_uri(s)),
    decreases s.len(),
{
    lemma_trim_leading_first(s);
    lemma_trim_trailing_keeps_first(trim_leading_slashes(s));
}

proof fn lemma_trim_leading_first(s: Seq<char>)
    ensures
        trim_leading_slashes(s).len() > 0 ==> trim_leading_slashes(s)[0] != '/',
    decreases s.len(),
{
    if s.len() > 0 && s[0] == '/' {
        lemma_trim_leading_first(s.drop_first());
    }
}

proof fn lemma_trim_trailing_keeps_first(s: Seq<char>)
    requires
        s.len() > 0 ==> s[0] != '/',
    ensures
        trim_trailing_slashes(s).len() > 0 ==> (trim_trailing_slashes(s)[0] != '/'
            && trim_trailing_slashes(s).last() != '/'),
    decreases s.len(),
{
    if s.len() > 0 && s.last() == '/' {
        lemma_trim_trailing_keeps_first(s.drop_last());
    }
}

/// Removes every leading and trailing `/` from a path prefix.
pub fn normalize_uri(s: &str) -> (r: String)
    ensures
        r@ == normalized_uri(s@),
        is_normalized(r@),
{
    let cs = chars_of(s);
    let n = cs.len();
    let mut i: usize = 0;
    assert(cs@.subrange(0, n as int) =~= cs@);
    while i < n && cs[i] == '/'
        invariant
            i <= n,
            n == cs@.len(),
            trim_leading_slashes(cs@) == trim_leading_slashes(cs@.subrange(i as int, n as int)),
        decreases n - i,
    {
        assert(cs@.subrange(i as int, n as int).drop_first() =~= cs@.subrange(i + 1, n as int));
        i = i + 1;
    }
    let ghost lead = cs@.subrange(i as int, n as int);
    assert(trim_leading_slashes(cs@) == lead);
    let mut j: usize = n;
    while j > i && cs[j - 1] == '/'
        invariant
            i <= j <= n,
            n == cs@.len(),
            lead == cs@.subrange(i as int, n as int),
            trim_trailing_slashes(lead) == trim_trailing_slashes(cs@.subrange(i as int, j as int)),
        decreases j,
    {
        assert(cs@.subrange(i as int, j as int).drop_last() =~= cs@.subrange(i as int, j - 1));
        j = j - 1;
    }
    let mut out: Vec<char> = Vec::new();
    let mut k: usize = i;
    while k < j
        invariant
            i <= k <= j <= n,
            n == cs@.len(),
            out@ == cs@.subrange(i as int, k as int),
        decreases j - k,
    {
        out.push(cs[k]);
        k = k + 1;
        assert(out@ =~= cs@.subrange(i as int, k as int));
    }
    proof {
        lemma_normalized_is_normalized(s@);
    }
    string_of(&out)
}

} // verus!
