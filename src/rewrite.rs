//! Path rewriting between the client-facing prefix and the backend prefix,
//! and the URLs built from it.

use vstd::prelude::*;

use crate::mapping::{opt_view, Mapping};
use crate::text::{chars_of, decimal, decimal_chars, has_prefix, push_str, string_of};

verus! {

/// `path` with `/front` removed from its start, when `front` is not empty
/// and `path` starts with it; otherwise `path` itself.
pub open spec fn strip_front(path: Seq<char>, front: Seq<char>) -> Seq<char> {
    let pattern = seq!['/'] + front;
    if front.len() > 0 && pattern.is_prefix_of(path) {
        path.subrange(pattern.len() as int, path.len() as int)
    } else {
        path
    }
}

/// `/back` put in front of `rest`, when `back` is not empty.
pub open spec fn prepend_back(rest: Seq<char>, back: Seq<char>) -> Seq<char> {
    if back.len() > 0 {
        seq!['/'] + back + rest
    } else {
        rest
    }
}

/// `s` with every run of consecutive `/` replaced by a single `/`.
pub open spec fn collapse_slashes(s: Seq<char>) -> Seq<char>
    decreases s.len(),
{
    if s.len() == 0 {
        s
    } else {
        let r = collapse_slashes(s.drop_last());
        if s.last() == '/' && r.len() > 0 && r.last() == '/' {
            r
        } else {
            r.push(s.last())
        }
    }
}

/// `s` if it starts with `/`, else `s` with a `/` in front (so the empty
/// path becomes `/`).
pub open spec fn with_leading_slash(s: Seq<char>) -> Seq<char> {
    if s.len() > 0 && s[0] == '/' {
        s
    } else {
        seq!['/'] + s
    }
}

/// The backend path for a request path under a mapping with the given
/// prefixes.
pub open spec fn rewritten(path: Seq<char>, front: Seq<char>, back: Seq<char>) -> Seq<char> {
    with_leading_slash(collapse_slashes(prepend_back(strip_front(path, front), back)))
}

/// No two `/` stand next to each other.
pub open spec fn no_double_slash(s: Seq<char>) -> bool {
    forall|i: int| 0 < i < s.len() ==> !(#[trigger] s[i] == '/' && s[i - 1] == '/')
}

proof fn lemma_collapse_props(s: Seq<char>)
    ensures
        no_double_slash(collapse_slashes(s)),
        collapse_slashes(s).len() > 0 ==> collapse_slashes(s).last() == s.last(),
        collapse_slashes(s).len() > 0 <==> s.len() > 0,
        s.len() > 0 ==> collapse_slashes(s)[0] == s[0],
    decreases s.len(),
{
    if s.len() > 0 {
        lemma_collapse_props(s.drop_last());
    }
}

proof fn lemma_collapse_identity(s: Seq<char>)
    requires
        no_double_slash(s),
    ensures
        collapse_slashes(s) == s,
    decreases s.len(),
{
    if s.len() > 0 {
        let p = s.drop_last();
        assert forall|i: int| 0 < i < p.len() implies !(#[trigger] p[i] == '/' && p[i - 1] == '/') by {
            assert(s[i] == p[i] && s[i - 1] == p[i - 1]);
        }
        lemma_collapse_identity(p);
        if p.len() > 0 {
            assert(s[s.len() - 1] == s.last());
            assert(!(s[s.len() - 1] == '/' && s[s.len() - 2] == '/'));
        }
        assert(p.push(s.last()) =~= s);
    }
}

/// The rewritten path always starts with `/` and never holds `//`.
pub proof fn lemma_rewritten_shape(path: Seq<char>, front: Seq<char>, back: Seq<char>)
    ensures
        rewritten(path, front, back).len() > 0,
        rewritten(path, front, back)[0] == '/',
        no_double_slash(rewritten(path, front, back)),
{
    let c = collapse_slashes(prepend_back(strip_front(path, front), back));
    lemma_collapse_props(prepend_back(strip_front(path, front), back));
    if !(c.len() > 0 && c[0] == '/') {
        let r = seq!['/'] + c;
        assert forall|i: int| 0 < i < r.len() implies !(#[trigger] r[i] == '/' && r[i - 1] == '/') by {
            if i >= 2 {
                assert(r[i] == c[i - 1] && r[i - 1] == c[i - 2]);
            } else {
                assert(r[1] == c[0]);
            }
        }
    }
}

/// With no prefix on either side, a path that starts with `/` and holds no
/// `//` is left as it is.
pub proof fn lemma_rewrite_without_prefixes(path: Seq<char>)
    requires
        path.len() > 0,
        path[0] == '/',
        no_double_slash(path),
    ensures
        rewritten(path, Seq::empty(), Seq::empty()) == path,
{
    lemma_collapse_identity(path);
}

fn collapse_vec(s: &Vec<char>) -> (r: Vec<char>)
    ensures
        r@ == collapse_slashes(s@),
{
    let mut out: Vec<char> = Vec::new();
    let mut i: usize = 0;
    assert(s@.subrange(0, 0) =~= Seq::<char>::empty());
    while i < s.len()
        invariant
            i <= s.len(),
            out@ == collapse_slashes(s@.subrange(0, i as int)),
        decreases s.len() - i,
    {
        let c = s[i];
        assert(s@.subrange(0, i + 1).drop_last() =~= s@.subrange(0, i as int));
        let n = out.len();
        if !(c == '/' && n > 0 && out[n - 1] == '/') {
            out.push(c);
        }
        i = i + 1;
    }
    assert(s@.subrange(0, s@.len() as int) =~= s@);
    out
}

/// The path to request from the backend: the mapping's front prefix is
/// taken off, its back prefix put on, runs of `/` collapsed, and a leading
/// `/` guaranteed.
pub fn rewrite_path(path: &str, mapping: &Mapping) -> (r: String)
    ensures
        r@ == rewritten(path@, mapping.front_uri@, mapping.back_uri@),
        r@.len() > 0 && r@[0] == '/',
        no_double_slash(r@),
{
    let cs = chars_of(path);
    let front = &mapping.front_uri;
    let back = &mapping.back_uri;
    let ghost fv = front@;
    let mut rest: Vec<char> = Vec::new();
    let mut pattern: Vec<char> = Vec::new();
    pattern.push('/');
    push_str(&mut pattern, front.as_str());
    assert(pattern@ =~= seq!['/'] + fv);
    if !front.as_str().is_empty() && has_prefix(&cs, &pattern) {
        let mut k: usize = pattern.len();
        while k < cs.len()
            invariant
                pattern@.len() <= k <= cs@.len(),
                rest@ == cs@.subrange(pattern@.len() as int, k as int),
            decreases cs.len() - k,
        {
            rest.push(cs[k]);
            k = k + 1;
            assert(rest@ =~= cs@.subrange(pattern@.len() as int, k as int));
        }
    } else {
        rest = cs;
    }
    assert(rest@ == strip_front(path@, fv));
    let mut joined: Vec<char> = Vec::new();
    if !back.as_str().is_empty() {
        joined.push('/');
        push_str(&mut joined, back.as_str());
        let mut k: usize = 0;
        while k < rest.len()
            invariant
                k <= rest.len(),
                joined@ == seq!['/'] + back@ + rest@.subrange(0, k as int),
            decreases rest.len() - k,
        {
            joined.push(rest[k]);
            k = k + 1;
            assert(joined@ =~= seq!['/'] + back@ + rest@.subrange(0, k as int));
        }
        assert(rest@.subrange(0, rest@.len() as int) =~= rest@);
    } else {
        joined = rest;
    }
    let collapsed = collapse_vec(&joined);
    let out = if collapsed.len() > 0 && collapsed[0] == '/' {
        collapsed
    } else {
        let mut v: Vec<char> = Vec::new();
        v.push('/');
        let mut k: usize = 0;
        while k < collapsed.len()
            invariant
                k <= collapsed.len(),
                v@ == seq!['/'] + collapsed@.subrange(0, k as int),
            decreases collapsed.len() - k,
        {
            v.push(collapsed[k]);
            k = k + 1;
            assert(v@ =~= seq!['/'] + collapsed@.subrange(0, k as int));
        }
        assert(collapsed@.subrange(0, collapsed@.len() as int) =~= collapsed@);
        v
    };
    proof {
        lemma_rewritten_shape(path@, mapping.front_uri@, mapping.back_uri@);
    }
    string_of(&out)
}

/// The base URL used when a mapping names no backend.
pub open spec fn default_backend() -> Seq<char> {
    "http://localhost"@
}

/// `{base}:{port}{rewritten path}` followed by `?{query}` when a query is
/// given.
pub open spec fn backend_url(
    backend: Option<Seq<char>>,
    port: u16,
    path: Seq<char>,
    front: Seq<char>,
    back: Seq<char>,
    query: Option<Seq<char>>,
) -> Seq<char> {
    let base = match backend {
        Some(b) => b,
        None => default_backend(),
    };
    let url = base + seq![':'] + decimal(port as nat) + rewritten(path, front, back);
    match query {
        Some(q) => url + seq!['?'] + q,
        None => url,
    }
}

pub open spec fn opt_str_view(o: Option<&str>) -> Option<Seq<char>> {
    match o {
        Some(s) => Some(s@),
        None => None,
    }
}

/// The URL of the backend resource for a request: the mapping's backend
/// (or `http://localhost`), always followed by `:` and the mapping's port,
/// then the rewritten path and the query.
pub fn build_backend_url(mapping: &Mapping, path: &str, query: Option<&str>) -> (r: String)
    ensures
        r@ == backend_url(
            opt_view(mapping.backend),
            mapping.back_port,
            path@,
            mapping.front_uri@,
            mapping.back_uri@,
            opt_str_view(query),
        ),
{
    let mut out: Vec<char> = Vec::new();
    match &mapping.backend {
        Some(b) => push_str(&mut out, b.as_str()),
        None => push_str(&mut out, "http://localhost"),
    }
    out.push(':');
    let digits = decimal_chars(mapping.back_port as u64);
    let rewritten_path = rewrite_path(path, mapping);
    let ghost before = out@;
    let mut k: usize = 0;
    while k < digits.len()
        invariant
            k <= digits.len(),
            out@ == before + digits@.subrange(0, k as int),
        decreases digits.len() - k,
    {
        out.push(digits[k]);
        k = k + 1;
        assert(out@ =~= before + digits@.subrange(0, k as int));
    }
    assert(digits@.subrange(0, digits@.len() as int) =~= digits@);
    push_str(&mut out, rewritten_path.as_str());
    match query {
        Some(q) => {
            out.push('?');
            push_str(&mut out, q);
        }
        None => {}
    }
    let r = string_of(&out);
    assert(r@ =~= backend_url(
        opt_view(mapping.backend),
        mapping.back_port,
        path@,
        mapping.front_uri@,
        mapping.back_uri@,
        opt_str_view(query),
    ));
    r
}

/// The host name in a `Host` header value: everything before the first
/// `:`, or the whole value when it holds none.
pub open spec fn host_name(s: Seq<char>) -> Seq<char>
    decreases s.len(),
{
    if s.len() == 0 {
        s
    } else if s[0] == ':' {
        Seq::empty()
    } else {
        seq![s[0]] + host_name(s.drop_first())
    }
}

/// Drops a port suffix from a `Host` header value.
pub fn strip_port(host: &str) -> (r: String)
    ensures
        r@ == host_name(host@),
{
    let cs = chars_of(host);
    let n = cs.len();
    let mut i: usize = 0;
    assert(cs@.subrange(0, n as int) =~= cs@);
    while i < n && cs[i] != ':'
        invariant
            i <= n,
            n == cs@.len(),
            host_name(cs@) == cs@.subrange(0, i as int) + host_name(cs@.subrange(i as int, n as int)),
        decreases n - i,
    {
        assert(cs@.subrange(i as int, n as int).drop_first() =~= cs@.subrange(i + 1, n as int));
        assert(cs@.subrange(0, i + 1) =~= cs@.subrange(0, i as int) + seq![cs@[i as int]]);
        i = i + 1;
    }
    let mut out: Vec<char> = Vec::new();
    let mut k: usize = 0;
    while k < i
        invariant
            k <= i <= n,
            n == cs@.len(),
            out@ == cs@.subrange(0, k as int),
        decreases i - k,
    {
        out.push(cs[k]);
        k = k + 1;
        assert(out@ =~= cs@.subrange(0, k as int));
    }
    assert(host_name(cs@.subrange(i as int, n as int)) =~= Seq::<char>::empty());
    assert(cs@.subrange(0, i as int) + Seq::<char>::empty() =~= cs@.subrange(0, i as int));
    string_of(&out)
}

/// `https://{host}{path and query}`, with `/` when the request target has
/// no path.
pub open spec fn https_location(host: Seq<char>, path_and_query: Option<Seq<char>>) -> Seq<char> {
    "https://"@ + host + match path_and_query {
        Some(p) => p,
        None => "/"@,
    }
}

/// Where a plain-HTTP request is redirected when HTTPS is forced.
pub fn redirect_location(host: &str, path_and_query: Option<&str>) -> (r: String)
    ensures
        r@ == https_location(host@, opt_str_view(path_and_query)),
{
    let mut out: Vec<char> = Vec::new();
    push_str(&mut out, "https://");
    push_str(&mut out, host);
    match path_and_query {
        Some(p) => push_str(&mut out, p),
        None => push_str(&mut out, "/"),
    }
    let r = string_of(&out);
    assert(r@ =~= https_location(host@, opt_str_view(path_and_query)));
    r
}

} // verus!
