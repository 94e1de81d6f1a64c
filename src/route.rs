//! The route table and the resolver that picks an upstream for a path.
use vstd::prelude::*;
use crate::text::{contains_str, is_substring, pairs_view};

verus! {

/// An ordered table of (match key, target host) entries.
#[derive(Clone)]
pub struct RouteTable {
    entries: Vec<(String, String)>,
}

/// What resolving a path against a route table gives.
pub enum ResolvedTarget {
    Matched { target_host: String, full_url: String },
    Unmatched,
}

/// Well-formed entries: keys and hosts are non-empty and keys are unique.
pub open spec fn routes_wf(t: Seq<(Seq<char>, Seq<char>)>) -> bool {
    &&& forall|i: int| 0 <= i < t.len() ==> (#[trigger] t[i]).0.len() > 0 && t[i].1.len() > 0
    &&& forall|i: int, j: int| 0 <= i < t.len() && 0 <= j < t.len() && i != j ==> (#[trigger] t[i]).0 != (#[trigger] t[j]).0
}

/// The host of the first entry, in table order, whose key occurs in `path`.
pub open spec fn first_match(path: Seq<char>, t: Seq<(Seq<char>, Seq<char>)>) -> Option<Seq<char>>
    decreases t.len(),
{
    if t.len() == 0 {
        None
    } else if is_substring(t[0].0, path) {
        Some(t[0].1)
    } else {
        first_match(path, t.drop_first())
    }
}

/// The upstream URL for a host and a path: `http://` then the host then the path.
pub open spec fn upstream_url(host: Seq<char>, path: Seq<char>) -> Seq<char> {
    "http://"@ + host + path
}

/// What `resolve` gives for `path` on table entries `t`: the host and the URL.
pub open spec fn resolve_spec(path: Seq<char>, t: Seq<(Seq<char>, Seq<char>)>) -> Option<(Seq<char>, Seq<char>)> {
    match first_match(path, t) {
        Some(h) => Some((h, upstream_url(h, path))),
        None => None,
    }
}

/// Views a resolved target as the (host, URL) pair it holds, if any.
pub open spec fn target_view(r: ResolvedTarget) -> Option<(Seq<char>, Seq<char>)> {
    match r {
        ResolvedTarget::Matched { target_host, full_url } => Some((target_host@, full_url@)),
        ResolvedTarget::Unmatched => None,
    }
}

/// The table after setting `key` to `host`: an entry with that key keeps its
/// place and takes the new host; otherwise the entry goes at the end.
pub open spec fn set_route(t: Seq<(Seq<char>, Seq<char>)>, key: Seq<char>, host: Seq<char>) -> Seq<(Seq<char>, Seq<char>)> {
    if exists|i: int| 0 <= i < t.len() && t[i].0 == key {
        let i = choose|i: int| 0 <= i < t.len() && t[i].0 == key;
        t.update(i, (key, host))
    } else {
        t.push((key, host))
    }
}

impl View for RouteTable {
    type V = Seq<(Seq<char>, Seq<char>)>;

    closed spec fn view(&self) -> Seq<(Seq<char>, Seq<char>)> {
        pairs_view(self.entries@)
    }
}

proof fn lemma_first_match_skip(path: Seq<char>, t: Seq<(Seq<char>, Seq<char>)>, i: int)
    requires
        0 <= i < t.len(),
        !is_substring(t[i].0, path),
    ensures
        first_match(path, t.subrange(i, t.len() as int)) == first_match(path, t.subrange(i + 1, t.len() as int)),
{
    let s = t.subrange(i, t.len() as int);
    assert(s.drop_first() =~= t.subrange(i + 1, t.len() as int));
}

/// No entry's key occurs in `path`: the first match is none.
pub proof fn lemma_first_match_none(path: Seq<char>, t: Seq<(Seq<char>, Seq<char>)>)
    requires
        forall|i: int| 0 <= i < t.len() ==> !is_substring(#[trigger] t[i].0, path),
    ensures
        first_match(path, t) is None,
    decreases t.len(),
{
    if t.len() > 0 {
        assert(!is_substring(t[0].0, path));
        lemma_first_match_none(path, t.drop_first());
    }
}

/// Resolving picks the first entry in table order whose key occurs in the
/// path, even when later entries match too: if entry `i` matches and no entry
/// before it does, the result is entry `i`'s host.
pub proof fn lemma_first_match_wins(path: Seq<char>, t: Seq<(Seq<char>, Seq<char>)>, i: int)
    requires
        0 <= i < t.len(),
        is_substring(t[i].0, path),
        forall|j: int| 0 <= j < i ==> !is_substring(#[trigger] t[j].0, path),
    ensures
        first_match(path, t) == Some(t[i].1),
        resolve_spec(path, t) == Some((t[i].1, upstream_url(t[i].1, path))),
    decreases i,
{
    if i > 0 {
        let d = t.drop_first();
        assert(!is_substring(t[0].0, path));
        assert forall|j: int| 0 <= j < i - 1 implies !is_substring(#[trigger] d[j].0, path) by {
            assert(d[j] == t[j + 1]);
        }
        lemma_first_match_wins(path, d, i - 1);
    }
}

impl RouteTable {
    /// Well-formed: every key and host is non-empty and no key repeats.
    pub closed spec fn wf(&self) -> bool {
        routes_wf(self@)
    }

    /// An empty table.
    pub fn new() -> (r: RouteTable)
        ensures
            r.wf(),
            r@ == Seq::<(Seq<char>, Seq<char>)>::empty(),
    {
        let r = RouteTable { entries: Vec::new() };
        proof {
            assert(r@ =~= Seq::<(Seq<char>, Seq<char>)>::empty());
        }
        r
    }

    /// Sets the host for `key`; a key seen before takes the new host in its
    /// old place. An empty key or host is refused and leaves the table as it was.
    pub fn insert(&mut self, key: String, host: String) -> (r: Result<(), String>)
        requires
            old(self).wf(),
        ensures
            final(self).wf(),
            r is Ok <==> (key@.len() > 0 && host@.len() > 0),
            r is Ok ==> final(self)@ == set_route(old(self)@, key@, host@),
            r is Err ==> final(self)@ == old(self)@,
    {
        if key.unicode_len() == 0 || host.unicode_len() == 0 {
            return Err(String::from_str("Invalid host mapping: the path key and the host must not be empty"));
        }
        let n = self.entries.len();
        let mut i: usize = 0;
        while i < n
            invariant
                n == self@.len(),
                n == self.entries@.len(),
                self.wf(),
                self@ == old(self)@,
                key@.len() > 0,
                host@.len() > 0,
                i <= n,
                forall|j: int| 0 <= j < i ==> self@[j].0 != key@,
            decreases n - i,
        {
            if self.entries[i].0 == key {
                let ghost t = self@;
                assert(t[i as int].0 == key@);
                let ghost k = choose|k: int| 0 <= k < t.len() && t[k].0 == key@;
                assert(k == i) by {
                    if k != i as int {
                        assert(t[k].0 == t[i as int].0);
                    }
                }
                self.entries.set(i, (key, host));
                proof {
                    assert(self@ =~= t.update(i as int, (key@, host@)));
                    assert forall|a: int, b: int| 0 <= a < self@.len() && 0 <= b < self@.len() && a != b implies
                        (#[trigger] self@[a]).0 != (#[trigger] self@[b]).0 by {
                        assert(t[a].0 != t[b].0);
                    }
                }
                return Ok(());
            }
            i = i + 1;
        }
        let ghost t = self@;
        self.entries.push((key, host));
        proof {
            assert(self@ =~= t.push((key@, host@)));
            assert forall|a: int, b: int| 0 <= a < self@.len() && 0 <= b < self@.len() && a != b implies
                (#[trigger] self@[a]).0 != (#[trigger] self@[b]).0 by {
                if a < n && b < n {
                    assert(t[a].0 != t[b].0);
                } else if a < n {
                    assert(t[a].0 != key@);
                } else {
                    assert(t[b].0 != key@);
                }
            }
        }
        Ok(())
    }

    /// Number of entries.
    pub fn len(&self) -> (r: usize)
        ensures
            r == self@.len(),
    {
        self.entries.len()
    }

    /// The key and host of entry `i`.
    pub fn entry(&self, i: usize) -> (r: (&str, &str))
        requires
            i < self@.len(),
        ensures
            r.0@ == self@[i as int].0,
            r.1@ == self@[i as int].1,
    {
        let e = &self.entries[i];
        (e.0.as_str(), e.1.as_str())
    }
}

/// Resolves `path` against `routes`: the first entry, in table order, whose
/// key occurs in the path gives the host, and the URL is `http://` then that
/// host then the path unchanged.
pub fn resolve(path: &str, routes: &RouteTable) -> (r: ResolvedTarget)
    ensures
        target_view(r) == resolve_spec(path@, routes@),
{
    let n = routes.len();
    let mut i: usize = 0;
    proof {
        assert(routes@.subrange(0, n as int) =~= routes@);
    }
    while i < n
        invariant
            n == routes@.len(),
            i <= n,
            first_match(path@, routes@) == first_match(path@, routes@.subrange(i as int, n as int)),
        decreases n - i,
    {
        let (key, host) = routes.entry(i);
        if contains_str(path, key) {
            proof {
                let s = routes@.subrange(i as int, n as int);
                assert(s[0] == routes@[i as int]);
            }
            let mut url = String::from_str("http://");
            url.append(host);
            url.append(path);
            proof {
                reveal_strlit("http://");
            }
            let target_host = String::from_str(host);
            return ResolvedTarget::Matched { target_host, full_url: url };
        }
        proof {
            lemma_first_match_skip(path@, routes@, i as int);
        }
        i = i + 1;
    }
    proof {
        assert(routes@.subrange(n as int, n as int) =~= Seq::<(Seq<char>, Seq<char>)>::empty());
    }
    ResolvedTarget::Unmatched
}

} // verus!
