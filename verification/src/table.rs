use vstd::prelude::*;

use crate::matcher;
use crate::matcher::lemma_pattern_matches_self;
use crate::matcher::pattern_matches;
use crate::method::Method;

verus! {

/// One registered route: a method, a pattern and the handler to invoke.
///
/// The handler type is the caller's own: anything the surrounding
/// application wants to run for a request, held here as an opaque value.
pub struct RouteEntry<H> {
    pub method: Method,
    pub pattern: String,
    pub handler: H,
}

/// The key a route is registered under.
pub open spec fn route_key<H>(r: RouteEntry<H>) -> (Method, Seq<char>) {
    (r.method, r.pattern@)
}

/// The mapping a sequence of route entries denotes: later entries overwrite
/// earlier ones with the same key.
pub open spec fn table_of<H>(rs: Seq<RouteEntry<H>>) -> Map<(Method, Seq<char>), H>
    decreases rs.len(),
{
    if rs.len() == 0 {
        Map::empty()
    } else {
        table_of(rs.drop_last()).insert(route_key(rs.last()), rs.last().handler)
    }
}

/// No two entries share a `(method, pattern)` key.
pub open spec fn unique_keys<H>(rs: Seq<RouteEntry<H>>) -> bool {
    forall|i: int, j: int|
        #![trigger route_key(rs[i]), route_key(rs[j])]
        0 <= i < rs.len() && 0 <= j < rs.len() && i != j ==> route_key(rs[i]) != route_key(rs[j])
}

/// Some route of the given method structurally matches the path.
pub open spec fn has_match<H>(
    t: Map<(Method, Seq<char>), H>,
    method: Method,
    path: Seq<char>,
) -> bool {
    exists|k: (Method, Seq<char>)|
        #[trigger] t.contains_key(k) && k.0 == method && pattern_matches(k.1, path)
}

proof fn lemma_table_contains<H>(rs: Seq<RouteEntry<H>>, k: (Method, Seq<char>))
    ensures
        table_of(rs).contains_key(k) <==> exists|i: int|
            0 <= i < rs.len() && route_key(#[trigger] rs[i]) == k,
    decreases rs.len(),
{
    if rs.len() > 0 {
        lemma_table_contains(rs.drop_last(), k);
        if route_key(rs.last()) == k {
            assert(route_key(rs[rs.len() - 1]) == k);
        } else if table_of(rs).contains_key(k) {
            let i = choose|i: int| 0 <= i < rs.drop_last().len() && route_key(
                #[trigger] rs.drop_last()[i],
            ) == k;
            assert(route_key(rs[i]) == k);
        } else {
            assert forall|i: int| 0 <= i < rs.len() implies route_key(#[trigger] rs[i]) != k by {
                if i < rs.len() - 1 {
                    assert(rs.drop_last()[i] == rs[i]);
                }
            }
        }
    }
}

proof fn lemma_table_value<H>(rs: Seq<RouteEntry<H>>, i: int)
    requires
        unique_keys(rs),
        0 <= i < rs.len(),
    ensures
        table_of(rs).contains_key(route_key(rs[i])),
        table_of(rs)[route_key(rs[i])] == rs[i].handler,
    decreases rs.len(),
{
    if i < rs.len() - 1 {
        assert(unique_keys(rs.drop_last())) by {
            assert forall|a: int, b: int|
                0 <= a < rs.drop_last().len() && 0 <= b < rs.drop_last().len() && a
                    != b implies route_key(#[trigger] rs.drop_last()[a]) != route_key(
                #[trigger] rs.drop_last()[b],
            ) by {
                assert(rs.drop_last()[a] == rs[a]);
                assert(rs.drop_last()[b] == rs[b]);
            }
        }
        assert(rs.drop_last()[i] == rs[i]);
        lemma_table_value(rs.drop_last(), i);
        assert(route_key(rs[rs.len() - 1]) != route_key(rs[i]));
    }
}

proof fn lemma_table_update<H>(rs: Seq<RouteEntry<H>>, i: int, e: RouteEntry<H>)
    requires
        unique_keys(rs),
        0 <= i < rs.len(),
        route_key(e) == route_key(rs[i]),
    ensures
        table_of(rs.update(i, e)) == table_of(rs).insert(route_key(e), e.handler),
    decreases rs.len(),
{
    let k = route_key(e);
    if i == rs.len() - 1 {
        assert(rs.update(i, e).drop_last() =~= rs.drop_last());
        assert(rs.update(i, e).last() == e);
        assert(table_of(rs.update(i, e)) =~= table_of(rs).insert(k, e.handler));
    } else {
        assert(unique_keys(rs.drop_last())) by {
            assert forall|a: int, b: int|
                0 <= a < rs.drop_last().len() && 0 <= b < rs.drop_last().len() && a
                    != b implies route_key(#[trigger] rs.drop_last()[a]) != route_key(
                #[trigger] rs.drop_last()[b],
            ) by {
                assert(rs.drop_last()[a] == rs[a]);
                assert(rs.drop_last()[b] == rs[b]);
            }
        }
        assert(rs.drop_last()[i] == rs[i]);
        lemma_table_update(rs.drop_last(), i, e);
        let last = rs.last();
        assert(rs.update(i, e).drop_last() =~= rs.drop_last().update(i, e));
        assert(rs.update(i, e).last() == last);
        assert(route_key(rs[rs.len() - 1]) != route_key(rs[i]));
        assert(table_of(rs.update(i, e)) =~= table_of(rs).insert(k, e.handler));
    }
}

/// The immutable registry of routes, keyed by `(method, pattern)`.
///
/// Built once by `register` calls before serving begins; dispatch reads it
/// through a shared reference and never mutates it, so a fully built table
/// may be consulted from any number of concurrent readers.
pub struct RouteTable<H> {
    routes: Vec<RouteEntry<H>>,
}

impl<H> View for RouteTable<H> {
    type V = Map<(Method, Seq<char>), H>;

    closed spec fn view(&self) -> Map<(Method, Seq<char>), H> {
        table_of(self.routes@)
    }
}

impl<H> RouteTable<H> {
    /// Well-formedness: the entries' keys are pairwise distinct, so the
    /// table really is a mapping.
    pub closed spec fn wf(self) -> bool {
        unique_keys(self.routes@)
    }

    /// An empty table: no method and path dispatch to anything.
    pub fn new() -> (t: RouteTable<H>)
        ensures
            t.wf(),
            t@ == Map::<(Method, Seq<char>), H>::empty(),
    {
        RouteTable { routes: Vec::new() }
    }

    fn find_index(&self, method: Method, pattern: &String) -> (r: Option<usize>)
        ensures
            match r {
                Some(i) => i < self.routes@.len() && route_key(self.routes@[i as int]) == (
                    method,
                    pattern@,
                ),
                None => forall|i: int|
                    0 <= i < self.routes@.len() ==> route_key(#[trigger] self.routes@[i]) != (
                        method,
                        pattern@,
                    ),
            },
    {
        let n = self.routes.len();
        let mut i: usize = 0;
        while i < n
            invariant
                i <= n,
                n == self.routes@.len(),
                forall|j: int|
                    0 <= j < i ==> route_key(#[trigger] self.routes@[j]) != (method, pattern@),
            decreases n - i,
        {
            let e = &self.routes[i];
            if e.method == method && e.pattern == *pattern {
                return Some(i);
            }
            i += 1;
        }
        None
    }

    /// Inserts or overwrites the entry for `(method, pattern)`.
    ///
    /// Any pattern string is accepted as it is; registering a key that is
    /// already present silently replaces the earlier handler, so the last
    /// registration wins.
    pub fn register(&mut self, method: Method, pattern: String, handler: H)
        requires
            old(self).wf(),
        ensures
            final(self).wf(),
            final(self)@ == old(self)@.insert((method, pattern@), handler),
    {
        let found = self.find_index(method, &pattern);
        let entry = RouteEntry { method, pattern, handler };
        let ghost old_routes = self.routes@;
        let ghost k = route_key(entry);
        match found {
            Some(i) => {
                proof {
                    lemma_table_update(old_routes, i as int, entry);
                }
                self.routes[i] = entry;
                proof {
                    assert forall|a: int, b: int|
                        0 <= a < self.routes@.len() && 0 <= b < self.routes@.len() && a
                            != b implies route_key(#[trigger] self.routes@[a]) != route_key(
                        #[trigger] self.routes@[b],
                    ) by {
                        assert(route_key(old_routes[a]) != route_key(old_routes[b]));
                    }
                }
            },
            None => {
                self.routes.push(entry);
                proof {
                    assert(self.routes@.drop_last() =~= old_routes);
                    assert forall|a: int, b: int|
                        0 <= a < self.routes@.len() && 0 <= b < self.routes@.len() && a
                            != b implies route_key(#[trigger] self.routes@[a]) != route_key(
                        #[trigger] self.routes@[b],
                    ) by {
                        if a < old_routes.len() && b < old_routes.len() {
                            assert(route_key(old_routes[a]) != route_key(old_routes[b]));
                        }
                    }
                }
            },
        }
    }

    /// Literal lookup: returns the handler registered under a pattern that is
    /// byte-for-byte equal to `path` for this method, and nothing else.
    pub fn exact_lookup(&self, method: Method, path: &String) -> (r: Option<&H>)
        requires
            self.wf(),
        ensures
            match r {
                Some(h) => self@.contains_key((method, path@)) && *h == self@[(method, path@)],
                None => !self@.contains_key((method, path@)),
            },
    {
        let found = self.find_index(method, path);
        match found {
            Some(i) => {
                proof {
                    lemma_table_value(self.routes@, i as int);
                }
                Some(&self.routes[i].handler)
            },
            None => {
                proof {
                    lemma_table_contains(self.routes@, (method, path@));
                }
                None
            },
        }
    }

    /// The routes registered under a method, as `(pattern, handler)` pairs
    /// for fallback scanning. The order of the pairs is unspecified; callers
    /// must not read any precedence into it.
    pub fn entries_for(&self, method: Method) -> (r: Vec<(&String, &H)>)
        requires
            self.wf(),
        ensures
            forall|j: int|
                0 <= j < r@.len() ==> {
                    &&& self@.contains_key((method, (#[trigger] r@[j]).0@))
                    &&& self@[(method, r@[j].0@)] == *r@[j].1
                },
            forall|k: (Method, Seq<char>)|
                #[trigger] self@.contains_key(k) && k.0 == method ==> exists|j: int|
                    0 <= j < r@.len() && (#[trigger] r@[j]).0@ == k.1,
    {
        let n = self.routes.len();
        let mut r: Vec<(&String, &H)> = Vec::new();
        let mut i: usize = 0;
        while i < n
            invariant
                i <= n,
                n == self.routes@.len(),
                self.wf(),
                forall|j: int|
                    0 <= j < r@.len() ==> {
                        &&& self@.contains_key((method, (#[trigger] r@[j]).0@))
                        &&& self@[(method, r@[j].0@)] == *r@[j].1
                    },
                forall|idx: int|
                    0 <= idx < i && (#[trigger] self.routes@[idx]).method == method ==> exists|
                        j: int,
                    |
                        0 <= j < r@.len() && (#[trigger] r@[j]).0@ == self.routes@[idx].pattern@,
            decreases n - i,
        {
            let e = &self.routes[i];
            if e.method == method {
                let ghost old_r = r@;
                proof {
                    lemma_table_value(self.routes@, i as int);
                }
                r.push((&e.pattern, &e.handler));
                proof {
                    assert forall|idx: int|
                        0 <= idx < i + 1 && (#[trigger] self.routes@[idx]).method
                            == method implies exists|j: int|
                        0 <= j < r@.len() && (#[trigger] r@[j]).0@
                            == self.routes@[idx].pattern@ by {
                        if idx < i {
                            let j = choose|j: int|
                                0 <= j < old_r.len() && (#[trigger] old_r[j]).0@
                                    == self.routes@[idx].pattern@;
                            assert(r@[j] == old_r[j]);
                            assert(0 <= j < r@.len() && r@[j].0@ == self.routes@[idx].pattern@);
                        } else {
                            let j = old_r.len() as int;
                            assert(0 <= j < r@.len() && r@[j].0@ == self.routes@[idx].pattern@);
                        }
                    }
                }
            }
            i += 1;
        }
        proof {
            assert forall|k: (Method, Seq<char>)|
                #[trigger] self@.contains_key(k) && k.0 == method implies exists|j: int|
                0 <= j < r@.len() && (#[trigger] r@[j]).0@ == k.1 by {
                lemma_table_contains(self.routes@, k);
                let idx = choose|idx: int|
                    0 <= idx < self.routes@.len() && route_key(#[trigger] self.routes@[idx]) == k;
                assert(self.routes@[idx].method == method && self.routes@[idx].pattern@ == k.1);
            }
        }
        r
    }

    /// Resolves a request to a handler.
    ///
    /// An exact literal match always takes precedence: when `(method, path)`
    /// is itself a registered key, its handler is returned no matter what
    /// wildcard routes exist. Otherwise the routes of the method are scanned
    /// and the handler of some structurally matching pattern is returned;
    /// when several wildcard patterns match, which of them wins is
    /// unspecified. `None` is returned exactly when no route of the method
    /// matches the path.
    pub fn dispatch(&self, method: Method, path: &String) -> (r: Option<&H>)
        requires
            self.wf(),
        ensures
            self@.contains_key((method, path@)) ==> (r matches Some(h) && *h == self@[(
                method,
                path@,
            )]),
            r matches Some(h) ==> exists|k: (Method, Seq<char>)|
                #[trigger] self@.contains_key(k) && k.0 == method && pattern_matches(k.1, path@)
                    && *h == self@[k],
            r is None <==> !has_match(self@, method, path@),
    {
        let exact = self.exact_lookup(method, path);
        match exact {
            Some(h) => {
                proof {
                    lemma_pattern_matches_self(path@);
                    assert(self@.contains_key((method, path@)) && (method, path@).0 == method
                        && pattern_matches((method, path@).1, path@));
                }
                Some(h)
            },
            None => {
                let n = self.routes.len();
                let mut i: usize = 0;
                while i < n
                    invariant
                        i <= n,
                        n == self.routes@.len(),
                        self.wf(),
                        !self@.contains_key((method, path@)),
                        forall|idx: int|
                            0 <= idx < i ==> !((#[trigger] self.routes@[idx]).method == method
                                && pattern_matches(self.routes@[idx].pattern@, path@)),
                    decreases n - i,
                {
                    let e = &self.routes[i];
                    if e.method == method && matcher::matches(e.pattern.as_str(), path.as_str()) {
                        proof {
                            lemma_table_value(self.routes@, i as int);
                            let k = route_key(self.routes@[i as int]);
                            assert(self@.contains_key(k) && k.0 == method && pattern_matches(
                                k.1,
                                path@,
                            ) && self.routes@[i as int].handler == self@[k]);
                        }
                        return Some(&e.handler);
                    }
                    i += 1;
                }
                proof {
                    assert forall|k: (Method, Seq<char>)|
                        #[trigger] self@.contains_key(k) && k.0 == method implies !pattern_matches(
                        k.1,
                        path@,
                    ) by {
                        lemma_table_contains(self.routes@, k);
                        let idx = choose|idx: int|
                            0 <= idx < self.routes@.len() && route_key(
                                #[trigger] self.routes@[idx],
                            ) == k;
                    }
                }
                None
            },
        }
    }
}

} // verus!
