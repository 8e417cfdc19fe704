//! Route tables: patterns of segments bound to handlers or to sub-routers.

use vstd::prelude::*;
use vstd::utf8::encode_utf8;
use crate::arg::ArgType;
use crate::path::SLASH;

verus! {

/// One element of a pattern.
#[derive(Clone, Debug)]
pub enum Segment {
    /// Matches exactly this text.
    Literal(String),
    /// A required argument in one segment; a segment that does not parse
    /// rejects the pattern.
    Arg(ArgType),
    /// An optional argument in one segment; a segment that does not parse
    /// binds `None` and is left for the next element.
    OptArg(ArgType),
    /// An argument made of the whole rest of the path, slashes included.
    /// Only the last element of a pattern may be one.
    CatchAll(ArgType),
}

/// What a matched pattern leads to.
#[derive(Clone, Debug)]
pub enum Target {
    /// The handler of this name.
    Handler(String),
    /// The table of this index, which goes on matching the rest of the path.
    Sub(usize),
}

/// A pattern bound to its target.
#[derive(Clone, Debug)]
pub struct Route {
    pub pattern: Vec<Segment>,
    pub target: Target,
}

/// A tree of route tables. Table 0 is the root; a route of table `t` can
/// only delegate to a table of a larger index, so the tables form a tree
/// (or a graph without cycles) and every match terminates.
#[derive(Clone, Debug)]
pub struct Router {
    pub tables: Vec<Vec<Route>>,
}

/// The bytes that a literal segment matches.
pub open spec fn literal_bytes(l: String) -> Seq<u8> {
    encode_utf8(l@)
}

/// A literal is one non-empty segment: it holds no `/`.
pub open spec fn literal_ok(l: Seq<u8>) -> bool {
    &&& l.len() > 0
    &&& forall|i: int| 0 <= i < l.len() ==> #[trigger] l[i] != SLASH
}

pub open spec fn segment_ok(p: Seq<Segment>, k: int) -> bool {
    match p[k] {
        Segment::Literal(l) => literal_ok(literal_bytes(l)),
        Segment::CatchAll(_) => k == p.len() - 1,
        _ => true,
    }
}

/// A pattern has at least one segment, its literals are single non-empty
/// segments, and a catch-all comes last.
pub open spec fn pattern_ok(p: Seq<Segment>) -> bool {
    &&& p.len() > 0
    &&& forall|k: int| 0 <= k < p.len() ==> segment_ok(p, k)
}

pub open spec fn literal_only(p: Seq<Segment>) -> bool {
    forall|k: int| 0 <= k < p.len() ==> p[k] is Literal
}

/// A route that may stand in table `t` of a router with `n` tables: a
/// sub-router is reached through literals only, and lies further down.
pub open spec fn route_ok(route: Route, t: int, n: int) -> bool {
    &&& pattern_ok(route.pattern@)
    &&& match route.target {
        Target::Handler(_) => true,
        Target::Sub(j) => t < j < n && literal_only(route.pattern@),
    }
}

impl Router {
    /// The routes of table `t`, in declaration order.
    pub open spec fn table(&self, t: int) -> Seq<Route> {
        self.tables@[t]@
    }

    pub open spec fn wf(&self) -> bool {
        &&& self.tables@.len() > 0
        &&& forall|t: int, i: int|
            0 <= t < self.tables@.len() && 0 <= i < self.table(t).len() ==> route_ok(
                #[trigger] self.table(t)[i],
                t,
                self.tables@.len() as int,
            )
    }

    /// Whether the router is well formed: it has a root table and every
    /// route may stand where it stands.
    pub fn is_valid(&self) -> (ok: bool)
        ensures
            ok == self.wf(),
    {
        let n = self.tables.len();
        if n == 0 {
            return false;
        }
        let mut t: usize = 0;
        while t < n
            invariant
                n == self.tables@.len(),
                n > 0,
                t <= n,
                forall|u: int, i: int|
                    0 <= u < t && 0 <= i < self.table(u).len() ==> route_ok(
                        #[trigger] self.table(u)[i],
                        u,
                        n as int,
                    ),
            decreases n - t,
        {
            let table = &self.tables[t];
            let mut i: usize = 0;
            while i < table.len()
                invariant
                    n == self.tables@.len(),
                    t < n,
                    table@ == self.table(t as int),
                    i <= table@.len(),
                    forall|u: int, h: int|
                        0 <= u < t && 0 <= h < self.table(u).len() ==> route_ok(
                            #[trigger] self.table(u)[h],
                            u,
                            n as int,
                        ),
                    forall|h: int| 0 <= h < i ==> route_ok(#[trigger] self.table(t as int)[h], t as int, n as int),
                decreases table@.len() - i,
            {
                if !check_route(&table[i], t, n) {
                    assert(!route_ok(self.table(t as int)[i as int], t as int, n as int));
                    return false;
                }
                i = i + 1;
            }
            t = t + 1;
        }
        true
    }

    /// A router with an empty root table.
    pub fn new() -> (r: Router)
        ensures
            r.wf(),
            r.tables@.len() == 1,
            r.table(0).len() == 0,
    {
        let mut tables: Vec<Vec<Route>> = Vec::new();
        tables.push(Vec::new());
        Router { tables }
    }

    /// Adds an empty table, to be attached as a sub-router, and returns its
    /// index.
    pub fn add_table(&mut self) -> (t: usize)
        requires
            old(self).wf(),
            old(self).tables@.len() < usize::MAX,
        ensures
            final(self).wf(),
            t == old(self).tables@.len(),
            final(self).tables@.len() == old(self).tables@.len() + 1,
            final(self).table(t as int).len() == 0,
            forall|u: int| 0 <= u < t ==> final(self).table(u) == old(self).table(u),
    {
        let t = self.tables.len();
        self.tables.push(Vec::new());
        proof {
            let n = self.tables@.len() as int;
            assert forall|u: int, i: int|
                0 <= u < n && 0 <= i < self.table(u).len() implies route_ok(
                #[trigger] self.table(u)[i],
                u,
                n,
            ) by {
                assert(route_ok(old(self).table(u)[i], u, n - 1));
            }
        }
        t
    }

    /// Appends a route to table `t`, after its earlier routes, if the route
    /// may stand there; returns whether it was added.
    pub fn add_route(&mut self, t: usize, pattern: Vec<Segment>, target: Target) -> (ok: bool)
        requires
            old(self).wf(),
            t < old(self).tables@.len(),
        ensures
            final(self).wf(),
            ok == route_ok(
                (Route { pattern, target }),
                t as int,
                old(self).tables@.len() as int,
            ),
            final(self).tables@.len() == old(self).tables@.len(),
            ok ==> final(self).table(t as int) == old(self).table(t as int).push(
                (Route { pattern, target }),
            ),
            !ok ==> final(self).table(t as int) == old(self).table(t as int),
            forall|u: int| 0 <= u < old(self).tables@.len() && u != t ==> final(self).table(u) == old(self).table(u),
    {
        let route = Route { pattern, target };
        if !check_route(&route, t, self.tables.len()) {
            return false;
        }
        let mut table = self.tables.remove(t);
        table.push(route);
        self.tables.insert(t, table);
        proof {
            let n = self.tables@.len() as int;
            assert forall|u: int| 0 <= u < n && u != t implies self.table(u) == old(self).table(u) by {
                if u < t {
                    assert(self.tables@[u] == old(self).tables@[u]);
                } else {
                    assert(self.tables@[u] == old(self).tables@[u]);
                }
            }
            assert forall|u: int, i: int|
                0 <= u < n && 0 <= i < self.table(u).len() implies route_ok(
                #[trigger] self.table(u)[i],
                u,
                n,
            ) by {
                if u != t || i < old(self).table(u).len() {
                    assert(route_ok(old(self).table(u)[i], u, n));
                }
            }
        }
        true
    }
}

/// Whether a literal's bytes form one non-empty segment.
fn check_literal(l: &String) -> (ok: bool)
    ensures
        ok == literal_ok(literal_bytes(*l)),
{
    let b = l.as_str().as_bytes();
    if b.len() == 0 {
        return false;
    }
    let mut i: usize = 0;
    while i < b.len()
        invariant
            i <= b@.len(),
            b@ == literal_bytes(*l),
            forall|j: int| 0 <= j < i ==> #[trigger] b@[j] != SLASH,
        decreases b@.len() - i,
    {
        if b[i] == SLASH {
            return false;
        }
        i = i + 1;
    }
    true
}

/// Whether `route` may stand in table `t` of a router with `n` tables.
fn check_route(route: &Route, t: usize, n: usize) -> (ok: bool)
    ensures
        ok == route_ok(*route, t as int, n as int),
{
    let p = &route.pattern;
    if p.len() == 0 {
        return false;
    }
    let is_sub = match route.target {
        Target::Sub(j) => {
            if !(t < j && j < n) {
                return false;
            }
            true
        },
        Target::Handler(_) => false,
    };
    let mut k: usize = 0;
    while k < p.len()
        invariant
            k <= p@.len(),
            p@ == route.pattern@,
            p@.len() > 0,
            is_sub == (route.target is Sub),
            route.target is Sub ==> t < route.target->Sub_0 < n,
            forall|m: int| 0 <= m < k ==> segment_ok(p@, m),
            is_sub ==> forall|m: int| 0 <= m < k ==> (#[trigger] p@[m]) is Literal,
        decreases p@.len() - k,
    {
        match &p[k] {
            Segment::Literal(l) => {
                if !check_literal(l) {
                    assert(!segment_ok(p@, k as int));
                    return false;
                }
            },
            Segment::CatchAll(_) => {
                if is_sub || k + 1 != p.len() {
                    if is_sub {
                        assert(!(p@[k as int] is Literal));
                        assert(!literal_only(p@));
                    } else {
                        assert(!segment_ok(p@, k as int));
                    }
                    return false;
                }
            },
            _ => {
                if is_sub {
                    assert(!literal_only(p@));
                    return false;
                }
            },
        }
        k = k + 1;
    }
    true
}

} // verus!
