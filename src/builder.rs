//! Building the path that leads to a handler, from its arguments: the
//! inverse of matching.

use vstd::prelude::*;
use crate::arg::{arg_text, args_view, uint_text, ArgValue, ArgView};
use crate::router::{Route, Router, Segment, Target};

verus! {

/// Texts with `/` between each two.
pub open spec fn join_slash(parts: Seq<Seq<char>>) -> Seq<char>
    decreases parts.len(),
{
    if parts.len() == 0 {
        seq![]
    } else if parts.len() == 1 {
        parts[0]
    } else {
        join_slash(parts.drop_last()) + seq!['/'] + parts.last()
    }
}

/// The number of argument segments in `p[k..]`.
pub open spec fn arg_count(p: Seq<Segment>, k: int) -> nat
    decreases p.len() - k,
{
    if k < 0 || k >= p.len() {
        0
    } else if p[k] is Literal {
        arg_count(p, k + 1)
    } else {
        arg_count(p, k + 1) + 1
    }
}

/// The texts that `p[k..]` contributes to a path, with `args[a..]` for its
/// arguments: a literal itself, an argument its text, and an absent
/// optional argument nothing.
pub open spec fn segment_parts(
    p: Seq<Segment>,
    k: int,
    args: Seq<Option<ArgView>>,
    a: int,
) -> Seq<Seq<char>>
    decreases p.len() - k,
{
    if k < 0 || k >= p.len() {
        seq![]
    } else {
        match p[k] {
            Segment::Literal(l) => seq![l@] + segment_parts(p, k + 1, args, a),
            _ => match args[a] {
                Some(v) => seq![arg_text(v)] + segment_parts(p, k + 1, args, a + 1),
                None => segment_parts(p, k + 1, args, a + 1),
            },
        }
    }
}

/// The route `route[n]` of table `t`.
pub open spec fn chain_route(r: Router, t: int, route: Seq<usize>, n: int) -> Route {
    r.table(t)[route[n] as int]
}

/// `route[n..]` names, from table `t`, routes that go through sub-routers
/// down to a handler.
pub open spec fn leads_to_handler(r: Router, t: int, route: Seq<usize>, n: int) -> bool
    decreases route.len() - n,
{
    &&& 0 <= t < r.tables@.len()
    &&& 0 <= n < route.len()
    &&& route[n] < r.table(t).len()
    &&& match chain_route(r, t, route, n).target {
        Target::Handler(_) => n == route.len() - 1,
        Target::Sub(j) => n + 1 < route.len() && leads_to_handler(r, j as int, route, n + 1),
    }
}

/// The handler's route at the end of the chain `route[n..]` from table `t`.
pub open spec fn leaf_route(r: Router, t: int, route: Seq<usize>, n: int) -> Route
    decreases route.len() - n,
{
    if n + 1 < route.len() && chain_route(r, t, route, n).target is Sub {
        leaf_route(r, chain_route(r, t, route, n).target->Sub_0 as int, route, n + 1)
    } else {
        chain_route(r, t, route, n)
    }
}

/// The texts that the chain `route[n..]` from table `t` contributes to a
/// path, with `args` for the handler's arguments.
pub open spec fn chain_parts(
    r: Router,
    t: int,
    route: Seq<usize>,
    n: int,
    args: Seq<Option<ArgView>>,
) -> Seq<Seq<char>>
    decreases route.len() - n,
{
    if n < 0 || n >= route.len() {
        seq![]
    } else {
        let rt = chain_route(r, t, route, n);
        match rt.target {
            Target::Sub(j) => segment_parts(rt.pattern@, 0, seq![], 0) + chain_parts(
                r,
                j as int,
                route,
                n + 1,
                args,
            ),
            Target::Handler(_) => segment_parts(rt.pattern@, 0, args, 0),
        }
    }
}

/// The path that leads to the handler at the end of `route`, with `args`:
/// the root's empty prefix and every segment's text, joined with `/`.
pub open spec fn built_path(r: Router, route: Seq<usize>, args: Seq<Option<ArgView>>) -> Seq<char> {
    join_slash(seq![Seq::<char>::empty()] + chain_parts(r, 0, route, 0, args))
}

pub open spec fn strings_view(v: Seq<String>) -> Seq<Seq<char>> {
    v.map_values(|s: String| s@)
}

/// Relies on `itertools::join`: the parts' text, each as its `Display`
/// writes it (for a `String`, itself), in order, with `/` between each two.
#[verifier::external_body]
fn join_with_slash(parts: &Vec<String>) -> (r: String)
    ensures
        r@ == join_slash(strings_view(parts@)),
{
    itertools::join(parts, "/")
}

/// The text of an argument, as a path writes it.
fn arg_string(v: &ArgValue) -> (r: String)
    ensures
        r@ == arg_text(v@),
{
    match v {
        ArgValue::Text(s) => s.clone(),
        ArgValue::Uint(n) => uint_text(*n),
    }
}

proof fn lemma_strings_push(v: Seq<String>, s: String)
    ensures
        strings_view(v.push(s)) == strings_view(v).push(s@),
{
    assert(strings_view(v.push(s)) =~= strings_view(v).push(s@));
}

/// Appends the texts of `p` to `parts`, with `args` for its arguments.
fn push_segment_parts(parts: &mut Vec<String>, p: &Vec<Segment>, args: &Vec<Option<ArgValue>>)
    requires
        args@.len() == arg_count(p@, 0),
    ensures
        strings_view(final(parts)@) == strings_view(old(parts)@) + segment_parts(
            p@,
            0,
            args_view(args@),
            0,
        ),
{
    let ghost target = strings_view(old(parts)@) + segment_parts(p@, 0, args_view(args@), 0);
    let n_args = args.len();
    let mut k: usize = 0;
    let mut a: usize = 0;
    assert(strings_view(parts@) + segment_parts(p@, 0, args_view(args@), 0) =~= target);
    while k < p.len()
        invariant
            k <= p@.len(),
            a + arg_count(p@, k as int) == args@.len(),
            n_args == args@.len(),
            args@.len() == arg_count(p@, 0),
            strings_view(parts@) + segment_parts(p@, k as int, args_view(args@), a as int) == target,
        decreases p@.len() - k,
    {
        let ghost before = strings_view(parts@);
        match &p[k] {
            Segment::Literal(l) => {
                let s = l.clone();
                proof {
                    lemma_strings_push(parts@, s);
                }
                parts.push(s);
                assert(strings_view(parts@) + segment_parts(p@, k + 1, args_view(args@), a as int)
                    =~= before + segment_parts(p@, k as int, args_view(args@), a as int));
            },
            _ => {
                assert(arg_count(p@, k as int) == arg_count(p@, k + 1) + 1);
                match &args[a] {
                    Some(v) => {
                        let s = arg_string(v);
                        proof {
                            lemma_strings_push(parts@, s);
                        }
                        parts.push(s);
                        assert(strings_view(parts@) + segment_parts(p@, k + 1, args_view(args@), a + 1)
                            =~= before + segment_parts(p@, k as int, args_view(args@), a as int));
                    },
                    None => {},
                }
                a = a + 1;
            },
        }
        k = k + 1;
    }
}

/// The number of argument segments of `p`.
fn count_args(p: &Vec<Segment>) -> (r: usize)
    ensures
        r == arg_count(p@, 0),
{
    let mut c: usize = 0;
    let mut k: usize = 0;
    while k < p.len()
        invariant
            k <= p@.len(),
            c <= k,
            c + arg_count(p@, k as int) == arg_count(p@, 0),
        decreases p@.len() - k,
    {
        match &p[k] {
            Segment::Literal(_) => {},
            _ => {
                c = c + 1;
            },
        }
        k = k + 1;
    }
    c
}

impl Router {
    /// How many arguments the handler at the end of `route` takes, or
    /// `None` when `route` does not lead from the root to a handler.
    pub fn route_arity(&self, route: &Vec<usize>) -> (r: Option<usize>)
        requires
            self.wf(),
        ensures
            r is Some <==> leads_to_handler(*self, 0, route@, 0),
            r is Some ==> r->Some_0 == arg_count(leaf_route(*self, 0, route@, 0).pattern@, 0),
    {
        let mut t: usize = 0;
        let mut n: usize = 0;
        while n < route.len()
            invariant
                self.wf(),
                t < self.tables@.len(),
                route@.len() == 0 || n < route@.len(),
                route@.len() > 0 ==> leads_to_handler(*self, 0, route@, 0) == leads_to_handler(
                    *self,
                    t as int,
                    route@,
                    n as int,
                ),
                route@.len() > 0 && leads_to_handler(*self, 0, route@, 0) ==> leaf_route(*self, 0, route@, 0)
                    == leaf_route(*self, t as int, route@, n as int),
            decreases route@.len() - n,
        {
            let i = route[n];
            if i >= self.tables[t].len() {
                return None;
            }
            let rt = &self.tables[t][i];
            match &rt.target {
                Target::Handler(_) => {
                    if n + 1 != route.len() {
                        return None;
                    }
                    return Some(count_args(&rt.pattern));
                },
                Target::Sub(j) => {
                    if n + 1 >= route.len() {
                        return None;
                    }
                    assert(crate::router::route_ok(*rt, t as int, self.tables@.len() as int));
                    t = *j;
                },
            }
            n = n + 1;
        }
        None
    }

    /// The path to request for the handler at the end of `route` (one route
    /// index per table, from the root) with the arguments `args`.
    pub fn path_for(&self, route: &Vec<usize>, args: &Vec<Option<ArgValue>>) -> (r: String)
        requires
            self.wf(),
            leads_to_handler(*self, 0, route@, 0),
            args@.len() == arg_count(leaf_route(*self, 0, route@, 0).pattern@, 0),
        ensures
            r@ == built_path(*self, route@, args_view(args@)),
    {
        let mut parts: Vec<String> = Vec::new();
        parts.push(String::new());
        let ghost target = seq![Seq::<char>::empty()] + chain_parts(*self, 0, route@, 0, args_view(args@));
        assert(strings_view(parts@) =~= seq![Seq::<char>::empty()]);
        let no_args: Vec<Option<ArgValue>> = Vec::new();
        let mut t: usize = 0;
        let mut n: usize = 0;
        while n < route.len()
            invariant
                self.wf(),
                n <= route@.len(),
                n < route@.len() ==> leads_to_handler(*self, t as int, route@, n as int),
                n < route@.len() ==> leaf_route(*self, t as int, route@, n as int) == leaf_route(*self, 0, route@, 0),
                args@.len() == arg_count(leaf_route(*self, 0, route@, 0).pattern@, 0),
                no_args@.len() == 0,
                strings_view(parts@) + chain_parts(*self, t as int, route@, n as int, args_view(args@)) == target,
            decreases route@.len() - n,
        {
            let ghost before = strings_view(parts@);
            let rt = &self.tables[t][route[n]];
            match &rt.target {
                Target::Sub(j) => {
                    assert(crate::router::route_ok(*rt, t as int, self.tables@.len() as int));
                    assert(arg_count(rt.pattern@, 0) == 0) by {
                        lemma_literal_only_no_args(rt.pattern@, 0);
                    }
                    assert(args_view(no_args@) =~= seq![]);
                    push_segment_parts(&mut parts, &rt.pattern, &no_args);
                    t = *j;
                },
                Target::Handler(_) => {
                    push_segment_parts(&mut parts, &rt.pattern, args);
                },
            }
            n = n + 1;
        }
        join_with_slash(&parts)
    }
}

proof fn lemma_literal_only_no_args(p: Seq<Segment>, k: int)
    requires
        crate::router::literal_only(p),
        0 <= k,
    ensures
        arg_count(p, k) == 0,
    decreases p.len() - k,
{
    if k < p.len() {
        lemma_literal_only_no_args(p, k + 1);
    }
}

} // verus!
