//! Matching a request path against a router: routes are tried in
//! declaration order and the first one that matches the whole path wins.

use vstd::prelude::*;
use vstd::string::StringSliceAdditionalSpecFns;
use vstd::utf8::{
    decode_utf8,
    encode_utf8_decode_utf8,
    encode_utf8_valid_utf8,
    is_char_boundary,
    is_char_boundary_iff_not_is_continuation_byte,
    is_char_boundary_start_end_of_seq,
    length_of_first_scalar,
    pop_first_scalar,
    valid_utf8,
    valid_utf8_split,
};
use crate::arg::{args_view, opt_arg_view, parse_arg, parse_uint_at, ArgType, ArgValue, ArgView};
use crate::path::{find_next_slash_index, next_slash, SLASH};
use crate::router::{literal_bytes, Route, Router, Segment, Target};
use crate::Error;

verus! {

/// Where the cursor goes after the segment that ends at `end`: past the `/`
/// there, unless that `/` is the last byte of the path.
pub open spec fn advance(b: Seq<u8>, end: int) -> int {
    if end + 1 < b.len() {
        end + 1
    } else {
        end
    }
}

/// Nothing is left after `end`, but at most one `/`.
pub open spec fn terminated(b: Seq<u8>, end: int) -> bool {
    end == b.len() || (end == b.len() - 1 && b[end] == SLASH)
}

/// Matches the segments `p[k..]` of a pattern from the cursor
/// `b[start..end]`, after the arguments `acc` were bound and the segments
/// consumed so far ended at `last`. On success, gives all the bound
/// arguments, the final cursor start, and where the last consumed segment
/// ends.
pub open spec fn walk(
    b: Seq<u8>,
    p: Seq<Segment>,
    k: int,
    start: int,
    end: int,
    last: int,
    acc: Seq<Option<ArgView>>,
) -> Option<(Seq<Option<ArgView>>, int, int)>
    decreases p.len() - k,
{
    if k < 0 || k >= p.len() {
        Some((acc, start, last))
    } else {
        let text = b.subrange(start, end);
        let s = advance(b, end);
        match p[k] {
            Segment::Literal(l) => if text == literal_bytes(l) {
                walk(b, p, k + 1, s, next_slash(b, s), end, acc)
            } else {
                None
            },
            Segment::Arg(ty) => match parse_arg(ty, text) {
                Some(v) => walk(b, p, k + 1, s, next_slash(b, s), end, acc.push(Some(v))),
                None => None,
            },
            Segment::OptArg(ty) => match parse_arg(ty, text) {
                Some(v) => walk(b, p, k + 1, s, next_slash(b, s), end, acc.push(Some(v))),
                None => walk(b, p, k + 1, start, end, last, acc.push(None)),
            },
            Segment::CatchAll(ty) => match parse_arg(ty, b.subrange(start, b.len() as int)) {
                Some(v) => Some((acc.push(Some(v)), start, b.len() as int)),
                None => None,
            },
        }
    }
}

/// The outcome of trying one route.
pub enum Attempt {
    /// The route does not match; the next one is tried.
    Skip,
    /// The route's handler, with its arguments.
    Leaf(Seq<char>, Seq<Option<ArgView>>),
    /// The table that goes on matching, and the cursor it starts from.
    Delegate(int, int),
}

/// Tries one route on the path `b`, from the cursor `s0` (a `/`). A handler
/// is chosen only when at most one `/` follows the last segment that its
/// pattern consumed.
pub open spec fn attempt(route: Route, b: Seq<u8>, s0: int) -> Attempt {
    if b.len() == 0 || b[0] != SLASH || s0 + 1 >= b.len() {
        Attempt::Skip
    } else {
        let start = s0 + 1;
        match walk(b, route.pattern@, 0, start, next_slash(b, start), s0, seq![]) {
            None => Attempt::Skip,
            Some(w) => match route.target {
                Target::Handler(h) => if terminated(b, w.2) {
                    Attempt::Leaf(h@, w.0)
                } else {
                    Attempt::Skip
                },
                // step back onto the `/` before the cursor: the sub-router's
                // patterns start with one
                Target::Sub(j) => Attempt::Delegate(j as int, w.1 - 1),
            },
        }
    }
}

/// A successful match: the route indices followed from the root (one per
/// table), the handler's name and its arguments in declaration order.
pub struct Resolution {
    pub route: Seq<usize>,
    pub handler: Seq<char>,
    pub args: Seq<Option<ArgView>>,
}

/// Matches `b` against the routes `i..` of table `t`, from the cursor `s0`.
/// A delegation is final: what the sub-router gives, match or not, is the
/// result.
pub open spec fn resolve_from(r: Router, t: int, b: Seq<u8>, s0: int, i: int) -> Option<Resolution>
    decreases r.tables@.len() - t, r.table(t).len() - i,
{
    if !(0 <= t < r.tables@.len()) || i < 0 || i >= r.table(t).len() {
        None
    } else {
        match attempt(r.table(t)[i], b, s0) {
            Attempt::Skip => resolve_from(r, t, b, s0, i + 1),
            Attempt::Leaf(h, args) => Some(Resolution { route: seq![i as usize], handler: h, args }),
            Attempt::Delegate(j, s) => if t < j < r.tables@.len() {
                match resolve_from(r, j, b, s, 0) {
                    Some(m) => Some(
                        Resolution { route: seq![i as usize] + m.route, handler: m.handler, args: m.args },
                    ),
                    None => None,
                }
            } else {
                None
            },
        }
    }
}

/// What a router makes of the path `b`.
pub open spec fn resolve_path(r: Router, b: Seq<u8>) -> Option<Resolution> {
    resolve_from(r, 0, b, 0, 0)
}

/// A matched route with its handler and arguments.
#[derive(Debug)]
pub struct Resolved {
    pub route: Vec<usize>,
    pub handler: String,
    pub args: Vec<Option<ArgValue>>,
}

impl View for Resolved {
    type V = Resolution;

    open spec fn view(&self) -> Resolution {
        Resolution { route: self.route@, handler: self.handler@, args: args_view(self.args@) }
    }
}

pub open spec fn opt_resolved_view(r: Option<Resolved>) -> Option<Resolution> {
    match r {
        Some(m) => Some(m@),
        None => None,
    }
}

/// A position where a segment may start or end: the ends of the path, a
/// `/`, or just after one.
pub open spec fn is_cut(b: Seq<u8>, i: int) -> bool {
    &&& 0 <= i <= b.len()
    &&& (i == 0 || i == b.len() || b[i] == SLASH || b[i - 1] == SLASH)
}

pub open spec fn slash_or_end(b: Seq<u8>, i: int) -> bool {
    0 <= i <= b.len() && (i == b.len() || b[i] == SLASH)
}

pub proof fn lemma_next_slash(b: Seq<u8>, s: int)
    requires
        0 <= s <= b.len(),
    ensures
        s <= next_slash(b, s) <= b.len(),
        slash_or_end(b, next_slash(b, s)),
        forall|i: int| s <= i < next_slash(b, s) ==> b[i] != SLASH,
    decreases b.len() - s,
{
    if s < b.len() && b[s] != SLASH {
        lemma_next_slash(b, s + 1);
    }
}

proof fn lemma_boundary_after_ascii(b: Seq<u8>, j: int)
    requires
        valid_utf8(b),
        0 <= j < b.len(),
        is_char_boundary(b, j),
        b[j] <= 0x7f,
    ensures
        is_char_boundary(b, j + 1),
    decreases b.len(),
{
    let l = length_of_first_scalar(b);
    let rest = pop_first_scalar(b);
    assert(1 <= l <= 4);
    assert(rest.len() == b.len() - l);
    if j == 0 {
        assert(l == 1);
        assert(is_char_boundary(rest, 0));
    } else {
        assert(valid_utf8(rest));
        assert(is_char_boundary(rest, j - l));
        assert(j - l >= 0);
        assert(rest[j - l] == b[j]);
        lemma_boundary_after_ascii(rest, j - l);
    }
}

proof fn lemma_cut_is_boundary(b: Seq<u8>, i: int)
    requires
        valid_utf8(b),
        is_cut(b, i),
    ensures
        is_char_boundary(b, i),
{
    is_char_boundary_start_end_of_seq(b);
    if i == 0 || i == b.len() {
    } else if b[i] == SLASH {
        is_char_boundary_iff_not_is_continuation_byte(b, i);
    } else {
        is_char_boundary_iff_not_is_continuation_byte(b, i - 1);
        lemma_boundary_after_ascii(b, i - 1);
    }
}

/// The text of `path[start..end]`.
fn segment_text(path: &str, start: usize, end: usize) -> (r: String)
    requires
        start <= end,
        is_cut(path.spec_bytes(), start as int),
        slash_or_end(path.spec_bytes(), end as int),
    ensures
        r@ == decode_utf8(path.spec_bytes().subrange(start as int, end as int)),
{
    let ghost b = path.spec_bytes();
    proof {
        encode_utf8_valid_utf8(path@);
        lemma_cut_is_boundary(b, start as int);
    }
    let (_, rest) = path.split_at(start);
    proof {
        let rb = rest.spec_bytes();
        valid_utf8_split(b, start as int);
        assert(rb =~= b.subrange(start as int, b.len() as int));
        is_char_boundary_start_end_of_seq(rb);
        if end < b.len() {
            assert(rb[end - start] == b[end as int]);
            is_char_boundary_iff_not_is_continuation_byte(rb, end - start);
        }
    }
    let (seg, _) = rest.split_at(end - start);
    proof {
        assert(seg.spec_bytes() =~= b.subrange(start as int, end as int));
        encode_utf8_decode_utf8(seg@);
    }
    seg.to_owned()
}

/// Parses `path[start..end]` with the parser of `ty`.
fn parse_segment(path: &str, b: &[u8], ty: ArgType, start: usize, end: usize) -> (r: Option<ArgValue>)
    requires
        b@ == path.spec_bytes(),
        start <= end,
        is_cut(b@, start as int),
        slash_or_end(b@, end as int),
    ensures
        opt_arg_view(r) == parse_arg(ty, b@.subrange(start as int, end as int)),
{
    match ty {
        ArgType::Text => Some(ArgValue::Text(segment_text(path, start, end))),
        ArgType::Uint => match parse_uint_at(b, start, end) {
            Some(n) => Some(ArgValue::Uint(n)),
            None => None,
        },
    }
}

/// Whether `b[start..end]` is `l`.
fn bytes_match(b: &[u8], start: usize, end: usize, l: &[u8]) -> (r: bool)
    requires
        start <= end <= b@.len(),
    ensures
        r == (b@.subrange(start as int, end as int) == l@),
{
    if end - start != l.len() {
        return false;
    }
    let mut i: usize = 0;
    while i < l.len()
        invariant
            start <= end <= b@.len(),
            end - start == l@.len(),
            i <= l@.len(),
            forall|j: int| 0 <= j < i ==> b@[start + j] == l@[j],
        decreases l@.len() - i,
    {
        if b[start + i] != l[i] {
            assert(b@.subrange(start as int, end as int)[i as int] != l@[i as int]);
            return false;
        }
        i = i + 1;
    }
    assert(b@.subrange(start as int, end as int) =~= l@);
    true
}

/// The cursor after the segment that ends at `end`.
fn next_cursor(path: &str, b: &[u8], end: usize) -> (r: (usize, usize))
    requires
        b@ == path.spec_bytes(),
        slash_or_end(b@, end as int),
    ensures
        r.0 == advance(b@, end as int),
        r.1 == next_slash(b@, r.0 as int),
        r.0 <= r.1,
        end <= r.0,
        is_cut(b@, r.0 as int),
        slash_or_end(b@, r.1 as int),
{
    let s = if end < b.len() && end + 1 < b.len() {
        end + 1
    } else {
        end
    };
    let e = find_next_slash_index(path, s);
    proof {
        lemma_next_slash(b@, s as int);
    }
    (s, e)
}

/// The outcome of trying one route, as the matcher holds it.
enum Step {
    Skip,
    Leaf(String, Vec<Option<ArgValue>>),
    Delegate(usize, usize),
}

spec fn step_view(r: Step) -> Attempt {
    match r {
        Step::Skip => Attempt::Skip,
        Step::Leaf(h, args) => Attempt::Leaf(h@, args_view(args@)),
        Step::Delegate(j, s) => Attempt::Delegate(j as int, s as int),
    }
}

proof fn lemma_args_push(args: Seq<Option<ArgValue>>, a: Option<ArgValue>)
    ensures
        args_view(args.push(a)) == args_view(args).push(opt_arg_view(a)),
{
    assert(args_view(args.push(a)) =~= args_view(args).push(opt_arg_view(a)));
}

/// Tries one route on `path`, from the cursor `s0`.
fn try_route(route: &Route, path: &str, b: &[u8], s0: usize) -> (r: Step)
    requires
        b@ == path.spec_bytes(),
        s0 <= b@.len(),
        (b@.len() > 0 && b@[0] == SLASH && s0 + 1 < b@.len()) ==> is_cut(b@, s0 + 1),
    ensures
        step_view(r) == attempt(*route, b@, s0 as int),
        r matches Step::Delegate(j, s) ==> s < b@.len() && is_cut(b@, s + 1),
{
    if b.len() == 0 || b[0] != SLASH || s0 >= b.len() - 1 {
        return Step::Skip;
    }
    let p = &route.pattern;
    let first = s0 + 1;
    let mut start: usize = first;
    let mut end: usize = find_next_slash_index(path, start);
    proof {
        lemma_next_slash(b@, start as int);
    }
    let ghost w0 = walk(b@, p@, 0, first as int, end as int, s0 as int, seq![]);
    assert(w0 == walk(b@, route.pattern@, 0, first as int, next_slash(b@, first as int), s0 as int, seq![]));
    let mut last: usize = s0;
    let mut args: Vec<Option<ArgValue>> = Vec::new();
    let mut k: usize = 0;
    assert(args_view(args@) =~= seq![]);
    while k < p.len()
        invariant
            b@ == path.spec_bytes(),
            p@ == route.pattern@,
            k <= p@.len(),
            first <= start <= end <= b@.len(),
            is_cut(b@, start as int),
            slash_or_end(b@, end as int),
            last <= b@.len(),
            w0 == walk(b@, p@, k as int, start as int, end as int, last as int, args_view(args@)),
            w0 == walk(b@, route.pattern@, 0, first as int, next_slash(b@, first as int), s0 as int, seq![]),
            b@.len() > 0,
            b@[0] == SLASH,
            first == s0 + 1,
            first < b@.len(),
        decreases p@.len() - k,
    {
        let ghost acc = args_view(args@);
        match &p[k] {
            Segment::Literal(l) => {
                if !bytes_match(b, start, end, l.as_str().as_bytes()) {
                    assert(walk(b@, p@, k as int, start as int, end as int, last as int, acc) is None);
                    assert(w0 is None);
                    return Step::Skip;
                }
                let (s, e) = next_cursor(path, b, end);
                last = end;
                start = s;
                end = e;
            },
            Segment::Arg(ty) => {
                match parse_segment(path, b, *ty, start, end) {
                    Some(v) => {
                        proof {
                            lemma_args_push(args@, Some(v));
                        }
                        args.push(Some(v));
                        let (s, e) = next_cursor(path, b, end);
                        last = end;
                        start = s;
                        end = e;
                    },
                    None => {
                        assert(walk(b@, p@, k as int, start as int, end as int, last as int, acc) is None);
                        assert(w0 is None);
                        return Step::Skip;
                    },
                }
            },
            Segment::OptArg(ty) => {
                match parse_segment(path, b, *ty, start, end) {
                    Some(v) => {
                        proof {
                            lemma_args_push(args@, Some(v));
                        }
                        args.push(Some(v));
                        let (s, e) = next_cursor(path, b, end);
                        last = end;
                        start = s;
                        end = e;
                    },
                    None => {
                        proof {
                            lemma_args_push(args@, None);
                        }
                        args.push(None);
                    },
                }
            },
            Segment::CatchAll(ty) => {
                match parse_segment(path, b, *ty, start, b.len()) {
                    Some(v) => {
                        proof {
                            lemma_args_push(args@, Some(v));
                        }
                        args.push(Some(v));
                        end = b.len();
                        last = b.len();
                        k = p.len() - 1;
                    },
                    None => {
                        assert(walk(b@, p@, k as int, start as int, end as int, last as int, acc) is None);
                        assert(w0 is None);
                        return Step::Skip;
                    },
                }
            },
        }
        k = k + 1;
    }
    match &route.target {
        Target::Handler(h) => {
            if last == b.len() || (last + 1 == b.len() && b[last] == SLASH) {
                Step::Leaf(h.clone(), args)
            } else {
                Step::Skip
            }
        },
        Target::Sub(j) => Step::Delegate(*j, start - 1),
    }
}

impl Router {
    /// Matches `path` against table `t` from the cursor `s0`.
    fn resolve_table(&self, path: &str, b: &[u8], t: usize, s0: usize) -> (r: Option<Resolved>)
        requires
            self.wf(),
            t < self.tables@.len(),
            b@ == path.spec_bytes(),
            s0 <= b@.len(),
            (b@.len() > 0 && b@[0] == SLASH && s0 + 1 < b@.len()) ==> is_cut(b@, s0 + 1),
        ensures
            opt_resolved_view(r) == resolve_from(*self, t as int, b@, s0 as int, 0),
        decreases self.tables@.len() - t,
    {
        let table = &self.tables[t];
        let mut i: usize = 0;
        while i < table.len()
            invariant
                self.wf(),
                t < self.tables@.len(),
                table@ == self.table(t as int),
                b@ == path.spec_bytes(),
                s0 <= b@.len(),
                (b@.len() > 0 && b@[0] == SLASH && s0 + 1 < b@.len()) ==> is_cut(b@, s0 + 1),
                i <= table@.len(),
                resolve_from(*self, t as int, b@, s0 as int, 0) == resolve_from(
                    *self,
                    t as int,
                    b@,
                    s0 as int,
                    i as int,
                ),
            decreases table@.len() - i,
        {
            let route = &table[i];
            match try_route(route, path, b, s0) {
                Step::Skip => {},
                Step::Leaf(h, args) => {
                    let mut route = Vec::new();
                    route.push(i);
                    assert(route@ =~= seq![i]);
                    return Some(Resolved { route, handler: h, args });
                },
                Step::Delegate(j, s) => {
                    assert(crate::router::route_ok(self.table(t as int)[i as int], t as int, self.tables@.len() as int));
                    match self.resolve_table(path, b, j, s) {
                        Some(m) => {
                            let mut route = Vec::new();
                            route.push(i);
                            let mut rest = m.route;
                            route.append(&mut rest);
                            assert(route@ =~= seq![i] + m.route@);
                            return Some(Resolved { route, handler: m.handler, args: m.args });
                        },
                        None => {
                            return None;
                        },
                    }
                },
            }
            i = i + 1;
        }
        None
    }

    /// Finds the first route, in declaration order, that matches the whole
    /// of `path`, following sub-routers, and returns it with its handler and
    /// arguments; `WrongPath` with the path when there is none.
    pub fn resolve(&self, path: &str) -> (r: Result<Resolved, Error>)
        requires
            self.wf(),
        ensures
            match r {
                Ok(m) => resolve_path(*self, path.spec_bytes()) == Some(m@),
                Err(Error::WrongPath(p)) => p@ == path@ && resolve_path(*self, path.spec_bytes()) is None,
            },
    {
        let b = path.as_bytes();
        match self.resolve_table(path, b, 0, 0) {
            Some(m) => Ok(m),
            None => Err(Error::WrongPath(path.to_owned())),
        }
    }
}

} // verus!
