//! What holds of matching across routes, paths and calls.

use vstd::prelude::*;
use vstd::utf8::decode_utf8;
use crate::arg::{parse_arg, ArgType, ArgView};
use crate::matcher::{
    advance,
    attempt,
    lemma_next_slash,
    resolve_from,
    resolve_path,
    slash_or_end,
    terminated,
    walk,
    Attempt,
    Resolution,
};
use crate::path::{next_slash, SLASH};
use crate::router::{literal_bytes, literal_ok, pattern_ok, segment_ok, Route, Router, Segment};
use crate::round_trip::lemma_next_slash_in;

verus! {

/// `next_slash(b, s)` is `e` when `b[s..e]` holds no `/` and `e` is a `/` or
/// the end.
pub proof fn lemma_next_slash_at(b: Seq<u8>, s: int, e: int)
    requires
        0 <= s <= e,
        slash_or_end(b, e),
        forall|i: int| s <= i < e ==> b[i] != SLASH,
    ensures
        next_slash(b, s) == e,
    decreases e - s,
{
    if s < e {
        lemma_next_slash_at(b, s + 1, e);
    }
}

/// When the routes before `i` all let the path pass, table `t` resolves it
/// as its routes from `i` on do.
pub proof fn lemma_skipped_routes(r: Router, t: int, b: Seq<u8>, s0: int, i: int)
    requires
        0 <= t < r.tables@.len(),
        0 <= i <= r.table(t).len(),
        forall|h: int| 0 <= h < i ==> #[trigger] attempt(r.table(t)[h], b, s0) is Skip,
    ensures
        resolve_from(r, t, b, s0, 0) == resolve_from(r, t, b, s0, i),
    decreases i,
{
    if i > 0 {
        lemma_skipped_routes(r, t, b, s0, i - 1);
        assert(attempt(r.table(t)[i - 1], b, s0) is Skip);
    }
}

proof fn lemma_claimed_by(r: Router, t: int, b: Seq<u8>, s0: int, j: int, i: int)
    requires
        0 <= t < r.tables@.len(),
        0 <= j <= i < r.table(t).len(),
        !(attempt(r.table(t)[i], b, s0) is Skip),
    ensures
        resolve_from(r, t, b, s0, j) is Some ==> resolve_from(r, t, b, s0, j)->Some_0.route[0] <= i,
    decreases i - j,
{
    if j < i && attempt(r.table(t)[j], b, s0) is Skip {
        lemma_claimed_by(r, t, b, s0, j + 1, i);
    }
}

/// Routes are tried in declaration order: once route `i` of a table claims
/// the path (it matches it, or delegates it to its sub-router), no later
/// route `k` of that table is followed.
pub proof fn lemma_declaration_order(r: Router, t: int, b: Seq<u8>, s0: int, i: int, k: int)
    requires
        0 <= t < r.tables@.len(),
        0 <= i < k < r.table(t).len(),
        !(attempt(r.table(t)[i], b, s0) is Skip),
    ensures
        resolve_from(r, t, b, s0, 0) is Some ==> resolve_from(r, t, b, s0, 0)->Some_0.route[0] != k,
{
    lemma_claimed_by(r, t, b, s0, 0, i);
}

/// The order of declaration decides between two routes that both match the
/// path: with no earlier route claiming it, the path goes to the handler of
/// the first, and, once the two routes are swapped, to that of the other.
pub proof fn lemma_reordering(r: Router, swapped: Router, b: Seq<u8>, i: int, k: int)
    requires
        r.tables@.len() > 0,
        0 <= i < k < r.table(0).len(),
        swapped.tables@.len() == r.tables@.len(),
        swapped.table(0) == r.table(0).update(i, r.table(0)[k]).update(k, r.table(0)[i]),
        forall|h: int| 0 <= h < i ==> #[trigger] attempt(r.table(0)[h], b, 0) is Skip,
        attempt(r.table(0)[i], b, 0) is Leaf,
        attempt(r.table(0)[k], b, 0) is Leaf,
    ensures
        resolve_path(r, b) == Some(
            Resolution {
                route: seq![i as usize],
                handler: attempt(r.table(0)[i], b, 0)->Leaf_0,
                args: attempt(r.table(0)[i], b, 0)->Leaf_1,
            },
        ),
        resolve_path(swapped, b) == Some(
            Resolution {
                route: seq![i as usize],
                handler: attempt(r.table(0)[k], b, 0)->Leaf_0,
                args: attempt(r.table(0)[k], b, 0)->Leaf_1,
            },
        ),
{
    lemma_skipped_routes(r, 0, b, 0, i);
    assert forall|h: int| 0 <= h < i implies #[trigger] attempt(swapped.table(0)[h], b, 0) is Skip by {
        assert(swapped.table(0)[h] == r.table(0)[h]);
    }
    lemma_skipped_routes(swapped, 0, b, 0, i);
    assert(swapped.table(0)[i] == r.table(0)[k]);
}

/// An optional argument whose segment does not parse does not end the
/// match: it is bound as `None`, and the next element of the pattern sees
/// the same segment.
pub proof fn lemma_optional_fallback(
    b: Seq<u8>,
    p: Seq<Segment>,
    k: int,
    start: int,
    end: int,
    last: int,
    acc: Seq<Option<ArgView>>,
    ty: ArgType,
)
    requires
        0 <= k < p.len(),
        p[k] == Segment::OptArg(ty),
        parse_arg(ty, b.subrange(start, end)) is None,
    ensures
        walk(b, p, k, start, end, last, acc) == walk(b, p, k + 1, start, end, last, acc.push(None)),
{
}

/// A catch-all argument is the whole rest of the path, slashes included:
/// under a handler's route made of the literal `l` and a catch-all text
/// argument, the path `/l/rest` binds exactly `rest`.
pub proof fn lemma_catch_all_takes_rest(route: Route, l: String, rest: Seq<u8>)
    requires
        route.pattern@ == seq![Segment::Literal(l), Segment::CatchAll(ArgType::Text)],
        route.target is Handler,
        literal_ok(literal_bytes(l)),
        rest.len() > 0,
    ensures
        attempt(route, seq![SLASH] + literal_bytes(l) + seq![SLASH] + rest, 0) == Attempt::Leaf(
            route.target->Handler_0@,
            seq![Some(ArgView::Text(decode_utf8(rest)))],
        ),
{
    let lb = literal_bytes(l);
    let b = seq![SLASH] + lb + seq![SLASH] + rest;
    let m = lb.len() as int;
    let p = route.pattern@;
    assert(b[0] == SLASH);
    assert(b[1 + m] == SLASH);
    assert forall|i: int| 1 <= i < 1 + m implies b[i] != SLASH by {
        assert(b[i] == lb[i - 1]);
    }
    lemma_next_slash_at(b, 1, 1 + m);
    assert(b.subrange(1, 1 + m) =~= lb);
    assert(advance(b, 1 + m) == 2 + m);
    assert(b.subrange(2 + m, b.len() as int) =~= rest);
    let v = ArgView::Text(decode_utf8(rest));
    let e = next_slash(b, 2 + m);
    assert(walk(b, p, 1, 2 + m, e, 1 + m, seq![]) == Some((seq![Some(v)], 2 + m, b.len() as int)));
    assert(walk(b, p, 0, 1, 1 + m, 0, seq![]) == walk(b, p, 1, 2 + m, e, 1 + m, seq![]));
}

/// No pattern of the router holds a catch-all argument.
pub open spec fn no_catch_all(r: Router) -> bool {
    forall|t: int, i: int, k: int|
        0 <= t < r.tables@.len() && 0 <= i < r.table(t).len() && 0 <= k < r.table(
            t,
        )[i].pattern@.len() ==> !(#[trigger] r.table(t)[i].pattern@[k] is CatchAll)
}

proof fn lemma_next_slash_push(b: Seq<u8>, s: int)
    requires
        0 <= s <= b.len(),
    ensures
        next_slash(b.push(SLASH), s) == next_slash(b, s),
    decreases b.len() - s,
{
    if s < b.len() {
        assert(b.push(SLASH)[s] == b[s]);
        if b[s] != SLASH {
            lemma_next_slash_push(b, s + 1);
        }
    }
}

proof fn lemma_walk_trailing(
    b: Seq<u8>,
    p: Seq<Segment>,
    k: int,
    start: int,
    end: int,
    last: int,
    acc: Seq<Option<ArgView>>,
)
    requires
        forall|j: int| 0 <= j < p.len() ==> !(#[trigger] p[j] is CatchAll),
        b.len() > 0,
        b.last() != SLASH,
        0 <= start <= end,
        slash_or_end(b, end),
        0 <= last <= b.len(),
    ensures
        walk(b.push(SLASH), p, k, start, end, last, acc) == walk(b, p, k, start, end, last, acc),
        walk(b, p, k, start, end, last, acc) is Some ==> ({
            let w = walk(b, p, k, start, end, last, acc)->Some_0;
            start <= w.1 <= b.len() && 0 <= w.2 <= b.len()
        }),
    decreases p.len() - k,
{
    if 0 <= k < p.len() {
        let b2 = b.push(SLASH);
        assert(b2.subrange(start, end) =~= b.subrange(start, end));
        let s = advance(b, end);
        assert(advance(b2, end) == s);
        lemma_next_slash_push(b, s);
        lemma_next_slash(b, s);
        let ns = next_slash(b, s);
        match p[k] {
            Segment::Literal(_) => {
                lemma_walk_trailing(b, p, k + 1, s, ns, end, acc);
            },
            Segment::Arg(ty) => {
                match parse_arg(ty, b.subrange(start, end)) {
                    Some(v) => lemma_walk_trailing(b, p, k + 1, s, ns, end, acc.push(Some(v))),
                    None => {},
                }
            },
            Segment::OptArg(ty) => {
                match parse_arg(ty, b.subrange(start, end)) {
                    Some(v) => lemma_walk_trailing(b, p, k + 1, s, ns, end, acc.push(Some(v))),
                    None => lemma_walk_trailing(b, p, k + 1, start, end, last, acc.push(None)),
                }
            },
            Segment::CatchAll(_) => {
                assert(p[k] is CatchAll);
            },
        }
    }
}

proof fn lemma_attempt_trailing(route: Route, b: Seq<u8>, s0: int)
    requires
        forall|j: int| 0 <= j < route.pattern@.len() ==> !(#[trigger] route.pattern@[j] is CatchAll),
        b.len() > 0,
        b.last() != SLASH,
        0 <= s0,
        s0 + 1 < b.len(),
    ensures
        attempt(route, b.push(SLASH), s0) == attempt(route, b, s0),
        attempt(route, b, s0) matches Attempt::Delegate(_, s) ==> 0 <= s && s + 1 <= b.len(),
{
    let b2 = b.push(SLASH);
    if b[0] == SLASH {
        let start = s0 + 1;
        lemma_next_slash(b, start);
        lemma_next_slash_push(b, start);
        lemma_walk_trailing(b, route.pattern@, 0, start, next_slash(b, start), s0, seq![]);
        match walk(b, route.pattern@, 0, start, next_slash(b, start), s0, seq![]) {
            Some(w) => {
                assert(terminated(b2, w.2) == terminated(b, w.2));
            },
            None => {},
        }
    }
}

proof fn lemma_short_cursor(r: Router, t: int, b: Seq<u8>, s0: int, i: int)
    requires
        s0 + 1 >= b.len(),
    ensures
        resolve_from(r, t, b, s0, i) is None,
    decreases r.table(t).len() - i,
{
    if 0 <= t < r.tables@.len() && 0 <= i < r.table(t).len() {
        lemma_short_cursor(r, t, b, s0, i + 1);
    }
}

proof fn lemma_resolve_trailing(r: Router, t: int, b: Seq<u8>, s0: int, i: int)
    requires
        no_catch_all(r),
        b.len() > 0,
        b.last() != SLASH,
        0 <= s0,
        resolve_from(r, t, b, s0, i) is Some,
    ensures
        resolve_from(r, t, b.push(SLASH), s0, i) == resolve_from(r, t, b, s0, i),
    decreases r.tables@.len() - t, r.table(t).len() - i,
{
    if s0 + 1 >= b.len() {
        lemma_short_cursor(r, t, b, s0, i);
    } else if 0 <= t < r.tables@.len() && 0 <= i < r.table(t).len() {
        let route = r.table(t)[i];
        assert forall|j: int| 0 <= j < route.pattern@.len() implies !(#[trigger] route.pattern@[j] is CatchAll) by {
            assert(!(r.table(t)[i].pattern@[j] is CatchAll));
        }
        lemma_attempt_trailing(route, b, s0);
        match attempt(route, b, s0) {
            Attempt::Skip => lemma_resolve_trailing(r, t, b, s0, i + 1),
            Attempt::Leaf(_, _) => {},
            Attempt::Delegate(j, s) => {
                if t < j < r.tables@.len() {
                    lemma_resolve_trailing(r, j, b, s, 0);
                }
            },
        }
    }
}

/// A trailing `/` is optional: in a router without catch-all arguments, a
/// path that does not end in `/` and that resolves, resolves to the same
/// route, handler and arguments with one `/` appended.
pub proof fn lemma_trailing_slash(r: Router, b: Seq<u8>)
    requires
        no_catch_all(r),
        b.len() > 0,
        b.last() != SLASH,
        resolve_path(r, b) is Some,
    ensures
        resolve_path(r, b.push(SLASH)) == resolve_path(r, b),
{
    lemma_resolve_trailing(r, 0, b, 0, 0);
}

/// Segments are found the same way in a path and in its rest: in `p + q`,
/// the next `/` from offset `p.len() + s` is `p.len()` past the next `/` of
/// `q` from `s`. A sub-router rewound onto the `/` that starts `q` thus sees
/// the segments that `q` alone has.
pub proof fn lemma_next_slash_shift(p: Seq<u8>, q: Seq<u8>, s: int)
    requires
        0 <= s <= q.len(),
    ensures
        next_slash(p + q, s + p.len()) == next_slash(q, s) + p.len(),
    decreases q.len() - s,
{
    if s < q.len() {
        assert((p + q)[s + p.len()] == q[s]);
        if q[s] != SLASH {
            lemma_next_slash_shift(p, q, s + 1);
        }
    }
}

/// A walk's outcome with its cursor moved `m` bytes on.
pub open spec fn shifted(w: Option<(Seq<Option<ArgView>>, int, int)>, m: int) -> Option<
    (Seq<Option<ArgView>>, int, int),
> {
    match w {
        Some(x) => Some((x.0, x.1 + m, x.2 + m)),
        None => None,
    }
}

proof fn lemma_walk_shift(
    p: Seq<u8>,
    q: Seq<u8>,
    pat: Seq<Segment>,
    k: int,
    start: int,
    end: int,
    last: int,
    acc: Seq<Option<ArgView>>,
)
    requires
        0 <= start <= end <= q.len(),
        0 <= last <= q.len(),
    ensures
        walk(p + q, pat, k, start + p.len(), end + p.len(), last + p.len(), acc) == shifted(
            walk(q, pat, k, start, end, last, acc),
            p.len() as int,
        ),
        walk(q, pat, k, start, end, last, acc) is Some ==> ({
            let w = walk(q, pat, k, start, end, last, acc)->Some_0;
            start <= w.1 <= q.len() && 0 <= w.2 <= q.len()
        }),
    decreases pat.len() - k,
{
    if 0 <= k < pat.len() {
        let b = p + q;
        let m = p.len() as int;
        assert(b.subrange(start + m, end + m) =~= q.subrange(start, end));
        assert(b.subrange(start + m, b.len() as int) =~= q.subrange(start, q.len() as int));
        let s = advance(q, end);
        assert(advance(b, end + m) == s + m);
        lemma_next_slash_shift(p, q, s);
        lemma_next_slash(q, s);
        let ns = next_slash(q, s);
        match pat[k] {
            Segment::Literal(_) => {
                lemma_walk_shift(p, q, pat, k + 1, s, ns, end, acc);
            },
            Segment::Arg(ty) => {
                match parse_arg(ty, q.subrange(start, end)) {
                    Some(v) => lemma_walk_shift(p, q, pat, k + 1, s, ns, end, acc.push(Some(v))),
                    None => {},
                }
            },
            Segment::OptArg(ty) => {
                match parse_arg(ty, q.subrange(start, end)) {
                    Some(v) => lemma_walk_shift(p, q, pat, k + 1, s, ns, end, acc.push(Some(v))),
                    None => lemma_walk_shift(p, q, pat, k + 1, start, end, last, acc.push(None)),
                }
            },
            Segment::CatchAll(_) => {},
        }
    }
}

proof fn lemma_attempt_shift(route: Route, p: Seq<u8>, q: Seq<u8>, s0: int)
    requires
        p.len() > 0,
        p[0] == SLASH,
        q.len() > 0,
        q[0] == SLASH,
        0 <= s0 <= q.len(),
    ensures
        attempt(route, p + q, s0 + p.len()) == match attempt(route, q, s0) {
            Attempt::Delegate(j, s) => Attempt::Delegate(j, s + p.len()),
            other => other,
        },
        attempt(route, q, s0) matches Attempt::Delegate(_, s) ==> 0 <= s <= q.len(),
{
    let b = p + q;
    let m = p.len() as int;
    assert(b[0] == SLASH);
    if s0 + 1 < q.len() {
        let start = s0 + 1;
        lemma_next_slash(q, start);
        lemma_next_slash_shift(p, q, start);
        lemma_walk_shift(p, q, route.pattern@, 0, start, next_slash(q, start), s0, seq![]);
        match walk(q, route.pattern@, 0, start, next_slash(q, start), s0, seq![]) {
            Some(w) => {
                if w.2 < q.len() {
                    assert(b[w.2 + m] == q[w.2]);
                }
                assert(terminated(b, w.2 + m) == terminated(q, w.2));
            },
            None => {},
        }
    }
}

/// A sub-router matches the rest of a path as it would match that rest
/// alone: with `p` and `q` both starting with `/`, table `t` resolves `p + q`
/// from the `/` that starts `q` as it resolves `q` from its start.
pub proof fn lemma_resolve_shift(r: Router, t: int, p: Seq<u8>, q: Seq<u8>, s0: int, i: int)
    requires
        p.len() > 0,
        p[0] == SLASH,
        q.len() > 0,
        q[0] == SLASH,
        0 <= s0 <= q.len(),
    ensures
        resolve_from(r, t, p + q, s0 + p.len(), i) == resolve_from(r, t, q, s0, i),
    decreases r.tables@.len() - t, r.table(t).len() - i,
{
    if 0 <= t < r.tables@.len() && 0 <= i < r.table(t).len() {
        lemma_attempt_shift(r.table(t)[i], p, q, s0);
        match attempt(r.table(t)[i], q, s0) {
            Attempt::Skip => lemma_resolve_shift(r, t, p, q, s0, i + 1),
            Attempt::Leaf(_, _) => {},
            Attempt::Delegate(j, s) => {
                if t < j < r.tables@.len() {
                    lemma_resolve_shift(r, j, p, q, s, 0);
                }
            },
        }
    }
}

/// Delegation rewinds onto the `/` that ends the prefix: when route `i` of
/// the root is the literal `l` leading to table `j`, and no earlier route
/// claims the path, `/l` followed by `q` resolves through route `i` to what
/// table `j` makes of `q` alone (so `/sub/x` resolves there as `/x`).
pub proof fn lemma_sub_router_rewind(r: Router, i: int, q: Seq<u8>)
    requires
        r.wf(),
        0 <= i < r.table(0).len(),
        r.table(0)[i].pattern@.len() == 1,
        r.table(0)[i].pattern@[0] is Literal,
        r.table(0)[i].target is Sub,
        q.len() >= 2,
        q[0] == SLASH,
        forall|h: int|
            0 <= h < i ==> #[trigger] attempt(
                r.table(0)[h],
                seq![SLASH] + literal_bytes(r.table(0)[i].pattern@[0]->Literal_0) + q,
                0,
            ) is Skip,
    ensures
        resolve_path(r, seq![SLASH] + literal_bytes(r.table(0)[i].pattern@[0]->Literal_0) + q)
            == match resolve_from(r, r.table(0)[i].target->Sub_0 as int, q, 0, 0) {
            Some(m) => Some(
                Resolution { route: seq![i as usize] + m.route, handler: m.handler, args: m.args },
            ),
            None => None,
        },
{
    let route = r.table(0)[i];
    let lb = literal_bytes(route.pattern@[0]->Literal_0);
    let pre = seq![SLASH] + lb;
    let b = pre + q;
    let n = lb.len() as int;
    let j = route.target->Sub_0 as int;
    assert(crate::router::route_ok(route, 0, r.tables@.len() as int));
    assert(crate::router::segment_ok(route.pattern@, 0));
    assert(b[0] == SLASH);
    assert(b[1 + n] == SLASH);
    assert forall|x: int| 1 <= x < 1 + n implies b[x] != SLASH by {
        assert(b[x] == lb[x - 1]);
    }
    lemma_next_slash_at(b, 1, 1 + n);
    assert(b.subrange(1, 1 + n) =~= lb);
    assert(advance(b, 1 + n) == 2 + n);
    let e = next_slash(b, 2 + n);
    assert(walk(b, route.pattern@, 1, 2 + n, e, 1 + n, seq![]) == Some((Seq::<Option<ArgView>>::empty(), 2 + n, 1 + n)));
    assert(walk(b, route.pattern@, 0, 1, 1 + n, 0, seq![]) == walk(b, route.pattern@, 1, 2 + n, e, 1 + n, seq![]));
    assert(attempt(route, b, 0) == Attempt::Delegate(j, 1 + n));
    lemma_skipped_routes(r, 0, b, 0, i);
    assert(pre[0] == SLASH);
    lemma_resolve_shift(r, j, pre, q, 0, 0);
}

/// At the end of the path every segment is empty, so a pattern whose
/// remaining elements end with a literal no longer matches there.
proof fn lemma_walk_at_end(b: Seq<u8>, p: Seq<Segment>, k: int, last: int, acc: Seq<Option<ArgView>>)
    requires
        pattern_ok(p),
        p.last() is Literal,
        0 <= k < p.len(),
    ensures
        walk(b, p, k, b.len() as int, b.len() as int, last, acc) is None,
    decreases p.len() - k,
{
    let n = b.len() as int;
    assert(segment_ok(p, k));
    assert(b.subrange(n, n) =~= Seq::<u8>::empty());
    assert(advance(b, n) == n);
    assert(next_slash(b, n) == n);
    if k + 1 < p.len() {
        match p[k] {
            Segment::Arg(ty) => {
                match parse_arg(ty, b.subrange(n, n)) {
                    Some(v) => lemma_walk_at_end(b, p, k + 1, n, acc.push(Some(v))),
                    None => {},
                }
            },
            Segment::OptArg(ty) => {
                match parse_arg(ty, b.subrange(n, n)) {
                    Some(v) => lemma_walk_at_end(b, p, k + 1, n, acc.push(Some(v))),
                    None => lemma_walk_at_end(b, p, k + 1, last, acc.push(None)),
                }
            },
            _ => {},
        }
    } else {
        assert(p[k] is Literal);
    }
}

proof fn lemma_walk_extended(
    b: Seq<u8>,
    t: Seq<u8>,
    p: Seq<Segment>,
    k: int,
    start: int,
    end: int,
    last: int,
    acc: Seq<Option<ArgView>>,
)
    requires
        pattern_ok(p),
        p.last() is Literal,
        b.len() > 0,
        b.last() != SLASH,
        t.len() > 0,
        t[0] == SLASH,
        0 <= start <= end,
        slash_or_end(b, end),
        0 <= last <= b.len(),
        walk(b, p, k, start, end, last, acc) is Some,
    ensures
        walk(b + t, p, k, start, end, last, acc) is None || walk(
            b + t,
            p,
            k,
            start,
            end,
            last,
            acc,
        )->Some_0.2 <= b.len(),
    decreases p.len() - k,
{
    if 0 <= k < p.len() {
        let n = b.len() as int;
        let bt = b + t;
        assert(bt.subrange(start, end) =~= b.subrange(start, end));
        assert(segment_ok(p, k));
        if p[k] is CatchAll {
            assert(k == p.len() - 1);
            assert(false);
        }
        let s = advance(b, end);
        if end < n {
            assert(b[end] == SLASH);
            assert(end != n - 1);
            assert(advance(bt, end) == s);
            lemma_next_slash(b, s);
            lemma_next_slash_in(b, t, s);
            let ns = next_slash(b, s);
            match p[k] {
                Segment::Literal(_) => {
                    lemma_walk_extended(b, t, p, k + 1, s, ns, end, acc);
                    assert(walk(bt, p, k, start, end, last, acc) == walk(bt, p, k + 1, s, ns, end, acc));
                },
                Segment::Arg(ty) => {
                    match parse_arg(ty, b.subrange(start, end)) {
                        Some(v) => lemma_walk_extended(b, t, p, k + 1, s, ns, end, acc.push(Some(v))),
                        None => {},
                    }
                },
                Segment::OptArg(ty) => {
                    match parse_arg(ty, b.subrange(start, end)) {
                        Some(v) => lemma_walk_extended(b, t, p, k + 1, s, ns, end, acc.push(Some(v))),
                        None => lemma_walk_extended(b, t, p, k + 1, start, end, last, acc.push(None)),
                    }
                },
                Segment::CatchAll(_) => {},
            }
        } else {
            // the cursor segment ends the path: once it is consumed, the
            // rest of the pattern must match at the end, which only works
            // when nothing is left of it
            assert(s == n);
            assert(next_slash(b, n) == n);
            let s2 = advance(bt, end);
            let e2 = next_slash(bt, s2);
            if k + 1 >= p.len() {
                assert(forall|a2: Seq<Option<ArgView>>| #[trigger] walk(bt, p, k + 1, s2, e2, end, a2) == Some((a2, s2, end)));
            }
            match p[k] {
                Segment::Literal(_) => {
                    if k + 1 < p.len() {
                        lemma_walk_at_end(b, p, k + 1, end, acc);
                        assert(walk(b, p, k, start, end, last, acc) == walk(b, p, k + 1, n, n, end, acc));
                    } else {
                        assert(walk(bt, p, k, start, end, last, acc) == walk(bt, p, k + 1, s2, e2, end, acc));
                    }
                },
                Segment::Arg(ty) => {
                    match parse_arg(ty, b.subrange(start, end)) {
                        Some(v) => {
                            if k + 1 < p.len() {
                                lemma_walk_at_end(b, p, k + 1, end, acc.push(Some(v)));
                            }
                        },
                        None => {},
                    }
                },
                Segment::OptArg(ty) => {
                    match parse_arg(ty, b.subrange(start, end)) {
                        Some(v) => {
                            if k + 1 < p.len() {
                                lemma_walk_at_end(b, p, k + 1, end, acc.push(Some(v)));
                            }
                        },
                        None => lemma_walk_extended(b, t, p, k + 1, start, end, last, acc.push(None)),
                    }
                },
                Segment::CatchAll(_) => {},
            }
        }
    }
}

/// Nothing but one `/` may follow a match: when a route whose pattern ends
/// with a literal matches a path that does not end in `/`, the same path
/// followed by a `/` and one or more bytes more does not match it.
pub proof fn lemma_no_extra_trailing(route: Route, b: Seq<u8>, t: Seq<u8>, s0: int)
    requires
        pattern_ok(route.pattern@),
        route.pattern@.last() is Literal,
        b.len() > 0,
        b.last() != SLASH,
        0 <= s0,
        attempt(route, b, s0) is Leaf,
        t.len() >= 2,
        t[0] == SLASH,
    ensures
        attempt(route, b + t, s0) is Skip,
{
    let bt = b + t;
    let start = s0 + 1;
    assert(bt[0] == b[0]);
    lemma_next_slash(b, start);
    lemma_next_slash_in(b, t, start);
    lemma_walk_extended(b, t, route.pattern@, 0, start, next_slash(b, start), s0, seq![]);
}

} // verus!
