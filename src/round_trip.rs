//! Building a path and matching it are inverse: the path built for a
//! handler's route and arguments matches that route with those arguments.

use vstd::prelude::*;
use vstd::utf8::{encode_scalar, encode_utf8, encode_utf8_decode_utf8};
use crate::arg::{
    all_digits,
    arg_text,
    decimal_chars,
    digit_char,
    digits_value,
    is_digit,
    parse_arg,
    unsigned_digits,
    ArgType,
    ArgView,
    ZERO,
};
use crate::builder::{built_path, chain_parts, chain_route, join_slash, leads_to_handler, leaf_route, segment_parts};
use crate::laws::{lemma_next_slash_at, lemma_resolve_shift, lemma_skipped_routes};
use crate::matcher::{advance, attempt, resolve_from, resolve_path, walk, Attempt, Resolution};
use crate::path::{next_slash, SLASH};
use crate::router::{literal_bytes, literal_only, pattern_ok, route_ok, segment_ok, Router, Segment, Target};

verus! {

proof fn lemma_encode_concat(a: Seq<char>, b: Seq<char>)
    ensures
        encode_utf8(a + b) == encode_utf8(a) + encode_utf8(b),
    decreases a.len(),
{
    if a.len() == 0 {
        assert(a + b =~= b);
    } else {
        assert((a + b).drop_first() =~= a.drop_first() + b);
        lemma_encode_concat(a.drop_first(), b);
        assert(encode_utf8(a + b) =~= encode_utf8(a) + encode_utf8(b));
    }
}

proof fn lemma_encode_ascii_char(c: char)
    requires
        (c as u32) <= 0x7F,
    ensures
        encode_utf8(seq![c]) == seq![(c as u32) as u8],
{
    let v = c as u32;
    assert(v & 0x7F == v) by (bit_vector)
        requires
            v <= 0x7F,
    ;
    assert(seq![c].drop_first() =~= Seq::<char>::empty());
    assert(encode_utf8(Seq::<char>::empty()) == Seq::<u8>::empty());
    assert(seq![c][0] == c);
    assert(encode_scalar(v) == seq![v as u8]);
    assert(encode_utf8(seq![c]) == encode_scalar(v) + encode_utf8(seq![c].drop_first()));
    assert(encode_utf8(seq![c]) =~= seq![v as u8]);
}

/// The bytes of a number's decimal text.
spec fn decimal_bytes(n: nat) -> Seq<u8>
    decreases n,
{
    if n < 10 {
        seq![(n + ZERO) as u8]
    } else {
        decimal_bytes(n / 10).push((n % 10 + ZERO) as u8)
    }
}

proof fn lemma_decimal_bytes(n: nat)
    ensures
        encode_utf8(decimal_chars(n)) == decimal_bytes(n),
        decimal_bytes(n).len() > 0,
        all_digits(decimal_bytes(n)),
        digits_value(decimal_bytes(n)) == n,
    decreases n,
{
    let c = digit_char(n);
    assert(c as u32 == n % 10 + 48);
    lemma_encode_ascii_char(c);
    if n < 10 {
        assert(decimal_chars(n) == seq![c]);
        let d = decimal_bytes(n);
        assert(d.drop_last() =~= Seq::<u8>::empty());
        assert(digits_value(d) == digits_value(d.drop_last()) * 10 + (d.last() - ZERO) as nat);
    } else {
        lemma_decimal_bytes(n / 10);
        lemma_encode_concat(decimal_chars(n / 10), seq![c]);
        assert(decimal_chars(n / 10).push(c) =~= decimal_chars(n / 10) + seq![c]);
        let d = decimal_bytes(n);
        assert(d.drop_last() =~= decimal_bytes(n / 10));
        assert(encode_utf8(decimal_chars(n)) =~= d);
        assert(d.last() == (n % 10 + ZERO) as u8);
        assert(digits_value(d) == digits_value(d.drop_last()) * 10 + (d.last() - ZERO) as nat);
        assert((n / 10) * 10 + n % 10 == n) by (nonlinear_arith);
        assert forall|i: int| 0 <= i < d.len() implies is_digit(#[trigger] d[i]) by {
            if i < d.len() - 1 {
                assert(d[i] == decimal_bytes(n / 10)[i]);
            }
        }
    }
}

/// An argument of the type that a segment declares.
pub open spec fn arg_fits(ty: ArgType, v: ArgView) -> bool {
    match ty {
        ArgType::Text => v is Text,
        ArgType::Uint => v is Uint,
    }
}

/// An argument's text parses back to the argument under its type.
pub proof fn lemma_arg_round_trip(ty: ArgType, v: ArgView)
    requires
        arg_fits(ty, v),
    ensures
        parse_arg(ty, encode_utf8(arg_text(v))) == Some(v),
{
    match v {
        ArgView::Text(s) => {
            encode_utf8_decode_utf8(s);
        },
        ArgView::Uint(n) => {
            lemma_decimal_bytes(n as nat);
            let d = decimal_bytes(n as nat);
            assert(is_digit(d[0]));
            assert(unsigned_digits(d) == d);
        },
    }
}

/// The bytes of the texts that `p[k..]` contributes, with `args[a..]`.
pub open spec fn part_bytes(p: Seq<Segment>, k: int, args: Seq<Option<ArgView>>, a: int) -> Seq<
    Seq<u8>,
> {
    segment_parts(p, k, args, a).map_values(|t: Seq<char>| encode_utf8(t))
}

/// The texts `e[j..]`, each after a `/`.
pub open spec fn slashed(e: Seq<Seq<u8>>, j: int) -> Seq<u8>
    decreases e.len() - j,
{
    if j < 0 || j >= e.len() {
        seq![]
    } else {
        seq![SLASH] + e[j] + slashed(e, j + 1)
    }
}

/// One segment: non-empty, without `/`.
pub open spec fn one_segment(e: Seq<u8>) -> bool {
    e.len() > 0 && forall|i: int| 0 <= i < e.len() ==> #[trigger] e[i] != SLASH
}

/// The text that a segment matched at the start of `r` would see.
pub open spec fn cursor_text(r: Seq<Seq<u8>>) -> Seq<u8> {
    if r.len() == 0 {
        seq![]
    } else {
        r[0].subrange(0, next_slash(r[0], 0))
    }
}

/// `args[a..]` fit `p[k..]`: one per argument segment, each of the declared
/// type; present single-segment arguments are one segment, a catch-all is
/// not empty, and an absent optional argument's place is not taken by the
/// text that follows it.
pub open spec fn fits(p: Seq<Segment>, k: int, args: Seq<Option<ArgView>>, a: int) -> bool
    decreases p.len() - k,
{
    if k < 0 || k >= p.len() {
        a == args.len()
    } else {
        match p[k] {
            Segment::Literal(_) => fits(p, k + 1, args, a),
            Segment::Arg(ty) => {
                &&& 0 <= a < args.len()
                &&& args[a] is Some
                &&& arg_fits(ty, args[a]->Some_0)
                &&& one_segment(encode_utf8(arg_text(args[a]->Some_0)))
                &&& fits(p, k + 1, args, a + 1)
            },
            Segment::OptArg(ty) => {
                &&& 0 <= a < args.len()
                &&& match args[a] {
                    Some(v) => arg_fits(ty, v) && one_segment(encode_utf8(arg_text(v))),
                    None => parse_arg(ty, cursor_text(part_bytes(p, k + 1, args, a + 1))) is None,
                }
                &&& fits(p, k + 1, args, a + 1)
            },
            Segment::CatchAll(ty) => {
                &&& 0 <= a < args.len()
                &&& args[a] is Some
                &&& arg_fits(ty, args[a]->Some_0)
                &&& encode_utf8(arg_text(args[a]->Some_0)).len() > 0
                &&& k == p.len() - 1
                &&& a + 1 == args.len()
            },
        }
    }
}

proof fn lemma_slashed_drop(e: Seq<Seq<u8>>, j: int)
    requires
        0 <= j,
        e.len() > 0,
    ensures
        slashed(e, j + 1) == slashed(e.drop_first(), j),
    decreases e.len() - j,
{
    if j + 1 < e.len() {
        lemma_slashed_drop(e, j + 1);
    }
}

proof fn lemma_slashed_push(e: Seq<Seq<u8>>, x: Seq<u8>, j: int)
    requires
        0 <= j <= e.len(),
    ensures
        slashed(e.push(x), j) == slashed(e, j) + seq![SLASH] + x,
    decreases e.len() - j,
{
    if j < e.len() {
        lemma_slashed_push(e, x, j + 1);
        assert(e.push(x)[j] == e[j]);
        assert(slashed(e.push(x), j) =~= slashed(e, j) + seq![SLASH] + x);
    } else {
        assert(slashed(e.push(x), j + 1) == Seq::<u8>::empty());
        assert(slashed(e.push(x), j) =~= slashed(e, j) + seq![SLASH] + x);
    }
}

/// The bytes of a path built from texts `t`: each text after a `/`.
proof fn lemma_join_bytes(t: Seq<Seq<char>>)
    ensures
        encode_utf8(join_slash(seq![Seq::<char>::empty()] + t)) == slashed(
            t.map_values(|x: Seq<char>| encode_utf8(x)),
            0,
        ),
    decreases t.len(),
{
    let e = t.map_values(|x: Seq<char>| encode_utf8(x));
    if t.len() == 0 {
        assert(seq![Seq::<char>::empty()] + t =~= seq![Seq::<char>::empty()]);
        assert(encode_utf8(Seq::<char>::empty()) == Seq::<u8>::empty());
    } else {
        let u = t.drop_last();
        let x = t.last();
        let whole = seq![Seq::<char>::empty()] + t;
        assert(whole.drop_last() =~= seq![Seq::<char>::empty()] + u);
        assert(whole.last() == x);
        lemma_join_bytes(u);
        let ju = join_slash(seq![Seq::<char>::empty()] + u);
        lemma_encode_concat(ju + seq!['/'], x);
        lemma_encode_concat(ju, seq!['/']);
        lemma_encode_ascii_char('/');
        let eu = u.map_values(|y: Seq<char>| encode_utf8(y));
        assert(e =~= eu.push(encode_utf8(x)));
        lemma_slashed_push(eu, encode_utf8(x), 0);
    }
}

/// What follows a `/` does not change where the next `/` is found before it.
pub proof fn lemma_next_slash_in(e: Seq<u8>, y: Seq<u8>, s: int)
    requires
        0 <= s <= e.len(),
        y.len() == 0 || y[0] == SLASH,
    ensures
        next_slash(e + y, s) == next_slash(e, s),
    decreases e.len() - s,
{
    let b = e + y;
    if s < e.len() {
        assert(b[s] == e[s]);
        if e[s] != SLASH {
            lemma_next_slash_in(e, y, s + 1);
        }
    } else if y.len() > 0 {
        assert(b[s] == SLASH);
    }
}

proof fn lemma_next_slash_zero_shift(x: Seq<u8>, e: Seq<u8>, s: int)
    requires
        0 <= s <= e.len(),
    ensures
        next_slash(x + e, x.len() + s) == x.len() + next_slash(e, s),
    decreases e.len() - s,
{
    let b = x + e;
    if s < e.len() {
        assert(b[x.len() + s] == e[s]);
        if e[s] != SLASH {
            lemma_next_slash_zero_shift(x, e, s + 1);
        }
    }
}

proof fn lemma_segment_len(e: Seq<u8>)
    requires
        one_segment(e),
    ensures
        next_slash(e, 0) == e.len(),
{
    lemma_next_slash_at(e, 0, e.len() as int);
}

proof fn lemma_parts_step(p: Seq<Segment>, k: int, args: Seq<Option<ArgView>>, a: int)
    requires
        0 <= k < p.len(),
    ensures
        part_bytes(p, k, args, a) == match p[k] {
            Segment::Literal(l) => seq![encode_utf8(l@)] + part_bytes(p, k + 1, args, a),
            _ => match args[a] {
                Some(v) => seq![encode_utf8(arg_text(v))] + part_bytes(p, k + 1, args, a + 1),
                None => part_bytes(p, k + 1, args, a + 1),
            },
        },
{
    let f = |t: Seq<char>| encode_utf8(t);
    match p[k] {
        Segment::Literal(l) => {
            assert((seq![l@] + segment_parts(p, k + 1, args, a)).map_values(f) =~= seq![
                encode_utf8(l@),
            ] + part_bytes(p, k + 1, args, a));
        },
        _ => {
            match args[a] {
                Some(v) => {
                    assert((seq![arg_text(v)] + segment_parts(p, k + 1, args, a + 1)).map_values(f)
                        =~= seq![encode_utf8(arg_text(v))] + part_bytes(p, k + 1, args, a + 1));
                },
                None => {},
            }
        },
    }
}

proof fn lemma_first_part_nonempty(p: Seq<Segment>, k: int, args: Seq<Option<ArgView>>, a: int)
    requires
        pattern_ok(p),
        0 <= k,
        fits(p, k, args, a),
        part_bytes(p, k, args, a).len() > 0,
    ensures
        part_bytes(p, k, args, a)[0].len() > 0,
    decreases p.len() - k,
{
    if k < p.len() {
        lemma_parts_step(p, k, args, a);
        assert(segment_ok(p, k));
        match p[k] {
            Segment::Literal(_) => {},
            _ => {
                if args[a] is None {
                    lemma_first_part_nonempty(p, k + 1, args, a + 1);
                }
            },
        }
    } else {
        assert(part_bytes(p, k, args, a) =~= Seq::<Seq<u8>>::empty());
    }
}

proof fn lemma_cursor_text(x: Seq<u8>, r: Seq<Seq<u8>>)
    ensures
        ({
            let b = x + slashed(r, 0);
            let s = cursor(x, r);
            &&& s <= next_slash(b, s) <= b.len()
            &&& b.subrange(s, next_slash(b, s)) == cursor_text(r)
            &&& r.len() > 0 ==> next_slash(b, s) == s + next_slash(r[0], 0)
        }),
{
    let b = x + slashed(r, 0);
    let s = cursor(x, r);
    if r.len() > 0 {
        let rest = slashed(r, 1);
        let xs = x + seq![SLASH];
        assert(b =~= xs + (r[0] + rest));
        if r.len() > 1 {
            assert(rest[0] == SLASH);
        }
        crate::matcher::lemma_next_slash(r[0], 0);
        lemma_next_slash_in(r[0], rest, 0);
        lemma_next_slash_zero_shift(xs, r[0] + rest, 0);
        let n = next_slash(r[0], 0);
        assert(b.subrange(s, s + n) =~= r[0].subrange(0, n));
    } else {
        assert(b =~= x);
        assert(b.subrange(s, s) =~= Seq::<u8>::empty());
    }
}

/// The cursor before the texts `r`, after the bytes `x`.
spec fn cursor(x: Seq<u8>, r: Seq<Seq<u8>>) -> int {
    if r.len() > 0 {
        x.len() + 1 as int
    } else {
        x.len() as int
    }
}

proof fn lemma_walk_built(
    x: Seq<u8>,
    p: Seq<Segment>,
    k: int,
    args: Seq<Option<ArgView>>,
    a: int,
    acc: Seq<Option<ArgView>>,
)
    requires
        pattern_ok(p),
        0 <= k <= p.len(),
        0 <= a <= args.len(),
        fits(p, k, args, a),
    ensures
        ({
            let r = part_bytes(p, k, args, a);
            let b = x + slashed(r, 0);
            let s = cursor(x, r);
            &&& walk(b, p, k, s, next_slash(b, s), x.len() as int, acc) is Some
            &&& walk(b, p, k, s, next_slash(b, s), x.len() as int, acc)->Some_0.0 == acc + args.subrange(a, args.len() as int)
            &&& walk(b, p, k, s, next_slash(b, s), x.len() as int, acc)->Some_0.2 == b.len()
        }),
    decreases p.len() - k, 1int,
{
    let r = part_bytes(p, k, args, a);
    let b = x + slashed(r, 0);
    let s = cursor(x, r);
    let e = next_slash(b, s);
    if k == p.len() {
        assert(r =~= Seq::<Seq<u8>>::empty());
        assert(b =~= x);
        assert(args.subrange(a, args.len() as int) =~= Seq::<Option<ArgView>>::empty());
        assert(acc + args.subrange(a, args.len() as int) =~= acc);
    } else {
        lemma_parts_step(p, k, args, a);
        assert(segment_ok(p, k));
        lemma_cursor_text(x, r);
        if r.len() > 0 {
            lemma_first_part_nonempty(p, k, args, a);
        }
        let text = b.subrange(s, e);
        match p[k] {
            Segment::Literal(l) => {
                lemma_segment_len(r[0]);
                assert(r[0].subrange(0, r[0].len() as int) =~= r[0]);
                assert(text == r[0]);
                assert(r.drop_first() =~= part_bytes(p, k + 1, args, a));
                lemma_step_segment(x, p, k, args, a, a, acc);
            },
            Segment::Arg(ty) => {
                let v = args[a]->Some_0;
                lemma_segment_len(r[0]);
                assert(r[0].subrange(0, r[0].len() as int) =~= r[0]);
                assert(text == r[0]);
                lemma_arg_round_trip(ty, v);
                assert(r.drop_first() =~= part_bytes(p, k + 1, args, a + 1));
                lemma_step_segment(x, p, k, args, a, a + 1, acc.push(Some(v)));
                assert(acc.push(Some(v)) + args.subrange(a + 1, args.len() as int) =~= acc + args.subrange(a, args.len() as int));
            },
            Segment::OptArg(ty) => {
                match args[a] {
                    Some(v) => {
                        lemma_segment_len(r[0]);
                        assert(r[0].subrange(0, r[0].len() as int) =~= r[0]);
                        assert(text == r[0]);
                        lemma_arg_round_trip(ty, v);
                        assert(r.drop_first() =~= part_bytes(p, k + 1, args, a + 1));
                        lemma_step_segment(x, p, k, args, a, a + 1, acc.push(Some(v)));
                        assert(acc.push(Some(v)) + args.subrange(a + 1, args.len() as int) =~= acc + args.subrange(a, args.len() as int));
                    },
                    None => {
                        assert(text == cursor_text(r));
                        lemma_walk_built(x, p, k + 1, args, a + 1, acc.push(None));
                        assert(acc.push(None) + args.subrange(a + 1, args.len() as int) =~= acc + args.subrange(a, args.len() as int));
                    },
                }
            },
            Segment::CatchAll(ty) => {
                let v = args[a]->Some_0;
                assert(part_bytes(p, k + 1, args, a + 1) =~= Seq::<Seq<u8>>::empty());
                assert(r =~= seq![encode_utf8(arg_text(v))]);
                assert(slashed(r, 1) == Seq::<u8>::empty());
                assert(b =~= (x + seq![SLASH]) + r[0]);
                assert(b.subrange(s, b.len() as int) =~= r[0]);
                lemma_arg_round_trip(ty, v);
                assert(args.subrange(a, args.len() as int) =~= seq![Some(v)]);
            },
        }
    }
}

/// One single-segment step of `lemma_walk_built`: the segment `p[k]` is
/// matched by the first text, which is followed by `/` or the end.
proof fn lemma_step_segment(
    x: Seq<u8>,
    p: Seq<Segment>,
    k: int,
    args: Seq<Option<ArgView>>,
    a: int,
    a2: int,
    acc2: Seq<Option<ArgView>>,
)
    requires
        pattern_ok(p),
        0 <= k < p.len(),
        0 <= a2 <= args.len(),
        fits(p, k + 1, args, a2),
        part_bytes(p, k, args, a).len() > 0,
        part_bytes(p, k, args, a)[0].len() > 0,
        part_bytes(p, k, args, a).drop_first() == part_bytes(p, k + 1, args, a2),
    ensures
        ({
            let r = part_bytes(p, k, args, a);
            let b = x + slashed(r, 0);
            let s = cursor(x, r);
            let e = s + r[0].len();
            let r2 = part_bytes(p, k + 1, args, a2);
            let x2 = x + seq![SLASH] + r[0];
            &&& b == x2 + slashed(r2, 0)
            &&& advance(b, e) == cursor(x2, r2)
            &&& walk(b, p, k + 1, advance(b, e), next_slash(b, advance(b, e)), e, acc2) is Some
            &&& walk(b, p, k + 1, advance(b, e), next_slash(b, advance(b, e)), e, acc2)->Some_0.0 == acc2
                + args.subrange(a2, args.len() as int)
            &&& walk(b, p, k + 1, advance(b, e), next_slash(b, advance(b, e)), e, acc2)->Some_0.2 == b.len()
        }),
    decreases p.len() - k, 0int,
{
    let r = part_bytes(p, k, args, a);
    let r2 = part_bytes(p, k + 1, args, a2);
    let x2 = x + seq![SLASH] + r[0];
    lemma_slashed_drop(r, 0);
    let b = x + slashed(r, 0);
    assert(b =~= x2 + slashed(r2, 0));
    let e = (x.len() + 1 + r[0].len()) as int;
    if r2.len() > 0 {
        lemma_first_part_nonempty(p, k + 1, args, a2);
        assert(b[e] == SLASH);
        assert(b.len() > e + 1);
    } else {
        assert(slashed(r2, 0) == Seq::<u8>::empty());
        assert(b.len() == e);
    }
    lemma_walk_built(x2, p, k + 1, args, a2, acc2);
}

/// Route `i` of table `t`, which leads to a handler, matches the texts
/// built from arguments that fit its pattern (see `fits`), each after a
/// `/`, with exactly these arguments, when no earlier route of the table
/// claims them.
pub proof fn lemma_table_round_trip(r: Router, t: int, i: usize, args: Seq<Option<ArgView>>)
    requires
        r.wf(),
        0 <= t < r.tables@.len(),
        i < r.table(t).len(),
        r.table(t)[i as int].target is Handler,
        fits(r.table(t)[i as int].pattern@, 0, args, 0),
        segment_parts(r.table(t)[i as int].pattern@, 0, args, 0).len() > 0,
        forall|h: int|
            0 <= h < i ==> #[trigger] attempt(
                r.table(t)[h],
                slashed(part_bytes(r.table(t)[i as int].pattern@, 0, args, 0), 0),
                0,
            ) is Skip,
    ensures
        resolve_from(r, t, slashed(part_bytes(r.table(t)[i as int].pattern@, 0, args, 0), 0), 0, 0)
            == Some(
            Resolution { route: seq![i], handler: r.table(t)[i as int].target->Handler_0@, args },
        ),
{
    let route = r.table(t)[i as int];
    let p = route.pattern@;
    assert(crate::router::route_ok(route, t, r.tables@.len() as int));
    let rb = part_bytes(p, 0, args, 0);
    let b = slashed(rb, 0);
    let x = Seq::<u8>::empty();
    assert(x + slashed(rb, 0) =~= b);
    lemma_walk_built(x, p, 0, args, 0, seq![]);
    lemma_first_part_nonempty(p, 0, args, 0);
    lemma_slashed_drop(rb, 0);
    assert(b[0] == SLASH);
    assert(b.len() > 1);
    assert(args.subrange(0, args.len() as int) =~= args);
    assert(Seq::<Option<ArgView>>::empty() + args =~= args);
    assert(attempt(route, b, 0) == Attempt::Leaf(route.target->Handler_0@, args));
    lemma_skipped_routes(r, t, b, 0, i as int);
}

/// Building and matching are inverse. For route `i` of the root table,
/// leading to a handler, and arguments that fit its pattern (see `fits`),
/// the path built for them resolves, when no earlier route of the root
/// claims it, to route `i`, its handler and exactly these arguments.
pub proof fn lemma_round_trip(r: Router, i: usize, args: Seq<Option<ArgView>>)
    requires
        r.wf(),
        i < r.table(0).len(),
        r.table(0)[i as int].target is Handler,
        fits(r.table(0)[i as int].pattern@, 0, args, 0),
        segment_parts(r.table(0)[i as int].pattern@, 0, args, 0).len() > 0,
        forall|h: int|
            0 <= h < i ==> #[trigger] attempt(
                r.table(0)[h],
                encode_utf8(built_path(r, seq![i], args)),
                0,
            ) is Skip,
    ensures
        resolve_path(r, encode_utf8(built_path(r, seq![i], args))) == Some(
            Resolution { route: seq![i], handler: r.table(0)[i as int].target->Handler_0@, args },
        ),
{
    let p = r.table(0)[i as int].pattern@;
    assert(chain_parts(r, 0, seq![i], 0, args) == segment_parts(p, 0, args, 0));
    lemma_join_bytes(segment_parts(p, 0, args, 0));
    lemma_table_round_trip(r, 0, i, args);
}

/// Building and matching are inverse through a sub-router too. For route
/// `i` of the root, the literal `l` leading to table `j`, route `k` of table
/// `j`, leading to a handler, and arguments that fit its pattern, the path
/// built for them resolves to both routes, the handler and exactly these
/// arguments, when no earlier route of the root claims the path and no
/// earlier route of table `j` claims its rest.
pub proof fn lemma_round_trip_sub(r: Router, i: usize, k: usize, args: Seq<Option<ArgView>>)
    requires
        r.wf(),
        i < r.table(0).len(),
        r.table(0)[i as int].pattern@.len() == 1,
        r.table(0)[i as int].pattern@[0] is Literal,
        r.table(0)[i as int].target is Sub,
        k < r.table(r.table(0)[i as int].target->Sub_0 as int).len(),
        r.table(r.table(0)[i as int].target->Sub_0 as int)[k as int].target is Handler,
        fits(r.table(r.table(0)[i as int].target->Sub_0 as int)[k as int].pattern@, 0, args, 0),
        segment_parts(r.table(r.table(0)[i as int].target->Sub_0 as int)[k as int].pattern@, 0, args, 0).len()
            > 0,
        forall|h: int|
            0 <= h < i ==> #[trigger] attempt(
                r.table(0)[h],
                encode_utf8(built_path(r, seq![i].push(k), args)),
                0,
            ) is Skip,
        forall|h: int|
            0 <= h < k ==> #[trigger] attempt(
                r.table(r.table(0)[i as int].target->Sub_0 as int)[h],
                slashed(
                    part_bytes(r.table(r.table(0)[i as int].target->Sub_0 as int)[k as int].pattern@, 0, args, 0),
                    0,
                ),
                0,
            ) is Skip,
    ensures
        resolve_path(r, encode_utf8(built_path(r, seq![i].push(k), args))) == Some(
            Resolution {
                route: seq![i, k],
                handler: r.table(r.table(0)[i as int].target->Sub_0 as int)[k as int].target->Handler_0@,
                args,
            },
        ),
{
    let ri = r.table(0)[i as int];
    let j = ri.target->Sub_0 as int;
    let l = ri.pattern@[0]->Literal_0;
    let pk = r.table(j)[k as int].pattern@;
    let chain = seq![i].push(k);
    assert(crate::router::route_ok(ri, 0, r.tables@.len() as int));
    assert(crate::router::segment_ok(ri.pattern@, 0));
    assert(segment_parts(ri.pattern@, 1, seq![], 0) == Seq::<Seq<char>>::empty());
    assert(segment_parts(ri.pattern@, 0, seq![], 0) =~= seq![l@]);
    assert(chain_parts(r, j, chain, 1, args) == segment_parts(pk, 0, args, 0));
    let tk = segment_parts(pk, 0, args, 0);
    assert(chain_parts(r, 0, chain, 0, args) == seq![l@] + tk);
    lemma_join_bytes(seq![l@] + tk);
    let ek = part_bytes(pk, 0, args, 0);
    let e = (seq![l@] + tk).map_values(|x: Seq<char>| encode_utf8(x));
    assert(e.drop_first() =~= ek);
    lemma_slashed_drop(e, 0);
    let q = slashed(ek, 0);
    let b = encode_utf8(built_path(r, chain, args));
    assert(b == seq![SLASH] + e[0] + slashed(e, 1));
    assert(e[0] == literal_bytes(l));
    assert(b =~= seq![SLASH] + literal_bytes(l) + q);
    lemma_first_part_nonempty(pk, 0, args, 0);
    lemma_slashed_drop(ek, 0);
    assert(q[0] == SLASH);
    assert(q.len() >= 2);
    crate::laws::lemma_sub_router_rewind(r, i as int, q);
    lemma_table_round_trip(r, j, k, args);
    assert(seq![i] + seq![k] =~= seq![i, k]);
}

proof fn lemma_slashed_from(a: Seq<Seq<u8>>, b: Seq<Seq<u8>>, i: int)
    requires
        0 <= i <= b.len(),
    ensures
        slashed(a + b, a.len() + i) == slashed(b, i),
    decreases b.len() - i,
{
    if i < b.len() {
        assert((a + b)[a.len() + i] == b[i]);
        lemma_slashed_from(a, b, i + 1);
    }
}

proof fn lemma_slashed_concat(a: Seq<Seq<u8>>, b: Seq<Seq<u8>>, j: int)
    requires
        0 <= j <= a.len(),
    ensures
        slashed(a + b, j) == slashed(a, j) + slashed(b, 0),
    decreases a.len() - j,
{
    if j < a.len() {
        assert((a + b)[j] == a[j]);
        lemma_slashed_concat(a, b, j + 1);
        assert(slashed(a + b, j) =~= slashed(a, j) + slashed(b, 0));
    } else {
        lemma_slashed_from(a, b, 0);
        assert(slashed(a, j) == Seq::<u8>::empty());
        assert(slashed(a + b, j) =~= slashed(a, j) + slashed(b, 0));
    }
}

/// A literal-only prefix followed by a rest that starts with `/` is walked
/// through, and leaves the cursor just past that `/`.
proof fn lemma_walk_prefix(x: Seq<u8>, p: Seq<Segment>, k: int, q: Seq<u8>, acc: Seq<Option<ArgView>>)
    requires
        pattern_ok(p),
        literal_only(p),
        0 <= k <= p.len(),
        q.len() >= 2,
        q[0] == SLASH,
    ensures
        ({
            let b = x + slashed(part_bytes(p, k, seq![], 0), 0) + q;
            let s = x.len() + 1int;
            walk(b, p, k, s, next_slash(b, s), x.len() as int, acc) == Some(
                (acc, b.len() - q.len() + 1, b.len() - q.len()),
            )
        }),
    decreases p.len() - k,
{
    let l = part_bytes(p, k, seq![], 0);
    let b = x + slashed(l, 0) + q;
    let s = x.len() + 1int;
    if k == p.len() {
        assert(l =~= Seq::<Seq<u8>>::empty());
        assert(b =~= x + q);
    } else {
        lemma_parts_step(p, k, seq![], 0);
        assert(p[k] is Literal);
        assert(segment_ok(p, k));
        let lit = encode_utf8(p[k]->Literal_0@);
        let l2 = part_bytes(p, k + 1, seq![], 0);
        assert(l == seq![lit] + l2);
        assert(l.drop_first() =~= l2);
        lemma_slashed_drop(l, 0);
        let rest = slashed(l2, 0) + q;
        let xs = x + seq![SLASH];
        assert(b =~= xs + (lit + rest));
        if l2.len() > 0 {
            assert(rest[0] == SLASH);
        } else {
            assert(rest =~= q);
        }
        lemma_next_slash_in(lit, rest, 0);
        lemma_next_slash_zero_shift(xs, lit + rest, 0);
        lemma_segment_len(lit);
        let e = s + lit.len() as int;
        assert(next_slash(b, s) == e);
        assert(b.subrange(s, e) =~= lit);
        assert(advance(b, e) == e + 1);
        let x2 = x + seq![SLASH] + lit;
        assert(b =~= x2 + slashed(l2, 0) + q);
        lemma_walk_prefix(x2, p, k + 1, q, acc);
    }
}

/// The bytes of the texts that the chain `route[n..]` contributes.
pub open spec fn chain_bytes(
    r: Router,
    t: int,
    route: Seq<usize>,
    n: int,
    args: Seq<Option<ArgView>>,
) -> Seq<Seq<u8>> {
    chain_parts(r, t, route, n, args).map_values(|x: Seq<char>| encode_utf8(x))
}

/// No route declared before one of the chain `route[n..]`, in the table
/// where that one stands, claims what is left of the path there.
pub open spec fn unclaimed(
    r: Router,
    t: int,
    route: Seq<usize>,
    n: int,
    args: Seq<Option<ArgView>>,
) -> bool
    decreases route.len() - n,
{
    &&& 0 <= n < route.len()
    &&& forall|h: int|
        0 <= h < route[n] ==> #[trigger] attempt(
            r.table(t)[h],
            slashed(chain_bytes(r, t, route, n, args), 0),
            0,
        ) is Skip
    &&& match chain_route(r, t, route, n).target {
        Target::Sub(j) => unclaimed(r, j as int, route, n + 1, args),
        Target::Handler(_) => true,
    }
}

proof fn lemma_chain_round_trip(r: Router, t: int, route: Seq<usize>, n: int, args: Seq<Option<ArgView>>)
    requires
        r.wf(),
        0 <= n,
        leads_to_handler(r, t, route, n),
        fits(leaf_route(r, t, route, n).pattern@, 0, args, 0),
        segment_parts(leaf_route(r, t, route, n).pattern@, 0, args, 0).len() > 0,
        unclaimed(r, t, route, n, args),
    ensures
        slashed(chain_bytes(r, t, route, n, args), 0).len() >= 2,
        slashed(chain_bytes(r, t, route, n, args), 0)[0] == SLASH,
        resolve_from(r, t, slashed(chain_bytes(r, t, route, n, args), 0), 0, 0) == Some(
            Resolution {
                route: route.subrange(n, route.len() as int),
                handler: leaf_route(r, t, route, n).target->Handler_0@,
                args,
            },
        ),
    decreases route.len() - n,
{
    let rt = chain_route(r, t, route, n);
    let i = route[n];
    assert(route_ok(rt, t, r.tables@.len() as int));
    let cb = chain_bytes(r, t, route, n, args);
    match rt.target {
        Target::Handler(_) => {
            assert(chain_parts(r, t, route, n, args) == segment_parts(rt.pattern@, 0, args, 0));
            assert(leaf_route(r, t, route, n) == rt);
            assert(cb == part_bytes(rt.pattern@, 0, args, 0));
            lemma_table_round_trip(r, t, i, args);
            lemma_first_part_nonempty(rt.pattern@, 0, args, 0);
            lemma_slashed_drop(cb, 0);
            assert(route.subrange(n, route.len() as int) =~= seq![i]);
        },
        Target::Sub(j) => {
            let j = j as int;
            assert(leaf_route(r, t, route, n) == leaf_route(r, j, route, n + 1));
            lemma_chain_round_trip(r, j, route, n + 1, args);
            let lp = part_bytes(rt.pattern@, 0, seq![], 0);
            let rest = chain_bytes(r, j, route, n + 1, args);
            assert(chain_parts(r, t, route, n, args) == segment_parts(rt.pattern@, 0, seq![], 0)
                + chain_parts(r, j, route, n + 1, args));
            assert(cb =~= lp + rest);
            lemma_slashed_concat(lp, rest, 0);
            let pre = slashed(lp, 0);
            let q = slashed(rest, 0);
            let b = slashed(cb, 0);
            assert(b == pre + q);
            // the prefix is the route's literals, at least one
            lemma_parts_step(rt.pattern@, 0, seq![], 0);
            assert(rt.pattern@[0] is Literal);
            assert(lp.len() > 0);
            lemma_slashed_drop(lp, 0);
            assert(pre[0] == SLASH);
            assert(b[0] == SLASH);
            let x = Seq::<u8>::empty();
            assert(x + pre + q =~= b);
            lemma_walk_prefix(x, rt.pattern@, 0, q, seq![]);
            assert(attempt(rt, b, 0) == Attempt::Delegate(j, pre.len() as int));
            lemma_skipped_routes(r, t, b, 0, i as int);
            lemma_resolve_shift(r, j, pre, q, 0, 0);
            assert(pre.len() + 0 == pre.len());
            assert(seq![i] + route.subrange(n + 1, route.len() as int) =~= route.subrange(
                n,
                route.len() as int,
            ));
        },
    }
}

/// Building and matching are inverse for every handler, however deep its
/// sub-routers: for a route that leads from the root through sub-routers
/// to a handler, and arguments that fit the handler's pattern (see `fits`),
/// the path built for them resolves to that route, handler and exactly these
/// arguments, when at no step of the route an earlier route of the same
/// table claims what is left of the path.
pub proof fn lemma_round_trip_chain(r: Router, route: Seq<usize>, args: Seq<Option<ArgView>>)
    requires
        r.wf(),
        leads_to_handler(r, 0, route, 0),
        fits(leaf_route(r, 0, route, 0).pattern@, 0, args, 0),
        segment_parts(leaf_route(r, 0, route, 0).pattern@, 0, args, 0).len() > 0,
        unclaimed(r, 0, route, 0, args),
    ensures
        resolve_path(r, encode_utf8(built_path(r, route, args))) == Some(
            Resolution { route, handler: leaf_route(r, 0, route, 0).target->Handler_0@, args },
        ),
{
    lemma_join_bytes(chain_parts(r, 0, route, 0, args));
    lemma_chain_round_trip(r, 0, route, 0, args);
    assert(route.subrange(0, route.len() as int) =~= route);
}

} // verus!
