//! The response model: path measures, the rating law and its proof, and the
//! rating of feeds.

use crate::feed::{Feed, Response, Responses};
use crate::graph::{is_path, is_shortest, Simulation, MAX_EDGES};
use crate::ids::SheepId;
use crate::rng::uniform_in;
use rand::rngs::StdRng;
use vstd::prelude::*;

verus! {

/// The measure of a path: the sum of its edge weights, then its number of
/// edges. Measures compare by weight first and by edge count on a tie.
#[derive(Copy, Clone, PartialEq, Eq, PartialOrd, Ord, Debug)]
pub struct PathMeasure(pub u32, pub u32);

impl PathMeasure {
    /// The measure of a single edge of the given weight
    pub fn new(weight: u32) -> (r: Self)
        ensures
            r.0 == weight,
            r.1 == 1,
    {
        PathMeasure(weight, 1)
    }
}

impl Default for PathMeasure {
    fn default() -> (r: Self)
        ensures
            r.0 == 0,
            r.1 == 0,
    {
        PathMeasure(0, 0)
    }
}

impl core::ops::Add for PathMeasure {
    type Output = Self;

    fn add(self, other: Self) -> (r: Self) {
        PathMeasure(self.0 + other.0, self.1 + other.1)
    }
}

impl vstd::std_specs::ops::AddSpecImpl for PathMeasure {
    open spec fn obeys_add_spec() -> bool {
        true
    }

    open spec fn add_req(self, other: Self) -> bool {
        self.0 + other.0 <= u32::MAX && self.1 + other.1 <= u32::MAX
    }

    open spec fn add_spec(self, other: Self) -> Self {
        PathMeasure((self.0 + other.0) as u32, (self.1 + other.1) as u32)
    }
}

/// `b` to the power `e`
pub open spec fn pow(b: nat, e: nat) -> nat
    decreases e,
{
    if e == 0 {
        1
    } else {
        b * pow(b, (e - 1) as nat)
    }
}

/// The probability of a positive rating at distance `d`, 2^-d, as a
/// numerator and a denominator
pub open spec fn p_positive(d: nat) -> (nat, nat) {
    (1, pow(2, d))
}

/// The probability of a rating that is not negative at distance `d`,
/// 9^d / 10^d, as a numerator and a denominator
pub open spec fn p_neutral(d: nat) -> (nat, nat) {
    (pow(9, d), pow(10, d))
}

/// Whether the fraction `a` is at most the fraction `b`
pub open spec fn at_most(a: (nat, nat), b: (nat, nat)) -> bool {
    a.0 * b.1 <= b.0 * a.1
}

proof fn lemma_pow_positive(b: nat, e: nat)
    requires
        b > 0,
    ensures
        pow(b, e) > 0,
    decreases e,
{
    if e > 0 {
        lemma_pow_positive(b, (e - 1) as nat);
        assert(b * pow(b, (e - 1) as nat) > 0) by (nonlinear_arith)
            requires
                b > 0,
                pow(b, (e - 1) as nat) > 0,
        ;
    }
}

proof fn lemma_pow_monotone(b: nat, d: nat, e: nat)
    requires
        b > 0,
        d <= e,
    ensures
        pow(b, d) <= pow(b, e),
    decreases e,
{
    if d < e {
        lemma_pow_monotone(b, d, (e - 1) as nat);
        lemma_pow_positive(b, (e - 1) as nat);
        assert(pow(b, (e - 1) as nat) <= b * pow(b, (e - 1) as nat)) by (nonlinear_arith)
            requires
                b > 0,
        ;
    }
}

proof fn lemma_pow_below(a: nat, b: nat, e: nat)
    requires
        a <= b,
    ensures
        pow(a, e) <= pow(b, e),
    decreases e,
{
    if e > 0 {
        lemma_pow_below(a, b, (e - 1) as nat);
        let x = pow(a, (e - 1) as nat);
        let y = pow(b, (e - 1) as nat);
        assert(a * x <= b * y) by (nonlinear_arith)
            requires
                a <= b,
                x <= y,
        ;
    }
}

proof fn lemma_pow_mul(a: nat, b: nat, c: nat, e: nat)
    requires
        c == a * b,
    ensures
        pow(a, e) * pow(b, e) == pow(c, e),
    decreases e,
{
    if e > 0 {
        lemma_pow_mul(a, b, c, (e - 1) as nat);
        let x = pow(a, (e - 1) as nat);
        let y = pow(b, (e - 1) as nat);
        assert((a * x) * (b * y) == (a * b) * (x * y)) by (nonlinear_arith);
        assert(pow(a, e) == a * x);
        assert(pow(b, e) == b * y);
        assert(pow(c, e) == c * pow(c, (e - 1) as nat));
        assert(pow(c, (e - 1) as nat) == x * y);
        assert(c * (x * y) == (a * b) * (x * y));
        assert(pow(a, e) * pow(b, e) == (a * x) * (b * y));
    } else {
        assert(pow(a, 0) == 1 && pow(b, 0) == 1 && pow(c, 0) == 1);
    }
}

/// The chance of a positive rating never grows with distance, and never
/// exceeds the chance of a rating that is not negative
pub proof fn lemma_response_thresholds(d: nat, e: nat)
    requires
        d <= e,
    ensures
        at_most(p_positive(e), p_positive(d)),
        at_most(p_positive(d), p_neutral(d)),
{
    lemma_pow_monotone(2, d, e);
    lemma_pow_mul(9, 2, 18, d);
    lemma_pow_below(10, 18, d);
}

/// The response at distance `d` to the digits drawn for it, of which the
/// first `d` count. A uniform draw `c` in [0, 1) is rated positive when
/// `c <= 2^-d`, neutral when otherwise `c <= (9/10)^d`, and negative
/// otherwise; the same law comes from `d` uniform decimal digits: the
/// rating is not negative when no digit is 9, with probability (9/10)^d, and
/// within that it is positive when every digit is at most 4, with
/// probability (5/9)^d, so 2^-d in all. Low digits play the part of a low
/// `c`: the lowest draw, all zeros, is positive.
pub open spec fn rating(d: nat, digits: Seq<u8>) -> Response {
    if exists|i: int| 0 <= i < d && digits[i] == 9 {
        Response::Negative
    } else if forall|i: int| 0 <= i < d ==> digits[i] <= 4 {
        Response::Positive
    } else {
        Response::Neutral
    }
}

/// The strings of `d` digits that all lie in `lo..=hi`
pub open spec fn digit_strings(d: nat, lo: u8, hi: u8) -> Set<Seq<u8>> {
    Set::new(|s: Seq<u8>| s.len() == d && forall|i: int| 0 <= i < d ==> lo <= #[trigger] s[i] <= hi)
}

/// The strings of `d + 1` digits in `lo..=hi` whose last digit is below `c`
spec fn ending_below(d: nat, lo: u8, hi: u8, c: int) -> Set<Seq<u8>> {
    Set::new(|s: Seq<u8>| digit_strings(d + 1, lo, hi).contains(s) && s.last() < c)
}

proof fn lemma_ending_below_len(d: nat, lo: u8, hi: u8, c: int)
    requires
        lo <= hi,
        lo <= c <= hi + 1,
        digit_strings(d, lo, hi).finite(),
    ensures
        ending_below(d, lo, hi, c).finite(),
        ending_below(d, lo, hi, c).len() == (c - lo) * digit_strings(d, lo, hi).len(),
    decreases c - lo,
{
    let prev = digit_strings(d, lo, hi);
    if c == lo {
        assert(ending_below(d, lo, hi, c) =~= Set::<Seq<u8>>::empty());
    } else {
        lemma_ending_below_len(d, lo, hi, c - 1);
        let digit = (c - 1) as u8;
        let f = |s: Seq<u8>| s.push(digit);
        let t = prev.map(f);
        assert(vstd::relations::injective_on(f, prev)) by {
            assert forall|x1: Seq<u8>, x2: Seq<u8>| prev.contains(x1) && prev.contains(x2) && #[trigger] f(x1) == #[trigger] f(x2) implies x1 == x2 by {
                assert(x1 =~= f(x1).drop_last());
                assert(x2 =~= f(x2).drop_last());
            }
        }
        vstd::set_lib::lemma_map_size(prev, t, f);
        let below = ending_below(d, lo, hi, c - 1);
        assert(ending_below(d, lo, hi, c) =~= below + t) by {
            assert forall|s: Seq<u8>| #[trigger] ending_below(d, lo, hi, c).contains(s) implies (below + t).contains(s) by {
                if s.last() == digit {
                    let s0 = s.drop_last();
                    assert(s =~= s0.push(digit));
                    assert(prev.contains(s0));
                }
            }
            assert forall|s: Seq<u8>| #[trigger] t.contains(s) implies ending_below(d, lo, hi, c).contains(s) by {
                let s0 = choose|s0: Seq<u8>| prev.contains(s0) && s == f(s0);
                assert(s == s0.push(digit));
                assert forall|i: int| 0 <= i < d + 1 implies lo <= #[trigger] s[i] <= hi by {
                    if i < d {
                        assert(s[i] == s0[i]);
                    }
                }
            }
        }
        assert(below.disjoint(t)) by {
            assert forall|s: Seq<u8>| below.contains(s) implies !t.contains(s) by {
                if t.contains(s) {
                    let s0 = choose|s0: Seq<u8>| prev.contains(s0) && s == f(s0);
                    assert(s.last() == digit);
                }
            }
        }
        vstd::set_lib::lemma_set_disjoint_lens(below, t);
        assert((c - 1 - lo) * prev.len() + prev.len() == (c - lo) * prev.len()) by (nonlinear_arith);
    }
}

/// There are `(hi - lo + 1)^d` strings of `d` digits in `lo..=hi`
proof fn lemma_digit_strings_len(d: nat, lo: u8, hi: u8)
    requires
        lo <= hi,
    ensures
        digit_strings(d, lo, hi).finite(),
        digit_strings(d, lo, hi).len() == pow((hi - lo + 1) as nat, d),
    decreases d,
{
    if d == 0 {
        assert(digit_strings(0, lo, hi) =~= set![Seq::<u8>::empty()]) by {
            assert forall|s: Seq<u8>| #[trigger] digit_strings(0, lo, hi).contains(s) implies s == Seq::<u8>::empty() by {
                assert(s =~= Seq::<u8>::empty());
            }
        }
        assert(set![Seq::<u8>::empty()].len() == 1);
    } else {
        let e = (d - 1) as nat;
        lemma_digit_strings_len(e, lo, hi);
        lemma_ending_below_len(e, lo, hi, hi + 1);
        assert(ending_below(e, lo, hi, hi + 1) =~= digit_strings(d, lo, hi));
    }
}

/// Out of the `10^d` equally likely strings of `d` digits drawn for an item at
/// distance `d`, exactly `5^d` give a positive rating and exactly `9^d` a
/// rating that is not negative: the chances are 2^-d for positive,
/// (9/10)^d - 2^-d for neutral and 1 - (9/10)^d for negative
pub proof fn lemma_response_counts(d: nat)
    ensures
        digit_strings(d, 0, 9).len() == pow(10, d),
        digit_strings(d, 0, 9).filter(|s: Seq<u8>| rating(d, s) == Response::Positive).len() == pow(5, d),
        digit_strings(d, 0, 9).filter(|s: Seq<u8>| rating(d, s) != Response::Negative).len() == pow(9, d),
{
    lemma_digit_strings_len(d, 0, 9);
    lemma_digit_strings_len(d, 0, 4);
    lemma_digit_strings_len(d, 0, 8);
    let all = digit_strings(d, 0, 9);
    assert(all.filter(|s: Seq<u8>| rating(d, s) == Response::Positive) =~= digit_strings(d, 0, 4)) by {
        assert forall|s: Seq<u8>| #[trigger] digit_strings(d, 0, 4).contains(s) implies rating(d, s) == Response::Positive by {
            assert(!exists|i: int| 0 <= i < d && s[i] == 9);
        }
    }
    assert(all.filter(|s: Seq<u8>| rating(d, s) != Response::Negative) =~= digit_strings(d, 0, 8)) by {
        assert forall|s: Seq<u8>| #[trigger] digit_strings(d, 0, 8).contains(s) implies rating(d, s) != Response::Negative by {
            assert(!exists|i: int| 0 <= i < d && s[i] == 9);
        }
    }
}

/// Rates an item at distance `distance` from the decimal digits drawn for it
pub fn rate(distance: u32, digits: &Vec<u8>) -> (r: Response)
    requires
        digits@.len() >= distance,
    ensures
        r == rating(distance as nat, digits@),
{
    let mut high = false;
    for i in 0..distance as usize
        invariant
            distance <= digits@.len(),
            forall|j: int| 0 <= j < i ==> digits@[j] != 9,
            high <==> exists|j: int| 0 <= j < i && digits@[j] > 4,
    {
        if digits[i] == 9 {
            return Response::Negative;
        }
        if digits[i] > 4 {
            high = true;
        }
    }
    if high {
        Response::Neutral
    } else {
        Response::Positive
    }
}

/// Draws `n` uniform decimal digits
fn draw_digits(rng: &mut StdRng, n: u32) -> (r: Vec<u8>)
    ensures
        r@.len() == n,
        forall|i: int| 0 <= i < n ==> #[trigger] r@[i] <= 9,
{
    let mut r: Vec<u8> = Vec::new();
    for i in 0..n
        invariant
            r@.len() == i,
            forall|j: int| 0 <= j < i ==> #[trigger] r@[j] <= 9,
    {
        let d = uniform_in(rng, 0, 9) as u8;
        r.push(d);
    }
    r
}

/// Whether `rated`, `response` and `hops` make a sheep's response to `item`
/// in `graph`: negative with no hop count when no walk leads there, and
/// otherwise carrying the number of edges of a least walk, with the rating of
/// a string of digits at the weight of that walk
pub open spec fn responds(
    graph: &Simulation,
    sheep: usize,
    item: usize,
    rated: usize,
    response: Response,
    hops: Option<u32>,
) -> bool {
    &&& rated == item
    &&& match hops {
        None => response == Response::Negative && forall|p: Seq<int>| !is_path(graph.edges(), p, sheep, item),
        Some(h) => rated_at_distance(graph.edges(), sheep, item, h as int, response),
    }
}

/// Whether `h` is the edge count of a least walk from `sheep` to `item`,
/// and the response the rating, at the weight of that walk, of some string
/// of decimal digits
pub open spec fn rated_at_distance(edges: Seq<(usize, usize, u32)>, sheep: usize, item: usize, h: int, response: Response) -> bool {
    exists|d: nat, digits: Seq<u8>|
        #[trigger] is_shortest(edges, sheep, item, d as int, h) && #[trigger] digit_strings(d, 0, 9).contains(digits)
            && response == rating(d, digits)
}

/// Rates each item of a feed by its distance from the sheep in the graph
pub fn process_feed(rng: &mut StdRng, graph: &Simulation, sheep: SheepId, feed: Feed) -> (r: Responses)
    requires
        graph.wf(),
        sheep.0 < graph.nodes().len(),
        graph.edges().len() <= MAX_EDGES,
    ensures
        r.0@.len() == feed.0@.len(),
        forall|i: int|
            0 <= i < feed.0@.len() ==> responds(
                graph,
                sheep.0,
                feed.0@[i].0,
                #[trigger] r.0@[i].0 .0,
                r.0@[i].1,
                r.0@[i].2,
            ),
{
    let mut responses: Vec<(crate::ids::ItemId, Response, Option<u32>)> = Vec::new();
    for i in 0..feed.0.len()
        invariant
            graph.wf(),
            sheep.0 < graph.nodes().len(),
            graph.edges().len() <= MAX_EDGES,
            responses@.len() == i,
            forall|j: int|
                0 <= j < i ==> responds(
                    graph,
                    sheep.0,
                    feed.0@[j].0,
                    #[trigger] responses@[j].0 .0,
                    responses@[j].1,
                    responses@[j].2,
                ),
    {
        let item = feed.0[i];
        let entry = match graph.shortest_path(sheep.0, item.0) {
            None => {
                let entry = (item, Response::Negative, None);
                assert(responds(graph, sheep.0, item.0, entry.0.0, entry.1, entry.2));
                entry
            },
            Some(m) => {
                let digits = draw_digits(rng, m.0);
                let response = rate(m.0, &digits);
                proof {
                    let d = m.0 as nat;
                    assert(is_shortest(graph.edges(), sheep.0, item.0, d as int, m.1 as int));
                    assert(digit_strings(d, 0, 9).contains(digits@));
                }
                let entry = (item, response, Some(m.1));
                assert(rated_at_distance(graph.edges(), sheep.0, item.0, m.1 as int, response));
                assert(responds(graph, sheep.0, item.0, entry.0.0, entry.1, entry.2));
                entry
            },
        };
        let ghost prev = responses@;
        responses.push(entry);
        assert(responses@ == prev.push(entry));
    }
    Responses(responses)
}

} // verus!
