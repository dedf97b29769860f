//! The fan curve: an immutable, strictly ascending sequence of control
//! points, built once from an unordered batch and then queried for the
//! fan speed at a measured temperature.

use vstd::prelude::*;

use crate::point::{spec_le, Point};

verus! {

/// Why a batch of points does not make a curve.
#[derive(Clone, Copy, Debug, PartialEq, Eq, Structural)]
pub enum ConstructionError {
    /// Two points share a temperature but ask for different speeds, so the
    /// curve would not be a function of temperature.
    ConflictingTemperatures,
    /// Fewer than two distinct temperatures remain, so no segment exists
    /// to interpolate over.
    TooFewPoints,
}

/// The points are sorted by the curve order (temperature, then speed) and
/// hold no duplicate: each point occurs once.
pub open spec fn strictly_sorted(s: Seq<Point>) -> bool {
    forall|i: int, j: int|
        0 <= i < j < s.len() ==> spec_le(#[trigger] s[i], #[trigger] s[j]) && s[i] != s[j]
}

/// Temperatures strictly grow along the points: the curve is a function
/// of temperature with a well-defined segment between neighbours.
pub open spec fn strictly_increasing_temps(s: Seq<Point>) -> bool {
    forall|i: int, j: int| 0 <= i < j < s.len() ==> s[i].temperature < s[j].temperature
}

/// A usable curve: at least two points, with strictly growing temperatures.
pub open spec fn wf_curve(s: Seq<Point>) -> bool {
    s.len() >= 2 && strictly_increasing_temps(s)
}

/// Two points of the batch share a temperature but not a speed.
pub open spec fn has_temp_conflict(s: Seq<Point>) -> bool {
    exists|p: Point, q: Point|
        s.contains(p) && s.contains(q) && p.temperature == q.temperature && p.speed != q.speed
}

/// The batch spans at least two distinct temperatures.
pub open spec fn has_two_temps(s: Seq<Point>) -> bool {
    exists|p: Point, q: Point| s.contains(p) && s.contains(q) && p.temperature != q.temperature
}

/// A fan curve: control points in strictly ascending temperature order,
/// immutable once constructed.
#[derive(Debug)]
pub struct Curve {
    points: Vec<Point>,
}

impl View for Curve {
    type V = Seq<Point>;

    closed spec fn view(&self) -> Seq<Point> {
        self.points@
    }
}

/// The speed of the segment from `lo` to `hi` at temperature `t`: the
/// linear blend of the two speeds, truncated toward zero. For
/// `lo.temperature <= t <= hi.temperature` the numerator lies between `0`
/// and `255 * (hi.temperature - lo.temperature)`, so the quotient is a
/// valid speed and truncation toward zero is plain floor division.
pub open spec fn lerp(lo: Point, hi: Point, t: int) -> int {
    (lo.speed * (hi.temperature - t) + hi.speed * (t - lo.temperature)) / (hi.temperature
        - lo.temperature)
}

/// The speed the curve prescribes at temperature `t`: the speed of the
/// nearest end point when `t` lies at or beyond either end of the
/// calibrated range, and the truncated linear blend over the enclosing
/// segment otherwise.
pub open spec fn spec_evaluate(s: Seq<Point>, t: int) -> int
    decreases s.len(),
{
    if s.len() == 0 {
        0
    } else if t <= s[0].temperature {
        s[0].speed as int
    } else if s.len() == 1 {
        s[0].speed as int
    } else if t < s[1].temperature {
        lerp(s[0], s[1], t)
    } else {
        spec_evaluate(s.drop_first(), t)
    }
}

/// Interpolates on one segment with machine integers.
fn lerp_exec(lo: Point, hi: Point, t: i32) -> (r: u8)
    requires
        lo.temperature < hi.temperature,
        lo.temperature as int <= t as int,
        (t as int) < hi.temperature as int,
    ensures
        r as int == lerp(lo, hi, t as int),
{
    let below: u32 = (hi.temperature as i32 - t) as u32;
    let above: u32 = (t - lo.temperature as i32) as u32;
    let dt: u32 = hi.temperature as u32 - lo.temperature as u32;
    proof {
        assert(below + above == dt);
        assert(0 <= lo.speed as int * below as int <= 255 * below as int && 0 <= hi.speed as int
            * above as int <= 255 * above as int) by (nonlinear_arith)
            requires
                0 <= lo.speed as int <= 255,
                0 <= hi.speed as int <= 255,
                0 <= below as int <= 255,
                0 <= above as int <= 255,
        ;
    }
    let num: u32 = lo.speed as u32 * below + hi.speed as u32 * above;
    let q: u32 = num / dt;
    proof {
        assert(num as int <= 255 * dt as int);
        vstd::arithmetic::div_mod::lemma_div_is_ordered(num as int, 255 * dt as int, dt as int);
        vstd::arithmetic::div_mod::lemma_div_multiples_vanish(255, dt as int);
        assert(255 * dt as int == dt as int * 255);
        assert(q as int <= 255);
    }
    q as u8
}

/// Puts `p` into the sorted duplicate-free vector `out`, keeping it
/// sorted and duplicate-free; a `p` already present is left alone.
fn insert_dedup(out: &mut Vec<Point>, p: Point)
    requires
        strictly_sorted(old(out)@),
    ensures
        strictly_sorted(final (out)@),
        forall|q: Point| final (out)@.contains(q) <==> (old(out)@.contains(q) || q == p),
{
    let mut pos: usize = 0;
    while pos < out.len() && out[pos].le(&p)
        invariant
            pos <= out.len(),
            out@ == old(out)@,
            strictly_sorted(out@),
            forall|j: int| 0 <= j < pos ==> spec_le(out@[j], p) && out@[j] != p,
        decreases out.len() - pos,
    {
        if out[pos].temperature == p.temperature && out[pos].speed == p.speed {
            proof {
                assert(out@[pos as int] == p);
                assert(out@.contains(p));
            }
            return ;
        }
        pos += 1;
    }
    proof {
        out@.insert_ensures(pos as int, p);
    }
    out.insert(pos, p);
    proof {
        let new = out@;
        let prior = old(out)@;
        assert forall|q: Point| new.contains(q) implies (prior.contains(q) || q == p) by {
            let k = choose|k: int| 0 <= k < new.len() && new[k] == q;
            if k < pos {
                assert(prior[k] == q);
            } else if k > pos {
                assert(prior[k - 1] == q);
            }
        };
        assert forall|q: Point| prior.contains(q) implies new.contains(q) by {
            let k = choose|k: int| 0 <= k < prior.len() && prior[k] == q;
            if k < pos {
                assert(new[k] == q);
            } else {
                assert(new[k + 1] == q);
            }
        };
        assert(new[pos as int] == p);
        assert(new.contains(p));
        assert forall|a: int, b: int| 0 <= a < b < new.len() implies spec_le(
            #[trigger] new[a],
            #[trigger] new[b],
        ) && new[a] != new[b] by {
            if b < pos {
                assert(new[a] == prior[a]);
                assert(new[b] == prior[b]);
            } else if b == pos {
                assert(new[a] == prior[a]);
                assert(new[b] == p);
                assert(spec_le(prior[a], p) && prior[a] != p);
            } else if a < pos {
                assert(new[a] == prior[a]);
                assert(new[b] == prior[b - 1]);
                assert(pos <= b - 1 < prior.len());
                assert(!spec_le(prior[pos as int], p));
                if b - 1 > pos {
                    assert(spec_le(prior[pos as int], prior[b - 1]));
                    assert(prior[pos as int] != prior[b - 1]);
                }
                assert(spec_le(p, prior[b - 1]));
                assert(spec_le(prior[a], p) && prior[a] != p);
            } else if a == pos {
                assert(new[a] == p);
                assert(new[b] == prior[b - 1]);
                assert(pos <= b - 1 < prior.len());
                assert(!spec_le(prior[pos as int], p));
                if b - 1 > pos {
                    assert(spec_le(prior[pos as int], prior[b - 1]));
                    assert(prior[pos as int] != prior[b - 1]);
                }
            } else {
                assert(new[a] == prior[a - 1]);
                assert(new[b] == prior[b - 1]);
            }
        };
    }
}

impl Curve {
    /// Every curve that exists is usable: construction admits nothing else.
    #[verifier::type_invariant]
    closed spec fn inv(self) -> bool {
        wf_curve(self.points@)
    }

    /// The speed at temperature `t`: clamped to the nearest end point
    /// outside the calibrated range, the truncated linear blend of the two
    /// enclosing points inside it. Total: every temperature gets a speed.
    pub fn evaluate(&self, temperature: i32) -> (r: u8)
        ensures
            r as int == spec_evaluate(self@, temperature as int),
    {
        proof {
            use_type_invariant(&*self);
        }
        let n = self.points.len();
        if temperature <= self.points[0].temperature as i32 {
            return self.points[0].speed;
        }
        let mut i: usize = 0;
        proof {
            assert(self@.subrange(0, n as int) =~= self@);
        }
        while i + 1 < n
            invariant
                wf_curve(self@),
                n == self@.len(),
                i < n,
                temperature as int >= self@[i as int].temperature,
                spec_evaluate(self@, temperature as int) == spec_evaluate(
                    self@.subrange(i as int, n as int),
                    temperature as int,
                ),
            decreases n - i,
        {
            if temperature < self.points[i + 1].temperature as i32 {
                let r = lerp_exec(self.points[i], self.points[i + 1], temperature);
                proof {
                    let t = temperature as int;
                    let suf = self@.subrange(i as int, n as int);
                    assert(suf.len() == n - i >= 2);
                    assert(suf[0] == self@[i as int]);
                    assert(suf[1] == self@[i + 1]);
                    assert(t >= suf[0].temperature);
                    assert(t < suf[1].temperature);
                    assert(r as int == lerp(suf[0], suf[1], t));
                    if t > suf[0].temperature {
                        assert(spec_evaluate(suf, t) == lerp(suf[0], suf[1], t));
                    }
                    if t == suf[0].temperature {
                        let lo = self@[i as int];
                        let hi = self@[i + 1];
                        assert(lerp(lo, hi, t) == lo.speed) by {
                            let dt = hi.temperature - lo.temperature;
                            assert(lo.speed * (hi.temperature - t) + hi.speed * (t
                                - lo.temperature) == dt * lo.speed) by (nonlinear_arith)
                                requires
                                    t == lo.temperature,
                                    dt == hi.temperature - lo.temperature,
                            ;
                            vstd::arithmetic::div_mod::lemma_div_multiples_vanish(
                                lo.speed as int,
                                dt,
                            );
                        };
                    }
                }
                return r;
            }
            proof {
                let suf = self@.subrange(i as int, n as int);
                assert(suf.drop_first() =~= self@.subrange(i + 1, n as int));
                assert(suf[0] == self@[i as int]);
                assert(suf[1] == self@[i + 1]);
            }
            i += 1;
        }
        proof {
            let suf = self@.subrange(i as int, n as int);
            assert(suf.len() == 1);
            assert(suf[0] == self@[n - 1]);
        }
        self.points[n - 1].speed
    }

    /// Builds the curve from an unordered batch of points. The batch is
    /// sorted and exact duplicates are dropped; two points that share a
    /// temperature but not a speed are rejected, as is a batch that spans
    /// fewer than two distinct temperatures. The curve that comes back
    /// holds exactly the distinct points of the batch, in ascending
    /// temperature order.
    pub fn from_points(points: Vec<Point>) -> (r: Result<Curve, ConstructionError>)
        ensures
            match r {
                Ok(c) => {
                    &&& !has_temp_conflict(points@)
                    &&& has_two_temps(points@)
                    &&& wf_curve(c@)
                    &&& forall|q: Point| c@.contains(q) <==> points@.contains(q)
                },
                Err(ConstructionError::ConflictingTemperatures) => has_temp_conflict(points@),
                Err(ConstructionError::TooFewPoints) => !has_temp_conflict(points@)
                    && !has_two_temps(points@),
            },
    {
        let mut out: Vec<Point> = Vec::new();
        let mut idx: usize = 0;
        while idx < points.len()
            invariant
                idx <= points.len(),
                strictly_sorted(out@),
                forall|q: Point|
                    out@.contains(q) <==> points@.subrange(0, idx as int).contains(q),
            decreases points.len() - idx,
        {
            let p = points[idx];
            insert_dedup(&mut out, p);
            idx += 1;
            proof {
                let prefix = points@.subrange(0, idx as int);
                assert(prefix.drop_last() =~= points@.subrange(0, idx - 1));
                assert(prefix.last() == p);
                assert forall|q: Point|
                    prefix.contains(q) <==> (prefix.drop_last().contains(q) || q == p) by {
                    if prefix.contains(q) {
                        let k = choose|k: int| 0 <= k < prefix.len() && prefix[k] == q;
                        if k < prefix.len() - 1 {
                            assert(prefix.drop_last()[k] == q);
                        }
                    }
                    if prefix.drop_last().contains(q) {
                        let k = choose|k: int|
                            0 <= k < prefix.drop_last().len() && prefix.drop_last()[k] == q;
                        assert(prefix[k] == q);
                    }
                    if q == p {
                        assert(prefix[prefix.len() - 1] == q);
                    }
                };
            }
        }
        proof {
            assert(points@.subrange(0, points@.len() as int) =~= points@);
        }
        // `out` now holds exactly the distinct points of the batch, sorted.
        let mut i: usize = 0;
        while i + 1 < out.len()
            invariant
                out.len() >= 1 ==> i < out.len(),
                out.len() == 0 ==> i == 0,
                strictly_sorted(out@),
                forall|q: Point| out@.contains(q) <==> points@.contains(q),
                forall|j: int|
                    0 <= j < i ==> #[trigger] out@[j].temperature < out@[j + 1].temperature,
            decreases out.len() - i,
        {
            if out[i].temperature == out[i + 1].temperature {
                proof {
                    let a = out@[i as int];
                    let b = out@[i + 1];
                    assert(a != b);
                    assert(a.speed != b.speed);
                    assert(out@.contains(a));
                    assert(out@.contains(b));
                    assert(points@.contains(a));
                    assert(points@.contains(b));
                    assert(has_temp_conflict(points@));
                }
                return Err(ConstructionError::ConflictingTemperatures);
            }
            i += 1;
        }
        proof {
            assert forall|i2: int, j2: int| 0 <= i2 < j2 < out@.len() implies out@[i2].temperature
                < out@[j2].temperature by {
                lemma_adjacent_increasing_implies_increasing(out@, i2, j2);
            };
            assert(!has_temp_conflict(points@)) by {
                if has_temp_conflict(points@) {
                    let (p, q): (Point, Point) = choose|p: Point, q: Point|
                        points@.contains(p) && points@.contains(q) && p.temperature
                            == q.temperature && p.speed != q.speed;
                    assert(out@.contains(p));
                    assert(out@.contains(q));
                    let kp = choose|k: int| 0 <= k < out@.len() && out@[k] == p;
                    let kq = choose|k: int| 0 <= k < out@.len() && out@[k] == q;
                    assert(kp != kq);
                    assert(false);
                }
            };
        }
        if out.len() < 2 {
            proof {
                assert(!has_two_temps(points@)) by {
                    if has_two_temps(points@) {
                        let (p, q): (Point, Point) = choose|p: Point, q: Point|
                            points@.contains(p) && points@.contains(q) && p.temperature
                                != q.temperature;
                        assert(out@.contains(p));
                        assert(out@.contains(q));
                        let kp = choose|k: int| 0 <= k < out@.len() && out@[k] == p;
                        let kq = choose|k: int| 0 <= k < out@.len() && out@[k] == q;
                    }
                };
            }
            return Err(ConstructionError::TooFewPoints);
        }
        proof {
            assert(out@.contains(out@[0]));
            assert(out@.contains(out@[1]));
            assert(points@.contains(out@[0]));
            assert(points@.contains(out@[1]));
            assert(out@[0].temperature != out@[1].temperature);
            assert(has_two_temps(points@));
        }
        Ok(Curve { points: out })
    }
}

/// The speeds never drop as the temperature grows along the points.
pub open spec fn speeds_non_decreasing(s: Seq<Point>) -> bool {
    forall|i: int, j: int| 0 <= i < j < s.len() ==> #[trigger] s[i].speed <= #[trigger] s[j].speed
}

/// Dropping the first point keeps temperatures growing and speeds
/// non-dropping where they were.
proof fn lemma_drop_first_props(s: Seq<Point>)
    requires
        s.len() >= 1,
        strictly_increasing_temps(s),
    ensures
        strictly_increasing_temps(s.drop_first()),
        speeds_non_decreasing(s) ==> speeds_non_decreasing(s.drop_first()),
{
    let d = s.drop_first();
    assert forall|i: int, j: int| 0 <= i < j < d.len() implies d[i].temperature
        < d[j].temperature by {
        assert(d[i] == s[i + 1]);
        assert(d[j] == s[j + 1]);
    };
    if speeds_non_decreasing(s) {
        assert forall|i: int, j: int| 0 <= i < j < d.len() implies #[trigger] d[i].speed
            <= #[trigger] d[j].speed by {
            assert(d[i] == s[i + 1]);
            assert(d[j] == s[j + 1]);
        };
    }
}

/// On one segment with a non-dropping speed pair, the blended speed lies
/// between the two end speeds.
proof fn lemma_lerp_bounds(lo: Point, hi: Point, t: int)
    requires
        lo.temperature < hi.temperature,
        lo.temperature <= t <= hi.temperature,
        lo.speed <= hi.speed,
    ensures
        lo.speed <= lerp(lo, hi, t) <= hi.speed,
{
    let dt = hi.temperature - lo.temperature;
    let num = lo.speed * (hi.temperature - t) + hi.speed * (t - lo.temperature);
    assert(lo.speed * dt <= num <= hi.speed * dt) by (nonlinear_arith)
        requires
            0 <= lo.speed <= hi.speed,
            lo.temperature <= t <= hi.temperature,
            dt == hi.temperature - lo.temperature,
            num == lo.speed * (hi.temperature - t) + hi.speed * (t - lo.temperature),
    ;
    vstd::arithmetic::div_mod::lemma_div_is_ordered(lo.speed * dt, num, dt);
    vstd::arithmetic::div_mod::lemma_div_is_ordered(num, hi.speed * dt, dt);
    vstd::arithmetic::div_mod::lemma_div_multiples_vanish(lo.speed as int, dt);
    vstd::arithmetic::div_mod::lemma_div_multiples_vanish(hi.speed as int, dt);
    assert(lo.speed * dt == dt * lo.speed);
    assert(hi.speed * dt == dt * hi.speed);
}

/// On one segment with a non-dropping speed pair, the blended speed never
/// drops as the temperature grows.
proof fn lemma_lerp_monotone(lo: Point, hi: Point, t1: int, t2: int)
    requires
        lo.temperature < hi.temperature,
        lo.speed <= hi.speed,
        t1 <= t2,
    ensures
        lerp(lo, hi, t1) <= lerp(lo, hi, t2),
{
    let dt = hi.temperature - lo.temperature;
    let num1 = lo.speed * (hi.temperature - t1) + hi.speed * (t1 - lo.temperature);
    let num2 = lo.speed * (hi.temperature - t2) + hi.speed * (t2 - lo.temperature);
    assert(num1 <= num2) by (nonlinear_arith)
        requires
            lo.speed <= hi.speed,
            t1 <= t2,
            num1 == lo.speed * (hi.temperature - t1) + hi.speed * (t1 - lo.temperature),
            num2 == lo.speed * (hi.temperature - t2) + hi.speed * (t2 - lo.temperature),
    ;
    vstd::arithmetic::div_mod::lemma_div_is_ordered(num1, num2, dt);
}

/// Querying at or below every calibrated temperature yields the speed of
/// the first (lowest-temperature) point: no extrapolation below the range.
pub proof fn lemma_clamp_low(s: Seq<Point>, t: int)
    requires
        wf_curve(s),
        forall|k: int| 0 <= k < s.len() ==> t <= #[trigger] s[k].temperature,
    ensures
        spec_evaluate(s, t) == s[0].speed,
{
    assert(t <= s[0].temperature);
}

/// Querying at or above every calibrated temperature yields the speed of
/// the last (highest-temperature) point: no extrapolation above the range.
/// Stated for any non-empty strictly ascending point sequence.
pub proof fn lemma_clamp_high(s: Seq<Point>, t: int)
    requires
        strictly_increasing_temps(s),
        s.len() >= 1,
        t >= s[s.len() - 1].temperature,
    ensures
        spec_evaluate(s, t) == s[s.len() - 1].speed,
    decreases s.len(),
{
    if s.len() == 1 {
    } else {
        assert(s[0].temperature < s[s.len() - 1].temperature);
        assert(s[1].temperature <= s[s.len() - 1].temperature);
        lemma_drop_first_props(s);
        lemma_clamp_high(s.drop_first(), t);
        assert(s.drop_first()[s.len() - 2] == s[s.len() - 1]);
    }
}

/// Querying exactly at a calibrated point yields exactly that point's
/// speed.
pub proof fn lemma_exact_hit(s: Seq<Point>, i: int)
    requires
        strictly_increasing_temps(s),
        0 <= i < s.len(),
    ensures
        spec_evaluate(s, s[i].temperature as int) == s[i].speed,
    decreases i,
{
    let t = s[i].temperature as int;
    if i == 0 {
    } else {
        assert(s[0].temperature < s[i].temperature);
        assert(s[1].temperature <= s[i].temperature);
        lemma_drop_first_props(s);
        lemma_exact_hit(s.drop_first(), i - 1);
        assert(s.drop_first()[i - 1] == s[i]);
    }
}

/// Querying strictly between two neighbouring points yields exactly the
/// truncated linear blend over that segment.
pub proof fn lemma_linearity(s: Seq<Point>, i: int, t: int)
    requires
        strictly_increasing_temps(s),
        0 <= i,
        i + 1 < s.len(),
        s[i].temperature < t,
        t < s[i + 1].temperature,
    ensures
        spec_evaluate(s, t) == lerp(s[i], s[i + 1], t),
    decreases i,
{
    if i == 0 {
    } else {
        assert(s[0].temperature < t);
        assert(s[1].temperature <= s[i].temperature);
        lemma_drop_first_props(s);
        lemma_linearity(s.drop_first(), i - 1, t);
        assert(s.drop_first()[i - 1] == s[i]);
        assert(s.drop_first()[i] == s[i + 1]);
    }
}

/// The answer always lies between the first and the last point's speed
/// when the speeds never drop along the curve.
proof fn lemma_eval_bounds(s: Seq<Point>, t: int)
    requires
        strictly_increasing_temps(s),
        speeds_non_decreasing(s),
        s.len() >= 1,
    ensures
        s[0].speed <= spec_evaluate(s, t) <= s[s.len() - 1].speed,
    decreases s.len(),
{
    if s.len() >= 2 {
        assert(s[0].speed <= s[s.len() - 1].speed);
        if t <= s[0].temperature {
        } else if t < s[1].temperature {
            lemma_lerp_bounds(s[0], s[1], t);
            assert(s[1].speed <= s[s.len() - 1].speed);
        } else {
            lemma_drop_first_props(s);
            lemma_eval_bounds(s.drop_first(), t);
            assert(s.drop_first()[0] == s[1]);
            assert(s.drop_first()[s.len() - 2] == s[s.len() - 1]);
        }
    }
}

/// When the supplied speeds never drop with temperature, the curve's
/// answer never drops as the query temperature grows.
pub proof fn lemma_monotone(s: Seq<Point>, t1: int, t2: int)
    requires
        strictly_increasing_temps(s),
        speeds_non_decreasing(s),
        s.len() >= 1,
        t1 <= t2,
    ensures
        spec_evaluate(s, t1) <= spec_evaluate(s, t2),
    decreases s.len(),
{
    if t1 <= s[0].temperature {
        lemma_eval_bounds(s, t2);
    } else if s.len() == 1 {
    } else if t1 < s[1].temperature {
        if t2 < s[1].temperature {
            lemma_lerp_monotone(s[0], s[1], t1, t2);
        } else {
            lemma_lerp_bounds(s[0], s[1], t1);
            lemma_drop_first_props(s);
            lemma_eval_bounds(s.drop_first(), t2);
            assert(s.drop_first()[0] == s[1]);
        }
    } else {
        lemma_drop_first_props(s);
        lemma_monotone(s.drop_first(), t1, t2);
    }
}

/// In a sorted sequence, growth between every pair of neighbours gives
/// growth between any two positions.
proof fn lemma_adjacent_increasing_implies_increasing(s: Seq<Point>, i: int, j: int)
    requires
        forall|k: int| 0 <= k < s.len() - 1 ==> #[trigger] s[k].temperature < s[k + 1].temperature,
        0 <= i < j < s.len(),
    ensures
        s[i].temperature < s[j].temperature,
    decreases j - i,
{
    if i + 1 < j {
        lemma_adjacent_increasing_implies_increasing(s, i + 1, j);
    }
}

} // verus!
