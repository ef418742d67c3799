//! One lane of the grid: the four cells a tile slides along, listed from the
//! edge the tiles slide toward inward.
use vstd::prelude::*;

verus! {

/// The non-zero values of `s`, in their order.
pub open spec fn nonzeros(s: Seq<u64>) -> Seq<u64>
    decreases s.len(),
{
    if s.len() == 0 {
        Seq::empty()
    } else {
        let r = nonzeros(s.drop_last());
        if s.last() == 0 {
            r
        } else {
            r.push(s.last())
        }
    }
}

/// Compaction: the non-zero values slid to the front, zeros behind them.
pub open spec fn compacted(s: Seq<u64>) -> Seq<u64> {
    let n = nonzeros(s);
    n + Seq::new((s.len() - n.len()) as nat, |i: int| 0u64)
}

/// The single, non-cascading merge pass over a compacted lane, with the
/// score it earns. The first rule that matches fires.
pub open spec fn merged(l: Seq<u64>) -> (Seq<u64>, int) {
    let (t0, t1, t2, t3) = (l[0], l[1], l[2], l[3]);
    if t0 == t1 && t2 == t3 {
        (seq![(2 * t0) as u64, (2 * t2) as u64, 0, 0], 2 * t0 + 2 * t2)
    } else if t0 == t1 {
        (seq![(2 * t0) as u64, t2, t3, 0], 2 * t0)
    } else if t1 == t2 {
        (seq![t0, (2 * t1) as u64, t3, 0], 2 * t1)
    } else if t2 == t3 && t3 != 0 {
        (seq![t0, t1, (2 * t2) as u64, 0], 2 * t2)
    } else {
        (l, 0)
    }
}

/// What a move makes of a lane: compaction, then the merge pass.
pub open spec fn lane_outcome(l: Seq<u64>) -> (Seq<u64>, int) {
    merged(compacted(l))
}

/// The sum of the four cells of a lane.
pub open spec fn lane_sum(l: Seq<u64>) -> int {
    l[0] + l[1] + l[2] + l[3]
}

proof fn lemma_nonzeros_push(s: Seq<u64>, x: u64)
    ensures
        nonzeros(s.push(x)) == (if x == 0 {
            nonzeros(s)
        } else {
            nonzeros(s).push(x)
        }),
{
    assert(s.push(x).drop_last() =~= s);
}

spec fn push_nonzero(s: Seq<u64>, x: u64) -> Seq<u64> {
    if x == 0 {
        s
    } else {
        s.push(x)
    }
}

proof fn lemma_nonzeros4(a: u64, b: u64, c: u64, d: u64)
    ensures
        nonzeros(seq![a, b, c, d]) == push_nonzero(
            push_nonzero(push_nonzero(push_nonzero(Seq::empty(), a), b), c),
            d,
        ),
{
    let e = Seq::<u64>::empty();
    assert(nonzeros(e) =~= e);
    lemma_nonzeros_push(e, a);
    lemma_nonzeros_push(e.push(a), b);
    lemma_nonzeros_push(e.push(a).push(b), c);
    lemma_nonzeros_push(e.push(a).push(b).push(c), d);
    assert(seq![a, b, c, d] == e.push(a).push(b).push(c).push(d));
}

/// Shifting a lane past an empty front cell keeps its non-zero values.
proof fn lemma_shift_keeps_nonzeros(a: u64, b: u64, c: u64, d: u64)
    requires
        a == 0,
    ensures
        nonzeros(seq![a, b, c, d]) == nonzeros(seq![b, c, d, 0]),
{
    lemma_nonzeros4(a, b, c, d);
    lemma_nonzeros4(b, c, d, 0);
}

/// A lane with no gap before a tile is its own compaction.
proof fn lemma_compact_form(a: u64, b: u64, c: u64, d: u64)
    requires
        a == 0 ==> b == 0,
        b == 0 ==> c == 0,
        c == 0 ==> d == 0,
    ensures
        compacted(seq![a, b, c, d]) == seq![a, b, c, d],
{
    lemma_nonzeros4(a, b, c, d);
    assert(compacted(seq![a, b, c, d]) =~= seq![a, b, c, d]);
}

/// Compaction of one lane: the zeros are bubbled away from the edge.
fn compact(lane: [u64; 4]) -> (r: [u64; 4])
    ensures
        r@ == compacted(lane@),
        lane_sum(r@) == lane_sum(lane@),
{
    let (mut t0, mut t1, mut t2, mut t3) = (lane[0], lane[1], lane[2], lane[3]);
    assert(lane@ =~= seq![t0, t1, t2, t3]);
    let ghost orig = nonzeros(lane@);
    let mut pass: usize = 0;
    while pass < 3
        invariant
            nonzeros(seq![t0, t1, t2, t3]) == orig,
            t0 as int + t1 + t2 + t3 == lane_sum(lane@),
            pass <= 3,
            pass >= 1 && t0 == 0 ==> t3 == 0,
            pass >= 2 && t0 == 0 ==> t2 == 0,
            pass >= 3 && t0 == 0 ==> t1 == 0,
        decreases 3 - pass,
    {
        if t0 == 0 {
            proof {
                lemma_shift_keeps_nonzeros(t0, t1, t2, t3);
            }
            t0 = t1;
            t1 = t2;
            t2 = t3;
            t3 = 0;
        }
        pass = pass + 1;
    }
    let mut pass: usize = 0;
    while pass < 2
        invariant
            nonzeros(seq![t0, t1, t2, t3]) == orig,
            t0 as int + t1 + t2 + t3 == lane_sum(lane@),
            t0 == 0 ==> t1 == 0 && t2 == 0 && t3 == 0,
            pass <= 2,
            pass >= 1 && t1 == 0 ==> t3 == 0,
            pass >= 2 && t1 == 0 ==> t2 == 0,
        decreases 2 - pass,
    {
        if t1 == 0 {
            proof {
                lemma_shift_keeps_nonzeros(t1, t2, t3, 0);
                lemma_nonzeros4(t0, t1, t2, t3);
                lemma_nonzeros4(t0, t2, t3, 0);
                lemma_nonzeros4(t1, t2, t3, 0);
            }
            t1 = t2;
            t2 = t3;
            t3 = 0;
        }
        pass = pass + 1;
    }
    if t2 == 0 {
        proof {
            lemma_nonzeros4(t0, t1, t2, t3);
            lemma_nonzeros4(t0, t1, t3, 0);
        }
        t2 = t3;
        t3 = 0;
    }
    proof {
        lemma_compact_form(t0, t1, t2, t3);
        lemma_nonzeros4(t0, t1, t2, t3);
        assert(compacted(lane@) =~= compacted(seq![t0, t1, t2, t3]));
    }
    let r = [t0, t1, t2, t3];
    assert(r@ =~= seq![t0, t1, t2, t3]);
    r
}

/// Slides one lane toward its edge and merges it. Returns the new lane and the
/// score it earns.
pub fn slide_lane(lane: [u64; 4]) -> (r: ([u64; 4], u64))
    requires
        lane_sum(lane@) <= u64::MAX,
    ensures
        r.0@ == lane_outcome(lane@).0,
        r.1 == lane_outcome(lane@).1,
        r.1 <= lane_sum(lane@),
        lane_sum(r.0@) == lane_sum(lane@),
        r.0@[3] == 0 || r.0@ == lane@,
{
    let c = compact(lane);
    proof {
        lemma_nonzeros4(lane[0], lane[1], lane[2], lane[3]);
        assert(lane@ =~= seq![lane[0], lane[1], lane[2], lane[3]]);
        assert(c@ =~= seq![c[0], c[1], c[2], c[3]]);
    }
    let (t0, t1, t2, t3) = (c[0], c[1], c[2], c[3]);
    let r = if t0 == t1 && t2 == t3 {
        ([t0 * 2, t2 * 2, 0, 0], t0 * 2 + t2 * 2)
    } else if t0 == t1 {
        ([t0 * 2, t2, t3, 0], t0 * 2)
    } else if t1 == t2 {
        ([t0, t1 * 2, t3, 0], t1 * 2)
    } else if t2 == t3 && t3 != 0 {
        ([t0, t1, t2 * 2, 0], t2 * 2)
    } else {
        (c, 0)
    };
    assert(r.0@ =~= lane_outcome(lane@).0);
    r
}

/// A move keeps the sum of a lane.
pub proof fn lemma_outcome_sum(l: Seq<u64>)
    requires
        l.len() == 4,
        lane_sum(l) <= u64::MAX,
    ensures
        lane_sum(lane_outcome(l).0) == lane_sum(l),
        0 <= lane_outcome(l).1 <= lane_sum(l),
        lane_outcome(l).0.len() == 4,
{
    lemma_nonzeros4(l[0], l[1], l[2], l[3]);
    assert(l =~= seq![l[0], l[1], l[2], l[3]]);
}

/// A lane that a move leaves as it was earns no score, and a lane that a move
/// changes ends in an empty cell.
pub proof fn lemma_unchanged_lane(l: Seq<u64>)
    requires
        l.len() == 4,
    ensures
        lane_outcome(l).0 == l ==> lane_outcome(l).1 == 0,
        lane_outcome(l).0 != l ==> lane_outcome(l).0[3] == 0,
        lane_outcome(l).0.len() == 4,
{
    lemma_nonzeros4(l[0], l[1], l[2], l[3]);
    assert(l =~= seq![l[0], l[1], l[2], l[3]]);
    let n = nonzeros(l);
    if l[0] != 0 && l[1] != 0 && l[2] != 0 && l[3] != 0 {
        assert(n =~= l);
        assert(compacted(l) =~= l);
    } else {
        assert(n.len() <= 3);
        assert(compacted(l)[3] == 0);
    }
}

/// `v` is a power of two.
pub open spec fn is_power_of_two(v: int) -> bool
    decreases v,
{
    if v <= 1 {
        v == 1
    } else {
        v % 2 == 0 && is_power_of_two(v / 2)
    }
}

/// A cell value: empty, or a power of two no smaller than 2.
pub open spec fn is_tile(v: u64) -> bool {
    v == 0 || (v >= 2 && is_power_of_two(v as int))
}

proof fn lemma_double_tile(v: u64)
    requires
        is_tile(v),
        2 * v <= u64::MAX,
    ensures
        is_tile((2 * v) as u64),
{
    if v != 0 {
        assert((2 * v) as int / 2 == v);
    }
}

proof fn lemma_nonzeros_tiles(s: Seq<u64>)
    requires
        forall|i: int| 0 <= i < s.len() ==> is_tile(#[trigger] s[i]),
    ensures
        nonzeros(s).len() <= s.len(),
        forall|i: int| 0 <= i < nonzeros(s).len() ==> is_tile(#[trigger] nonzeros(s)[i]),
    decreases s.len(),
{
    if s.len() > 0 {
        lemma_nonzeros_tiles(s.drop_last());
    }
}

/// A move makes tiles of tiles: merging two equal powers of two gives one.
pub proof fn lemma_outcome_tiles(l: Seq<u64>)
    requires
        l.len() == 4,
        lane_sum(l) <= u64::MAX,
        forall|i: int| 0 <= i < 4 ==> is_tile(#[trigger] l[i]),
    ensures
        forall|i: int| 0 <= i < 4 ==> is_tile(#[trigger] lane_outcome(l).0[i]),
{
    lemma_nonzeros4(l[0], l[1], l[2], l[3]);
    assert(l =~= seq![l[0], l[1], l[2], l[3]]);
    lemma_nonzeros_tiles(l);
    let c = compacted(l);
    assert forall|i: int| 0 <= i < 4 implies is_tile(#[trigger] c[i]) by {
        if i < nonzeros(l).len() {
            assert(c[i] == nonzeros(l)[i]);
        }
    }
    assert(c[0] + c[1] + c[2] + c[3] == lane_sum(l));
    if c[0] == c[1] {
        lemma_double_tile(c[0]);
    }
    if c[2] == c[3] {
        lemma_double_tile(c[2]);
    }
    if c[1] == c[2] {
        lemma_double_tile(c[1]);
    }
}

} // verus!
