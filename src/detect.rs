use std::cmp::Ordering;
use vstd::prelude::*;
use crate::circle::{key_sum, Circle};
use crate::orbit::{
    detected, first_return, lemma_cycle_return, lemma_detected_is_period, lemma_peak,
    lemma_strictly_below_peak, orbit, peak_time,
};
use crate::order::{
    compare_arrays, lemma_lex_equal, lemma_lex_flip, lemma_lex_greater_trans, lemma_lex_total,
    lex_cmp,
};

verus! {

/// Number of buckets used by `multi_stack`.
pub const K: usize = 10;

/// Capacity of each bucket used by `multi_stack`.
pub const STACK_SIZE: usize = 1000;

/// The bucket that a state falls into among `buckets` buckets.
pub open spec fn bucket_of(s: Seq<u8>, buckets: nat) -> int {
    key_sum(s) % (buckets as int)
}

/// A stack slot: a state and the step at which it was seen.
#[derive(Clone, Copy, Debug)]
pub struct Stack(Circle, usize);

/// Slot values strictly decrease, in lexicographic order, from the bottom up.
pub open spec fn strictly_decreasing(slots: Seq<Seq<u8>>) -> bool {
    forall|i: int, j: int|
        0 <= i < j < slots.len() ==> lex_cmp(#[trigger] slots[i], #[trigger] slots[j])
            == Ordering::Greater
}

spec fn states_of(bucket: Seq<Stack>) -> Seq<Seq<u8>> {
    bucket.map_values(|e: Stack| e.0@)
}

/// A slot of bucket `b` recorded step `e.1` of the orbit before step `t`, and
/// its state has not come back since.
spec fn slot_ok(e: Stack, x0: Seq<u8>, t: nat, b: int, buckets: nat) -> bool {
    &&& e.1 < t
    &&& e.0@ == orbit(x0, e.1 as nat)
    &&& bucket_of(e.0@, buckets) == b
    &&& forall|u: nat| e.1 < u < t ==> #[trigger] orbit(x0, u) != e.0@
}

spec fn bucket_ok(bucket: Seq<Stack>, x0: Seq<u8>, t: nat, b: int, buckets: nat, capacity: nat) -> bool {
    &&& bucket.len() <= capacity
    &&& strictly_decreasing(states_of(bucket))
    &&& forall|i: int| 0 <= i < bucket.len() ==> slot_ok(#[trigger] bucket[i], x0, t, b, buckets)
    &&& forall|i: int| 0 <= i < bucket.len() ==> (#[trigger] bucket[i]).1 >= i
}

/// The orbit of `x0` enters a cycle of period `p` after `q` steps, with
/// `q + 2 * p` within `capacity`.
spec fn fits(x0: Seq<u8>, capacity: nat) -> bool {
    exists|qp: (nat, nat)| first_return(x0, qp.0, qp.1) && qp.0 + 2 * qp.1 <= capacity
}

/// `h` is where the scan from the top of a bucket stopped: every slot at or
/// above `h` is below `x`, and the slot under it, if any, is not.
spec fn scanned(states: Seq<Seq<u8>>, x: Seq<u8>, h: int) -> bool {
    &&& 0 <= h <= states.len()
    &&& forall|i: int| h <= i < states.len() ==> lex_cmp(x, #[trigger] states[i]) == Ordering::Greater
    &&& h > 0 ==> lex_cmp(x, states[h - 1]) != Ordering::Greater
}

/// Scans a bucket from its top for the place of `x`.
fn scan(bucket: &Vec<Stack>, x: &Circle) -> (h: usize)
    ensures
        scanned(states_of(bucket@), x@, h as int),
{
    let ghost states = states_of(bucket@);
    let mut h: usize = bucket.len();
    let mut stopped = false;
    while h > 0 && !stopped
        invariant
            h <= bucket@.len(),
            states == states_of(bucket@),
            states.len() == bucket@.len(),
            forall|i: int| h <= i < bucket@.len() ==> lex_cmp(x@, #[trigger] states[i]) == Ordering::Greater,
            stopped ==> h > 0 && lex_cmp(x@, states[h - 1]) != Ordering::Greater,
        decreases h + (if stopped { 0int } else { 1int }),
    {
        let c = compare_arrays(x.get_array(), bucket[h - 1].0.get_array());
        assert(states[h - 1] == bucket@[h - 1].0@);
        match c {
            Ordering::Greater => {
                h = h - 1;
            },
            _ => {
                stopped = true;
            },
        }
    }
    h
}

/// A slot equal to `x` is the one right under where the scan stopped.
proof fn lemma_scan_finds(states: Seq<Seq<u8>>, x: Seq<u8>, h: int, i: int)
    requires
        strictly_decreasing(states),
        scanned(states, x, h),
        0 <= i < states.len(),
        states[i] == x,
    ensures
        h == i + 1,
{
    lemma_lex_equal(x, x);
    if h > 0 && h - 1 > i {
        assert(lex_cmp(states[i], states[h - 1]) == Ordering::Greater);
    }
}

/// A slot above `x` survives the scan.
proof fn lemma_scan_keeps(states: Seq<Seq<u8>>, x: Seq<u8>, h: int, i: int)
    requires
        scanned(states, x, h),
        0 <= i < states.len(),
        lex_cmp(states[i], x) == Ordering::Greater,
    ensures
        i < h,
{
    if i >= h {
        assert(lex_cmp(x, states[i]) == Ordering::Greater);
        lemma_lex_flip(x, states[i]);
    }
}

/// When the scan found no equal slot, pushing `x` where it stopped keeps the
/// bucket strictly decreasing, and `x` equals none of the slots kept.
proof fn lemma_scan_push(states: Seq<Seq<u8>>, x: Seq<u8>, h: int)
    requires
        strictly_decreasing(states),
        scanned(states, x, h),
        h == 0 || states[h - 1] != x,
    ensures
        strictly_decreasing(states.take(h).push(x)),
        forall|j: int| 0 <= j < h ==> #[trigger] states[j] != x,
{
    let n = states.take(h).push(x);
    assert forall|i: int, j: int| 0 <= i < j < n.len() implies lex_cmp(
        #[trigger] n[i],
        #[trigger] n[j],
    ) == Ordering::Greater by {
        assert(n[i] == states[i]);
        if j == h {
            lemma_lex_total(x, states[h - 1]);
            if i < h - 1 {
                lemma_lex_greater_trans(states[i], states[h - 1], x);
            }
        } else {
            assert(n[j] == states[j]);
        }
    }
    assert forall|j: int| 0 <= j < h implies #[trigger] states[j] != x by {
        if j < h - 1 && states[j] == x {
            assert(lex_cmp(states[j], states[h - 1]) == Ordering::Greater);
        }
    }
}

/// Runs the multi-stack detector from `x0` with `buckets` buckets of `capacity`
/// slots each. `Some(d)` is the first return time of a state of the orbit, that
/// is, the period of the cycle it ends in; `None` means that a bucket would have
/// outgrown its capacity, or that the step counter ran out, before a state came back.
/// When the orbit enters a cycle of period `p` after `q` steps and
/// `q + 2 * p <= capacity`, the result is `Some(p)`.
#[verifier::rlimit(100)]
pub fn run_detection(x0: Circle, buckets: usize, capacity: usize) -> (r: Option<usize>)
    requires
        buckets > 0,
    ensures
        r matches Some(d) ==> detected(x0@, d as nat),
        forall|q: nat, p: nat|
            first_return(x0@, q, p) && q + 2 * p <= capacity ==> r == Some(p as usize),
{
    let mut table: Vec<Vec<Stack>> = Vec::new();
    let mut b: usize = 0;
    while b < buckets
        invariant
            b <= buckets,
            table@.len() == b,
            forall|i: int| 0 <= i < b ==> (#[trigger] table@[i])@.len() == 0,
        decreases buckets - b,
    {
        table.push(Vec::new());
        b = b + 1;
    }
    proof {
        assert forall|i: int| 0 <= i < buckets implies bucket_ok(
            #[trigger] table@[i]@,
            x0@,
            0,
            i,
            buckets as nat,
            capacity as nat,
        ) by {
            assert(states_of(table@[i]@).len() == 0);
        }
    }
    let ghost bounded = fits(x0@, capacity as nat);
    let ghost qp: (nat, nat) = if bounded {
        choose|qp: (nat, nat)| first_return(x0@, qp.0, qp.1) && qp.0 + 2 * qp.1 <= capacity
    } else {
        (0, 0)
    };
    let ghost q = qp.0;
    let ghost p = qp.1;
    let ghost tm = peak_time(x0@, q, p);
    let ghost bm = bucket_of(orbit(x0@, tm), buckets as nat);
    let ghost mut im: int = 0;
    proof {
        if bounded {
            lemma_peak(x0@, q, p);
        }
    }
    let mut x = x0;
    let mut time: usize = 0;
    while time < usize::MAX
        invariant
            bounded == fits(x0@, capacity as nat),
            bounded ==> first_return(x0@, q, p) && q + 2 * p <= capacity && q <= tm < q + p,
            tm == peak_time(x0@, q, p),
            bm == bucket_of(orbit(x0@, tm), buckets as nat),
            bounded ==> time <= tm + p,
            bounded && time > tm ==> 0 <= im < table@[bm]@.len() && table@[bm]@[im].1 == tm,
            buckets > 0,
            table@.len() == buckets,
            x@ == orbit(x0@, time as nat),
            forall|i: int|
                0 <= i < buckets ==> bucket_ok(
                    #[trigger] table@[i]@,
                    x0@,
                    time as nat,
                    i,
                    buckets as nat,
                    capacity as nat,
                ),
        decreases usize::MAX - time,
    {
        let k = (x.sum() % buckets as u128) as usize;
        assert(k as int == bucket_of(x@, buckets as nat));
        let ghost old_table = table@;
        let mut bucket = table.remove(k);
        assert(bucket@ == old_table[k as int]@);
        assert(bucket_ok(bucket@, x0@, time as nat, k as int, buckets as nat, capacity as nat));
        let ghost states = states_of(bucket@);
        let h = scan(&bucket, &x);
        proof {
            // The peak of the cycle is back, and its slot is found.
            assert(bounded && time == tm + p ==> h as int == im + 1 && bucket@[im].0@ == x@) by {
                if bounded && time == tm + p {
                    lemma_cycle_return(x0@, q, p, tm);
                    assert(slot_ok(bucket@[im], x0@, time as nat, k as int, buckets as nat));
                    assert(states[im] == bucket@[im].0@);
                    lemma_scan_finds(states, x@, h as int, im);
                }
            }
        }
        if h > 0 && bucket[h - 1].0.same_cells(&x) {
            let e = bucket[h - 1];
            proof {
                assert(slot_ok(bucket@[h - 1], x0@, time as nat, k as int, buckets as nat));
                let d = (time - e.1) as nat;
                assert(first_return(x0@, e.1 as nat, d));
                assert forall|q2: nat, p2: nat|
                    first_return(x0@, q2, p2) && q2 + 2 * p2 <= capacity implies Some(
                    (time - e.1) as usize,
                ) == Some(p2 as usize) by {
                    lemma_detected_is_period(x0@, q2, p2, d);
                }
            }
            return Some(time - e.1);
        }
        proof {
            if bucket@.len() > 0 {
                let n = bucket@.len() - 1;
                assert(bucket@[n].1 >= n);
                assert(slot_ok(bucket@[n], x0@, time as nat, k as int, buckets as nat));
            }
        }
        if h >= capacity {
            proof {
                lemma_fits(x0@, capacity as nat);
            }
            return None;
        }
        proof {
            lemma_scan_push(states, x@, h as int);
            if bounded && tm < time && k == bm {
                lemma_strictly_below_peak(x0@, q, p, time as nat);
                assert(slot_ok(bucket@[im], x0@, time as nat, k as int, buckets as nat));
                lemma_scan_keeps(states, x@, h as int, im);
            }
        }
        bucket.truncate(h);
        bucket.push(Stack(x, time));
        let ghost new_vec = bucket;
        table.insert(k, bucket);
        proof {
            if bounded && time == tm {
                im = h as int;
            }
            assert(table@ =~= old_table.update(k as int, new_vec));
            assert(states_of(new_vec@) =~= states.take(h as int).push(x@));
            assert forall|i: int| 0 <= i < buckets implies bucket_ok(
                #[trigger] table@[i]@,
                x0@,
                (time + 1) as nat,
                i,
                buckets as nat,
                capacity as nat,
            ) by {
                lemma_step_bucket(old_table[i]@, table@[i]@, x0@, time as nat, i, k as int, h as int, x@, buckets as nat, capacity as nat);
            }
        }
        x = x.next();
        time = time + 1;
    }
    proof {
        lemma_fits(x0@, capacity as nat);
    }
    None
}

/// Each bucket stays in order after a step: the bucket of the current state
/// was cut at `h` and took it on top; the others kept their slots.
proof fn lemma_step_bucket(
    old_b: Seq<Stack>,
    new_b: Seq<Stack>,
    x0: Seq<u8>,
    t: nat,
    i: int,
    k: int,
    h: int,
    x: Seq<u8>,
    buckets: nat,
    capacity: nat,
)
    requires
        bucket_ok(old_b, x0, t, i, buckets, capacity),
        x == orbit(x0, t),
        bucket_of(x, buckets) == k,
        i != k ==> new_b == old_b,
        i == k ==> {
            &&& 0 <= h < capacity
            &&& h <= old_b.len()
            &&& h <= t
            &&& new_b.len() == h + 1
            &&& forall|j: int| 0 <= j < h ==> new_b[j] == old_b[j]
            &&& new_b[h].0@ == x && new_b[h].1 == t
            &&& strictly_decreasing(states_of(new_b))
            &&& forall|j: int| 0 <= j < h ==> #[trigger] states_of(old_b)[j] != x
        },
    ensures
        bucket_ok(new_b, x0, t + 1, i, buckets, capacity),
{
    assert forall|j: int| 0 <= j < new_b.len() implies slot_ok(
        #[trigger] new_b[j],
        x0,
        t + 1,
        i,
        buckets,
    ) && new_b[j].1 >= j by {
        if i != k || j < h {
            assert(new_b[j] == old_b[j]);
            assert(slot_ok(old_b[j], x0, t, i, buckets));
            if i == k {
                assert(states_of(old_b)[j] != x);
            }
            assert(old_b[j].0@ != x);
        }
    }
}

proof fn lemma_fits(x0: Seq<u8>, capacity: nat)
    ensures
        forall|q: nat, p: nat|
            first_return(x0, q, p) && q + 2 * p <= capacity ==> fits(x0, capacity),
{
    assert forall|q: nat, p: nat|
        first_return(x0, q, p) && q + 2 * p <= capacity implies fits(x0, capacity) by {
        let w = (q, p);
        assert(first_return(x0, w.0, w.1) && w.0 + 2 * w.1 <= capacity);
    }
}

/// The detector with `K` buckets of `STACK_SIZE` slots: the period of the
/// cycle that the orbit of `x0` ends in, or `None` when the buckets overflow.
pub fn multi_stack(x0: Circle) -> (r: Option<usize>)
    ensures
        r matches Some(d) ==> detected(x0@, d as nat),
        forall|q: nat, p: nat|
            first_return(x0@, q, p) && q + 2 * p <= STACK_SIZE ==> r == Some(p as usize),
{
    run_detection(x0, K, STACK_SIZE)
}

} // verus!
