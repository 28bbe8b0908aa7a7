//! Putting a sequence together from chunks computed elsewhere: written into a
//! sequence by position, or sorted by start and joined.

use vstd::prelude::*;
use crate::bignat::{values, BigNat};
use crate::fibonacci::{chunk_start, covered, fib_run, is_chunk, lemma_chunk_start_next};
use crate::spec::{fib, fib_seq};

verus! {

/// A sequence of `count` numbers that holds F(0) = 0 and F(1) = 1 and zeros after them,
/// to be filled in by `place_chunk`.
pub fn init_sequence(count: usize) -> (r: Vec<BigNat>)
    requires
        count >= 2,
    ensures
        r@.len() == count,
        r@[0]@ == 0,
        r@[1]@ == 1,
        forall|i: int| 2 <= i < count ==> #[trigger] r@[i]@ == 0,
{
    let mut result: Vec<BigNat> = Vec::new();
    result.push(BigNat::zero());
    result.push(BigNat::one());
    while result.len() < count
        invariant
            2 <= result@.len() <= count,
            result@[0]@ == 0,
            result@[1]@ == 1,
            forall|i: int| 2 <= i < result@.len() ==> #[trigger] result@[i]@ == 0,
        decreases count - result@.len(),
    {
        result.push(BigNat::zero());
    }
    result
}

/// `s` with `chunk` written over it from position `start` on.
pub open spec fn placed(s: Seq<BigNat>, start: int, chunk: Seq<BigNat>) -> Seq<BigNat> {
    s.subrange(0, start) + chunk + s.subrange(start + chunk.len(), s.len() as int)
}

/// `s` with the chunks of `parts` written over it, each at its start, one after another.
pub open spec fn placed_all(s: Seq<BigNat>, parts: Seq<(usize, Vec<BigNat>)>) -> Seq<BigNat>
    decreases parts.len(),
{
    if parts.len() == 0 {
        s
    } else {
        placed(placed_all(s, parts.drop_last()), parts.last().0 as int, parts.last().1@)
    }
}

/// Writing no chunks leaves `s` as it is, and one more chunk is written over what
/// the others left, at its start.
pub proof fn lemma_placed_all_push(
    s: Seq<BigNat>,
    parts: Seq<(usize, Vec<BigNat>)>,
    part: (usize, Vec<BigNat>),
)
    ensures
        placed_all(s, Seq::<(usize, Vec<BigNat>)>::empty()) == s,
        placed_all(s, parts.push(part)) == placed(placed_all(s, parts), part.0 as int, part.1@),
{
    assert(parts.push(part).drop_last() =~= parts);
}

/// Writes `chunk` into `result` from position `start` on, leaving the rest as it was.
pub fn place_chunk(result: &mut Vec<BigNat>, start: usize, chunk: Vec<BigNat>)
    requires
        start + chunk@.len() <= old(result)@.len(),
    ensures
        final(result)@ == placed(old(result)@, start as int, chunk@),
        final(result)@.len() == old(result)@.len(),
        forall|i: int|
            0 <= i < old(result)@.len() ==> #[trigger] final(result)@[i] == if start <= i < start
                + chunk@.len() {
                chunk@[i - start]
            } else {
                old(result)@[i]
            },
{
    let ghost before = result@;
    let ghost all = chunk@;
    let total = result.len();
    let mut chunk = chunk;
    while chunk.len() > 0
        invariant
            chunk@.len() <= all.len(),
            chunk@ == all.subrange(0, chunk@.len() as int),
            start + all.len() <= before.len(),
            result@.len() == before.len(),
            before.len() == total,
            forall|i: int|
                0 <= i < before.len() ==> #[trigger] result@[i] == if start + chunk@.len() <= i < start
                    + all.len() {
                    all[i - start]
                } else {
                    before[i]
                },
        decreases chunk@.len(),
    {
        let value = chunk.pop().unwrap();
        let k = chunk.len();
        result.set(start + k, value);
    }
    assert(result@ =~= before.subrange(0, start as int) + all + before.subrange(
        start + all.len(),
        before.len() as int,
    ));
}

/// `perm` takes `sorted` back to `parts`: `sorted[i]` is `parts[perm[i]]`, no part
/// is taken twice, the starts in `sorted` never decrease, and parts with the same
/// start keep the order they had in `parts`.
pub open spec fn sort_witness<T>(
    parts: Seq<(usize, T)>,
    sorted: Seq<(usize, T)>,
    perm: Seq<int>,
) -> bool {
    &&& perm.len() == sorted.len()
    &&& sorted.len() == parts.len()
    &&& forall|i: int|
        0 <= i < sorted.len() ==> 0 <= #[trigger] perm[i] < parts.len() && sorted[i] == parts[perm[i]]
    &&& forall|i: int, j: int| 0 <= i < j < sorted.len() ==> perm[i] != perm[j]
    &&& forall|i: int, j: int| 0 <= i <= j < sorted.len() ==> sorted[i].0 <= sorted[j].0
    &&& forall|i: int, j: int|
        0 <= i < j < sorted.len() && sorted[i].0 == sorted[j].0 ==> perm[i] < perm[j]
}

/// `sorted` is `parts` sorted by start, stably: parts with equal starts keep their order.
pub open spec fn is_stable_sort_by_start<T>(parts: Seq<(usize, T)>, sorted: Seq<(usize, T)>) -> bool {
    exists|perm: Seq<int>| sort_witness(parts, sorted, perm)
}

/// The parts sorted by their starts; parts with equal starts keep their order.
pub fn sort_by_start<T>(parts: Vec<(usize, T)>) -> (sorted: Vec<(usize, T)>)
    ensures
        is_stable_sort_by_start(parts@, sorted@),
        sorted@.len() == parts@.len(),
        forall|i: int, j: int| 0 <= i <= j < sorted@.len() ==> sorted@[i].0 <= sorted@[j].0,
{
    let ghost input = parts@;
    let ghost n = input.len();
    let mut rest = parts;
    let mut sorted: Vec<(usize, T)> = Vec::new();
    let ghost mut perm: Seq<int> = Seq::empty();
    while rest.len() > 0
        invariant
            rest@.len() <= n,
            rest@ == input.subrange(0, rest@.len() as int),
            n == input.len(),
            perm.len() == sorted@.len(),
            sorted@.len() + rest@.len() == n,
            forall|i: int|
                0 <= i < sorted@.len() ==> rest@.len() <= #[trigger] perm[i] < n && sorted@[i]
                    == input[perm[i]],
            forall|i: int, j: int| 0 <= i < j < sorted@.len() ==> perm[i] != perm[j],
            forall|i: int, j: int| 0 <= i <= j < sorted@.len() ==> sorted@[i].0 <= sorted@[j].0,
            forall|i: int, j: int|
                0 <= i < j < sorted@.len() && sorted@[i].0 == sorted@[j].0 ==> perm[i] < perm[j],
        decreases rest@.len(),
    {
        let item = rest.pop().unwrap();
        let k = rest.len();
        let key = item.0;
        let mut pos: usize = 0;
        while pos < sorted.len() && sorted[pos].0 < key
            invariant
                pos <= sorted@.len(),
                forall|j: int| 0 <= j < pos ==> #[trigger] sorted@[j].0 < key,
            decreases sorted@.len() - pos,
        {
            pos = pos + 1;
        }
        let ghost old_sorted = sorted@;
        let ghost old_perm = perm;
        proof {
            assert(item == input[k as int]);
            assert forall|j: int| pos <= j < old_sorted.len() implies key <= #[trigger] old_sorted[j].0 by {
                assert(old_sorted[pos as int].0 <= old_sorted[j].0);
            }
            perm = old_perm.insert(pos as int, k as int);
        }
        sorted.insert(pos, item);
        proof {
            let new_sorted = sorted@;
            assert(rest@ =~= input.subrange(0, k as int));
            assert forall|i: int| 0 <= i < new_sorted.len() implies #[trigger] new_sorted[i] == (if i
                < pos {
                old_sorted[i]
            } else if i == pos {
                item
            } else {
                old_sorted[i - 1]
            }) && perm[i] == (if i < pos {
                old_perm[i]
            } else if i == pos {
                k as int
            } else {
                old_perm[i - 1]
            }) by {}
        }
    }
    proof {
        assert(sort_witness(input, sorted@, perm));
    }
    sorted
}

/// The numbers of the chunks held by `parts`, one chunk after another.
pub open spec fn joined_values(parts: Seq<(usize, Vec<BigNat>)>) -> Seq<nat>
    decreases parts.len(),
{
    if parts.len() == 0 {
        Seq::empty()
    } else {
        joined_values(parts.drop_last()) + values(parts.last().1@)
    }
}

/// Joining no parts gives no numbers, and one more part adds its numbers at the end.
pub proof fn lemma_joined_values_push(parts: Seq<(usize, Vec<BigNat>)>, part: (usize, Vec<BigNat>))
    ensures
        joined_values(Seq::<(usize, Vec<BigNat>)>::empty()) == Seq::<nat>::empty(),
        joined_values(parts.push(part)) == joined_values(parts) + values(part.1@),
{
    assert(parts.push(part).drop_last() =~= parts);
}

proof fn lemma_values_concat(a: Seq<BigNat>, b: Seq<BigNat>)
    ensures
        values(a + b) == values(a) + values(b),
{
    assert(values(a + b) =~= values(a) + values(b));
}

/// F(0) = 0 and F(1) = 1, followed by the chunks of `parts` in their order.
pub fn join_chunks(parts: Vec<(usize, Vec<BigNat>)>) -> (r: Vec<BigNat>)
    ensures
        values(r@) == seq![0nat, 1nat] + joined_values(parts@),
{
    let mut result: Vec<BigNat> = Vec::new();
    result.push(BigNat::zero());
    result.push(BigNat::one());
    let ghost all = parts@;
    let n = parts.len();
    let mut rest = parts;
    let mut i: usize = 0;
    proof {
        assert(values(result@) =~= seq![0nat, 1nat]);
        assert(all.take(0) =~= Seq::<(usize, Vec<BigNat>)>::empty());
    }
    while i < n
        invariant
            n == all.len(),
            i <= n,
            rest@ == all.subrange(i as int, n as int),
            values(result@) == seq![0nat, 1nat] + joined_values(all.take(i as int)),
        decreases n - i,
    {
        let part = rest.remove(0);
        let mut chunk = part.1;
        proof {
            assert(part == all[i as int]);
            lemma_values_concat(result@, chunk@);
            assert(all.take(i + 1).drop_last() =~= all.take(i as int));
            assert(rest@ =~= all.subrange(i + 1, n as int));
        }
        result.append(&mut chunk);
        i = i + 1;
    }
    proof {
        assert(all.take(n as int) =~= all);
    }
    result
}

/// The first `m` chunks of the sequence of length `count` hold F(2) up to the
/// position where chunk `m` starts.
proof fn lemma_joined_prefix(parts: Seq<(usize, Vec<BigNat>)>, count: nat, chunk_size: nat, m: nat)
    requires
        count >= 2,
        chunk_size >= 1,
        m <= parts.len(),
        forall|i: int| 0 <= i < parts.len() ==> is_chunk(#[trigger] parts[i].1@, i as nat, count, chunk_size),
    ensures
        joined_values(parts.take(m as int)) =~= Seq::new(
            (covered(chunk_start(m, chunk_size), count) - 2) as nat,
            |j: int| fib((j + 2) as nat),
        ),
    decreases m,
{
    if m > 0 {
        let k = (m - 1) as nat;
        lemma_joined_prefix(parts, count, chunk_size, k);
        lemma_chunk_start_next(k, chunk_size);
        let chunk = parts[k as int].1@;
        assert(is_chunk(chunk, k, count, chunk_size));
        assert(parts.take(m as int).drop_last() =~= parts.take(k as int));
        assert(parts.take(m as int).last() == parts[k as int]);
    }
}

/// Chunk by chunk, the sequence is whole: F(0), F(1) and then the chunks of the
/// first `count` Fibonacci numbers, in order, make the first `count` Fibonacci numbers.
pub proof fn lemma_joined_chunks_are_fib(parts: Seq<(usize, Vec<BigNat>)>, count: nat, chunk_size: nat)
    requires
        count >= 2,
        chunk_size >= 1,
        forall|i: int| 0 <= i < parts.len() ==> is_chunk(#[trigger] parts[i].1@, i as nat, count, chunk_size),
        chunk_start(parts.len(), chunk_size) >= count,
    ensures
        seq![0nat, 1nat] + joined_values(parts) == fib_seq(count),
{
    lemma_joined_prefix(parts, count, chunk_size, parts.len());
    assert(parts.take(parts.len() as int) =~= parts);
    reveal_with_fuel(fib, 2);
    assert(seq![0nat, 1nat] + joined_values(parts) =~= fib_seq(count));
}

/// `a` holds the elements of `b`, each once, in some order.
pub open spec fn is_rearrangement<T>(a: Seq<T>, b: Seq<T>) -> bool {
    exists|p: Seq<int>|
        {
            &&& p.len() == a.len()
            &&& a.len() == b.len()
            &&& forall|i: int| 0 <= i < a.len() ==> 0 <= #[trigger] p[i] < b.len() && a[i] == b[p[i]]
            &&& forall|i: int, j: int| 0 <= i < j < a.len() ==> p[i] != p[j]
        }
}

/// A strictly increasing map of positions moves later positions at least as far apart.
proof fn lemma_increasing_gaps(q: Seq<int>, i: int, j: int)
    requires
        0 <= i <= j < q.len(),
        forall|x: int, y: int| 0 <= x < y < q.len() ==> q[x] < q[y],
    ensures
        q[j] - q[i] >= j - i,
    decreases j - i,
{
    if i < j {
        lemma_increasing_gaps(q, i, j - 1);
        assert(q[j - 1] < q[j]);
    }
}

/// Sorting by start puts back in order any arrangement of parts whose starts
/// strictly increase: the stable sort of a rearrangement of `plan` is `plan`.
pub proof fn lemma_sort_restores_order<T>(
    plan: Seq<(usize, T)>,
    parts: Seq<(usize, T)>,
    sorted: Seq<(usize, T)>,
)
    requires
        forall|i: int, j: int| 0 <= i < j < plan.len() ==> plan[i].0 < plan[j].0,
        is_rearrangement(parts, plan),
        is_stable_sort_by_start(parts, sorted),
    ensures
        sorted == plan,
{
    let n = plan.len() as int;
    let p1 = choose|perm: Seq<int>| sort_witness(parts, sorted, perm);
    let p2 = choose|p: Seq<int>|
        {
            &&& p.len() == parts.len()
            &&& parts.len() == plan.len()
            &&& forall|i: int| 0 <= i < parts.len() ==> 0 <= #[trigger] p[i] < plan.len() && parts[i] == plan[p[i]]
            &&& forall|i: int, j: int| 0 <= i < j < parts.len() ==> p[i] != p[j]
        };
    let q = Seq::new(n as nat, |i: int| p2[p1[i]]);
    assert forall|i: int| 0 <= i < n implies 0 <= #[trigger] q[i] < n && sorted[i] == plan[q[i]] by {
        assert(0 <= p1[i] < n);
        assert(parts[p1[i]] == plan[p2[p1[i]]]);
    }
    assert forall|x: int, y: int| 0 <= x < y < n implies q[x] < q[y] by {
        assert(0 <= p1[x] < n && 0 <= p1[y] < n);
        assert(sorted[x].0 <= sorted[y].0);
        assert(p1[x] != p1[y]);
        if p1[x] < p1[y] {
            assert(p2[p1[x]] != p2[p1[y]]);
        } else {
            assert(p2[p1[y]] != p2[p1[x]]);
        }
        if q[y] < q[x] {
            assert(plan[q[y]].0 < plan[q[x]].0);
        }
    }
    assert forall|i: int| 0 <= i < n implies #[trigger] q[i] == i by {
        lemma_increasing_gaps(q, 0, i);
        lemma_increasing_gaps(q, i, n - 1);
    }
    assert(sorted.len() == n);
    assert forall|i: int| 0 <= i < n implies sorted[i] == plan[i] by {
        assert(q[i] == i);
    }
    assert(sorted =~= plan);
}

/// Entry `i` of `plan` is chunk `i` of the first `count` Fibonacci numbers, at its start,
/// and the chunks of `plan` reach the end of the sequence.
pub open spec fn is_chunk_plan(plan: Seq<(usize, Vec<BigNat>)>, count: nat, chunk_size: nat) -> bool {
    &&& forall|i: int|
        0 <= i < plan.len() ==> (#[trigger] plan[i]).0 == chunk_start(i as nat, chunk_size)
            && is_chunk(plan[i].1@, i as nat, count, chunk_size)
    &&& chunk_start(plan.len(), chunk_size) >= count
}

/// Some chunk of the plan holds position `p`: the last one that starts at or before `p`.
proof fn lemma_plan_covers(plan: Seq<(usize, Vec<BigNat>)>, count: nat, chunk_size: nat, p: nat, i: nat)
    requires
        chunk_size >= 1,
        is_chunk_plan(plan, count, chunk_size),
        i < plan.len(),
        chunk_start(i, chunk_size) <= p < count,
    ensures
        exists|j: int|
            0 <= j < plan.len() && (#[trigger] plan[j]).0 <= p < plan[j].0 + plan[j].1@.len(),
    decreases plan.len() - i,
{
    lemma_chunk_start_next(i, chunk_size);
    assert(plan[i as int].0 == chunk_start(i, chunk_size));
    assert(is_chunk(plan[i as int].1@, i, count, chunk_size));
    if chunk_start(i + 1, chunk_size) <= p {
        lemma_plan_covers(plan, count, chunk_size, p, i + 1);
    }
}

/// After the first `m` chunks of `parts` are written over `s`, position 0 and 1 are as
/// they were and every position that one of them covers holds its Fibonacci number.
proof fn lemma_placed_prefix(
    s: Seq<BigNat>,
    parts: Seq<(usize, Vec<BigNat>)>,
    count: nat,
    m: nat,
)
    requires
        s.len() == count,
        m <= parts.len(),
        forall|k: int|
            0 <= k < parts.len() ==> 2 <= (#[trigger] parts[k]).0 && parts[k].0 + parts[k].1@.len()
                <= count && fib_run(parts[k].1@, parts[k].0 as nat),
    ensures
        placed_all(s, parts.take(m as int)).len() == count,
        placed_all(s, parts.take(m as int))[0] == s[0],
        placed_all(s, parts.take(m as int))[1] == s[1],
        forall|k: int, p: int|
            0 <= k < m && (#[trigger] parts[k]).0 <= p < parts[k].0 + parts[k].1@.len()
                ==> (#[trigger] placed_all(s, parts.take(m as int))[p])@ == fib(p as nat),
    decreases m,
{
    if m > 0 {
        let j = (m - 1) as nat;
        lemma_placed_prefix(s, parts, count, j);
        let before = placed_all(s, parts.take(j as int));
        let after = placed_all(s, parts.take(m as int));
        assert(parts.take(m as int).drop_last() =~= parts.take(j as int));
        assert(parts.take(m as int).last() == parts[j as int]);
        let (start, chunk) = (parts[j as int].0 as int, parts[j as int].1@);
        assert(after == placed(before, start, chunk));
        assert forall|p: int| 0 <= p < count implies #[trigger] after[p] == if start <= p < start
            + chunk.len() {
            chunk[p - start]
        } else {
            before[p]
        } by {}
        assert forall|k: int, p: int|
            0 <= k < m && (#[trigger] parts[k]).0 <= p < parts[k].0 + parts[k].1@.len() implies (
            #[trigger] after[p])@ == fib(p as nat) by {
            if start <= p < start + chunk.len() {
                assert(fib_run(chunk, start as nat));
                assert(chunk[p - start]@ == fib((start + (p - start)) as nat));
            } else {
                assert(k < j);
                assert(before[p]@ == fib(p as nat));
            }
        }
    }
}

/// Every position from 2 on below `count` lies in one of the parts, when every
/// planned chunk is among the parts.
proof fn lemma_parts_cover(
    plan: Seq<(usize, Vec<BigNat>)>,
    parts: Seq<(usize, Vec<BigNat>)>,
    count: nat,
    chunk_size: nat,
    p: nat,
)
    requires
        chunk_size >= 1,
        2 <= p < count,
        is_chunk_plan(plan, count, chunk_size),
        forall|i: int|
            0 <= i < plan.len() ==> exists|k: int|
                0 <= k < parts.len() && #[trigger] parts[k] == #[trigger] plan[i],
    ensures
        exists|k: int|
            0 <= k < parts.len() && (#[trigger] parts[k]).0 <= p < parts[k].0 + parts[k].1@.len(),
{
    vstd::arithmetic::mul::lemma_mul_basics(chunk_size as int);
    assert(chunk_start(0, chunk_size) == 2);
    assert(plan.len() > 0);
    lemma_plan_covers(plan, count, chunk_size, p, 0);
    let j = choose|j: int| 0 <= j < plan.len() && (#[trigger] plan[j]).0 <= p < plan[j].0 + plan[j].1@.len();
    let k = choose|k: int| 0 <= k < parts.len() && #[trigger] parts[k] == #[trigger] plan[j];
    assert(parts[k].0 <= p < parts[k].0 + parts[k].1@.len());
}

/// Every part is a planned chunk, so it fits after F(0), F(1) and holds Fibonacci numbers.
proof fn lemma_parts_fit(
    plan: Seq<(usize, Vec<BigNat>)>,
    parts: Seq<(usize, Vec<BigNat>)>,
    count: nat,
    chunk_size: nat,
)
    requires
        chunk_size >= 1,
        is_chunk_plan(plan, count, chunk_size),
        forall|k: int|
            0 <= k < parts.len() ==> exists|i: int|
                0 <= i < plan.len() && #[trigger] parts[k] == #[trigger] plan[i],
    ensures
        forall|k: int|
            0 <= k < parts.len() ==> 2 <= (#[trigger] parts[k]).0 && parts[k].0 + parts[k].1@.len()
                <= count && fib_run(parts[k].1@, parts[k].0 as nat),
{
    assert forall|k: int|
        0 <= k < parts.len() implies 2 <= (#[trigger] parts[k]).0 && parts[k].0 + parts[k].1@.len()
        <= count && fib_run(parts[k].1@, parts[k].0 as nat) by {
        let i = choose|i: int| 0 <= i < plan.len() && #[trigger] parts[k] == #[trigger] plan[i];
        assert(is_chunk(plan[i].1@, i as nat, count, chunk_size));
        assert(plan[i].0 == chunk_start(i as nat, chunk_size));
    }
}

/// Written over F(0), F(1) and anything after them, the planned chunks make the
/// first `count` Fibonacci numbers, whatever the order they are written in, as long
/// as every chunk written is a planned one and every planned one is written.
pub proof fn lemma_placed_chunks_are_fib(
    s: Seq<BigNat>,
    plan: Seq<(usize, Vec<BigNat>)>,
    parts: Seq<(usize, Vec<BigNat>)>,
    count: nat,
    chunk_size: nat,
)
    requires
        count >= 2,
        chunk_size >= 1,
        s.len() == count,
        s[0]@ == 0,
        s[1]@ == 1,
        is_chunk_plan(plan, count, chunk_size),
        forall|k: int|
            0 <= k < parts.len() ==> exists|i: int|
                0 <= i < plan.len() && #[trigger] parts[k] == #[trigger] plan[i],
        forall|i: int|
            0 <= i < plan.len() ==> exists|k: int|
                0 <= k < parts.len() && #[trigger] parts[k] == #[trigger] plan[i],
    ensures
        values(placed_all(s, parts)) == fib_seq(count),
{
    lemma_parts_fit(plan, parts, count, chunk_size);
    lemma_placed_prefix(s, parts, count, parts.len());
    assert(parts.take(parts.len() as int) =~= parts);
    let r = placed_all(s, parts);
    reveal_with_fuel(fib, 2);
    assert forall|p: int| 0 <= p < count implies (#[trigger] r[p])@ == fib(p as nat) by {
        if p >= 2 {
            lemma_parts_cover(plan, parts, count, chunk_size, p as nat);
        }
    }
    assert(values(r) =~= fib_seq(count));
}

/// Sorting parts that are already in order of their starts changes nothing: parts
/// with equal starts keep their places.
pub proof fn lemma_sort_of_sorted_is_unchanged<T>(parts: Seq<(usize, T)>, sorted: Seq<(usize, T)>)
    requires
        forall|i: int, j: int| 0 <= i <= j < parts.len() ==> parts[i].0 <= parts[j].0,
        is_stable_sort_by_start(parts, sorted),
    ensures
        sorted == parts,
{
    let n = parts.len() as int;
    let p = choose|perm: Seq<int>| sort_witness(parts, sorted, perm);
    assert forall|x: int, y: int| 0 <= x < y < n implies p[x] < p[y] by {
        assert(0 <= p[x] < n && 0 <= p[y] < n);
        assert(sorted[x].0 <= sorted[y].0);
        assert(p[x] != p[y]);
        if sorted[x].0 < sorted[y].0 && p[y] < p[x] {
            assert(parts[p[y]].0 <= parts[p[x]].0);
        }
    }
    assert forall|i: int| 0 <= i < n implies #[trigger] p[i] == i by {
        lemma_increasing_gaps(p, 0, i);
        lemma_increasing_gaps(p, i, n - 1);
    }
    assert forall|i: int| 0 <= i < n implies sorted[i] == parts[i] by {
        assert(p[i] == i);
    }
    assert(sorted =~= parts);
}

} // verus!
