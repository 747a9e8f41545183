use vstd::prelude::*;

verus! {

/// Anything that can be packed: it has a value and a weight.
///
/// An implementation gives `spec_value` and `spec_weight` the same bodies as
/// `value` and `weight`; the two must not change while a solve runs.
pub trait Item {
    /// The value of the item, as contracts see it.
    spec fn spec_value(&self) -> u64;

    /// The weight of the item, as contracts see it.
    spec fn spec_weight(&self) -> u64;

    /// Returns the value.
    fn value(&self) -> (r: u64)
        ensures
            r == self.spec_value(),
    ;

    /// Returns the weight.
    fn weight(&self) -> (r: u64)
        ensures
            r == self.spec_weight(),
    ;
}

/// The optimum of the 0-1 knapsack problem, by the two-branch recursion on
/// the last item: leave it out, or (when it fits) take it.
pub open spec fn best_value<T: Item>(items: Seq<T>, limit: int) -> int
    decreases items.len(),
{
    if items.len() == 0 {
        0
    } else {
        let job = items.last();
        let rest = items.drop_last();
        if job.spec_weight() > limit {
            best_value(rest, limit)
        } else {
            let without = best_value(rest, limit);
            let with = best_value(rest, limit - job.spec_weight()) + job.spec_value();
            if without >= with {
                without
            } else {
                with
            }
        }
    }
}

/// Sum of the values of all items.
pub open spec fn total_value<T: Item>(items: Seq<T>) -> int
    decreases items.len(),
{
    if items.len() == 0 {
        0
    } else {
        total_value(items.drop_last()) + items.last().spec_value()
    }
}

/// Where a resolved frame delivers its result: the left (item left out) or
/// right (item taken) half of the aggregation frame at the given position.
#[derive(Clone, Copy)]
enum Index {
    Left(usize),
    Right(usize),
}

/// A frame of the explicit stack: a subproblem on the first `len` items, or a
/// pending maximum of two partial results.
#[derive(Clone, Copy)]
enum Calc {
    Arg { len: usize, limit: u64 },
    Max(u64, u64),
}

impl Calc {
    fn arg(len: usize, limit: u64) -> (r: Calc)
        ensures
            r == (Calc::Arg { len, limit }),
    {
        Calc::Arg { len, limit }
    }

    /// Adds `v` into the chosen half of an aggregation frame.
    fn add_to_half(self, right: bool, v: u64) -> (r: Calc)
        requires
            self is Max,
            right ==> self->Max_1 + v <= u64::MAX,
            !right ==> self->Max_0 + v <= u64::MAX,
        ensures
            right ==> r == Calc::Max(self->Max_0, (self->Max_1 + v) as u64),
            !right ==> r == Calc::Max((self->Max_0 + v) as u64, self->Max_1),
    {
        match self {
            Calc::Max(x, y) => {
                if right {
                    Calc::Max(x, y + v)
                } else {
                    Calc::Max(x + v, y)
                }
            },
            Calc::Arg { .. } => self,
        }
    }
}

spec fn max_int(a: int, b: int) -> int {
    if a >= b {
        a
    } else {
        b
    }
}

/// Steps left for a frame: an unresolved frame on `len` items may expand into
/// an aggregation and two frames on `len - 1` items.
spec fn work(len: nat) -> nat
    decreases len,
{
    if len == 0 {
        2
    } else {
        2 * work((len - 1) as nat) + 2
    }
}

spec fn frame_work(c: Calc) -> nat {
    match c {
        Calc::Arg { len, .. } => work(len as nat),
        Calc::Max(..) => 1,
    }
}

spec fn stack_work(s: Seq<(Index, Calc)>) -> nat
    decreases s.len(),
{
    if s.len() == 0 {
        0
    } else {
        stack_work(s.drop_last()) + frame_work(s.last().1)
    }
}

proof fn lemma_work_push(s: Seq<(Index, Calc)>, e: (Index, Calc))
    ensures
        stack_work(s.push(e)) == stack_work(s) + frame_work(e.1),
{
    assert(s.push(e).drop_last() =~= s);
}

proof fn lemma_work_update(s: Seq<(Index, Calc)>, i: int, e: (Index, Calc))
    requires
        0 <= i < s.len(),
        frame_work(e.1) == frame_work(s[i].1),
    ensures
        stack_work(s.update(i, e)) == stack_work(s),
    decreases s.len(),
{
    let u = s.update(i, e);
    if i < s.len() - 1 {
        assert(u.drop_last() =~= s.drop_last().update(i, e));
        lemma_work_update(s.drop_last(), i, e);
    } else {
        assert(u.drop_last() =~= s.drop_last());
    }
}

/// The target that an unresolved frame stands for.
spec fn arg_target<T: Item>(items: Seq<T>, len: usize, limit: u64) -> int {
    best_value(items.take(len as int), limit as int)
}

/// One half of an aggregation frame: either its contribution has arrived, or
/// the unique frame that owes it is still on the stack.
spec fn half_ok(
    s: Seq<(Index, Calc)>,
    t: Seq<int>,
    p: int,
    x: u64,
    goal: int,
    child: int,
    want: Index,
) -> bool {
    ||| child == -1 && x == goal
    ||| p < child < s.len() && s[child].0 == want && x + t[child] == goal
}

spec fn addr_ok(s: Seq<(Index, Calc)>, cl: Seq<int>, cr: Seq<int>, k: int) -> bool {
    match s[k].0 {
        Index::Left(p) => p < k && s[p as int].1 is Max && cl[p as int] == k,
        Index::Right(p) => p < k && s[p as int].1 is Max && cr[p as int] == k,
    }
}

spec fn slot_ok<T: Item>(
    items: Seq<T>,
    s: Seq<(Index, Calc)>,
    t: Seq<int>,
    gl: Seq<int>,
    gr: Seq<int>,
    cl: Seq<int>,
    cr: Seq<int>,
    p: int,
) -> bool {
    &&& 0 <= t[p] <= total_value(items)
    &&& match s[p].1 {
        Calc::Arg { len, limit } => len <= items.len() && t[p] == arg_target(items, len, limit),
        Calc::Max(x, y) => {
            &&& 0 <= gl[p] <= total_value(items)
            &&& 0 <= gr[p] <= total_value(items)
            &&& t[p] == max_int(gl[p], gr[p])
            &&& half_ok(s, t, p, x, gl[p], cl[p], Index::Left(p as usize))
            &&& half_ok(s, t, p, y, gr[p], cr[p], Index::Right(p as usize))
        },
    }
}

/// The evaluator's invariant: every frame above the bottom is addressed at an
/// aggregation below it, each aggregation half is owed by at most one frame,
/// and the bottom frame stands for the whole problem.
spec fn machine_inv<T: Item>(
    items: Seq<T>,
    limit: u64,
    s: Seq<(Index, Calc)>,
    t: Seq<int>,
    gl: Seq<int>,
    gr: Seq<int>,
    cl: Seq<int>,
    cr: Seq<int>,
) -> bool {
    &&& t.len() == s.len() && gl.len() == s.len() && gr.len() == s.len()
    &&& cl.len() == s.len() && cr.len() == s.len()
    &&& s.len() > 0 ==> t[0] == best_value(items, limit as int)
    &&& forall|k: int| 1 <= k < s.len() ==> #[trigger] addr_ok(s, cl, cr, k)
    &&& forall|p: int| 0 <= p < s.len() ==> #[trigger] slot_ok(items, s, t, gl, gr, cl, cr, p)
}

proof fn lemma_best_nonneg<T: Item>(items: Seq<T>, limit: int)
    ensures
        0 <= best_value(items, limit) <= total_value(items),
    decreases items.len(),
{
    if items.len() > 0 {
        let rest = items.drop_last();
        lemma_best_nonneg(rest, limit);
        lemma_best_nonneg(rest, limit - items.last().spec_weight());
    }
}

proof fn lemma_total_prefix<T: Item>(items: Seq<T>, len: int)
    requires
        0 <= len <= items.len(),
    ensures
        0 <= total_value(items.take(len)) <= total_value(items),
    decreases items.len(),
{
    if items.len() > 0 {
        if len == items.len() {
            assert(items.take(len) =~= items);
            lemma_total_prefix(items.drop_last(), len - 1);
        } else {
            assert(items.drop_last().take(len) =~= items.take(len));
            lemma_total_prefix(items.drop_last(), len);
        }
    }
}

/// An unresolved frame's target is bounded by the value of all items.
proof fn lemma_target_bounds<T: Item>(items: Seq<T>, len: usize, limit: u64)
    requires
        len <= items.len(),
    ensures
        0 <= arg_target(items, len, limit) <= total_value(items),
{
    lemma_total_prefix(items, len as int);
    lemma_best_nonneg(items.take(len as int), limit as int);
}

/// Clears the record of the frame addressed at `a` owing a contribution, as
/// that frame leaves the stack.
spec fn release(c: Seq<int>, a: Index, right: bool) -> Seq<int> {
    match a {
        Index::Left(p) => if right {
            c.drop_last()
        } else {
            c.drop_last().update(p as int, -1)
        },
        Index::Right(p) => if right {
            c.drop_last().update(p as int, -1)
        } else {
            c.drop_last()
        },
    }
}

spec fn addr_pos(a: Index) -> int {
    match a {
        Index::Left(p) => p as int,
        Index::Right(p) => p as int,
    }
}

/// The top frame resolved to `val` and its value was added into the half
/// that its address designates.
proof fn lemma_deliver<T: Item>(
    items: Seq<T>,
    limit: u64,
    s0: Seq<(Index, Calc)>,
    s2: Seq<(Index, Calc)>,
    t: Seq<int>,
    gl: Seq<int>,
    gr: Seq<int>,
    cl: Seq<int>,
    cr: Seq<int>,
    val: int,
)
    requires
        machine_inv(items, limit, s0, t, gl, gr, cl, cr),
        2 <= s0.len() <= usize::MAX,
        t[s0.len() - 1] == val,
        s2.len() == s0.len() - 1,
        forall|q: int| 0 <= q < s2.len() && q != addr_pos(s0.last().0) ==> s2[q] == s0[q],
        ({
            let p = addr_pos(s0.last().0);
            0 <= p < s2.len() ==> {
                &&& s2[p].0 == s0[p].0
                &&& s0[p].1 is Max
                &&& s2[p].1 is Max
                &&& match s0.last().0 {
                    Index::Left(_) => s2[p].1->Max_0 == s0[p].1->Max_0 + val && s2[p].1->Max_1
                        == s0[p].1->Max_1,
                    Index::Right(_) => s2[p].1->Max_1 == s0[p].1->Max_1 + val && s2[p].1->Max_0
                        == s0[p].1->Max_0,
                }
            }
        }),
    ensures
        machine_inv(
            items,
            limit,
            s2,
            t.drop_last(),
            gl.drop_last(),
            gr.drop_last(),
            release(cl, s0.last().0, false),
            release(cr, s0.last().0, true),
        ),
{
    let top = s0.len() - 1;
    let a = s0.last().0;
    let p = addr_pos(a);
    assert(addr_ok(s0, cl, cr, top));
    assert(slot_ok(items, s0, t, gl, gr, cl, cr, p));
    let nt = t.drop_last();
    let ngl = gl.drop_last();
    let ngr = gr.drop_last();
    let ncl = release(cl, a, false);
    let ncr = release(cr, a, true);
    assert forall|k: int| 1 <= k < s2.len() implies #[trigger] addr_ok(s2, ncl, ncr, k) by {
        assert(addr_ok(s0, cl, cr, k));
    }
    assert forall|q: int| 0 <= q < s2.len() implies #[trigger] slot_ok(
        items,
        s2,
        nt,
        ngl,
        ngr,
        ncl,
        ncr,
        q,
    ) by {
        assert(slot_ok(items, s0, t, gl, gr, cl, cr, q));
        if q == p {
            if cl[q] != -1 && cl[q] != top {
                assert(addr_ok(s0, cl, cr, cl[q]));
            }
            if cr[q] != -1 && cr[q] != top {
                assert(addr_ok(s0, cl, cr, cr[q]));
            }
            match a {
                Index::Left(_) => {
                    assert(cl[p] == top);
                    assert(ncl[p] == -1);
                    assert(ncr[p] == cr[p]);
                    assert(cr[p] != top);
                },
                Index::Right(_) => {
                    assert(cr[p] == top);
                    assert(ncr[p] == -1);
                    assert(ncl[p] == cl[p]);
                    assert(cl[p] != top);
                },
            }
        }
        if q != p && s0[q].1 is Max {
            if cl[q] != -1 {
                assert(addr_ok(s0, cl, cr, cl[q]));
            }
            if cr[q] != -1 {
                assert(addr_ok(s0, cl, cr, cr[q]));
            }
        }
    }
}

/// The top frame, on an item that cannot fit, is replaced by the frame
/// without that item, at the same address.
proof fn lemma_skip<T: Item>(
    items: Seq<T>,
    limit: u64,
    s0: Seq<(Index, Calc)>,
    t: Seq<int>,
    gl: Seq<int>,
    gr: Seq<int>,
    cl: Seq<int>,
    cr: Seq<int>,
    len: usize,
    lim: u64,
)
    requires
        machine_inv(items, limit, s0, t, gl, gr, cl, cr),
        s0.len() >= 1,
        s0.last().1 == (Calc::Arg { len, limit: lim }),
        1 <= len <= items.len(),
        items[len - 1].spec_weight() > lim,
    ensures
        machine_inv(
            items,
            limit,
            s0.update(s0.len() - 1, (s0.last().0, Calc::Arg { len: (len - 1) as usize, limit: lim })),
            t,
            gl,
            gr,
            cl,
            cr,
        ),
{
    let top = s0.len() - 1;
    let s2 = s0.update(top, (s0.last().0, Calc::Arg { len: (len - 1) as usize, limit: lim }));
    let pre = items.take(len as int);
    assert(pre.drop_last() =~= items.take(len - 1));
    assert(slot_ok(items, s0, t, gl, gr, cl, cr, top));
    assert forall|k: int| 1 <= k < s2.len() implies #[trigger] addr_ok(s2, cl, cr, k) by {
        assert(addr_ok(s0, cl, cr, k));
    }
    assert forall|q: int| 0 <= q < s2.len() implies #[trigger] slot_ok(
        items,
        s2,
        t,
        gl,
        gr,
        cl,
        cr,
        q,
    ) by {
        assert(slot_ok(items, s0, t, gl, gr, cl, cr, q));
    }
}

/// The top frame, on an item that fits, becomes an aggregation seeded with
/// the item's value, with the frame that leaves the item out and the frame
/// that takes it above it.
proof fn lemma_branch<T: Item>(
    items: Seq<T>,
    limit: u64,
    s0: Seq<(Index, Calc)>,
    t: Seq<int>,
    gl: Seq<int>,
    gr: Seq<int>,
    cl: Seq<int>,
    cr: Seq<int>,
    len: usize,
    lim: u64,
)
    requires
        machine_inv(items, limit, s0, t, gl, gr, cl, cr),
        1 <= s0.len() <= usize::MAX,
        s0.last().1 == (Calc::Arg { len, limit: lim }),
        1 <= len <= items.len(),
        items[len - 1].spec_weight() <= lim,
    ensures
        ({
            let top = s0.len() - 1;
            let v = items[len - 1].spec_value();
            let w = items[len - 1].spec_weight();
            let left_goal = arg_target(items, (len - 1) as usize, lim);
            let right_sub = arg_target(items, (len - 1) as usize, (lim - w) as u64);
            machine_inv(
                items,
                limit,
                s0.update(top, (s0.last().0, Calc::Max(0, v))).push(
                    (Index::Left(top as usize), Calc::Arg { len: (len - 1) as usize, limit: lim }),
                ).push(
                    (
                        Index::Right(top as usize),
                        Calc::Arg { len: (len - 1) as usize, limit: (lim - w) as u64 },
                    ),
                ),
                t.push(left_goal).push(right_sub),
                gl.update(top, left_goal).push(0).push(0),
                gr.update(top, right_sub + v).push(0).push(0),
                cl.update(top, top + 1).push(-1).push(-1),
                cr.update(top, top + 2).push(-1).push(-1),
            )
        }),
{
    let top = s0.len() - 1;
    let m = s0.len() as int;
    let v = items[len - 1].spec_value();
    let w = items[len - 1].spec_weight();
    let pre = items.take(len as int);
    assert(pre.drop_last() =~= items.take(len - 1));
    assert(pre.last() == items[len - 1]);
    lemma_target_bounds(items, (len - 1) as usize, lim);
    lemma_target_bounds(items, (len - 1) as usize, (lim - w) as u64);
    lemma_target_bounds(items, len, lim);
    assert(slot_ok(items, s0, t, gl, gr, cl, cr, top));
    let left_goal = arg_target(items, (len - 1) as usize, lim);
    let right_sub = arg_target(items, (len - 1) as usize, (lim - w) as u64);
    let s2 = s0.update(top, (s0.last().0, Calc::Max(0, v))).push(
        (Index::Left(top as usize), Calc::Arg { len: (len - 1) as usize, limit: lim }),
    ).push(
        (Index::Right(top as usize), Calc::Arg { len: (len - 1) as usize, limit: (lim - w) as u64 }),
    );
    let nt = t.push(left_goal).push(right_sub);
    let ngl = gl.update(top, left_goal).push(0).push(0);
    let ngr = gr.update(top, right_sub + v).push(0).push(0);
    let ncl = cl.update(top, m).push(-1).push(-1);
    let ncr = cr.update(top, m + 1).push(-1).push(-1);
    assert forall|k: int| 1 <= k < s2.len() implies #[trigger] addr_ok(s2, ncl, ncr, k) by {
        if k <= top {
            assert(addr_ok(s0, cl, cr, k));
        }
    }
    assert forall|q: int| 0 <= q < s2.len() implies #[trigger] slot_ok(
        items,
        s2,
        nt,
        ngl,
        ngr,
        ncl,
        ncr,
        q,
    ) by {
        if q < top {
            assert(slot_ok(items, s0, t, gl, gr, cl, cr, q));
        }
    }
}

/// Solves the 0-1 knapsack problem: the largest total value of a choice of
/// items, each used at most once, whose total weight is at most `limit`.
pub fn knapsack01<T: Item>(items: &[T], limit: u64) -> (r: u64)
    requires
        total_value(items@) <= u64::MAX,
    ensures
        r == best_value(items@, limit as int),
{
    let ghost all = items@;
    let mut stack: Vec<(Index, Calc)> = Vec::new();
    stack.push((Index::Left(0), Calc::arg(items.len(), limit)));
    let ghost mut t: Seq<int> = seq![best_value(all, limit as int)];
    let ghost mut gl: Seq<int> = seq![0];
    let ghost mut gr: Seq<int> = seq![0];
    let ghost mut cl: Seq<int> = seq![-1];
    let ghost mut cr: Seq<int> = seq![-1];
    proof {
        assert(all.take(all.len() as int) =~= all);
        lemma_best_nonneg(all, limit as int);
        assert(slot_ok(all, stack@, t, gl, gr, cl, cr, 0));
    }
    loop
        invariant
            all == items@,
            total_value(all) <= u64::MAX,
            machine_inv(all, limit, stack@, t, gl, gr, cl, cr),
            stack.len() > 0,
        decreases stack_work(stack@),
    {
        let ghost s0 = stack@;
        let ghost top = s0.len() - 1;
        proof {
            assert(slot_ok(all, s0, t, gl, gr, cl, cr, top));
            lemma_work_push(s0.drop_last(), s0.last());
            assert(s0.drop_last().push(s0.last()) =~= s0);
        }
        let (result, calc) = stack.pop().unwrap();
        let ghost s1 = stack@;
        match calc {
            Calc::Max(x, y) => {
                let best = if x >= y {
                    x
                } else {
                    y
                };
                proof {
                    // Nothing sits above the top frame, so both halves are in.
                    assert(half_ok(s0, t, top, x, gl[top], cl[top], Index::Left(top as usize)));
                    assert(half_ok(s0, t, top, y, gr[top], cr[top], Index::Right(top as usize)));
                }
                if stack.len() == 0 {
                    return best;
                }
                proof {
                    assert(addr_ok(s0, cl, cr, top));
                    assert(slot_ok(all, s0, t, gl, gr, cl, cr, addr_pos(result)));
                }
                let (p, right) = match result {
                    Index::Left(i) => (i, false),
                    Index::Right(i) => (i, true),
                };
                let (a, c) = stack[p];
                let nc = c.add_to_half(right, best);
                stack[p] = (a, nc);
                proof {
                    lemma_work_update(s1, p as int, (a, nc));
                    lemma_deliver(all, limit, s0, stack@, t, gl, gr, cl, cr, best as int);
                    t = t.drop_last();
                    gl = gl.drop_last();
                    gr = gr.drop_last();
                    cl = release(cl, result, false);
                    cr = release(cr, result, true);
                }
            },
            Calc::Arg { len, limit: lim } => {
                if len == 0 {
                    proof {
                        assert(all.take(0) =~= Seq::<T>::empty());
                    }
                    if stack.len() == 0 {
                        return 0;
                    }
                    proof {
                        assert(addr_ok(s0, cl, cr, top));
                        lemma_deliver(all, limit, s0, stack@, t, gl, gr, cl, cr, 0);
                        t = t.drop_last();
                        gl = gl.drop_last();
                        gr = gr.drop_last();
                        cl = release(cl, result, false);
                        cr = release(cr, result, true);
                    }
                } else {
                    let job = &items[len - 1];
                    let w = job.weight();
                    if w > lim {
                        stack.push((result, Calc::arg(len - 1, lim)));
                        proof {
                            lemma_work_push(s1, (result, Calc::Arg { len: (len - 1) as usize, limit: lim }));
                            assert(stack@ =~= s0.update(top, (result, Calc::Arg { len: (len - 1) as usize, limit: lim })));
                            lemma_skip(all, limit, s0, t, gl, gr, cl, cr, len, lim);
                        }
                    } else {
                        let v = job.value();
                        let i = stack.len();
                        stack.push((result, Calc::Max(0, v)));
                        stack.push((Index::Left(i), Calc::arg(len - 1, lim)));
                        stack.push((Index::Right(i), Calc::arg(len - 1, lim - w)));
                        proof {
                            let e0 = (result, Calc::Max(0, v));
                            let e1 = (Index::Left(i), Calc::Arg { len: (len - 1) as usize, limit: lim });
                            let e2 = (
                                Index::Right(i),
                                Calc::Arg { len: (len - 1) as usize, limit: (lim - w) as u64 },
                            );
                            lemma_work_push(s1, e0);
                            lemma_work_push(s1.push(e0), e1);
                            lemma_work_push(s1.push(e0).push(e1), e2);
                            assert(stack@ =~= s0.update(top, e0).push(e1).push(e2));
                            lemma_branch(all, limit, s0, t, gl, gr, cl, cr, len, lim);
                            let left_goal = arg_target(all, (len - 1) as usize, lim);
                            let right_sub = arg_target(all, (len - 1) as usize, (lim - w) as u64);
                            t = t.push(left_goal).push(right_sub);
                            gl = gl.update(top, left_goal).push(0).push(0);
                            gr = gr.update(top, right_sub + v).push(0).push(0);
                            cl = cl.update(top, top + 1).push(-1).push(-1);
                            cr = cr.update(top, top + 2).push(-1).push(-1);
                        }
                    }
                }
            },
        }
    }
}

/// Total weight of the items that `picks` marks as taken.
pub open spec fn picked_weight<T: Item>(items: Seq<T>, picks: Seq<bool>) -> int
    decreases items.len(),
{
    if items.len() == 0 || picks.len() == 0 {
        0
    } else {
        picked_weight(items.drop_last(), picks.drop_last()) + if picks.last() {
            items.last().spec_weight() as int
        } else {
            0
        }
    }
}

/// Total value of the items that `picks` marks as taken.
pub open spec fn picked_value<T: Item>(items: Seq<T>, picks: Seq<bool>) -> int
    decreases items.len(),
{
    if items.len() == 0 || picks.len() == 0 {
        0
    } else {
        picked_value(items.drop_last(), picks.drop_last()) + if picks.last() {
            items.last().spec_value() as int
        } else {
            0
        }
    }
}

/// A choice of items that reaches the optimum.
spec fn best_picks<T: Item>(items: Seq<T>, limit: int) -> Seq<bool>
    decreases items.len(),
{
    if items.len() == 0 {
        Seq::empty()
    } else {
        let job = items.last();
        let rest = items.drop_last();
        let w = job.spec_weight() as int;
        if w > limit || best_value(rest, limit) >= best_value(rest, limit - w) + job.spec_value() {
            best_picks(rest, limit).push(false)
        } else {
            best_picks(rest, limit - w).push(true)
        }
    }
}

proof fn lemma_picked_weight_nonneg<T: Item>(items: Seq<T>, picks: Seq<bool>)
    ensures
        picked_weight(items, picks) >= 0,
    decreases items.len(),
{
    if items.len() > 0 && picks.len() > 0 {
        lemma_picked_weight_nonneg(items.drop_last(), picks.drop_last());
    }
}

/// No choice of items within the capacity is worth more than the optimum.
pub proof fn lemma_best_bounds_every_choice<T: Item>(items: Seq<T>, picks: Seq<bool>, limit: int)
    requires
        picks.len() == items.len(),
        picked_weight(items, picks) <= limit,
    ensures
        picked_value(items, picks) <= best_value(items, limit),
    decreases items.len(),
{
    if items.len() > 0 {
        let rest = items.drop_last();
        let w = items.last().spec_weight() as int;
        lemma_picked_weight_nonneg(rest, picks.drop_last());
        if picks.last() {
            lemma_best_bounds_every_choice(rest, picks.drop_last(), limit - w);
        } else {
            lemma_best_bounds_every_choice(rest, picks.drop_last(), limit);
        }
    }
}

/// Some choice of items within the capacity is worth exactly the optimum.
pub proof fn lemma_best_attained<T: Item>(items: Seq<T>, limit: int)
    requires
        limit >= 0,
    ensures
        exists|picks: Seq<bool>|
            picks.len() == items.len() && picked_weight(items, picks) <= limit && #[trigger] picked_value(items, picks)
                == best_value(items, limit),
{
    lemma_best_picks(items, limit);
    let picks = best_picks(items, limit);
    assert(picked_value(items, picks) == best_value(items, limit));
}

proof fn lemma_best_picks<T: Item>(items: Seq<T>, limit: int)
    requires
        limit >= 0,
    ensures
        best_picks(items, limit).len() == items.len(),
        picked_weight(items, best_picks(items, limit)) <= limit,
        picked_value(items, best_picks(items, limit)) == best_value(items, limit),
    decreases items.len(),
{
    if items.len() > 0 {
        let rest = items.drop_last();
        let w = items.last().spec_weight() as int;
        if w > limit || best_value(rest, limit) >= best_value(rest, limit - w) + items.last().spec_value() {
            lemma_best_picks(rest, limit);
            assert(best_picks(rest, limit).push(false).drop_last() =~= best_picks(rest, limit));
        } else {
            lemma_best_picks(rest, limit - w);
            assert(best_picks(rest, limit - w).push(true).drop_last() =~= best_picks(rest, limit - w));
        }
    }
}

/// A larger capacity never gives a smaller optimum.
pub proof fn lemma_best_monotone_in_limit<T: Item>(items: Seq<T>, small: int, large: int)
    requires
        small <= large,
    ensures
        best_value(items, small) <= best_value(items, large),
    decreases items.len(),
{
    if items.len() > 0 {
        let rest = items.drop_last();
        let w = items.last().spec_weight() as int;
        lemma_best_monotone_in_limit(rest, small, large);
        lemma_best_monotone_in_limit(rest, small - w, large - w);
    }
}

/// Adding an item anywhere in the sequence never lowers the optimum.
pub proof fn lemma_best_monotone_in_items<T: Item>(items: Seq<T>, i: int, x: T, limit: int)
    requires
        0 <= i <= items.len(),
    ensures
        best_value(items, limit) <= best_value(items.insert(i, x), limit),
    decreases items.len(),
{
    let more = items.insert(i, x);
    if i == items.len() {
        assert(more.drop_last() =~= items);
    } else {
        let rest = items.drop_last();
        let w = items.last().spec_weight() as int;
        assert(more.drop_last() =~= rest.insert(i, x));
        assert(more.last() == items.last());
        lemma_best_monotone_in_items(rest, i, x, limit);
        lemma_best_monotone_in_items(rest, i, x, limit - w);
    }
}

/// With no items the optimum is zero, whatever the capacity.
pub proof fn lemma_best_empty<T: Item>(limit: int)
    ensures
        best_value(Seq::<T>::empty(), limit) == 0,
{
}

/// With no capacity and only items of positive weight the optimum is zero.
pub proof fn lemma_best_zero_limit<T: Item>(items: Seq<T>)
    requires
        forall|j: int| 0 <= j < items.len() ==> #[trigger] items[j].spec_weight() > 0,
    ensures
        best_value(items, 0) == 0,
    decreases items.len(),
{
    if items.len() > 0 {
        let rest = items.drop_last();
        assert forall|j: int| 0 <= j < rest.len() implies #[trigger] rest[j].spec_weight() > 0 by {
            assert(rest[j] == items[j]);
        }
        lemma_best_zero_limit(rest);
    }
}

/// An item heavier than the capacity adds nothing.
pub proof fn lemma_best_heavy_item<T: Item>(items: Seq<T>, x: T, limit: int)
    requires
        x.spec_weight() > limit,
    ensures
        best_value(items.push(x), limit) == best_value(items, limit),
{
    assert(items.push(x).drop_last() =~= items);
}

} // verus!
