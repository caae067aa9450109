//! Finished-good chains: every upstream production path that ends in a
//! requested finished good.
use crate::finished_good::FinishedGood;
use crate::order::{
    chain_before, chain_lt, chain_view, lemma_chain_lt_irreflexive, lemma_chain_lt_total,
    lemma_chain_lt_transitive,
};
use crate::work_order::{is_parent_fg, RoutingError, WorkOrderData, WorkOrderRow};
use vstd::prelude::*;

verus! {

/// Each code of `c` is recorded one hop upstream of the code after it.
pub open spec fn is_fg_chain(rows: Seq<WorkOrderRow>, c: Seq<Seq<char>>) -> bool {
    c.len() > 0 && forall|k: int|
        0 <= k < c.len() - 1 ==> is_parent_fg(rows, #[trigger] c[k + 1], c[k])
}

pub open spec fn has_parent_fg(rows: Seq<WorkOrderRow>, g: Seq<char>) -> bool {
    exists|p: Seq<char>| is_parent_fg(rows, g, p)
}

/// A chain that no recorded parent extends further upstream.
pub open spec fn is_complete_chain(rows: Seq<WorkOrderRow>, c: Seq<Seq<char>>) -> bool {
    is_fg_chain(rows, c) && !has_parent_fg(rows, c[0])
}

pub open spec fn is_target(targets: Seq<FinishedGood>, g: Seq<char>) -> bool {
    exists|t: int| 0 <= t < targets.len() && #[trigger] targets[t]@ == g
}

/// A complete chain that ends in a requested finished good.
pub open spec fn resolved_chain(
    rows: Seq<WorkOrderRow>,
    targets: Seq<FinishedGood>,
    c: Seq<Seq<char>>,
) -> bool {
    is_complete_chain(rows, c) && is_target(targets, c.last())
}

/// Some chain that ends in a requested good is longer than the table has
/// rows, so it passes some finished good twice.
pub open spec fn fg_cycle(rows: Seq<WorkOrderRow>, targets: Seq<FinishedGood>) -> bool {
    exists|x: Seq<Seq<char>>|
        is_fg_chain(rows, x) && is_target(targets, x.last()) && x.len() > rows.len()
}

pub open spec fn is_suffix(f: Seq<Seq<char>>, x: Seq<Seq<char>>) -> bool {
    f.len() <= x.len() && x.subrange(x.len() - f.len(), x.len() as int) == f
}

pub open spec fn in_chains(v: Seq<Vec<FinishedGood>>, x: Seq<Seq<char>>) -> bool {
    exists|k: int| 0 <= k < v.len() && chain_view(#[trigger] v[k]@) == x
}

pub open spec fn has_suffix_in(v: Seq<Vec<FinishedGood>>, x: Seq<Seq<char>>) -> bool {
    exists|k: int| 0 <= k < v.len() && is_suffix(chain_view(#[trigger] v[k]@), x)
}

pub open spec fn strictly_sorted(v: Seq<Vec<FinishedGood>>) -> bool {
    forall|a: int, b: int|
        0 <= a < b < v.len() ==> chain_lt(chain_view(#[trigger] v[a]@), chain_view(#[trigger] v[b]@))
}

proof fn lemma_suffix_step(rows: Seq<WorkOrderRow>, f: Seq<Seq<char>>, x: Seq<Seq<char>>)
    requires
        is_fg_chain(rows, x),
        is_suffix(f, x),
        0 < f.len() < x.len(),
    ensures
        is_parent_fg(rows, f[0], x[x.len() - f.len() - 1]),
        is_suffix(seq![x[x.len() - f.len() - 1]] + f, x),
{
    let k = x.len() - f.len() - 1;
    assert(f[0] == x.subrange(k + 1, x.len() as int)[0]);
    assert(is_parent_fg(rows, x[k + 1], x[k]));
    assert(x.subrange(k, x.len() as int) =~= seq![x[k]] + f);
}

proof fn lemma_suffix_whole(rows: Seq<WorkOrderRow>, f: Seq<Seq<char>>, x: Seq<Seq<char>>)
    requires
        is_fg_chain(rows, x),
        is_suffix(f, x),
        0 < f.len(),
        !has_parent_fg(rows, f[0]),
    ensures
        f == x,
{
    if f.len() < x.len() {
        lemma_suffix_step(rows, f, x);
    }
    assert(x.subrange(0, x.len() as int) =~= x);
}

/// `[p] + c`.
fn prepend(p: &FinishedGood, c: &Vec<FinishedGood>) -> (r: Vec<FinishedGood>)
    ensures
        chain_view(r@) == seq![p@] + chain_view(c@),
{
    let mut r: Vec<FinishedGood> = Vec::new();
    r.push(p.clone());
    let mut i: usize = 0;
    while i < c.len()
        invariant
            i <= c@.len(),
            chain_view(r@) =~= seq![p@] + chain_view(c@.subrange(0, i as int)),
        decreases c@.len() - i,
    {
        let ghost old_r = r@;
        r.push(c[i].clone());
        assert(chain_view(r@) =~= chain_view(old_r).push(c@[i as int]@));
        assert(chain_view(c@.subrange(0, i + 1)) =~= chain_view(c@.subrange(0, i as int)).push(
            c@[i as int]@,
        ));
        i = i + 1;
    }
    assert(c@.subrange(0, c@.len() as int) =~= c@);
    r
}

/// Adds `c` to a strictly sorted list of chains, unless it is there already.
fn insert_chain(done: &mut Vec<Vec<FinishedGood>>, c: Vec<FinishedGood>)
    requires
        strictly_sorted(old(done)@),
    ensures
        strictly_sorted(final(done)@),
        forall|x: Seq<Seq<char>>|
            in_chains(final(done)@, x) <==> (in_chains(old(done)@, x) || x == chain_view(c@)),
{
    let ghost cv = chain_view(c@);
    let mut pos: usize = 0;
    while pos < done.len() && chain_before(&done[pos], &c)
        invariant
            pos <= done@.len(),
            cv == chain_view(c@),
            forall|k: int| 0 <= k < pos ==> chain_lt(chain_view(#[trigger] done@[k]@), cv),
        decreases done@.len() - pos,
    {
        pos = pos + 1;
    }
    if pos < done.len() && !chain_before(&c, &done[pos]) {
        proof {
            if chain_view(done@[pos as int]@) != cv {
                lemma_chain_lt_total(chain_view(done@[pos as int]@), cv);
            }
            assert(in_chains(done@, cv));
        }
        return;
    }
    let ghost old_d = done@;
    done.insert(pos, c);
    proof {
        assert forall|a: int, b: int| 0 <= a < b < done@.len() implies chain_lt(
            chain_view(#[trigger] done@[a]@),
            chain_view(#[trigger] done@[b]@),
        ) by {
            if b == pos {
                assert(done@[a] == old_d[a]);
            } else if a == pos {
                assert(done@[b] == old_d[b - 1]);
                if b - 1 > pos {
                    assert(chain_lt(chain_view(old_d[pos as int]@), chain_view(old_d[b - 1]@)));
                    lemma_chain_lt_transitive(
                        cv,
                        chain_view(old_d[pos as int]@),
                        chain_view(old_d[b - 1]@),
                    );
                }
            } else if a < pos && b > pos {
                assert(done@[a] == old_d[a]);
                assert(done@[b] == old_d[b - 1]);
            } else if b < pos {
                assert(done@[a] == old_d[a]);
                assert(done@[b] == old_d[b]);
            } else {
                assert(done@[a] == old_d[a - 1]);
                assert(done@[b] == old_d[b - 1]);
            }
        }
        assert forall|x: Seq<Seq<char>>|
            in_chains(done@, x) <==> (in_chains(old_d, x) || x == cv) by {
            if in_chains(done@, x) {
                let k = choose|k: int| 0 <= k < done@.len() && chain_view(#[trigger] done@[k]@) == x;
                if k < pos {
                    assert(done@[k] == old_d[k]);
                } else if k > pos {
                    assert(done@[k] == old_d[k - 1]);
                }
            }
            if in_chains(old_d, x) {
                let k = choose|k: int| 0 <= k < old_d.len() && chain_view(#[trigger] old_d[k]@) == x;
                if k < pos {
                    assert(done@[k] == old_d[k]);
                } else {
                    assert(done@[k + 1] == old_d[k]);
                }
            }
            if x == cv {
                assert(done@[pos as int] == c);
            }
        }
    }
}

/// Expands each requested finished good upstream, one hop per round, into
/// every complete chain that ends in it. The chains come out strictly sorted.
/// Expansion stops with `CyclicRouting` once a chain grows longer than the
/// table has rows, which only a cycle of parent links allows.
pub fn resolve(targets: &Vec<FinishedGood>, data: &WorkOrderData) -> (r: Result<
    Vec<Vec<FinishedGood>>,
    RoutingError,
>)
    requires
        data.wf(),
    ensures
        match r {
            Ok(chains) => {
                &&& strictly_sorted(chains@)
                &&& targets@.len() > 0 ==> chains@.len() > 0
                &&& forall|x: Seq<Seq<char>>|
                    in_chains(chains@, x) <==> resolved_chain(data.rows@, targets@, x)
            },
            Err(e) => e == RoutingError::CyclicRouting && fg_cycle(data.rows@, targets@),
        },
{
    let ghost rows = data.rows@;
    let n = data.rows.len();
    let mut frontier: Vec<Vec<FinishedGood>> = Vec::new();
    let mut t: usize = 0;
    while t < targets.len()
        invariant
            t <= targets@.len(),
            frontier@.len() == t,
            forall|k: int|
                0 <= k < t ==> chain_view(#[trigger] frontier@[k]@) == seq![targets@[k]@],
        decreases targets@.len() - t,
    {
        let mut c: Vec<FinishedGood> = Vec::new();
        c.push(targets[t].clone());
        assert(chain_view(c@) =~= seq![targets@[t as int]@]);
        frontier.push(c);
        t = t + 1;
    }
    proof {
        assert forall|x: Seq<Seq<char>>| resolved_chain(rows, targets@, x) implies has_suffix_in(
            frontier@,
            x,
        ) by {
            let t0 = choose|t0: int| 0 <= t0 < targets@.len() && #[trigger] targets@[t0]@ == x.last();
            assert(x.subrange(x.len() - 1, x.len() as int) =~= seq![x.last()]);
            assert(is_suffix(chain_view(frontier@[t0]@), x));
        }
    }
    let mut done: Vec<Vec<FinishedGood>> = Vec::new();
    let mut round: usize = 0;
    while round < n
        invariant
            data.wf(),
            rows == data.rows@,
            n == rows.len(),
            round <= n,
            forall|k: int|
                0 <= k < frontier@.len() ==> {
                    let f = chain_view(#[trigger] frontier@[k]@);
                    is_fg_chain(rows, f) && is_target(targets@, f.last()) && f.len() == round + 1
                },
            strictly_sorted(done@),
            targets@.len() > 0 ==> done@.len() > 0 || frontier@.len() > 0,
            forall|x: Seq<Seq<char>>|
                in_chains(done@, x) ==> resolved_chain(rows, targets@, x),
            forall|x: Seq<Seq<char>>|
                resolved_chain(rows, targets@, x) ==> in_chains(done@, x) || has_suffix_in(
                    frontier@,
                    x,
                ),
        decreases n - round,
    {
        let mut next: Vec<Vec<FinishedGood>> = Vec::new();
        while frontier.len() > 0
            invariant
                data.wf(),
                rows == data.rows@,
                forall|k: int|
                    0 <= k < frontier@.len() ==> {
                        let f = chain_view(#[trigger] frontier@[k]@);
                        is_fg_chain(rows, f) && is_target(targets@, f.last()) && f.len() == round
                            + 1
                    },
                forall|k: int|
                    0 <= k < next@.len() ==> {
                        let f = chain_view(#[trigger] next@[k]@);
                        is_fg_chain(rows, f) && is_target(targets@, f.last()) && f.len() == round
                            + 2
                    },
                strictly_sorted(done@),
                targets@.len() > 0 ==> done@.len() > 0 || frontier@.len() > 0 || next@.len() > 0,
                forall|x: Seq<Seq<char>>|
                    in_chains(done@, x) ==> resolved_chain(rows, targets@, x),
                forall|x: Seq<Seq<char>>|
                    resolved_chain(rows, targets@, x) ==> in_chains(done@, x) || has_suffix_in(
                        frontier@,
                        x,
                    ) || has_suffix_in(next@, x),
            decreases frontier@.len(),
        {
            let ghost old_frontier = frontier@;
            let ghost old_done = done@;
            let ghost old_next = next@;
            let c = frontier.pop().unwrap();
            let ghost cv = chain_view(c@);
            assert(old_frontier[old_frontier.len() - 1] == c);
            assert(cv[0] == c@[0]@);
            let parents = data.parent_fgs(&c[0]);
            if parents.len() == 0 {
                proof {
                    assert(!has_parent_fg(rows, cv[0])) by {
                        if has_parent_fg(rows, cv[0]) {
                            let p = choose|p: Seq<char>| is_parent_fg(rows, cv[0], p);
                            let k = choose|k: int| 0 <= k < parents@.len() && #[trigger] parents@[k]@ == p;
                        }
                    }
                }
                insert_chain(&mut done, c);
                proof {
                    assert(in_chains(done@, cv));
                    assert forall|x: Seq<Seq<char>>| resolved_chain(rows, targets@, x) implies in_chains(
                        done@,
                        x,
                    ) || has_suffix_in(frontier@, x) || has_suffix_in(next@, x) by {
                        if !in_chains(old_done, x) && !has_suffix_in(old_next, x) {
                            let k = choose|k: int|
                                0 <= k < old_frontier.len() && is_suffix(
                                    chain_view(#[trigger] old_frontier[k]@),
                                    x,
                                );
                            if k < old_frontier.len() - 1 {
                                assert(frontier@[k] == old_frontier[k]);
                            } else {
                                lemma_suffix_whole(rows, cv, x);
                            }
                        }
                    }
                }
            } else {
                let mut j: usize = 0;
                while j < parents.len()
                    invariant
                        data.wf(),
                        rows == data.rows@,
                        j <= parents@.len(),
                        cv == chain_view(c@),
                        is_fg_chain(rows, cv),
                        is_target(targets@, cv.last()),
                        cv.len() == round + 1,
                        forall|k: int|
                            0 <= k < parents@.len() ==> is_parent_fg(rows, cv[0], #[trigger] parents@[k]@),
                        old_next.len() <= next@.len(),
                        forall|k: int| 0 <= k < old_next.len() ==> #[trigger] next@[k] == old_next[k],
                        forall|k: int|
                            0 <= k < next@.len() ==> {
                                let f = chain_view(#[trigger] next@[k]@);
                                is_fg_chain(rows, f) && is_target(targets@, f.last()) && f.len()
                                    == round + 2
                            },
                        forall|k: int|
                            0 <= k < j ==> in_chains(next@, seq![(#[trigger] parents@[k])@] + cv),
                    decreases parents@.len() - j,
                {
                    let e = prepend(&parents[j], &c);
                    let ghost ev = chain_view(e@);
                    proof {
                        assert forall|k: int| 0 <= k < ev.len() - 1 implies is_parent_fg(
                            rows,
                            #[trigger] ev[k + 1],
                            ev[k],
                        ) by {
                            if k > 0 {
                                assert(ev[k + 1] == cv[k] && ev[k] == cv[k - 1]);
                                assert(is_parent_fg(rows, cv[(k - 1) + 1], cv[k - 1]));
                            } else {
                                assert(is_parent_fg(rows, cv[0], parents@[j as int]@));
                                assert(ev[1] == cv[0] && ev[0] == parents@[j as int]@);
                            }
                        }
                        assert(ev.last() == cv.last());
                    }
                    let ghost before = next@;
                    next.push(e);
                    proof {
                        assert(next@[next@.len() - 1] == e);
                        assert forall|k: int| 0 <= k < j + 1 implies in_chains(
                            next@,
                            seq![(#[trigger] parents@[k])@] + cv,
                        ) by {
                            if k < j {
                                let m = choose|m: int|
                                    0 <= m < before.len() && chain_view(#[trigger] before[m]@)
                                        == seq![parents@[k]@] + cv;
                                assert(next@[m] == before[m]);
                            }
                        }
                    }
                    j = j + 1;
                }
                proof {
                    assert(is_parent_fg(rows, cv[0], parents@[0]@));
                    assert(has_parent_fg(rows, cv[0]));
                    assert forall|x: Seq<Seq<char>>| resolved_chain(rows, targets@, x) implies in_chains(
                        done@,
                        x,
                    ) || has_suffix_in(frontier@, x) || has_suffix_in(next@, x) by {
                        if has_suffix_in(old_next, x) {
                            let k = choose|k: int|
                                0 <= k < old_next.len() && is_suffix(chain_view(#[trigger] old_next[k]@), x);
                            assert(next@[k] == old_next[k]);
                        } else if !in_chains(done@, x) {
                            let k = choose|k: int|
                                0 <= k < old_frontier.len() && is_suffix(
                                    chain_view(#[trigger] old_frontier[k]@),
                                    x,
                                );
                            if k < old_frontier.len() - 1 {
                                assert(frontier@[k] == old_frontier[k]);
                            } else {
                                if cv.len() == x.len() {
                                    assert(x.subrange(0, x.len() as int) =~= x);
                                }
                                lemma_suffix_step(rows, cv, x);
                                let q = x[x.len() - cv.len() - 1];
                                let kp = choose|kp: int| 0 <= kp < parents@.len() && #[trigger] parents@[kp]@ == q;
                                assert(in_chains(next@, seq![(parents@[kp])@] + cv));
                                let m = choose|m: int|
                                    0 <= m < next@.len() && chain_view(#[trigger] next@[m]@)
                                        == seq![parents@[kp]@] + cv;
                                assert(is_suffix(chain_view(next@[m]@), x));
                            }
                        }
                    }
                }
            }
        }
        frontier = next;
        round = round + 1;
    }
    if frontier.len() == 0 {
        proof {
            assert forall|x: Seq<Seq<char>>|
                in_chains(done@, x) <==> resolved_chain(data.rows@, targets@, x) by {
                if resolved_chain(rows, targets@, x) {
                    assert(!has_suffix_in(frontier@, x));
                }
            }
        }
        return Ok(done);
    }
    assert(chain_view(frontier@[0]@).len() > rows.len());
    Err(RoutingError::CyclicRouting)
}

/// Two strictly sorted lists of chains that hold the same chains are the
/// same list.
proof fn lemma_sorted_lists_equal(a: Seq<Vec<FinishedGood>>, b: Seq<Vec<FinishedGood>>)
    requires
        strictly_sorted(a),
        strictly_sorted(b),
        forall|x: Seq<Seq<char>>| in_chains(a, x) <==> in_chains(b, x),
    ensures
        a.len() == b.len(),
        forall|k: int| 0 <= k < a.len() ==> chain_view(#[trigger] a[k]@) == chain_view(b[k]@),
    decreases a.len(),
{
    if a.len() == 0 {
        if b.len() > 0 {
            assert(in_chains(b, chain_view(b[0]@)));
        }
    } else {
        assert(in_chains(a, chain_view(a[0]@)));
        let j = choose|j: int| 0 <= j < b.len() && chain_view(#[trigger] b[j]@) == chain_view(a[0]@);
        assert(in_chains(b, chain_view(b[0]@)));
        let i = choose|i: int| 0 <= i < a.len() && chain_view(#[trigger] a[i]@) == chain_view(b[0]@);
        if j > 0 && i > 0 {
            assert(chain_lt(chain_view(b[0]@), chain_view(b[j]@)));
            assert(chain_lt(chain_view(a[0]@), chain_view(a[i]@)));
            lemma_chain_lt_transitive(chain_view(a[0]@), chain_view(b[0]@), chain_view(a[0]@));
            lemma_chain_lt_irreflexive(chain_view(a[0]@));
        } else if j > 0 {
            assert(chain_lt(chain_view(b[0]@), chain_view(b[j]@)));
            lemma_chain_lt_irreflexive(chain_view(a[0]@));
        } else if i > 0 {
            assert(chain_lt(chain_view(a[0]@), chain_view(a[i]@)));
            lemma_chain_lt_irreflexive(chain_view(a[0]@));
        }
        let h = chain_view(a[0]@);
        assert(h == chain_view(b[0]@));
        let ta = a.drop_first();
        let tb = b.drop_first();
        assert forall|x: Seq<Seq<char>>| in_chains(ta, x) <==> in_chains(tb, x) by {
            if in_chains(ta, x) {
                let k = choose|k: int| 0 <= k < ta.len() && chain_view(#[trigger] ta[k]@) == x;
                assert(ta[k] == a[k + 1]);
                assert(in_chains(a, x));
                let m = choose|m: int| 0 <= m < b.len() && chain_view(#[trigger] b[m]@) == x;
                assert(chain_lt(h, x));
                if m == 0 {
                    lemma_chain_lt_irreflexive(h);
                }
                assert(tb[m - 1] == b[m]);
            }
            if in_chains(tb, x) {
                let k = choose|k: int| 0 <= k < tb.len() && chain_view(#[trigger] tb[k]@) == x;
                assert(tb[k] == b[k + 1]);
                assert(in_chains(b, x));
                let m = choose|m: int| 0 <= m < a.len() && chain_view(#[trigger] a[m]@) == x;
                assert(chain_lt(h, x));
                if m == 0 {
                    lemma_chain_lt_irreflexive(h);
                }
                assert(ta[m - 1] == a[m]);
            }
        }
        assert forall|p: int, q: int| 0 <= p < q < ta.len() implies chain_lt(
            chain_view(#[trigger] ta[p]@),
            chain_view(#[trigger] ta[q]@),
        ) by {
            assert(ta[p] == a[p + 1] && ta[q] == a[q + 1]);
        }
        assert forall|p: int, q: int| 0 <= p < q < tb.len() implies chain_lt(
            chain_view(#[trigger] tb[p]@),
            chain_view(#[trigger] tb[q]@),
        ) by {
            assert(tb[p] == b[p + 1] && tb[q] == b[q + 1]);
        }
        lemma_sorted_lists_equal(ta, tb);
        assert forall|k: int| 0 <= k < a.len() implies chain_view(#[trigger] a[k]@) == chain_view(
            b[k]@,
        ) by {
            if k > 0 {
                assert(ta[k - 1] == a[k] && tb[k - 1] == b[k]);
            }
        }
    }
}

/// Resolution is deterministic: any two chain lists that `resolve` may
/// return for the same rows and requested goods list the same chains in the
/// same order.
pub proof fn lemma_resolve_deterministic(
    rows: Seq<WorkOrderRow>,
    targets: Seq<FinishedGood>,
    a: Seq<Vec<FinishedGood>>,
    b: Seq<Vec<FinishedGood>>,
)
    requires
        strictly_sorted(a),
        strictly_sorted(b),
        forall|x: Seq<Seq<char>>| in_chains(a, x) <==> resolved_chain(rows, targets, x),
        forall|x: Seq<Seq<char>>| in_chains(b, x) <==> resolved_chain(rows, targets, x),
    ensures
        a.len() == b.len(),
        forall|k: int| 0 <= k < a.len() ==> chain_view(#[trigger] a[k]@) == chain_view(b[k]@),
{
    lemma_sorted_lists_equal(a, b);
}

/// No resolved chain stops while its first finished good still has a
/// recorded parent.
pub proof fn lemma_resolved_chains_complete(
    rows: Seq<WorkOrderRow>,
    targets: Seq<FinishedGood>,
    cs: Seq<Vec<FinishedGood>>,
    k: int,
)
    requires
        forall|x: Seq<Seq<char>>| in_chains(cs, x) <==> resolved_chain(rows, targets, x),
        0 <= k < cs.len(),
    ensures
        !has_parent_fg(rows, chain_view(cs[k]@)[0]),
        chain_view(cs[k]@).len() > 0,
{
    assert(in_chains(cs, chain_view(cs[k]@)));
}

/// A finished good with exactly two recorded parents, neither of which has a
/// parent of its own, resolves into exactly two chains: one through each
/// parent, both ending in it.
pub proof fn lemma_fan_out(
    rows: Seq<WorkOrderRow>,
    targets: Seq<FinishedGood>,
    g: Seq<char>,
    pa: Seq<char>,
    pb: Seq<char>,
    cs: Seq<Vec<FinishedGood>>,
)
    requires
        targets.len() > 0,
        forall|t: int| 0 <= t < targets.len() ==> (#[trigger] targets[t])@ == g,
        pa != pb,
        is_parent_fg(rows, g, pa),
        is_parent_fg(rows, g, pb),
        forall|p: Seq<char>| is_parent_fg(rows, g, p) ==> p == pa || p == pb,
        !has_parent_fg(rows, pa),
        !has_parent_fg(rows, pb),
        strictly_sorted(cs),
        forall|x: Seq<Seq<char>>| in_chains(cs, x) <==> resolved_chain(rows, targets, x),
    ensures
        cs.len() == 2,
        in_chains(cs, seq![pa, g]),
        in_chains(cs, seq![pb, g]),
        forall|k: int|
            0 <= k < cs.len() ==> chain_view(#[trigger] cs[k]@) == seq![pa, g] || chain_view(cs[k]@)
                == seq![pb, g],
{
    let via_a = seq![pa, g];
    let via_b = seq![pb, g];
    assert(targets[0]@ == g);
    assert(is_parent_fg(rows, via_a[0int + 1], via_a[0]));
    assert(is_parent_fg(rows, via_b[0int + 1], via_b[0]));
    assert(resolved_chain(rows, targets, via_a));
    assert(resolved_chain(rows, targets, via_b));
    assert forall|k: int| 0 <= k < cs.len() implies chain_view(#[trigger] cs[k]@) == via_a || chain_view(
        cs[k]@,
    ) == via_b by {
        let x = chain_view(cs[k]@);
        assert(in_chains(cs, x));
        assert(resolved_chain(rows, targets, x));
        let t = choose|t: int| 0 <= t < targets.len() && #[trigger] targets[t]@ == x.last();
        if x.len() == 1 {
            assert(x[0] == g);
            assert(has_parent_fg(rows, g));
        } else {
            let n = x.len() as int;
            assert(is_parent_fg(rows, x[(n - 2) + 1], x[n - 2]));
            if n > 2 {
                assert(is_parent_fg(rows, x[(n - 3) + 1], x[n - 3]));
                assert(has_parent_fg(rows, x[n - 2]));
            }
            assert(x =~= seq![x[0], x[1]]);
        }
    }
    assert(in_chains(cs, via_a));
    assert(in_chains(cs, via_b));
    let ia = choose|k: int| 0 <= k < cs.len() && chain_view(#[trigger] cs[k]@) == via_a;
    let ib = choose|k: int| 0 <= k < cs.len() && chain_view(#[trigger] cs[k]@) == via_b;
    assert(via_a != via_b) by {
        assert(via_a[0] != via_b[0]);
    }
    if cs.len() > 2 {
        let v0 = chain_view(cs[0]@);
        let v1 = chain_view(cs[1]@);
        let v2 = chain_view(cs[2]@);
        assert(chain_lt(v0, v1) && chain_lt(v1, v2) && chain_lt(v0, v2));
        lemma_chain_lt_irreflexive(v0);
        lemma_chain_lt_irreflexive(v1);
        lemma_chain_lt_irreflexive(v2);
        assert(v0 == via_a || v0 == via_b);
        assert(v1 == via_a || v1 == via_b);
        assert(v2 == via_a || v2 == via_b);
    }
    if cs.len() < 2 {
        assert(ia == ib);
    }
}

} // verus!
