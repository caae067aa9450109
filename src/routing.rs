//! Work-order chains and the routing step that each work order displays.
use crate::chains::{has_parent_fg, is_complete_chain, is_fg_chain};
use crate::finished_good::step_of;
use crate::work_order::{is_parent_fg, parent_link, unique_ids, RoutingError, WorkOrderData, WorkOrderRow};
use vstd::prelude::*;

verus! {

/// `c` climbs from row `start` by parent links, topmost row first.
pub open spec fn is_upward_walk(rows: Seq<WorkOrderRow>, c: Seq<usize>, start: int) -> bool {
    &&& c.len() > 0
    &&& c.last() == start
    &&& forall|k: int| 0 <= k < c.len() ==> #[trigger] c[k] < rows.len()
    &&& forall|k: int| 0 <= k < c.len() - 1 ==> parent_link(rows, #[trigger] c[k + 1] as int, c[k] as int)
}

/// Row `start` has an upward walk longer than the table has rows, none of
/// whose rows is a root: parent links from it run in a cycle.
pub open spec fn parentless_walk(rows: Seq<WorkOrderRow>, start: int) -> bool {
    exists|c: Seq<usize>|
        is_upward_walk(rows, c, start) && c.len() > rows.len() && forall|k: int|
            0 <= k < c.len() ==> (#[trigger] rows[c[k] as int]).parent.is_some()
}

/// Some row's parent links run in a cycle.
pub open spec fn wo_cycle(rows: Seq<WorkOrderRow>) -> bool {
    exists|j: int| 0 <= j < rows.len() && parentless_walk(rows, j)
}

/// An upward walk that ends at a row without a parent.
pub open spec fn is_wo_chain(rows: Seq<WorkOrderRow>, c: Seq<usize>, start: int) -> bool {
    is_upward_walk(rows, c, start) && rows[c[0] as int].parent.is_none()
}

/// The work-order chain of row `start`: its ancestors from the topmost one
/// down, then the row itself.
pub fn wo_chain(data: &WorkOrderData, start: usize) -> (r: Result<Vec<usize>, RoutingError>)
    requires
        data.wf(),
        start < data.rows@.len(),
    ensures
        match r {
            Ok(c) => is_wo_chain(data.rows@, c@, start as int),
            Err(e) => e == RoutingError::CyclicRouting && parentless_walk(data.rows@, start as int),
        },
{
    let ghost rows = data.rows@;
    let n = data.rows.len();
    let mut wos: Vec<usize> = Vec::new();
    wos.push(start);
    let mut cur: usize = start;
    while wos.len() <= n
        invariant
            data.wf(),
            rows == data.rows@,
            n == rows.len(),
            wos@.len() > 0,
            cur == wos@[0],
            is_upward_walk(rows, wos@, start as int),
            forall|k: int| 1 <= k < wos@.len() ==> (#[trigger] rows[wos@[k] as int]).parent.is_some(),
        decreases n + 1 - wos@.len(),
    {
        match data.rows[cur].parent {
            None => {
                return Ok(wos);
            },
            Some(p) => {
                proof {
                    assert(data.rows@[cur as int].parent.is_some());
                }
                let j = data.lookup(p).unwrap();
                let ghost old_w = wos@;
                wos.insert(0, j);
                proof {
                    assert forall|k: int| 0 <= k < wos@.len() - 1 implies parent_link(
                        rows,
                        #[trigger] wos@[k + 1] as int,
                        wos@[k] as int,
                    ) by {
                        assert(wos@[k + 1] == old_w[k]);
                        if k > 0 {
                            assert(wos@[k] == old_w[k - 1]);
                            assert(parent_link(rows, old_w[(k - 1) + 1] as int, old_w[k - 1] as int));
                        }
                    }
                    assert forall|k: int| 0 <= k < wos@.len() implies #[trigger] wos@[k] < rows.len() by {
                        if k > 0 {
                            assert(wos@[k] == old_w[k - 1]);
                        }
                    }
                    assert forall|k: int| 1 <= k < wos@.len() implies (#[trigger] rows[wos@[k] as int]).parent.is_some() by {
                        assert(wos@[k] == old_w[k - 1]);
                    }
                    assert(wos@.last() == old_w.last());
                }
                cur = j;
            },
        }
    }
    if data.rows[cur].parent.is_none() {
        return Ok(wos);
    }
    assert(rows[wos@[0] as int].parent.is_some());
    Err(RoutingError::CyclicRouting)
}

/// A finished good that denotes a routing step after the first.
pub open spec fn later_step(g: Seq<char>) -> bool {
    step_of(g).is_some() && step_of(g) != Some(1nat)
}

/// Row `j` is a step-1 work order under parent work order `p`.
pub open spec fn step_one_under(rows: Seq<WorkOrderRow>, p: u64, j: int) -> bool {
    0 <= j < rows.len() && rows[j].parent == Some(p) && step_of(rows[j].fg@) == Some(1nat)
}

/// Row `j` is the first step-1 work order under `p`.
pub open spec fn first_step_one(rows: Seq<WorkOrderRow>, p: u64, j: int) -> bool {
    step_one_under(rows, p, j) && forall|k: int| 0 <= k < j ==> !step_one_under(rows, p, k)
}

/// The routing step that row `i` displays: its own, unless its finished good
/// is a later routing step, which shows the step of the first step-1 sibling
/// under the same parent. `None` when there is no such sibling.
pub open spec fn displayed_step(rows: Seq<WorkOrderRow>, i: int) -> Option<u64> {
    if !later_step(rows[i].fg@) {
        Some(rows[i].routing_step)
    } else {
        match rows[i].parent {
            None => None,
            Some(p) => if exists|j: int| first_step_one(rows, p, j) {
                Some(rows[choose|j: int| first_step_one(rows, p, j)].routing_step)
            } else {
                None
            },
        }
    }
}

/// The routing step that row `i` displays; `MissingStepOne` with the row's
/// work order when a later step has no step-1 sibling under its parent.
pub fn normalized_step(data: &WorkOrderData, i: usize) -> (r: Result<u64, RoutingError>)
    requires
        i < data.rows@.len(),
    ensures
        r == match displayed_step(data.rows@, i as int) {
            Some(v) => Ok::<u64, RoutingError>(v),
            None => Err(RoutingError::MissingStepOne(data.rows@[i as int].work_order)),
        },
{
    let ghost rows = data.rows@;
    let row = &data.rows[i];
    if !(row.fg.is_step() && !row.fg.is_step_number(1)) {
        return Ok(row.routing_step);
    }
    let p = match row.parent {
        None => {
            return Err(RoutingError::MissingStepOne(row.work_order));
        },
        Some(p) => p,
    };
    let mut j: usize = 0;
    while j < data.rows.len()
        invariant
            rows == data.rows@,
            j <= rows.len(),
            i < rows.len(),
            later_step(rows[i as int].fg@),
            rows[i as int].parent == Some(p),
            forall|k: int| 0 <= k < j ==> !step_one_under(rows, p, k),
        decreases rows.len() - j,
    {
        if data.rows[j].parent == Some(p) && data.rows[j].fg.is_step_number(1) {
            proof {
                assert(first_step_one(rows, p, j as int));
                let c = choose|c: int| first_step_one(rows, p, c);
                assert(first_step_one(rows, p, c));
                if c < j {
                    assert(!step_one_under(rows, p, c));
                } else if c > j {
                    assert(!step_one_under(rows, p, j as int));
                }
                assert(c == j);
            }
            return Ok(data.rows[j].routing_step);
        }
        j = j + 1;
    }
    Err(RoutingError::MissingStepOne(row.work_order))
}

/// The rows with each routing step replaced by the step it displays (kept
/// where it has none).
pub open spec fn normalize_rows(rows: Seq<WorkOrderRow>) -> Seq<WorkOrderRow> {
    Seq::new(
        rows.len(),
        |i: int|
            WorkOrderRow {
                work_order: rows[i].work_order,
                fg: rows[i].fg,
                parent: rows[i].parent,
                work_type: rows[i].work_type,
                sales_level: rows[i].sales_level,
                routing_step: match displayed_step(rows, i) {
                    Some(v) => v,
                    None => rows[i].routing_step,
                },
            },
    )
}

/// Normalizing the displayed steps is idempotent: on the normalized rows
/// every row displays the step it displayed before, so normalizing twice
/// gives what normalizing once gives.
pub proof fn lemma_normalize_idempotent(rows: Seq<WorkOrderRow>)
    ensures
        forall|i: int|
            0 <= i < rows.len() ==> #[trigger] displayed_step(normalize_rows(rows), i)
                == displayed_step(rows, i),
        normalize_rows(normalize_rows(rows)) == normalize_rows(rows),
{
    let n = normalize_rows(rows);
    assert forall|i: int| 0 <= i < rows.len() implies #[trigger] displayed_step(n, i)
        == displayed_step(rows, i) by {
        assert forall|p: u64, j: int| step_one_under(n, p, j) == step_one_under(rows, p, j) by {
            if 0 <= j < rows.len() {
                assert(n[j].fg == rows[j].fg && n[j].parent == rows[j].parent);
            }
        }
        assert forall|p: u64, j: int| first_step_one(n, p, j) == first_step_one(rows, p, j) by {
            assert forall|k: int| 0 <= k < j implies step_one_under(n, p, k) == step_one_under(
                rows,
                p,
                k,
            ) by {}
        }
        if later_step(rows[i].fg@) {
            match rows[i].parent {
                None => {},
                Some(p) => {
                    if exists|j: int| first_step_one(rows, p, j) {
                        let a = choose|j: int| first_step_one(rows, p, j);
                        assert(first_step_one(n, p, a));
                        let b = choose|j: int| first_step_one(n, p, j);
                        assert(first_step_one(rows, p, b));
                        if a < b {
                            assert(!step_one_under(rows, p, a));
                        } else if b < a {
                            assert(!step_one_under(rows, p, b));
                        }
                        assert(!later_step(rows[a].fg@));
                    } else {
                        assert forall|j: int| !first_step_one(n, p, j) by {
                            if first_step_one(n, p, j) {
                                assert(first_step_one(rows, p, j));
                            }
                        }
                    }
                },
            }
        }
    }
    assert(normalize_rows(n) =~= n);
}

/// The finished goods of the rows of a work-order chain, in the same order.
pub open spec fn fg_path(rows: Seq<WorkOrderRow>, wc: Seq<usize>) -> Seq<Seq<char>> {
    wc.map_values(|k: usize| rows[k as int].fg@)
}

/// A work-order chain has exactly as many rows as the finished-good chain
/// that its rows' finished goods form, which ends in the finished good of
/// its last row; where that chain cannot be extended upstream, it is one of
/// the complete chains that resolution produces.
pub proof fn lemma_wo_chain_depth(rows: Seq<WorkOrderRow>, wc: Seq<usize>, child: int)
    requires
        is_wo_chain(rows, wc, child),
    ensures
        fg_path(rows, wc).len() == wc.len(),
        is_fg_chain(rows, fg_path(rows, wc)),
        fg_path(rows, wc).last() == rows[child].fg@,
        !has_parent_fg(rows, fg_path(rows, wc)[0]) ==> is_complete_chain(rows, fg_path(rows, wc)),
{
    let f = fg_path(rows, wc);
    assert forall|k: int| 0 <= k < f.len() - 1 implies is_parent_fg(rows, #[trigger] f[k + 1], f[k]) by {
        assert(parent_link(rows, wc[k + 1] as int, wc[k] as int));
    }
}

/// With unique identifiers a row has a single work-order chain.
pub proof fn lemma_wo_chain_unique(rows: Seq<WorkOrderRow>, a: Seq<usize>, b: Seq<usize>, start: int)
    requires
        unique_ids(rows),
        is_wo_chain(rows, a, start),
        is_wo_chain(rows, b, start),
    ensures
        a == b,
{
    let la = a.len() as int;
    let lb = b.len() as int;
    if la < lb {
        lemma_wo_chain_tail(rows, a, b, la - 1);
        assert(a[0] == b[lb - la]);
        assert(parent_link(rows, b[(lb - la - 1) + 1] as int, b[lb - la - 1] as int));
    } else if lb < la {
        lemma_wo_chain_tail(rows, a, b, lb - 1);
        assert(b[0] == a[la - lb]);
        assert(parent_link(rows, a[(la - lb - 1) + 1] as int, a[la - lb - 1] as int));
    }
    assert(a =~= b) by {
        assert forall|k: int| 0 <= k < la implies a[k] == b[k] by {
            lemma_wo_chain_tail(rows, a, b, la - 1 - k);
        }
    }
}

proof fn lemma_wo_chain_tail(rows: Seq<WorkOrderRow>, a: Seq<usize>, b: Seq<usize>, m: int)
    requires
        unique_ids(rows),
        is_upward_walk(rows, a, b.last() as int),
        is_upward_walk(rows, b, b.last() as int),
        0 <= m < a.len(),
        m < b.len(),
    ensures
        a[a.len() - 1 - m] == b[b.len() - 1 - m],
    decreases m,
{
    if m > 0 {
        lemma_wo_chain_tail(rows, a, b, m - 1);
        let i = a.len() - 1 - m;
        let j = b.len() - 1 - m;
        assert(parent_link(rows, a[i + 1] as int, a[i] as int));
        assert(parent_link(rows, b[j + 1] as int, b[j] as int));
        assert(rows[a[i] as int].work_order == rows[b[j] as int].work_order);
    }
}

} // verus!
