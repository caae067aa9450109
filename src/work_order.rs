//! Work-order rows and the collection that indexes them.
use crate::finished_good::FinishedGood;
use vstd::prelude::*;

verus! {

/// One recorded work order.
#[derive(Debug)]
pub struct WorkOrderRow {
    pub work_order: u64,
    pub fg: FinishedGood,
    /// The work order whose output this one consumes; `None` at a root.
    pub parent: Option<u64>,
    pub work_type: String,
    pub sales_level: String,
    pub routing_step: u64,
}

/// Why no report can be produced.
#[derive(Debug, PartialEq, Eq, Structural)]
pub enum RoutingError {
    /// The table holds no rows, or no finished good was requested.
    NoData,
    /// Two rows carry this work-order identifier.
    DuplicateWorkOrder(u64),
    /// A row names this parent work order, which no row carries.
    BrokenReference(u64),
    /// A later routing step under this parent has no step-1 sibling.
    MissingStepOne(u64),
    /// Following parent links never reaches a root.
    CyclicRouting,
}

pub open spec fn unique_ids(rows: Seq<WorkOrderRow>) -> bool {
    forall|i: int, j: int|
        0 <= i < rows.len() && 0 <= j < rows.len() && #[trigger] rows[i].work_order
            == #[trigger] rows[j].work_order ==> i == j
}

pub open spec fn has_id(rows: Seq<WorkOrderRow>, id: u64) -> bool {
    exists|i: int| 0 <= i < rows.len() && #[trigger] rows[i].work_order == id
}

pub open spec fn refs_resolve(rows: Seq<WorkOrderRow>) -> bool {
    forall|i: int|
        0 <= i < rows.len() && (#[trigger] rows[i].parent).is_some() ==> has_id(
            rows,
            rows[i].parent.unwrap(),
        )
}

/// Row `j` is the parent work order of row `i`.
pub open spec fn parent_link(rows: Seq<WorkOrderRow>, i: int, j: int) -> bool {
    0 <= i < rows.len() && 0 <= j < rows.len() && rows[i].parent == Some(rows[j].work_order)
}

/// Finished good `p` is recorded one hop upstream of finished good `g`.
pub open spec fn is_parent_fg(rows: Seq<WorkOrderRow>, g: Seq<char>, p: Seq<char>) -> bool {
    exists|i: int, j: int|
        #[trigger] parent_link(rows, i, j) && rows[i].fg@ == g && rows[j].fg@ == p
}

/// Rows are listed by routing step, then by identifier.
pub open spec fn row_before(a: WorkOrderRow, b: WorkOrderRow) -> bool {
    a.routing_step < b.routing_step || (a.routing_step == b.routing_step && a.work_order
        < b.work_order)
}

/// The rows of one load, indexed by work-order identifier.
#[derive(Debug)]
pub struct WorkOrderData {
    pub rows: Vec<WorkOrderRow>,
}

impl WorkOrderData {
    /// Identifiers are unique and every parent link resolves.
    pub open spec fn wf(&self) -> bool {
        self.rows@.len() > 0 && unique_ids(self.rows@) && refs_resolve(self.rows@)
    }

    /// Builds the collection; an empty table, a repeated identifier or a
    /// parent that no row carries is refused.
    pub fn load(rows: Vec<WorkOrderRow>) -> (r: Result<WorkOrderData, RoutingError>)
        ensures
            rows@.len() == 0 <==> r == Err::<WorkOrderData, RoutingError>(RoutingError::NoData),
            match r {
                Ok(d) => d.rows@ == rows@ && d.wf(),
                Err(RoutingError::NoData) => rows@.len() == 0,
                Err(RoutingError::DuplicateWorkOrder(id)) => rows@.len() > 0 && !unique_ids(
                    rows@,
                ) && exists|i: int, j: int|
                    0 <= i < j < rows@.len() && rows@[i].work_order == id
                        && rows@[j].work_order == id,
                Err(RoutingError::BrokenReference(id)) => rows@.len() > 0 && unique_ids(rows@)
                    && !refs_resolve(rows@) && !has_id(rows@, id) && exists|i: int|
                    0 <= i < rows@.len() && rows@[i].parent == Some(id),
                Err(_) => false,
            },
    {
        let n = rows.len();
        if n == 0 {
            return Err(RoutingError::NoData);
        }
        let mut i: usize = 0;
        while i < n
            invariant
                n == rows@.len(),
                i <= n,
                forall|a: int, b: int|
                    0 <= a < i && 0 <= b < n && a != b ==> #[trigger] rows@[a].work_order
                        != #[trigger] rows@[b].work_order,
            decreases n - i,
        {
            let mut j: usize = 0;
            while j < n
                invariant
                    n == rows@.len(),
                    i < n,
                    j <= n,
                    forall|a: int, b: int|
                        0 <= a < i && 0 <= b < n && a != b ==> #[trigger] rows@[a].work_order
                            != #[trigger] rows@[b].work_order,
                    forall|b: int|
                        0 <= b < j && b != i ==> rows@[i as int].work_order
                            != #[trigger] rows@[b].work_order,
                decreases n - j,
            {
                if j != i && rows[i].work_order == rows[j].work_order {
                    let id = rows[i].work_order;
                    if i < j {
                        assert(rows@[i as int].work_order == id && rows@[j as int].work_order == id);
                    } else {
                        assert(rows@[j as int].work_order == id && rows@[i as int].work_order == id);
                    }
                    return Err(RoutingError::DuplicateWorkOrder(id));
                }
                j = j + 1;
            }
            i = i + 1;
        }
        assert(unique_ids(rows@));
        let d = WorkOrderData { rows };
        let mut k: usize = 0;
        while k < n
            invariant
                n == d.rows@.len(),
                d.rows@ == rows@,
                k <= n,
                unique_ids(rows@),
                forall|a: int|
                    0 <= a < k && (#[trigger] rows@[a].parent).is_some() ==> has_id(
                        rows@,
                        rows@[a].parent.unwrap(),
                    ),
            decreases n - k,
        {
            match d.rows[k].parent {
                Some(p) => {
                    if d.lookup(p).is_none() {
                        return Err(RoutingError::BrokenReference(p));
                    }
                },
                None => {},
            }
            k = k + 1;
        }
        Ok(d)
    }

    /// The position of the row with identifier `id`.
    pub fn lookup(&self, id: u64) -> (r: Option<usize>)
        ensures
            r.is_none() <==> !has_id(self.rows@, id),
            match r {
                Some(i) => i < self.rows@.len() && self.rows@[i as int].work_order == id,
                None => true,
            },
    {
        let mut i: usize = 0;
        while i < self.rows.len()
            invariant
                i <= self.rows@.len(),
                forall|a: int| 0 <= a < i ==> #[trigger] self.rows@[a].work_order != id,
            decreases self.rows@.len() - i,
        {
            if self.rows[i].work_order == id {
                return Some(i);
            }
            i = i + 1;
        }
        None
    }

    /// The distinct finished goods recorded one hop upstream of `fg`.
    pub fn parent_fgs(&self, fg: &FinishedGood) -> (r: Vec<FinishedGood>)
        requires
            self.wf(),
        ensures
            forall|k: int| 0 <= k < r@.len() ==> is_parent_fg(self.rows@, fg@, #[trigger] r@[k]@),
            forall|p: Seq<char>|
                is_parent_fg(self.rows@, fg@, p) ==> exists|k: int|
                    0 <= k < r@.len() && #[trigger] r@[k]@ == p,
            forall|a: int, b: int| 0 <= a < b < r@.len() ==> r@[a]@ != r@[b]@,
    {
        let rows = &self.rows;
        let n = rows.len();
        let mut r: Vec<FinishedGood> = Vec::new();
        let mut i: usize = 0;
        while i < n
            invariant
                self.wf(),
                rows == &self.rows,
                n == rows@.len(),
                i <= n,
                forall|k: int| 0 <= k < r@.len() ==> is_parent_fg(rows@, fg@, #[trigger] r@[k]@),
                forall|a: int, j: int|
                    0 <= a < i && #[trigger] parent_link(rows@, a, j) && rows@[a].fg@ == fg@
                        ==> exists|k: int| 0 <= k < r@.len() && #[trigger] r@[k]@ == rows@[j].fg@,
                forall|a: int, b: int| 0 <= a < b < r@.len() ==> r@[a]@ != r@[b]@,
            decreases n - i,
        {
            if rows[i].fg == *fg {
                match rows[i].parent {
                    Some(p) => {
                        match self.lookup(p) {
                            Some(j) => {
                                assert(parent_link(rows@, i as int, j as int));
                                let mut seen = false;
                                let mut k: usize = 0;
                                while k < r.len()
                                    invariant
                                        k <= r@.len(),
                                        j < rows@.len(),
                                        seen ==> exists|t: int|
                                            0 <= t < r@.len() && #[trigger] r@[t]@ == rows@[j as int].fg@,
                                        !seen ==> forall|t: int|
                                            0 <= t < k ==> #[trigger] r@[t]@ != rows@[j as int].fg@,
                                    decreases r@.len() - k,
                                {
                                    if r[k] == rows[j].fg {
                                        seen = true;
                                    }
                                    k = k + 1;
                                }
                                if !seen {
                                    let ghost old_r = r@;
                                    r.push(rows[j].fg.clone());
                                    proof {
                                        assert forall|a: int, jj: int|
                                            0 <= a < i + 1 && #[trigger] parent_link(rows@, a, jj)
                                                && rows@[a].fg@ == fg@ implies exists|k: int|
                                            0 <= k < r@.len() && #[trigger] r@[k]@
                                                == rows@[jj].fg@ by {
                                            if a == i {
                                                assert(jj == j as int);
                                                assert(r@[r@.len() - 1]@ == rows@[jj].fg@);
                                            } else {
                                                let k0 = choose|k: int| 0 <= k < old_r.len() && #[trigger] old_r[k]@ == rows@[jj].fg@;
                                                assert(r@[k0] == old_r[k0]);
                                            }
                                        }
                                    }
                                } else {
                                    proof {
                                        assert forall|a: int, jj: int|
                                            0 <= a < i + 1 && #[trigger] parent_link(rows@, a, jj)
                                                && rows@[a].fg@ == fg@ implies exists|k: int|
                                            0 <= k < r@.len() && #[trigger] r@[k]@
                                                == rows@[jj].fg@ by {
                                            if a == i {
                                                assert(jj == j as int);
                                            }
                                        }
                                    }
                                }
                            },
                            None => {},
                        }
                    },
                    None => {},
                }
            }
            i = i + 1;
        }
        proof {
            assert forall|p: Seq<char>| is_parent_fg(self.rows@, fg@, p) implies exists|k: int|
                0 <= k < r@.len() && #[trigger] r@[k]@ == p by {
                let (a, j) = choose|a: int, j: int|
                    #[trigger] parent_link(rows@, a, j) && rows@[a].fg@ == fg@ && rows@[j].fg@ == p;
            }
        }
        r
    }

    /// The positions of the rows whose finished good is `fg`, by routing step
    /// and then by identifier.
    pub fn rows_for_target(&self, fg: &FinishedGood) -> (r: Vec<usize>)
        requires
            self.wf(),
        ensures
            forall|k: int|
                0 <= k < r@.len() ==> #[trigger] r@[k] < self.rows@.len() && self.rows@[r@[k] as int].fg@
                    == fg@,
            forall|i: int|
                0 <= i < self.rows@.len() && self.rows@[i].fg@ == fg@ ==> exists|k: int|
                    0 <= k < r@.len() && #[trigger] r@[k] == i,
            forall|a: int, b: int|
                0 <= a < b < r@.len() ==> row_before(
                    self.rows@[#[trigger] r@[a] as int],
                    self.rows@[#[trigger] r@[b] as int],
                ),
    {
        let rows = &self.rows;
        let n = rows.len();
        let mut r: Vec<usize> = Vec::new();
        let mut i: usize = 0;
        while i < n
            invariant
                self.wf(),
                rows == &self.rows,
                n == rows@.len(),
                i <= n,
                forall|k: int|
                    0 <= k < r@.len() ==> #[trigger] r@[k] < i && rows@[r@[k] as int].fg@ == fg@,
                forall|a: int|
                    0 <= a < i && rows@[a].fg@ == fg@ ==> exists|k: int|
                        0 <= k < r@.len() && #[trigger] r@[k] == a,
                forall|a: int, b: int|
                    0 <= a < b < r@.len() ==> row_before(
                        rows@[#[trigger] r@[a] as int],
                        rows@[#[trigger] r@[b] as int],
                    ),
            decreases n - i,
        {
            if rows[i].fg == *fg {
                let mut pos: usize = 0;
                while pos < r.len() && !(rows[i].routing_step < rows[r[pos]].routing_step || (
                rows[i].routing_step == rows[r[pos]].routing_step && rows[i].work_order
                    < rows[r[pos]].work_order))
                    invariant
                        pos <= r@.len(),
                        i < n,
                        n == rows@.len(),
                        forall|k: int| 0 <= k < r@.len() ==> #[trigger] r@[k] < i,
                        forall|k: int|
                            0 <= k < pos ==> !row_before(rows@[i as int], rows@[#[trigger] r@[k] as int]),
                    decreases r@.len() - pos,
                {
                    pos = pos + 1;
                }
                let ghost old_r = r@;
                proof {
                    assert forall|k: int| 0 <= k < pos implies row_before(
                        rows@[#[trigger] old_r[k] as int],
                        rows@[i as int],
                    ) by {
                        assert(old_r[k] != i);
                        assert(rows@[old_r[k] as int].work_order != rows@[i as int].work_order);
                    }
                    assert forall|k: int| pos <= k < old_r.len() implies row_before(
                        rows@[i as int],
                        rows@[#[trigger] old_r[k] as int],
                    ) by {
                        if k > pos {
                            assert(row_before(rows@[old_r[pos as int] as int], rows@[old_r[k] as int]));
                        }
                    }
                }
                r.insert(pos, i);
                proof {
                    assert forall|k: int| 0 <= k < r@.len() implies #[trigger] r@[k] < i + 1
                        && rows@[r@[k] as int].fg@ == fg@ by {
                        if k < pos {
                            assert(r@[k] == old_r[k]);
                        } else if k > pos {
                            assert(r@[k] == old_r[k - 1]);
                        }
                    }
                    assert forall|a: int| 0 <= a < i + 1 && rows@[a].fg@ == fg@ implies exists|k: int|
                        0 <= k < r@.len() && #[trigger] r@[k] == a by {
                        if a == i {
                            assert(r@[pos as int] == a);
                        } else {
                            let k0 = choose|k: int| 0 <= k < old_r.len() && #[trigger] old_r[k] == a;
                            if k0 < pos {
                                assert(r@[k0] == a);
                            } else {
                                assert(r@[k0 + 1] == a);
                            }
                        }
                    }
                    assert forall|a: int, b: int| 0 <= a < b < r@.len() implies row_before(
                        rows@[#[trigger] r@[a] as int],
                        rows@[#[trigger] r@[b] as int],
                    ) by {
                        let oa = if a < pos { a } else { a - 1 };
                        let ob = if b < pos { b } else { b - 1 };
                        if a < pos {
                            assert(r@[a] == old_r[oa]);
                        }
                        if a > pos {
                            assert(r@[a] == old_r[oa]);
                        }
                        if b < pos {
                            assert(r@[b] == old_r[ob]);
                        }
                        if b > pos {
                            assert(r@[b] == old_r[ob]);
                        }
                    }
                }
            }
            i = i + 1;
        }
        r
    }
}

} // verus!
