//! The tab-separated routing report.
use crate::chains::{
    fg_cycle, in_chains, lemma_resolve_deterministic, resolve, resolved_chain, strictly_sorted,
};
use crate::finished_good::FinishedGood;
use crate::order::chain_view;
use crate::routing::{
    displayed_step, is_wo_chain, lemma_wo_chain_unique, normalized_step, wo_chain, wo_cycle,
};
use crate::work_order::{
    refs_resolve, row_before, unique_ids, RoutingError, WorkOrderData, WorkOrderRow,
};
use vstd::prelude::*;

verus! {

/// The pieces of `s`, one after another.
pub open spec fn concat(s: Seq<Seq<char>>) -> Seq<char>
    decreases s.len(),
{
    if s.len() == 0 {
        Seq::empty()
    } else {
        concat(s.drop_last()) + s.last()
    }
}

pub open spec fn digit_text(d: nat) -> Seq<char> {
    if d == 0 {
        "0"@
    } else if d == 1 {
        "1"@
    } else if d == 2 {
        "2"@
    } else if d == 3 {
        "3"@
    } else if d == 4 {
        "4"@
    } else if d == 5 {
        "5"@
    } else if d == 6 {
        "6"@
    } else if d == 7 {
        "7"@
    } else if d == 8 {
        "8"@
    } else {
        "9"@
    }
}

/// `n` in decimal, without leading zeros.
pub open spec fn decimal(n: nat) -> Seq<char>
    decreases n,
{
    if n < 10 {
        digit_text(n)
    } else {
        decimal(n / 10) + digit_text(n % 10)
    }
}

/// The header of a chain's block: each code with its step column, then the
/// work-type and sales-level columns.
pub open spec fn header_text(c: Seq<Seq<char>>) -> Seq<char> {
    fg_columns(c) + "Work Type\tSales Level\n"@
}

pub open spec fn fg_columns(c: Seq<Seq<char>>) -> Seq<char>
    decreases c.len(),
{
    if c.len() == 0 {
        Seq::empty()
    } else {
        fg_columns(c.drop_last()) + c.last() + "\tRouting Step\t"@
    }
}

/// Identifier and displayed step of each work order of a work-order chain.
pub open spec fn cells_text(rows: Seq<WorkOrderRow>, wc: Seq<usize>) -> Seq<char>
    decreases wc.len(),
{
    if wc.len() == 0 {
        Seq::empty()
    } else {
        cells_text(rows, wc.drop_last()) + decimal(rows[wc.last() as int].work_order as nat) + "\t"@
            + decimal(displayed_step(rows, wc.last() as int).unwrap() as nat) + "\t"@
    }
}

/// The report line of row `child`, whose work-order chain is `wc`.
pub open spec fn line_text(rows: Seq<WorkOrderRow>, wc: Seq<usize>, child: int) -> Seq<char> {
    cells_text(rows, wc) + rows[child].work_type@ + "\t"@ + rows[child].sales_level@ + "\n"@
}

/// Every row of a work-order chain has a displayed step.
pub open spec fn steps_resolve(rows: Seq<WorkOrderRow>, wc: Seq<usize>) -> bool {
    forall|k: int| 0 <= k < wc.len() ==> displayed_step(rows, #[trigger] wc[k] as int).is_some()
}

/// `kids` lists the rows whose finished good is `g`, by routing step and then
/// by identifier.
pub open spec fn target_rows(rows: Seq<WorkOrderRow>, g: Seq<char>, kids: Seq<usize>) -> bool {
    &&& forall|k: int|
        0 <= k < kids.len() ==> #[trigger] kids[k] < rows.len() && rows[kids[k] as int].fg@ == g
    &&& forall|i: int|
        0 <= i < rows.len() && rows[i].fg@ == g ==> exists|k: int|
            0 <= k < kids.len() && #[trigger] kids[k] == i
    &&& forall|a: int, b: int|
        0 <= a < b < kids.len() ==> row_before(rows[#[trigger] kids[a] as int], rows[#[trigger] kids[b] as int])
}

/// `blk` is the block of chain `c`: its header, one line for each row of its
/// last finished good, and a blank line.
pub open spec fn block_text(rows: Seq<WorkOrderRow>, c: Seq<Seq<char>>, blk: Seq<char>) -> bool {
    exists|kids: Seq<usize>, wcs: Seq<Seq<usize>>|
        {
            &&& target_rows(rows, c.last(), kids)
            &&& wcs.len() == kids.len()
            &&& forall|k: int|
                0 <= k < kids.len() ==> is_wo_chain(rows, #[trigger] wcs[k], kids[k] as int)
                    && steps_resolve(rows, wcs[k])
            &&& blk == header_text(c) + concat(
                Seq::new(kids.len(), |k: int| line_text(rows, wcs[k], kids[k] as int)),
            ) + "\n"@
        }
}

/// Row `child`'s work-order chain holds a row, with work order `id`, whose
/// step cannot be displayed.
pub open spec fn step_gap(rows: Seq<WorkOrderRow>, child: int, id: u64) -> bool {
    exists|wc: Seq<usize>, m: int|
        is_wo_chain(rows, wc, child) && 0 <= m < wc.len() && displayed_step(rows, wc[m] as int).is_none()
            && id == rows[wc[m] as int].work_order
}

/// Some row listed in the block of chain `c` has such a step gap.
pub open spec fn block_gap(rows: Seq<WorkOrderRow>, c: Seq<Seq<char>>, id: u64) -> bool {
    exists|child: int| 0 <= child < rows.len() && rows[child].fg@ == c.last() && step_gap(rows, child, id)
}

/// Some resolved chain's block has such a step gap.
pub open spec fn report_gap(rows: Seq<WorkOrderRow>, targets: Seq<FinishedGood>, id: u64) -> bool {
    exists|x: Seq<Seq<char>>| resolved_chain(rows, targets, x) && block_gap(rows, x, id)
}

fn digit_str(d: u64) -> (r: &'static str)
    requires
        d < 10,
    ensures
        r@ == digit_text(d as nat),
{
    if d == 0 {
        "0"
    } else if d == 1 {
        "1"
    } else if d == 2 {
        "2"
    } else if d == 3 {
        "3"
    } else if d == 4 {
        "4"
    } else if d == 5 {
        "5"
    } else if d == 6 {
        "6"
    } else if d == 7 {
        "7"
    } else if d == 8 {
        "8"
    } else {
        "9"
    }
}

/// Appends `n` in decimal.
pub fn push_decimal(out: &mut String, n: u64)
    ensures
        final(out)@ == old(out)@ + decimal(n as nat),
    decreases n,
{
    if n >= 10 {
        push_decimal(out, n / 10);
    }
    out.append(digit_str(n % 10));
    proof {
        if n >= 10 {
            assert(out@ =~= old(out)@ + decimal(n as nat));
        }
    }
}

fn push_header(out: &mut String, chain: &Vec<FinishedGood>)
    ensures
        final(out)@ == old(out)@ + header_text(chain_view(chain@)),
{
    let ghost cv = chain_view(chain@);
    let mut i: usize = 0;
    while i < chain.len()
        invariant
            i <= chain@.len(),
            cv == chain_view(chain@),
            out@ == old(out)@ + fg_columns(cv.subrange(0, i as int)),
        decreases chain@.len() - i,
    {
        out.append(chain[i].code.as_str());
        out.append("\tRouting Step\t");
        proof {
            assert(cv.subrange(0, i + 1).drop_last() =~= cv.subrange(0, i as int));
            assert(out@ =~= old(out)@ + fg_columns(cv.subrange(0, i + 1)));
        }
        i = i + 1;
    }
    out.append("Work Type\tSales Level\n");
    assert(cv.subrange(0, cv.len() as int) =~= cv);
    assert(out@ =~= old(out)@ + header_text(cv));
}

/// Appends the line of row `child` and hands back its work-order chain.
fn push_line(out: &mut String, data: &WorkOrderData, child: usize) -> (r: Result<
    Vec<usize>,
    RoutingError,
>)
    requires
        data.wf(),
        child < data.rows@.len(),
    ensures
        match r {
            Ok(wc) => {
                &&& is_wo_chain(data.rows@, wc@, child as int)
                &&& steps_resolve(data.rows@, wc@)
                &&& final(out)@ == old(out)@ + line_text(data.rows@, wc@, child as int)
            },
            Err(e) => (e == RoutingError::CyclicRouting && wo_cycle(data.rows@)) || (
            e is MissingStepOne && step_gap(data.rows@, child as int, e->MissingStepOne_0)),
        },
{
    let ghost rows = data.rows@;
    let wc = match wo_chain(data, child) {
        Ok(wc) => wc,
        Err(e) => {
            assert(wo_cycle(rows));
            return Err(e);
        },
    };
    let mut k: usize = 0;
    while k < wc.len()
        invariant
            data.wf(),
            rows == data.rows@,
            is_wo_chain(rows, wc@, child as int),
            k <= wc@.len(),
            forall|m: int| 0 <= m < k ==> displayed_step(rows, #[trigger] wc@[m] as int).is_some(),
            out@ == old(out)@ + cells_text(rows, wc@.subrange(0, k as int)),
        decreases wc@.len() - k,
    {
        let w = wc[k];
        assert(w < rows.len());
        push_decimal(out, data.rows[w].work_order);
        out.append("\t");
        let step = match normalized_step(data, w) {
            Ok(v) => v,
            Err(e) => {
                assert(is_wo_chain(rows, wc@, child as int) && displayed_step(rows, wc@[k as int] as int).is_none());
                assert(step_gap(rows, child as int, e->MissingStepOne_0));
                return Err(e);
            },
        };
        push_decimal(out, step);
        out.append("\t");
        proof {
            let sub = wc@.subrange(0, k + 1);
            assert(sub.drop_last() =~= wc@.subrange(0, k as int));
            assert(sub.last() == w);
            assert(out@ =~= old(out)@ + cells_text(rows, sub));
        }
        k = k + 1;
    }
    let row = &data.rows[child];
    out.append(row.work_type.as_str());
    out.append("\t");
    out.append(row.sales_level.as_str());
    out.append("\n");
    proof {
        assert(wc@.subrange(0, wc@.len() as int) =~= wc@);
        assert(out@ =~= old(out)@ + line_text(rows, wc@, child as int));
    }
    Ok(wc)
}

/// The block of one chain: header, one line for each row of the chain's last
/// finished good in routing order, and a blank line.
pub fn render_block(data: &WorkOrderData, chain: &Vec<FinishedGood>) -> (r: Result<
    String,
    RoutingError,
>)
    requires
        data.wf(),
        chain@.len() > 0,
    ensures
        match r {
            Ok(blk) => block_text(data.rows@, chain_view(chain@), blk@),
            Err(e) => (e == RoutingError::CyclicRouting && wo_cycle(data.rows@)) || (
            e is MissingStepOne && block_gap(data.rows@, chain_view(chain@), e->MissingStepOne_0)),
        },
{
    let ghost rows = data.rows@;
    let ghost cv = chain_view(chain@);
    let mut out = String::new();
    push_header(&mut out, chain);
    let last = &chain[chain.len() - 1];
    assert(cv.last() == last@);
    let kids = data.rows_for_target(last);
    let ghost mut wcs: Seq<Seq<usize>> = Seq::empty();
    let mut k: usize = 0;
    while k < kids.len()
        invariant
            data.wf(),
            rows == data.rows@,
            k <= kids@.len(),
            wcs.len() == k,
            cv == chain_view(chain@),
            cv.len() > 0,
            target_rows(rows, cv.last(), kids@),
            forall|m: int|
                0 <= m < k ==> is_wo_chain(rows, #[trigger] wcs[m], kids@[m] as int) && steps_resolve(
                    rows,
                    wcs[m],
                ),
            out@ == header_text(cv) + concat(
                Seq::new(k as nat, |m: int| line_text(rows, wcs[m], kids@[m] as int)),
            ),
        decreases kids@.len() - k,
    {
        let ghost before = wcs;
        let wc = match push_line(&mut out, data, kids[k]) {
            Ok(wc) => wc,
            Err(e) => {
                proof {
                    if e is MissingStepOne {
                        assert(rows[kids@[k as int] as int].fg@ == cv.last());
                        assert(block_gap(rows, cv, e->MissingStepOne_0));
                    }
                }
                return Err(e);
            },
        };
        proof {
            wcs = wcs.push(wc@);
            let f = Seq::new((k + 1) as nat, |m: int| line_text(rows, wcs[m], kids@[m] as int));
            assert(f.drop_last() =~= Seq::new(k as nat, |m: int| line_text(rows, before[m], kids@[m] as int)));
            assert(f.last() == line_text(rows, wc@, kids@[k as int] as int));
            assert forall|m: int|
                0 <= m < k + 1 implies is_wo_chain(rows, #[trigger] wcs[m], kids@[m] as int) && steps_resolve(
                    rows,
                    wcs[m],
                ) by {
                if m < k {
                    assert(wcs[m] == before[m]);
                }
            }
        }
        k = k + 1;
    }
    out.append("\n");
    proof {
        assert(target_rows(rows, cv.last(), kids@));
        assert(block_text(rows, cv, out@));
    }
    Ok(out)
}

/// `text` is made of `blocks`, the blocks of the chains `cs`, which are the
/// resolved chains in strictly increasing order.
pub open spec fn report_parts(
    rows: Seq<WorkOrderRow>,
    targets: Seq<FinishedGood>,
    cs: Seq<Vec<FinishedGood>>,
    blocks: Seq<Seq<char>>,
    text: Seq<char>,
) -> bool {
    &&& cs.len() > 0
    &&& strictly_sorted(cs)
    &&& forall|x: Seq<Seq<char>>| in_chains(cs, x) <==> resolved_chain(rows, targets, x)
    &&& blocks.len() == cs.len()
    &&& forall|b: int|
        0 <= b < cs.len() ==> block_text(rows, chain_view(#[trigger] cs[b]@), blocks[b])
    &&& text == concat(blocks)
}

/// What a report holds: the block of every resolved chain, in strictly
/// increasing chain order; or why there is none.
pub open spec fn report_outcome(
    rows: Seq<WorkOrderRow>,
    targets: Seq<FinishedGood>,
    r: Result<String, RoutingError>,
) -> bool {
    match r {
        Ok(text) => exists|cs: Seq<Vec<FinishedGood>>, blocks: Seq<Seq<char>>|
            report_parts(rows, targets, cs, blocks, text@),
        Err(RoutingError::NoData) => forall|x: Seq<Seq<char>>| !resolved_chain(rows, targets, x),
        Err(RoutingError::CyclicRouting) => fg_cycle(rows, targets) || wo_cycle(rows),
        Err(RoutingError::MissingStepOne(id)) => report_gap(rows, targets, id),
        Err(_) => false,
    }
}

/// The report for the requested finished goods: the block of every resolved
/// chain, in chain order. `NoData` when no chain resolves.
pub fn render(targets: &Vec<FinishedGood>, data: &WorkOrderData) -> (r: Result<
    String,
    RoutingError,
>)
    requires
        data.wf(),
    ensures
        targets@.len() == 0 ==> r == Err::<String, RoutingError>(RoutingError::NoData),
        report_outcome(data.rows@, targets@, r),
        targets@.len() > 0 && !fg_cycle(data.rows@, targets@) && !wo_cycle(data.rows@) && (forall|
            id: u64,
        | !report_gap(data.rows@, targets@, id)) ==> r is Ok,
{
    let ghost rows = data.rows@;
    let chains = match resolve(targets, data) {
        Ok(c) => c,
        Err(e) => {
            return Err(e);
        },
    };
    if chains.len() == 0 {
        proof {
            assert forall|x: Seq<Seq<char>>| !resolved_chain(rows, targets@, x) by {
                if resolved_chain(rows, targets@, x) {
                    assert(in_chains(chains@, x));
                }
            }
        }
        return Err(RoutingError::NoData);
    }
    proof {
        if targets@.len() == 0 {
            let x = chain_view(chains@[0]@);
            assert(in_chains(chains@, x));
        }
    }
    let mut out = String::new();
    let ghost mut blocks: Seq<Seq<char>> = Seq::empty();
    let mut b: usize = 0;
    while b < chains.len()
        invariant
            data.wf(),
            rows == data.rows@,
            b <= chains@.len(),
            blocks.len() == b,
            forall|m: int| 0 <= m < b ==> block_text(rows, chain_view(#[trigger] chains@[m]@), blocks[m]),
            forall|x: Seq<Seq<char>>| in_chains(chains@, x) <==> resolved_chain(rows, targets@, x),
            out@ == concat(blocks),
        decreases chains@.len() - b,
    {
        assert(in_chains(chains@, chain_view(chains@[b as int]@)));
        let blk = match render_block(data, &chains[b]) {
            Ok(t) => t,
            Err(e) => {
                proof {
                    if e is MissingStepOne {
                        assert(resolved_chain(rows, targets@, chain_view(chains@[b as int]@)));
                        assert(report_gap(rows, targets@, e->MissingStepOne_0));
                    }
                }
                return Err(e);
            },
        };
        let ghost before = blocks;
        out.append(blk.as_str());
        proof {
            blocks = blocks.push(blk@);
            assert(blocks.drop_last() =~= before);
            assert forall|m: int| 0 <= m < b + 1 implies block_text(rows, chain_view(#[trigger] chains@[m]@), blocks[m]) by {
                if m < b {
                    assert(blocks[m] == before[m]);
                }
            }
        }
        b = b + 1;
    }
    assert(report_parts(rows, targets@, chains@, blocks, out@));
    assert(exists|cs: Seq<Vec<FinishedGood>>, bl: Seq<Seq<char>>|
        report_parts(rows, targets@, cs, bl, out@));
    let r = Ok(out);
    assert(r->Ok_0@ == out@);
    r
}

/// Loads the rows and renders the report for the requested finished goods.
pub fn build_report(rows: Vec<WorkOrderRow>, targets: &Vec<FinishedGood>) -> (r: Result<
    String,
    RoutingError,
>)
    ensures
        rows@.len() == 0 ==> r == Err::<String, RoutingError>(RoutingError::NoData),
        rows@.len() > 0 && !unique_ids(rows@) ==> r is Err && r->Err_0 is DuplicateWorkOrder,
        rows@.len() > 0 && unique_ids(rows@) && !refs_resolve(rows@) ==> r is Err
            && r->Err_0 is BrokenReference,
        rows@.len() > 0 && unique_ids(rows@) && refs_resolve(rows@) ==> report_outcome(
            rows@,
            targets@,
            r,
        ) && (targets@.len() == 0 ==> r == Err::<String, RoutingError>(RoutingError::NoData)),
{
    let data = match WorkOrderData::load(rows) {
        Ok(d) => d,
        Err(e) => {
            return Err(e);
        },
    };
    render(targets, &data)
}

proof fn lemma_target_rows_unique(rows: Seq<WorkOrderRow>, g: Seq<char>, a: Seq<usize>, b: Seq<usize>)
    requires
        unique_ids(rows),
        forall|k: int| 0 <= k < a.len() ==> #[trigger] a[k] < rows.len(),
        forall|k: int| 0 <= k < b.len() ==> #[trigger] b[k] < rows.len(),
        forall|i: usize| a.contains(i) <==> b.contains(i),
        forall|p: int, q: int|
            0 <= p < q < a.len() ==> row_before(rows[#[trigger] a[p] as int], rows[#[trigger] a[q] as int]),
        forall|p: int, q: int|
            0 <= p < q < b.len() ==> row_before(rows[#[trigger] b[p] as int], rows[#[trigger] b[q] as int]),
    ensures
        a == b,
    decreases a.len(),
{
    if a.len() == 0 {
        if b.len() > 0 {
            assert(b.contains(b[0]));
        }
        assert(a =~= b);
    } else {
        assert(a.contains(a[0]));
        assert(b.contains(b[0]));
        let j = choose|j: int| 0 <= j < b.len() && b[j] == a[0];
        let i = choose|i: int| 0 <= i < a.len() && a[i] == b[0];
        if i > 0 && j > 0 {
            assert(row_before(rows[a[0] as int], rows[a[i] as int]));
            assert(row_before(rows[b[0] as int], rows[b[j] as int]));
        } else if i > 0 {
            assert(row_before(rows[a[0] as int], rows[a[i] as int]));
        } else if j > 0 {
            assert(row_before(rows[b[0] as int], rows[b[j] as int]));
        }
        assert(a[0] == b[0]);
        let ta = a.drop_first();
        let tb = b.drop_first();
        assert forall|x: usize| ta.contains(x) <==> tb.contains(x) by {
            if ta.contains(x) {
                let k = choose|k: int| 0 <= k < ta.len() && ta[k] == x;
                assert(a[k + 1] == x);
                assert(a.contains(x));
                let m = choose|m: int| 0 <= m < b.len() && b[m] == x;
                assert(row_before(rows[a[0] as int], rows[a[k + 1] as int]));
                assert(tb[m - 1] == x);
            }
            if tb.contains(x) {
                let k = choose|k: int| 0 <= k < tb.len() && tb[k] == x;
                assert(b[k + 1] == x);
                assert(b.contains(x));
                let m = choose|m: int| 0 <= m < a.len() && a[m] == x;
                assert(row_before(rows[b[0] as int], rows[b[k + 1] as int]));
                assert(ta[m - 1] == x);
            }
        }
        assert forall|p: int, q: int| 0 <= p < q < ta.len() implies row_before(
            rows[#[trigger] ta[p] as int],
            rows[#[trigger] ta[q] as int],
        ) by {
            assert(ta[p] == a[p + 1] && ta[q] == a[q + 1]);
        }
        assert forall|p: int, q: int| 0 <= p < q < tb.len() implies row_before(
            rows[#[trigger] tb[p] as int],
            rows[#[trigger] tb[q] as int],
        ) by {
            assert(tb[p] == b[p + 1] && tb[q] == b[q + 1]);
        }
        lemma_target_rows_unique(rows, g, ta, tb);
        assert(a =~= seq![a[0]] + ta);
        assert(b =~= seq![b[0]] + tb);
    }
}

proof fn lemma_block_unique(rows: Seq<WorkOrderRow>, c: Seq<Seq<char>>, x: Seq<char>, y: Seq<char>)
    requires
        unique_ids(rows),
        block_text(rows, c, x),
        block_text(rows, c, y),
    ensures
        x == y,
{
    let (ka, wa) = choose|kids: Seq<usize>, wcs: Seq<Seq<usize>>|
        {
            &&& target_rows(rows, c.last(), kids)
            &&& wcs.len() == kids.len()
            &&& forall|k: int|
                0 <= k < kids.len() ==> is_wo_chain(rows, #[trigger] wcs[k], kids[k] as int)
                    && steps_resolve(rows, wcs[k])
            &&& x == header_text(c) + concat(
                Seq::new(kids.len(), |k: int| line_text(rows, wcs[k], kids[k] as int)),
            ) + "\n"@
        };
    let (kb, wb) = choose|kids: Seq<usize>, wcs: Seq<Seq<usize>>|
        {
            &&& target_rows(rows, c.last(), kids)
            &&& wcs.len() == kids.len()
            &&& forall|k: int|
                0 <= k < kids.len() ==> is_wo_chain(rows, #[trigger] wcs[k], kids[k] as int)
                    && steps_resolve(rows, wcs[k])
            &&& y == header_text(c) + concat(
                Seq::new(kids.len(), |k: int| line_text(rows, wcs[k], kids[k] as int)),
            ) + "\n"@
        };
    assert forall|i: usize| ka.contains(i) <==> kb.contains(i) by {
        if ka.contains(i) {
            let k = choose|k: int| 0 <= k < ka.len() && ka[k] == i;
            assert(ka[k] < rows.len());
        }
        if kb.contains(i) {
            let k = choose|k: int| 0 <= k < kb.len() && kb[k] == i;
            assert(kb[k] < rows.len());
        }
    }
    lemma_target_rows_unique(rows, c.last(), ka, kb);
    assert forall|k: int| 0 <= k < ka.len() implies wa[k] == wb[k] by {
        assert(is_wo_chain(rows, wa[k], ka[k] as int));
        assert(is_wo_chain(rows, wb[k], kb[k] as int));
        lemma_wo_chain_unique(rows, wa[k], wb[k], ka[k] as int);
    }
    assert(Seq::new(ka.len(), |k: int| line_text(rows, wa[k], ka[k] as int)) =~= Seq::new(
        kb.len(),
        |k: int| line_text(rows, wb[k], kb[k] as int),
    ));
}

/// The report is deterministic: with unique identifiers, any two texts that
/// `render` may return for the same rows and requested goods are equal.
pub proof fn lemma_report_deterministic(
    rows: Seq<WorkOrderRow>,
    targets: Seq<FinishedGood>,
    r1: Result<String, RoutingError>,
    r2: Result<String, RoutingError>,
)
    requires
        unique_ids(rows),
        report_outcome(rows, targets, r1),
        report_outcome(rows, targets, r2),
        r1 is Ok,
        r2 is Ok,
    ensures
        r1->Ok_0@ == r2->Ok_0@,
{
    let t1 = r1->Ok_0@;
    let t2 = r2->Ok_0@;
    let (cs1, bl1) = choose|cs: Seq<Vec<FinishedGood>>, blocks: Seq<Seq<char>>|
        report_parts(rows, targets, cs, blocks, t1);
    let (cs2, bl2) = choose|cs: Seq<Vec<FinishedGood>>, blocks: Seq<Seq<char>>|
        report_parts(rows, targets, cs, blocks, t2);
    lemma_resolve_deterministic(rows, targets, cs1, cs2);
    assert forall|b: int| 0 <= b < bl1.len() implies bl1[b] == bl2[b] by {
        assert(block_text(rows, chain_view(cs1[b]@), bl1[b]));
        assert(block_text(rows, chain_view(cs2[b]@), bl2[b]));
        lemma_block_unique(rows, chain_view(cs1[b]@), bl1[b], bl2[b]);
    }
    assert(bl1 =~= bl2);
}

} // verus!
