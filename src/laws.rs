//! What holds of the alignment over all traces.

use crate::boat::BoatEventView;
use crate::diff::{
    DiffFailure, EndPattern, arch_fields, diff_outcome, find_reset, first_arch_from, verdict,
    first_pc_from, first_store_from, first_unmatched, has_counterpart, is_arch_at, matched_by,
    run_end, walk,
};
use crate::registers::reg_name_matches;
use crate::spike::SpikeEvent;
use vstd::prelude::*;

verus! {

/// A register index that `name` names (any, if it names none).
pub open spec fn gpr_index(name: Seq<char>) -> u8 {
    choose|i: u8| reg_name_matches(name, i)
}

/// The implementation's event for one register write of a commit.
pub open spec fn arch_write(e: SpikeEvent, w: (Seq<char>, u64)) -> BoatEventView {
    BoatEventView::ArchState { action: "write"@, pc: e.pc, reg_idx: gpr_index(w.0), data: w.1 }
}

/// The implementation's events for one commit: nothing for a commit that
/// writes no register, else the fetch and one write per register write.
pub open spec fn block(e: SpikeEvent) -> Seq<BoatEventView> {
    if e.reg.len() == 0 {
        Seq::empty()
    } else {
        seq![BoatEventView::InstructionFetch { data: e.instruction }] + e.reg.map_values(
            |w: (Seq<char>, u64)| arch_write(e, w),
        )
    }
}

/// The blocks of the commits from `i` up to the first whose PC is `stop`.
pub open spec fn mirror(r: Seq<SpikeEvent>, stop: Option<u64>, i: int) -> Seq<BoatEventView>
    decreases r.len() - i,
{
    if i < 0 || i >= r.len() || stop == Some(r[i].pc) {
        Seq::empty()
    } else {
        block(r[i]) + mirror(r, stop, i + 1)
    }
}

/// The PC at which the walk stops, for an end pattern that the trace holds.
pub open spec fn stop_of(r: Seq<SpikeEvent>, end: Option<EndPattern>) -> Option<u64> {
    match end {
        None => None,
        Some(p) => Some(r[first_store_from(r, p, 0)].pc),
    }
}

/// The implementation's log that mirrors the reference trace: the reset,
/// then the block of each commit that the walk compares.
pub open spec fn mirrored_log(r: Seq<SpikeEvent>, addr: u64, end: Option<EndPattern>) -> Seq<
    BoatEventView,
> {
    seq![BoatEventView::ResetVector { new_addr: addr }] + mirror(
        r,
        stop_of(r, end),
        first_pc_from(r, addr, 0),
    )
}

/// Every register written from commit `from` on names an integer register.
pub open spec fn names_registers(r: Seq<SpikeEvent>, from: int) -> bool {
    forall|i: int, k: int|
        from <= i < r.len() && 0 <= k < r[i].reg.len() ==> exists|x: u8|
            reg_name_matches(#[trigger] r[i].reg[k].0, x)
}

/// The traces that the law speaks of: the sync point exists, and so does
/// the end store where one is given.
pub open spec fn well_anchored(r: Seq<SpikeEvent>, addr: u64, end: Option<EndPattern>) -> bool {
    &&& first_pc_from(r, addr, 0) < r.len()
    &&& end matches Some(p) ==> first_store_from(r, p, 0) < r.len()
}

/// The first commit from `s` on at which the walk stops (the length if none).
pub open spec fn window_end(r: Seq<SpikeEvent>, stop: Option<u64>, s: int) -> int {
    match stop {
        None => r.len() as int,
        Some(pc) => first_pc_from(r, pc, s),
    }
}

proof fn lemma_first_pc(r: Seq<SpikeEvent>, pc: u64, from: int)
    requires
        0 <= from <= r.len(),
    ensures
        from <= first_pc_from(r, pc, from) <= r.len(),
        first_pc_from(r, pc, from) < r.len() ==> r[first_pc_from(r, pc, from)].pc == pc,
        forall|j: int| from <= j < first_pc_from(r, pc, from) ==> #[trigger] r[j].pc != pc,
    decreases r.len() - from,
{
    if from < r.len() && r[from].pc != pc {
        lemma_first_pc(r, pc, from + 1);
    }
}

proof fn lemma_window(r: Seq<SpikeEvent>, stop: Option<u64>, s: int)
    requires
        0 <= s <= r.len(),
    ensures
        s <= window_end(r, stop, s) <= r.len(),
        forall|j: int| s <= j < window_end(r, stop, s) ==> stop != Some(#[trigger] r[j].pc),
        mirror(r, stop, window_end(r, stop, s)) == Seq::<BoatEventView>::empty(),
{
    match stop {
        None => {},
        Some(pc) => {
            lemma_first_pc(r, pc, s);
        },
    }
}

/// The blocks from `i` on are the tail of the blocks from `s` on.
proof fn lemma_mirror_tail(r: Seq<SpikeEvent>, stop: Option<u64>, s: int, i: int)
    requires
        0 <= s <= i <= r.len(),
        forall|j: int| s <= j < i ==> stop != Some(#[trigger] r[j].pc),
    ensures
        mirror(r, stop, i).len() <= mirror(r, stop, s).len(),
        mirror(r, stop, s).subrange(
            mirror(r, stop, s).len() - mirror(r, stop, i).len(),
            mirror(r, stop, s).len() as int,
        ) == mirror(r, stop, i),
    decreases i - s,
{
    let ms = mirror(r, stop, s);
    if s == i {
        assert(ms.subrange(0, ms.len() as int) =~= ms);
    } else {
        assert(stop != Some(r[s].pc));
        lemma_mirror_tail(r, stop, s + 1, i);
        let m1 = mirror(r, stop, s + 1);
        let mi = mirror(r, stop, i);
        assert(ms == block(r[s]) + m1);
        assert(ms.subrange(ms.len() - mi.len(), ms.len() as int) =~= m1.subrange(
            m1.len() - mi.len(),
            m1.len() as int,
        ));
    }
}

/// A non-empty run of blocks begins with a fetch.
proof fn lemma_mirror_head(r: Seq<SpikeEvent>, stop: Option<u64>, i: int)
    requires
        0 <= i,
        mirror(r, stop, i).len() > 0,
    ensures
        mirror(r, stop, i)[0] is InstructionFetch,
    decreases r.len() - i,
{
    if r[i].reg.len() == 0 {
        assert(block(r[i]) =~= Seq::<BoatEventView>::empty());
        assert(mirror(r, stop, i) =~= mirror(r, stop, i + 1));
        lemma_mirror_head(r, stop, i + 1);
    }
}

proof fn lemma_run_end_exact(b: Seq<BoatEventView>, pc: u64, a: int, z: int)
    requires
        0 <= a <= z <= b.len(),
        forall|k: int| a <= k < z ==> is_arch_at(#[trigger] b[k], pc),
        z == b.len() || !is_arch_at(b[z], pc),
    ensures
        run_end(b, pc, a) == z,
    decreases z - a,
{
    if a < z {
        lemma_run_end_exact(b, pc, a + 1, z);
    }
}

proof fn lemma_first_unmatched_exact(e: SpikeEvent, b: Seq<BoatEventView>, a: int, m: int, z: int)
    requires
        a <= m <= z,
        forall|k: int| a <= k < m ==> matched_by(e, #[trigger] b[k]),
        m == z || !matched_by(e, b[m]),
    ensures
        first_unmatched(e, b, a, z) == m,
    decreases m - a,
{
    if a < m {
        lemma_first_unmatched_exact(e, b, a + 1, m, z);
    }
}

proof fn lemma_first_arch_skip(b: Seq<BoatEventView>, pc: u64, c: int, d: int)
    requires
        0 <= c <= d <= b.len(),
        forall|k: int| c <= k < d ==> !(#[trigger] b[k] is ArchState),
    ensures
        first_arch_from(b, pc, c) == first_arch_from(b, pc, d),
    decreases d - c,
{
    if c < d {
        lemma_first_arch_skip(b, pc, c + 1, d);
    }
}

/// Events that are no register writes, before the cursor, change nothing.
proof fn lemma_walk_skip(
    r: Seq<SpikeEvent>,
    b: Seq<BoatEventView>,
    stop: Option<u64>,
    i: int,
    c: int,
    d: int,
)
    requires
        0 <= c <= d <= b.len(),
        forall|k: int| c <= k < d ==> !(#[trigger] b[k] is ArchState),
    ensures
        walk(r, b, stop, i, c) == walk(r, b, stop, i, d),
    decreases r.len() - i,
{
    if 0 <= i < r.len() && stop != Some(r[i].pc) {
        if r[i].reg.len() == 0 {
            lemma_walk_skip(r, b, stop, i + 1, c, d);
        } else {
            lemma_first_arch_skip(b, r[i].pc, c, d);
        }
    }
}

/// Where the blocks from `j` on begin in a log that ends with the blocks
/// from the sync point on.
pub open spec fn offset(b: Seq<BoatEventView>, r: Seq<SpikeEvent>, stop: Option<u64>, j: int) -> int {
    b.len() - mirror(r, stop, j).len()
}

proof fn lemma_offsets(
    r: Seq<SpikeEvent>,
    stop: Option<u64>,
    s: int,
    b: Seq<BoatEventView>,
    i: int,
    t: int,
)
    requires
        0 <= s <= i <= t <= r.len(),
        forall|j: int| s <= j < t ==> stop != Some(#[trigger] r[j].pc),
        b.len() >= mirror(r, stop, s).len(),
        b.subrange(offset(b, r, stop, s), b.len() as int) == mirror(r, stop, s),
    ensures
        0 <= offset(b, r, stop, i) <= offset(b, r, stop, t) <= b.len(),
        b.subrange(offset(b, r, stop, i), b.len() as int) == mirror(r, stop, i),
{
    lemma_mirror_tail(r, stop, s, i);
    lemma_mirror_tail(r, stop, i, t);
    let ms = mirror(r, stop, s);
    let mi = mirror(r, stop, i);
    assert(b.subrange(offset(b, r, stop, i), b.len() as int) =~= ms.subrange(
        ms.len() - mi.len(),
        ms.len() as int,
    ));
}

/// Along the blocks of the commits from `i` to `t`, the walk agrees at every
/// commit and lands on the block of `t`; `bp` is a log that agrees with the
/// mirrored `b` up to that block's start.
proof fn lemma_walk_mirror(
    r: Seq<SpikeEvent>,
    stop: Option<u64>,
    s: int,
    b: Seq<BoatEventView>,
    bp: Seq<BoatEventView>,
    i: int,
    t: int,
)
    requires
        0 <= s <= i <= t <= r.len(),
        forall|j: int| s <= j < t ==> stop != Some(#[trigger] r[j].pc),
        names_registers(r, s),
        b.len() >= mirror(r, stop, s).len(),
        b.subrange(offset(b, r, stop, s), b.len() as int) == mirror(r, stop, s),
        bp.len() == b.len(),
        forall|k: int| 0 <= k < b.len() && k <= offset(b, r, stop, t) ==> #[trigger] bp[k] == b[k],
    ensures
        walk(r, bp, stop, i, offset(b, r, stop, i)) == walk(
            r,
            bp,
            stop,
            t,
            offset(b, r, stop, t),
        ),
    decreases t - i,
{
    if i < t {
        lemma_offsets(r, stop, s, b, i, t);
        lemma_offsets(r, stop, s, b, i + 1, t);
        assert(stop != Some(r[i].pc));
        let mi = mirror(r, stop, i);
        let m1 = mirror(r, stop, i + 1);
        let e = r[i];
        assert(mi == block(e) + m1);
        let d = offset(b, r, stop, i);
        if e.reg.len() == 0 {
            assert(block(e) =~= Seq::<BoatEventView>::empty());
            assert(mi =~= m1);
        } else {
            let n = e.reg.len() as int;
            let blk = block(e);
            assert(blk.len() == 1 + n);
            let d1 = offset(b, r, stop, i + 1);
            assert(d1 == d + 1 + n);
            assert(b[d] == mi[0]);
            assert(bp[d] == b[d]);
            assert forall|k: int| d + 1 <= k < d1 implies #[trigger] bp[k] == arch_write(
                e,
                e.reg[k - d - 1],
            ) by {
                assert(b[k] == mi[k - d]);
                assert(bp[k] == b[k]);
            }
            assert(is_arch_at(bp[d + 1], e.pc));
            assert(first_arch_from(bp, e.pc, d + 1) == d + 1);
            assert(first_arch_from(bp, e.pc, d) == d + 1);
            if d1 < b.len() {
                assert(m1.len() > 0);
                lemma_mirror_head(r, stop, i + 1);
                assert(b[d1] == m1[0]);
                assert(bp[d1] == b[d1]);
            }
            lemma_run_end_exact(bp, e.pc, d + 1, d1);
            assert forall|k: int| d + 1 <= k < d1 implies matched_by(e, #[trigger] bp[k]) by {
                let w = e.reg[k - d - 1];
                assert(bp[k] == arch_write(e, w));
                assert(r[i].reg[k - d - 1].0 == w.0);
                assert(reg_name_matches(w.0, gpr_index(w.0)));
                assert(has_counterpart(e, gpr_index(w.0), w.1));
            }
            lemma_first_unmatched_exact(e, bp, d + 1, d1, d1);
        }
        lemma_walk_mirror(r, stop, s, b, bp, i + 1, t);
    }
}

/// Two traces that agree at every compared commit pass: an implementation
/// log that holds, after its reset, one fetch and one write per register
/// write for each commit from the sync point up to the end marker (where
/// each name is that of an integer register) gives no failure.
pub proof fn lemma_identical_traces_pass(r: Seq<SpikeEvent>, addr: u64, end: Option<EndPattern>)
    requires
        well_anchored(r, addr, end),
        names_registers(r, first_pc_from(r, addr, 0)),
    ensures
        diff_outcome(r, mirrored_log(r, addr, end), end) is None,
{
    let b = mirrored_log(r, addr, end);
    let s = first_pc_from(r, addr, 0);
    let stop = stop_of(r, end);
    assert(b[0] == BoatEventView::ResetVector { new_addr: addr });
    assert(find_reset(b, 0) == Some(addr));
    lemma_first_pc(r, addr, 0);
    assert(b.subrange(offset(b, r, stop, s), b.len() as int) =~= mirror(r, stop, s));
    lemma_walk_skip(r, b, stop, s, 0, 1);
    lemma_window(r, stop, s);
    let e = window_end(r, stop, s);
    lemma_walk_mirror(r, stop, s, b, b, s, e);
    match stop {
        None => {},
        Some(pc) => {
            lemma_first_pc(r, pc, s);
        },
    }
    match end {
        None => {},
        Some(p) => {},
    }
}

/// Where the write of register write `w` of commit `t` stands in the
/// mirrored log.
pub open spec fn changed_position(
    r: Seq<SpikeEvent>,
    addr: u64,
    end: Option<EndPattern>,
    t: int,
    w: int,
) -> int {
    offset(mirrored_log(r, addr, end), r, stop_of(r, end), t) + 1 + w
}

/// The mirrored log with the value of that one write replaced by `v`.
pub open spec fn changed_log(
    r: Seq<SpikeEvent>,
    addr: u64,
    end: Option<EndPattern>,
    t: int,
    w: int,
    v: u64,
) -> Seq<BoatEventView> {
    mirrored_log(r, addr, end).update(
        changed_position(r, addr, end, t, w),
        BoatEventView::ArchState {
            action: "write"@,
            pc: r[t].pc,
            reg_idx: gpr_index(r[t].reg[w].0),
            data: v,
        },
    )
}

/// Two traces that agree but for one register value at one compared commit
/// fail at that commit, with its PC and that register: the value must be
/// one that the commit does not write to that register.
pub proof fn lemma_one_changed_value_fails(
    r: Seq<SpikeEvent>,
    addr: u64,
    end: Option<EndPattern>,
    t: int,
    w: int,
    v: u64,
)
    requires
        well_anchored(r, addr, end),
        names_registers(r, first_pc_from(r, addr, 0)),
        first_pc_from(r, addr, 0) <= t < window_end(r, stop_of(r, end), first_pc_from(r, addr, 0)),
        0 <= w < r[t].reg.len(),
        !has_counterpart(r[t], gpr_index(r[t].reg[w].0), v),
    ensures
        diff_outcome(r, changed_log(r, addr, end, t, w, v), end) == Some(
            DiffFailure::RegisterMismatch {
                pc: r[t].pc,
                reg_idx: gpr_index(r[t].reg[w].0),
                data: v,
                spike_index: t as usize,
                boat_index: changed_position(r, addr, end, t, w) as usize,
            },
        ),
{
    let b = mirrored_log(r, addr, end);
    let bp = changed_log(r, addr, end, t, w, v);
    let s = first_pc_from(r, addr, 0);
    let stop = stop_of(r, end);
    let pos = changed_position(r, addr, end, t, w);
    lemma_first_pc(r, addr, 0);
    lemma_window(r, stop, s);
    assert(b.subrange(offset(b, r, stop, s), b.len() as int) =~= mirror(r, stop, s));
    lemma_offsets(r, stop, s, b, t, t);
    lemma_offsets(r, stop, s, b, t + 1, t + 1);
    let e = r[t];
    let d = offset(b, r, stop, t);
    let mt = mirror(r, stop, t);
    let m1 = mirror(r, stop, t + 1);
    assert(stop != Some(r[t].pc));
    assert(mt == block(e) + m1);
    let n = e.reg.len() as int;
    let d1 = offset(b, r, stop, t + 1);
    assert(d1 == d + 1 + n);
    assert(0 <= d + 1 + w < b.len());
    assert(bp[0] == b[0]);
    assert(b[0] == BoatEventView::ResetVector { new_addr: addr });
    assert(find_reset(bp, 0) == Some(addr));
    lemma_walk_skip(r, bp, stop, s, 0, 1);
    assert(offset(b, r, stop, s) == 1);
    lemma_walk_mirror(r, stop, s, b, bp, s, t);
    assert(b[d] == mt[0]);
    assert forall|k: int| d + 1 <= k < d1 && k != pos implies #[trigger] bp[k] == arch_write(
        e,
        e.reg[k - d - 1],
    ) by {
        assert(b[k] == mt[k - d]);
    }
    assert(is_arch_at(bp[d + 1], e.pc));
    assert(first_arch_from(bp, e.pc, d + 1) == d + 1);
    assert(first_arch_from(bp, e.pc, d) == d + 1);
    if d1 < b.len() {
        lemma_mirror_head(r, stop, t + 1);
        assert(b[d1] == m1[0]);
    }
    assert forall|k: int| d + 1 <= k < d1 implies is_arch_at(#[trigger] bp[k], e.pc) by {
        if k != pos {
            assert(bp[k] == arch_write(e, e.reg[k - d - 1]));
        }
    }
    lemma_run_end_exact(bp, e.pc, d + 1, d1);
    assert forall|k: int| d + 1 <= k < pos implies matched_by(e, #[trigger] bp[k]) by {
        let x = e.reg[k - d - 1];
        assert(bp[k] == arch_write(e, x));
        assert(r[t].reg[k - d - 1].0 == x.0);
        assert(reg_name_matches(x.0, gpr_index(x.0)));
        assert(has_counterpart(e, gpr_index(x.0), x.1));
    }
    lemma_first_unmatched_exact(e, bp, d + 1, pos, d1);
    assert(arch_fields(bp[pos]) == (gpr_index(r[t].reg[w].0), v));
    match end {
        None => {},
        Some(p) => {},
    }
}

/// A reference trace in which no commit is at the reset vector fails with
/// that condition, rather than being compared from its first commit.
pub proof fn lemma_missing_sync_point_fails(
    r: Seq<SpikeEvent>,
    b: Seq<BoatEventView>,
    end: Option<EndPattern>,
)
    requires
        find_reset(b, 0) is Some,
        forall|i: int| 0 <= i < r.len() ==> #[trigger] r[i].pc != find_reset(b, 0)->Some_0,
    ensures
        diff_outcome(r, b, end) == Some(
            DiffFailure::SyncPointNotFound { reset_vector: find_reset(b, 0)->Some_0 },
        ),
        !verdict(r, b, end).0,
{
    let addr = find_reset(b, 0)->Some_0;
    lemma_first_pc(r, addr, 0);
}

/// The verdict depends on the two traces and the end pattern alone: two
/// runs on the same inputs give the same verdict, report included.
pub proof fn lemma_diff_deterministic(
    r: Seq<SpikeEvent>,
    b: Seq<BoatEventView>,
    end: Option<EndPattern>,
    v1: (bool, Seq<char>),
    v2: (bool, Seq<char>),
)
    requires
        v1 == verdict(r, b, end),
        v2 == verdict(r, b, end),
    ensures
        v1 == v2,
{
}

} // verus!
