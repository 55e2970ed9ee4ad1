//! Speed estimation and throughput-based opacity.
//!
//! A work-tagged task's speed is the exact rational `amount / duration`.
//! One forward pass retains, per work type, the fastest observed speed;
//! a later task replaces the entry only when strictly faster, so ties keep
//! the earliest fastest task.  A task's rectangle opacity is then
//! `OPACITY_BASE + OPACITY_SPAN * speed / best_speed` in per-mille,
//! computed exactly in integers.

use vstd::prelude::*;
use crate::trace::TaskLog;
use crate::geometry::{OPACITY_BASE, OPACITY_SPAN, OPAQUE};

verus! {

/// A speed table entry: work type, then (amount, duration) of the best
/// observed speed for it.
pub type SpeedEntry = (u64, (u32, u64));

/// The first entry for `ty`, scanning from the front.
pub open spec fn lookup(sp: Seq<SpeedEntry>, ty: u64) -> Option<(u32, u64)>
    decreases sp.len(),
{
    if sp.len() == 0 {
        Option::None
    } else if sp[0].0 == ty {
        Option::Some(sp[0].1)
    } else {
        lookup(sp.drop_first(), ty)
    }
}

/// Speed `w1/d1` is no faster than `w2/d2`, by cross multiplication.
pub open spec fn speed_le(w1: int, d1: int, w2: int, d2: int) -> bool {
    w1 * d2 <= w2 * d1
}

/// `sp` with the first entry for `ty` replaced by `v`.
pub open spec fn update_entry(sp: Seq<SpeedEntry>, ty: u64, v: (u32, u64)) -> Seq<SpeedEntry>
    decreases sp.len(),
{
    if sp.len() == 0 {
        sp
    } else if sp[0].0 == ty {
        sp.update(0, (ty, v))
    } else {
        seq![sp[0]] + update_entry(sp.drop_first(), ty, v)
    }
}

/// The speed table after the first `k` tasks.
pub open spec fn speeds_prefix(tasks: Seq<TaskLog>, k: int) -> Seq<SpeedEntry>
    decreases k,
{
    if k <= 0 {
        Seq::empty()
    } else {
        let sp = speeds_prefix(tasks, k - 1);
        let t = tasks[k - 1];
        match t.work {
            Option::None => sp,
            Option::Some((ty, amt)) => {
                let dur = t.end_time - t.start_time;
                match lookup(sp, ty) {
                    Option::None => sp.push((ty, (amt, dur as u64))),
                    Option::Some((bw, bd)) => if !speed_le(
                        amt as int,
                        dur,
                        bw as int,
                        bd as int,
                    ) {
                        update_entry(sp, ty, (amt, dur as u64))
                    } else {
                        sp
                    },
                }
            },
        }
    }
}

/// The whole run's speed table.
pub open spec fn speeds_of(tasks: Seq<TaskLog>) -> Seq<SpeedEntry> {
    speeds_prefix(tasks, tasks.len() as int)
}

pub proof fn lemma_lookup_at(sp: Seq<SpeedEntry>, idx: int, ty: u64)
    requires
        0 <= idx < sp.len(),
        sp[idx].0 == ty,
        forall|j: int| 0 <= j < idx ==> (#[trigger] sp[j]).0 != ty,
    ensures
        lookup(sp, ty) == Option::Some(sp[idx].1),
    decreases idx,
{
    if idx > 0 {
        lemma_lookup_at(sp.drop_first(), idx - 1, ty);
    }
}

pub proof fn lemma_lookup_none(sp: Seq<SpeedEntry>, ty: u64)
    requires
        forall|j: int| 0 <= j < sp.len() ==> (#[trigger] sp[j]).0 != ty,
    ensures
        lookup(sp, ty) is None,
    decreases sp.len(),
{
    if sp.len() > 0 {
        lemma_lookup_none(sp.drop_first(), ty);
    }
}

pub proof fn lemma_update_at(sp: Seq<SpeedEntry>, idx: int, ty: u64, v: (u32, u64))
    requires
        0 <= idx < sp.len(),
        sp[idx].0 == ty,
        forall|j: int| 0 <= j < idx ==> (#[trigger] sp[j]).0 != ty,
    ensures
        update_entry(sp, ty, v) == sp.update(idx, (ty, v)),
    decreases idx,
{
    if idx == 0 {
    } else {
        lemma_update_at(sp.drop_first(), idx - 1, ty, v);
        assert(seq![sp[0]] + sp.drop_first().update(idx - 1, (ty, v)) =~= sp.update(
            idx,
            (ty, v),
        ));
    }
}

/// Collects, per work type, the best observed speed.  The result is
/// exactly the speed-table fold over the tasks in record order.
pub fn compute_speeds(tasks: &Vec<TaskLog>) -> (sp: Vec<SpeedEntry>)
    requires
        forall|i: int|
            0 <= i < tasks@.len() ==> ((#[trigger] tasks@[i]).work is Some ==> tasks@[i].start_time
                < tasks@[i].end_time),
    ensures
        sp@ == speeds_of(tasks@),
{
    let n = tasks.len();
    let mut sp: Vec<SpeedEntry> = Vec::new();
    let mut k: usize = 0;
    while k < n
        invariant
            k <= n,
            n == tasks@.len(),
            forall|i: int|
                0 <= i < n ==> ((#[trigger] tasks@[i]).work is Some ==> tasks@[i].start_time
                    < tasks@[i].end_time),
            sp@ == speeds_prefix(tasks@, k as int),
        decreases n - k,
    {
        let t = &tasks[k];
        match t.work {
            None => {},
            Some((ty, amt)) => {
                let dur = t.end_time - t.start_time;
                // find the first entry for this type
                let mut idx: usize = 0;
                let m = sp.len();
                while idx < m && sp[idx].0 != ty
                    invariant
                        idx <= m,
                        m == sp@.len(),
                        forall|j: int| 0 <= j < idx ==> (#[trigger] sp@[j]).0 != ty,
                    decreases m - idx,
                {
                    idx += 1;
                }
                if idx == m {
                    proof {
                        lemma_lookup_none(sp@, ty);
                    }
                    sp.push((ty, (amt, dur)));
                } else {
                    let (bw, bd) = sp[idx].1;
                    proof {
                        lemma_lookup_at(sp@, idx as int, ty);
                        assert((amt as u128) * (bd as u128) <= u128::MAX && (bw as u128) * (
                        dur as u128) <= u128::MAX) by (nonlinear_arith)
                            requires
                                amt <= u32::MAX,
                                bd <= u64::MAX,
                                bw <= u32::MAX,
                                dur <= u64::MAX,
                        {}
                    }
                    // strictly faster replaces: amt/dur > bw/bd
                    let faster = (amt as u128) * (bd as u128) > (bw as u128) * (dur as u128);
                    if faster {
                        proof {
                            lemma_update_at(sp@, idx as int, ty, (amt, dur));
                        }
                        sp.set(idx, (ty, (amt, dur)));
                    }
                }
            },
        }
        k += 1;
    }
    sp
}

/// Opacity, in per-mille, of a work-tagged task with speed
/// `amount / duration` against the best observed speed `bw / bd` of its
/// type.  A best amount of zero means every observation of the type was
/// zero work: every such task is at the best speed and fully opaque.
pub open spec fn opacity_of(amount: int, duration: int, bw: int, bd: int) -> int {
    if bw == 0 {
        OPAQUE as int
    } else {
        (OPACITY_BASE as int) + ((OPACITY_SPAN as int) * (amount * bd)) / (duration * bw)
    }
}

/// Speed normalization bound: a task no faster than the best of its type
/// gets an opacity between `OPACITY_BASE` and `OPAQUE` per-mille.
pub proof fn lemma_speed_normalization(amount: int, duration: int, bw: int, bd: int)
    requires
        0 <= amount,
        0 < duration,
        0 <= bw,
        0 < bd,
        speed_le(amount, duration, bw, bd),
    ensures
        (OPACITY_BASE as int) <= opacity_of(amount, duration, bw, bd) <= (OPAQUE as int),
{
    if bw == 0 {
    } else {
        let n = amount * bd;
        let m = duration * bw;
        assert(0 <= n <= m && 0 < m) by (nonlinear_arith)
            requires
                n == amount * bd,
                m == duration * bw,
                0 <= amount,
                0 < duration,
                0 < bw,
                0 < bd,
                amount * bd <= bw * duration,
        {}
        vstd::arithmetic::div_mod::lemma_div_pos_is_pos(600 * n, m);
        vstd::arithmetic::div_mod::lemma_div_is_ordered(600 * n, 600 * m, m);
        vstd::arithmetic::div_mod::lemma_div_by_multiple(600, m);
    }
}

/// Computes the opacity of a work-tagged task, exactly.  The task must be
/// no faster than the best speed handed in, as the speed table guarantees.
pub fn opacity(amount: u32, duration: u64, bw: u32, bd: u64) -> (op: u32)
    requires
        0 < duration,
        0 < bd,
        speed_le(amount as int, duration as int, bw as int, bd as int),
    ensures
        op as int == opacity_of(amount as int, duration as int, bw as int, bd as int),
        OPACITY_BASE <= op <= OPAQUE,
{
    proof {
        lemma_speed_normalization(amount as int, duration as int, bw as int, bd as int);
    }
    if bw == 0 {
        OPAQUE
    } else {
        proof {
            assert((amount as u128) * (bd as u128) <= u128::MAX && (duration as u128) * (
            bw as u128) <= u128::MAX && 600 * ((amount as u128) * (bd as u128)) <= u128::MAX)
                by (nonlinear_arith)
                requires
                    amount <= u32::MAX,
                    bd <= u64::MAX,
                    bw <= u32::MAX,
                    duration <= u64::MAX,
            {}
            assert((duration as u128) * (bw as u128) > 0) by (nonlinear_arith)
                requires
                    0 < duration,
                    0 < bw,
            {}
        }
        let n: u128 = (amount as u128) * (bd as u128);
        let m: u128 = (duration as u128) * (bw as u128);
        let op128: u128 = 400 + (600 * n) / m;
        op128 as u32
    }
}


pub proof fn lemma_lookup_push(sp: Seq<SpeedEntry>, e: SpeedEntry, ty2: u64)
    ensures
        lookup(sp.push(e), ty2) == if lookup(sp, ty2) is Some {
            lookup(sp, ty2)
        } else if e.0 == ty2 {
            Option::Some(e.1)
        } else {
            Option::None
        },
    decreases sp.len(),
{
    if sp.len() == 0 {
        assert(sp =~= Seq::<SpeedEntry>::empty());
        assert(lookup(Seq::<SpeedEntry>::empty(), ty2) is None);
        assert(sp.push(e)[0] == e);
        assert(sp.push(e).drop_first() =~= Seq::<SpeedEntry>::empty());
    } else {
        assert(sp.push(e)[0] == sp[0]);
        assert(sp.push(e).drop_first() =~= sp.drop_first().push(e));
        lemma_lookup_push(sp.drop_first(), e, ty2);
    }
}

pub proof fn lemma_lookup_update(sp: Seq<SpeedEntry>, ty: u64, v: (u32, u64), ty2: u64)
    ensures
        lookup(update_entry(sp, ty, v), ty2) == if ty2 == ty && lookup(sp, ty) is Some {
            Option::Some(v)
        } else {
            lookup(sp, ty2)
        },
    decreases sp.len(),
{
    if sp.len() == 0 {
    } else if sp[0].0 == ty {
        let u = sp.update(0, (ty, v));
        assert(u[0] == (ty, v));
        assert(u.drop_first() =~= sp.drop_first());
    } else {
        let u = seq![sp[0]] + update_entry(sp.drop_first(), ty, v);
        assert(u[0] == sp[0]);
        assert(u.drop_first() =~= update_entry(sp.drop_first(), ty, v));
        lemma_lookup_update(sp.drop_first(), ty, v, ty2);
    }
}


/// Every entry of the table records a positive duration.
pub open spec fn entries_positive(sp: Seq<SpeedEntry>) -> bool {
    forall|j: int| 0 <= j < sp.len() ==> (#[trigger] sp[j]).1.1 > 0
}

pub proof fn lemma_update_entry_pointwise(sp: Seq<SpeedEntry>, ty: u64, v: (u32, u64))
    ensures
        update_entry(sp, ty, v).len() == sp.len(),
        forall|j: int|
            0 <= j < sp.len() ==> #[trigger] update_entry(sp, ty, v)[j] == sp[j] || update_entry(
                sp,
                ty,
                v,
            )[j] == (ty, v),
    decreases sp.len(),
{
    if sp.len() == 0 {
    } else if sp[0].0 == ty {
    } else {
        lemma_update_entry_pointwise(sp.drop_first(), ty, v);
        let u = seq![sp[0]] + update_entry(sp.drop_first(), ty, v);
        assert forall|j: int|
            0 <= j < sp.len() implies #[trigger] update_entry(sp, ty, v)[j] == sp[j]
            || update_entry(sp, ty, v)[j] == (ty, v) by {
            if j == 0 {
                assert(u[0] == sp[0]);
            } else {
                assert(u[j] == update_entry(sp.drop_first(), ty, v)[j - 1]);
                assert(sp.drop_first()[j - 1] == sp[j]);
            }
        }
    }
}

pub proof fn lemma_lookup_member(sp: Seq<SpeedEntry>, ty: u64)
    requires
        lookup(sp, ty) is Some,
    ensures
        exists|j: int| 0 <= j < sp.len() && #[trigger] sp[j] == (ty, lookup(sp, ty)->0),
    decreases sp.len(),
{
    if sp.len() > 0 {
        if sp[0].0 == ty {
            assert(sp[0] == (ty, lookup(sp, ty)->0));
        } else {
            lemma_lookup_member(sp.drop_first(), ty);
            let j = choose|j: int|
                0 <= j < sp.drop_first().len() && #[trigger] sp.drop_first()[j] == (
                    ty,
                    lookup(sp.drop_first(), ty)->0,
                );
            assert(sp[j + 1] == (ty, lookup(sp, ty)->0));
        }
    }
}

/// Whether the speed table covers task `i`: an untagged task trivially,
/// a tagged one by an entry of its type at least as fast as it.
pub open spec fn covered(tasks: Seq<TaskLog>, sp: Seq<SpeedEntry>, i: int) -> bool {
    match tasks[i].work {
        Option::None => true,
        Option::Some((ty, amt)) => match lookup(sp, ty) {
            Option::None => false,
            Option::Some((bw, bd)) => 0 < bd && speed_le(
                amt as int,
                tasks[i].end_time - tasks[i].start_time,
                bw as int,
                bd as int,
            ),
        },
    }
}

/// The speed table is sound: every work-tagged task among the first `k`
/// has an entry of its type, and is no faster than that entry.
pub proof fn lemma_speeds_sound(tasks: Seq<TaskLog>, k: int)
    requires
        0 <= k <= tasks.len(),
        forall|i: int|
            0 <= i < tasks.len() ==> ((#[trigger] tasks[i]).work is Some ==> tasks[i].start_time
                < tasks[i].end_time),
    ensures
        entries_positive(speeds_prefix(tasks, k)),
        forall|i: int| 0 <= i < k ==> #[trigger] covered(tasks, speeds_prefix(tasks, k), i),
    decreases k,
{
    if k > 0 {
        lemma_speeds_sound(tasks, k - 1);
        let sp = speeds_prefix(tasks, k - 1);
        let spk = speeds_prefix(tasks, k);
        let t = tasks[k - 1];
        match t.work {
            Option::None => {},
            Option::Some((ty, amt)) => {
                let dur = t.end_time - t.start_time;
                match lookup(sp, ty) {
                    Option::None => {
                        assert forall|i: int| 0 <= i < k implies #[trigger] covered(
                            tasks,
                            spk,
                            i,
                        ) by {
                            lemma_lookup_push(sp, (ty, (amt, dur as u64)), ty);
                            if i < k - 1 {
                                assert(covered(tasks, sp, i));
                                match tasks[i].work {
                                    Option::None => {},
                                    Option::Some((ty2, _)) => {
                                        lemma_lookup_push(sp, (ty, (amt, dur as u64)), ty2);
                                    },
                                }
                            } else {
                                assert(lookup(spk, ty) == Option::Some((amt, dur as u64)));
                            }
                        }
                    },
                    Option::Some((bw, bd)) => {
                        lemma_lookup_member(sp, ty);
                        assert(0 < bd);
                        if !speed_le(amt as int, dur, bw as int, bd as int) {
                            lemma_update_entry_pointwise(sp, ty, (amt, dur as u64));
                            assert forall|i: int| 0 <= i < k implies #[trigger] covered(
                                tasks,
                                spk,
                                i,
                            ) by {
                                lemma_lookup_update(sp, ty, (amt, dur as u64), ty);
                                if i < k - 1 {
                                    assert(covered(tasks, sp, i));
                                    match tasks[i].work {
                                        Option::None => {},
                                        Option::Some((ty2, amt2)) => {
                                            lemma_lookup_update(sp, ty, (amt, dur as u64), ty2);
                                            if ty2 == ty {
                                                let d2 = tasks[i].end_time - tasks[i].start_time;
                                                assert((amt2 as int) * dur <= (amt as int)
                                                    * d2) by (nonlinear_arith)
                                                    requires
                                                        (amt2 as int) * (bd as int) <= (bw as int)
                                                            * d2,
                                                        (bw as int) * dur <= (amt as int) * (
                                                        bd as int),
                                                        0 < bd,
                                                        0 < dur,
                                                        0 <= d2,
                                                        0 <= amt2,
                                                        0 <= bw,
                                                {}
                                            }
                                        },
                                    }
                                }
                            }
                        } else {
                            assert forall|i: int| 0 <= i < k implies #[trigger] covered(
                                tasks,
                                spk,
                                i,
                            ) by {
                                if i < k - 1 {
                                    assert(covered(tasks, sp, i));
                                }
                            }
                        }
                    },
                }
            },
        }
    }
}

} // verus!
