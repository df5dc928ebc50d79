//! The tick scheduler: groups decoded actions by absolute time and
//! replays them against the board in tick order.
//!
//! Every distinct `total_time` over both action lists is one tick.  The
//! replay emits one frame per tick (after a fixed initial frame showing
//! the unrevealed board): the cells that changed, a display duration —
//! 50 time units of milliseconds to the next tick, a fixed tail for the
//! last one — and the completion percentage, forced to 100 on the final
//! tick so that rounding down cannot end a finished game at 99.

use vstd::prelude::*;

use crate::board::{Board, Field};
use crate::error::MinesweeperError;
use crate::parser::{Action, FlagAction, OpenAction};

verus! {

/// Which kinds of action a tick carries.
#[derive(Clone, Copy, Debug, PartialEq, Eq, Structural)]
pub enum ActionType {
    Open,
    Flag,
}

/// One tick: an absolute time and the kinds of action present at it.
#[derive(Clone, Copy, Debug, PartialEq, Eq, Structural)]
pub struct Tick {
    pub time: i64,
    pub has_open: bool,
    pub has_flag: bool,
}

/// Whether some tick of `ts` carries time `t`.
pub open spec fn has_time(ts: Seq<Tick>, t: int) -> bool {
    exists|k: int| 0 <= k < ts.len() && (#[trigger] ts[k]).time == t
}

/// Whether the tick at time `t` carries open actions.
pub open spec fn open_at(ts: Seq<Tick>, t: int) -> bool {
    exists|k: int| 0 <= k < ts.len() && (#[trigger] ts[k]).time == t && ts[k].has_open
}

/// Whether the tick at time `t` carries flag actions.
pub open spec fn flag_at(ts: Seq<Tick>, t: int) -> bool {
    exists|k: int| 0 <= k < ts.len() && (#[trigger] ts[k]).time == t && ts[k].has_flag
}

/// Strictly ascending tick times.
pub open spec fn ticks_sorted(ts: Seq<Tick>) -> bool {
    forall|a: int, b: int| 0 <= a < b < ts.len() ==> ts[a].time < ts[b].time
}

/// The tick sequence of the two action lists: sorted strictly ascending,
/// one tick for each distinct absolute time, each tick carrying exactly
/// the kinds of action present at its time.
pub open spec fn is_tick_seq(ts: Seq<Tick>, opens: Seq<OpenAction>, flags: Seq<FlagAction>) -> bool {
    &&& ticks_sorted(ts)
    &&& forall|k: int|
        0 <= k < ts.len() ==> (#[trigger] ts[k]).has_open == exists|i: int|
            0 <= i < opens.len() && (#[trigger] opens[i]).total_time == ts[k].time
    &&& forall|k: int|
        0 <= k < ts.len() ==> (#[trigger] ts[k]).has_flag == exists|i: int|
            0 <= i < flags.len() && (#[trigger] flags[i]).total_time == ts[k].time
    &&& forall|k: int| 0 <= k < ts.len() ==> (#[trigger] ts[k]).has_open || ts[k].has_flag
    &&& forall|i: int|
        0 <= i < opens.len() ==> has_time(ts, (#[trigger] opens[i]).total_time as int)
    &&& forall|i: int|
        0 <= i < flags.len() ==> has_time(ts, (#[trigger] flags[i]).total_time as int)
}

/// Records one action's time and kind in the sorted tick list: the tick
/// for its time gains the kind, coming into being if it was absent.
fn insert_action(tick_map: &mut Vec<Tick>, total_time: i64, action: ActionType)
    requires
        ticks_sorted(old(tick_map)@),
        forall|k: int|
            0 <= k < old(tick_map)@.len() ==> (#[trigger] old(tick_map)@[k]).has_open || old(
                tick_map,
            )@[k].has_flag,
    ensures
        ticks_sorted(final(tick_map)@),
        forall|k: int|
            0 <= k < final(tick_map)@.len() ==> (#[trigger] final(tick_map)@[k]).has_open
                || final(tick_map)@[k].has_flag,
        forall|t: int|
            has_time(final(tick_map)@, t) <==> has_time(old(tick_map)@, t) || t == total_time,
        forall|t: int|
            open_at(final(tick_map)@, t) <==> open_at(old(tick_map)@, t) || (action
                is Open && t == total_time),
        forall|t: int|
            flag_at(final(tick_map)@, t) <==> flag_at(old(tick_map)@, t) || (action
                is Flag && t == total_time),
{
    let ghost w0 = tick_map@;
    let n = tick_map.len();
    let mut p: usize = 0;
    while p < n && tick_map[p].time < total_time
        invariant
            p <= n,
            n == tick_map@.len(),
            tick_map@ == w0,
            forall|k: int| 0 <= k < p ==> (#[trigger] tick_map@[k]).time < total_time,
        decreases n - p,
    {
        p = p + 1;
    }
    if p < n && tick_map[p].time == total_time {
        let tk = tick_map[p];
        let ntk = Tick {
            time: tk.time,
            has_open: tk.has_open || matches!(action, ActionType::Open),
            has_flag: tk.has_flag || matches!(action, ActionType::Flag),
        };
        tick_map[p] = ntk;
        proof {
            let w1 = tick_map@;
            assert(w1 == w0.update(p as int, ntk));
            assert forall|t: int|
                has_time(w1, t) <==> has_time(w0, t) || t == total_time by {
                if has_time(w1, t) {
                    let k = choose|k: int| 0 <= k < w1.len() && (#[trigger] w1[k]).time == t;
                    assert(w0[k].time == t);
                }
                if has_time(w0, t) {
                    let k = choose|k: int| 0 <= k < w0.len() && (#[trigger] w0[k]).time == t;
                    assert(w1[k].time == t);
                }
                if t == total_time {
                    assert(w1[p as int].time == t);
                }
            }
            assert forall|t: int|
                open_at(w1, t) <==> open_at(w0, t) || (action is Open && t == total_time) by {
                if open_at(w1, t) {
                    let k = choose|k: int|
                        0 <= k < w1.len() && (#[trigger] w1[k]).time == t && w1[k].has_open;
                    if k != p {
                        assert(w0[k].time == t && w0[k].has_open);
                    }
                }
                if open_at(w0, t) {
                    let k = choose|k: int|
                        0 <= k < w0.len() && (#[trigger] w0[k]).time == t && w0[k].has_open;
                    assert(w1[k].time == t && w1[k].has_open);
                }
                if action is Open && t == total_time {
                    assert(w1[p as int].time == t && w1[p as int].has_open);
                }
            }
            assert forall|t: int|
                flag_at(w1, t) <==> flag_at(w0, t) || (action is Flag && t == total_time) by {
                if flag_at(w1, t) {
                    let k = choose|k: int|
                        0 <= k < w1.len() && (#[trigger] w1[k]).time == t && w1[k].has_flag;
                    if k != p {
                        assert(w0[k].time == t && w0[k].has_flag);
                    }
                }
                if flag_at(w0, t) {
                    let k = choose|k: int|
                        0 <= k < w0.len() && (#[trigger] w0[k]).time == t && w0[k].has_flag;
                    assert(w1[k].time == t && w1[k].has_flag);
                }
                if action is Flag && t == total_time {
                    assert(w1[p as int].time == t && w1[p as int].has_flag);
                }
            }
        }
    } else {
        let ntk = Tick {
            time: total_time,
            has_open: matches!(action, ActionType::Open),
            has_flag: matches!(action, ActionType::Flag),
        };
        tick_map.insert(p, ntk);
        proof {
            let w1 = tick_map@;
            assert(w1 == w0.insert(p as int, ntk));
            assert(forall|k: int| 0 <= k < p ==> w1[k] == w0[k]);
            assert(forall|k: int| p < k < w1.len() ==> w1[k] == w0[k - 1]);
            assert(w1[p as int] == ntk);
            assert(ticks_sorted(w1)) by {
                assert forall|a: int, b: int| 0 <= a < b < w1.len() implies w1[a].time
                    < w1[b].time by {
                    if b == p {
                        assert(w1[a] == w0[a]);
                    } else if a == p {
                        assert(w1[b] == w0[b - 1]);
                        assert(w0[p as int].time > total_time);
                    }
                }
            }
            assert forall|t: int|
                has_time(w1, t) <==> has_time(w0, t) || t == total_time by {
                if has_time(w1, t) {
                    let k = choose|k: int| 0 <= k < w1.len() && (#[trigger] w1[k]).time == t;
                    if k < p {
                        assert(w0[k].time == t);
                    } else if k > p {
                        assert(w0[k - 1].time == t);
                    }
                }
                if has_time(w0, t) {
                    let k = choose|k: int| 0 <= k < w0.len() && (#[trigger] w0[k]).time == t;
                    if k < p {
                        assert(w1[k].time == t);
                    } else {
                        assert(w1[k + 1].time == t);
                    }
                }
                if t == total_time {
                    assert(w1[p as int].time == t);
                }
            }
            assert forall|t: int|
                open_at(w1, t) <==> open_at(w0, t) || (action is Open && t == total_time) by {
                if open_at(w1, t) {
                    let k = choose|k: int|
                        0 <= k < w1.len() && (#[trigger] w1[k]).time == t && w1[k].has_open;
                    if k < p {
                        assert(w0[k].time == t && w0[k].has_open);
                    } else if k > p {
                        assert(w0[k - 1].time == t && w0[k - 1].has_open);
                    }
                }
                if open_at(w0, t) {
                    let k = choose|k: int|
                        0 <= k < w0.len() && (#[trigger] w0[k]).time == t && w0[k].has_open;
                    if k < p {
                        assert(w1[k].time == t && w1[k].has_open);
                    } else {
                        assert(w1[k + 1].time == t && w1[k + 1].has_open);
                    }
                }
                if action is Open && t == total_time {
                    assert(w1[p as int].time == t && w1[p as int].has_open);
                }
            }
            assert forall|t: int|
                flag_at(w1, t) <==> flag_at(w0, t) || (action is Flag && t == total_time) by {
                if flag_at(w1, t) {
                    let k = choose|k: int|
                        0 <= k < w1.len() && (#[trigger] w1[k]).time == t && w1[k].has_flag;
                    if k < p {
                        assert(w0[k].time == t && w0[k].has_flag);
                    } else if k > p {
                        assert(w0[k - 1].time == t && w0[k - 1].has_flag);
                    }
                }
                if flag_at(w0, t) {
                    let k = choose|k: int|
                        0 <= k < w0.len() && (#[trigger] w0[k]).time == t && w0[k].has_flag;
                    if k < p {
                        assert(w1[k].time == t && w1[k].has_flag);
                    } else {
                        assert(w1[k + 1].time == t && w1[k + 1].has_flag);
                    }
                }
                if action is Flag && t == total_time {
                    assert(w1[p as int].time == t && w1[p as int].has_flag);
                }
            }
        }
    }
}

/// Builds the ordered tick map over both action lists: one tick per
/// distinct absolute time, tagged with the kinds present at it.
pub fn create_tick_map(open_data: &Vec<OpenAction>, flag_data: &Vec<FlagAction>) -> (ts: Vec<Tick>)
    ensures
        is_tick_seq(ts@, open_data@, flag_data@),
{
    let mut ts: Vec<Tick> = Vec::new();
    let n = open_data.len();
    let mut i: usize = 0;
    while i < n
        invariant
            i <= n,
            n == open_data@.len(),
            ticks_sorted(ts@),
            forall|k: int|
                0 <= k < ts@.len() ==> (#[trigger] ts@[k]).has_open || ts@[k].has_flag,
            forall|t: int|
                has_time(ts@, t) <==> exists|j: int|
                    0 <= j < i && (#[trigger] open_data@[j]).total_time == t,
            forall|t: int|
                open_at(ts@, t) <==> exists|j: int|
                    0 <= j < i && (#[trigger] open_data@[j]).total_time == t,
            forall|t: int| !flag_at(ts@, t),
        decreases n - i,
    {
        insert_action(&mut ts, open_data[i].total_time, ActionType::Open);
        i = i + 1;
    }
    let m = flag_data.len();
    let mut j: usize = 0;
    while j < m
        invariant
            j <= m,
            m == flag_data@.len(),
            n == open_data@.len(),
            ticks_sorted(ts@),
            forall|k: int|
                0 <= k < ts@.len() ==> (#[trigger] ts@[k]).has_open || ts@[k].has_flag,
            forall|t: int|
                has_time(ts@, t) <==> (exists|jj: int|
                    0 <= jj < n && (#[trigger] open_data@[jj]).total_time == t) || (exists|jj: int|
                    0 <= jj < j && (#[trigger] flag_data@[jj]).total_time == t),
            forall|t: int|
                open_at(ts@, t) <==> exists|jj: int|
                    0 <= jj < n && (#[trigger] open_data@[jj]).total_time == t,
            forall|t: int|
                flag_at(ts@, t) <==> exists|jj: int|
                    0 <= jj < j && (#[trigger] flag_data@[jj]).total_time == t,
        decreases m - j,
    {
        insert_action(&mut ts, flag_data[j].total_time, ActionType::Flag);
        j = j + 1;
    }
    proof {
        assert forall|k: int| 0 <= k < ts@.len() implies (#[trigger] ts@[k]).has_open == (exists|
            i2: int,
        |
            0 <= i2 < open_data@.len() && (#[trigger] open_data@[i2]).total_time
                == ts@[k].time) by {
            if ts@[k].has_open {
                assert(open_at(ts@, ts@[k].time as int));
            }
            if open_at(ts@, ts@[k].time as int) {
                let k2 = choose|k2: int|
                    0 <= k2 < ts@.len() && (#[trigger] ts@[k2]).time == ts@[k].time
                        && ts@[k2].has_open;
                assert(k2 == k) by {
                    if k2 < k {
                        assert(ts@[k2].time < ts@[k].time);
                    } else if k2 > k {
                        assert(ts@[k].time < ts@[k2].time);
                    }
                }
            }
        }
        assert forall|k: int| 0 <= k < ts@.len() implies (#[trigger] ts@[k]).has_flag == (exists|
            i2: int,
        |
            0 <= i2 < flag_data@.len() && (#[trigger] flag_data@[i2]).total_time
                == ts@[k].time) by {
            if ts@[k].has_flag {
                assert(flag_at(ts@, ts@[k].time as int));
            }
            if flag_at(ts@, ts@[k].time as int) {
                let k2 = choose|k2: int|
                    0 <= k2 < ts@.len() && (#[trigger] ts@[k2]).time == ts@[k].time
                        && ts@[k2].has_flag;
                assert(k2 == k) by {
                    if k2 < k {
                        assert(ts@[k2].time < ts@[k].time);
                    } else if k2 > k {
                        assert(ts@[k].time < ts@[k2].time);
                    }
                }
            }
        }
    }
    ts
}

/// One replay step, as the specification speaks of it: opening a cell or
/// changing its flag.
pub enum Step {
    OpenAt(int, int),
    FlagAt(int, int, Action),
}

/// What one step does to the board.
#[verifier::opaque]
pub open spec fn step_ok(b1: Board, b2: Board, s: Step) -> bool {
    match s {
        Step::OpenAt(x, y) => b1.in_bounds(x, y) && b2.wf() && Board::open_post(b1, b2, x, y),
        Step::FlagAt(x, y, a) => b1.in_bounds(x, y) && b2.wf() && Board::flag_post(
            b1,
            b2,
            x,
            y,
            a,
        ),
    }
}

/// The boards `b1` and `b2` are joined by the given steps, in order:
/// some board stands before the last step, reached by the other steps.
pub open spec fn board_chain(b1: Board, b2: Board, steps: Seq<Step>) -> bool
    decreases steps.len(),
{
    if steps.len() == 0 {
        b2 == b1
    } else {
        exists|mid: Board|
            board_chain(b1, mid, steps.drop_last()) && #[trigger] step_ok(mid, b2, steps.last())
    }
}

/// A chain grows at its end by one more step.
#[verifier::spinoff_prover]
proof fn lemma_chain_snoc(b0: Board, b1: Board, b2: Board, steps: Seq<Step>, st: Step)
    requires
        board_chain(b0, b1, steps),
        step_ok(b1, b2, st),
    ensures
        board_chain(b0, b2, steps.push(st)),
{
    assert(steps.push(st).drop_last() =~= steps);
    assert(steps.push(st).last() == st);
    assert(board_chain(b0, b1, steps.push(st).drop_last()) && step_ok(
        b1,
        b2,
        steps.push(st).last(),
    ));
}

/// Chains compose.
#[verifier::spinoff_prover]
proof fn lemma_chain_concat(b0: Board, b1: Board, b2: Board, s1: Seq<Step>, s2: Seq<Step>)
    requires
        board_chain(b0, b1, s1),
        board_chain(b1, b2, s2),
    ensures
        board_chain(b0, b2, s1 + s2),
    decreases s2.len(),
{
    if s2.len() == 0 {
        assert(b2 == b1);
        assert(s1 + s2 =~= s1);
    } else {
        let mid = choose|mid: Board|
            board_chain(b1, mid, s2.drop_last()) && #[trigger] step_ok(mid, b2, s2.last());
        lemma_chain_concat(b0, b1, mid, s1, s2.drop_last());
        assert((s1 + s2).drop_last() =~= s1 + s2.drop_last());
        assert((s1 + s2).last() == s2.last());
        assert(board_chain(b0, mid, (s1 + s2).drop_last()) && step_ok(
            mid,
            b2,
            (s1 + s2).last(),
        ));
    }
}

/// The open steps of one tick: every open action at time `t`, in input
/// order.
pub open spec fn open_steps(opens: Seq<OpenAction>, t: int) -> Seq<Step> {
    opens.filter(|a: OpenAction| a.total_time == t).map_values(
        |a: OpenAction| Step::OpenAt(a.x as int, a.y as int),
    )
}

/// The flag steps of one tick.
pub open spec fn flag_steps(flags: Seq<FlagAction>, t: int) -> Seq<Step> {
    flags.filter(|a: FlagAction| a.total_time == t).map_values(
        |a: FlagAction| Step::FlagAt(a.x as int, a.y as int, a.action),
    )
}

/// All steps of one tick: its open actions, then its flag actions.
pub open spec fn tick_steps(opens: Seq<OpenAction>, flags: Seq<FlagAction>, tick: Tick) -> Seq<
    Step,
> {
    (if tick.has_open {
        open_steps(opens, tick.time as int)
    } else {
        Seq::empty()
    }) + (if tick.has_flag {
        flag_steps(flags, tick.time as int)
    } else {
        Seq::empty()
    })
}

/// Whether every action aims at a cell of the board.
pub open spec fn opens_in_bounds(opens: Seq<OpenAction>, b: Board) -> bool {
    forall|i: int|
        0 <= i < opens.len() ==> b.in_bounds(
            (#[trigger] opens[i]).x as int,
            opens[i].y as int,
        )
}

/// Whether every flag action aims at a cell of the board.
pub open spec fn flags_in_bounds(flags: Seq<FlagAction>, b: Board) -> bool {
    forall|i: int|
        0 <= i < flags.len() ==> b.in_bounds(
            (#[trigger] flags[i]).x as int,
            flags[i].y as int,
        )
}

/// Applies every open action whose absolute time is `t`, in input order.
fn apply_opens_at(board: &mut Board, opens: &Vec<OpenAction>, t: i64)
    requires
        old(board).wf(),
        opens_in_bounds(opens@, *old(board)),
    ensures
        final(board).wf(),
        final(board).metadata == old(board).metadata,
        board_chain(*old(board), *final(board), open_steps(opens@, t as int)),
{
    let ghost pre = *board;
    let n = opens.len();
    let mut i: usize = 0;
    proof {
        assert(opens@.take(0) =~= Seq::<OpenAction>::empty());
        assert(open_steps(opens@.take(0), t as int) =~= Seq::<Step>::empty()) by {
            reveal(Seq::filter);
        }
    }
    while i < n
        invariant
            i <= n,
            n == opens@.len(),
            board.wf(),
            board.metadata == pre.metadata,
            opens_in_bounds(opens@, pre),
            board_chain(pre, *board, open_steps(opens@.take(i as int), t as int)),
        decreases n - i,
    {
        let a = opens[i];
        let ghost prev = *board;
        let ghost sts = open_steps(opens@.take(i as int), t as int);
        if a.total_time == t {
            board.open_field(a.x as usize, a.y as usize);
            proof {
                let st = Step::OpenAt(a.x as int, a.y as int);
                assert(step_ok(prev, *board, st)) by {
                    reveal(step_ok);
                }
                lemma_chain_snoc(pre, prev, *board, sts, st);
            }
        }
        proof {
            assert(opens@.take(i + 1) =~= opens@.take(i as int).push(opens@[i as int]));
            reveal(Seq::filter);
            let p = |a2: OpenAction| a2.total_time == t as int;
            assert(opens@.take(i as int).push(opens@[i as int]).drop_last() =~= opens@.take(
                i as int,
            ));
            if a.total_time == t {
                assert(opens@.take(i + 1).filter(p) =~= opens@.take(i as int).filter(p).push(a));
                assert(open_steps(opens@.take(i + 1), t as int) =~= open_steps(
                    opens@.take(i as int),
                    t as int,
                ).push(Step::OpenAt(a.x as int, a.y as int)));
            } else {
                assert(opens@.take(i + 1).filter(p) =~= opens@.take(i as int).filter(p));
                assert(open_steps(opens@.take(i + 1), t as int) =~= open_steps(
                    opens@.take(i as int),
                    t as int,
                ));
            }
        }
        i = i + 1;
    }
    proof {
        assert(opens@.take(n as int) =~= opens@);
    }
}

/// Applies every flag action whose absolute time is `t`, in input order.
fn apply_flags_at(board: &mut Board, flags: &Vec<FlagAction>, t: i64)
    requires
        old(board).wf(),
        flags_in_bounds(flags@, *old(board)),
    ensures
        final(board).wf(),
        final(board).metadata == old(board).metadata,
        board_chain(*old(board), *final(board), flag_steps(flags@, t as int)),
{
    let ghost pre = *board;
    let n = flags.len();
    let mut i: usize = 0;
    proof {
        assert(flags@.take(0) =~= Seq::<FlagAction>::empty());
        assert(flag_steps(flags@.take(0), t as int) =~= Seq::<Step>::empty()) by {
            reveal(Seq::filter);
        }
    }
    while i < n
        invariant
            i <= n,
            n == flags@.len(),
            board.wf(),
            board.metadata == pre.metadata,
            flags_in_bounds(flags@, pre),
            board_chain(pre, *board, flag_steps(flags@.take(i as int), t as int)),
        decreases n - i,
    {
        let a = flags[i];
        let ghost prev = *board;
        let ghost sts = flag_steps(flags@.take(i as int), t as int);
        if a.total_time == t {
            board.set_flag(a.x as usize, a.y as usize, a.action);
            proof {
                let st = Step::FlagAt(a.x as int, a.y as int, a.action);
                assert(step_ok(prev, *board, st)) by {
                    reveal(step_ok);
                }
                lemma_chain_snoc(pre, prev, *board, sts, st);
            }
        }
        proof {
            assert(flags@.take(i + 1) =~= flags@.take(i as int).push(flags@[i as int]));
            reveal(Seq::filter);
            let p = |a2: FlagAction| a2.total_time == t as int;
            assert(flags@.take(i as int).push(flags@[i as int]).drop_last() =~= flags@.take(
                i as int,
            ));
            if a.total_time == t {
                assert(flags@.take(i + 1).filter(p) =~= flags@.take(i as int).filter(p).push(a));
                assert(flag_steps(flags@.take(i + 1), t as int) =~= flag_steps(
                    flags@.take(i as int),
                    t as int,
                ).push(Step::FlagAt(a.x as int, a.y as int, a.action)));
            } else {
                assert(flags@.take(i + 1).filter(p) =~= flags@.take(i as int).filter(p));
                assert(flag_steps(flags@.take(i + 1), t as int) =~= flag_steps(
                    flags@.take(i as int),
                    t as int,
                ));
            }
        }
        i = i + 1;
    }
    proof {
        assert(flags@.take(n as int) =~= flags@);
    }
}

/// What `Board::snapshot_and_clear_dirty` hands out for board `b`: every
/// dirty cell with its contents, ordered by flat index, and nothing else.
pub open spec fn diff_ok(b: Board, diff: Seq<(usize, usize, Field)>) -> bool {
    &&& forall|k: int|
        0 <= k < diff.len() ==> {
            let e = #[trigger] diff[k];
            &&& b.in_bounds(e.0 as int, e.1 as int)
            &&& b.changed_at(e.0 as int, e.1 as int)
            &&& e.2 == b.cell(e.0 as int, e.1 as int)
        }
    &&& forall|x: int, y: int|
        b.in_bounds(x, y) && b.changed_at(x, y) ==> exists|k: int|
            0 <= k < diff.len() && #[trigger] diff[k] == (x as usize, y as usize, b.cell(x, y))
    &&& forall|k1: int, k2: int|
        0 <= k1 < k2 < diff.len() ==> b.idx(diff[k1].0 as int, diff[k1].1 as int) < b.idx(
            diff[k2].0 as int,
            diff[k2].1 as int,
        )
}

/// `b2` is `b1` with the whole dirty mask wiped.
pub open spec fn cleared(b1: Board, b2: Board) -> bool {
    &&& b2.fields@ == b1.fields@
    &&& b2.metadata == b1.metadata
    &&& b2.mine_count == b1.mine_count
    &&& b2.open_fields == b1.open_fields
    &&& b2.total_fields == b1.total_fields
    &&& b2.changed_fields@.len() == b1.changed_fields@.len()
    &&& forall|n: int| 0 <= n < b2.changed_fields@.len() ==> !(#[trigger] b2.changed_fields@[n])
}

/// The display duration of the tick at position `k`, in milliseconds: 50
/// per time unit to the next tick, clamped to the machine word, and a
/// fixed 15 seconds for the last tick.
pub open spec fn spec_duration(ticks: Seq<Tick>, k: int) -> int {
    if k == ticks.len() - 1 {
        15000int
    } else {
        let d = (ticks[k + 1].time - ticks[k].time) * 50;
        if d > u64::MAX {
            u64::MAX as int
        } else {
            d
        }
    }
}

/// One emitted frame: the cells that changed this tick, how long to show
/// it, and the completion percentage.
#[derive(Clone, Debug)]
pub struct Frame {
    pub diff: Vec<(usize, usize, Field)>,
    pub duration_ms: u64,
    pub percentage: u32,
}

/// The frame of tick `k` is correct between board states `b` and `b2`:
/// the tick's actions were applied, the dirty cells were handed out and
/// wiped, the duration follows the tick spacing, and the percentage is
/// the board's completion — forced to 100 on the final tick.
pub open spec fn tick_transition(
    b: Board,
    b2: Board,
    ticks: Seq<Tick>,
    k: int,
    f: Frame,
    opens: Seq<OpenAction>,
    flags: Seq<FlagAction>,
) -> bool {
    exists|b1: Board|
        {
            &&& #[trigger] board_chain(b, b1, tick_steps(opens, flags, ticks[k]))
            &&& diff_ok(b1, f.diff@)
            &&& cleared(b1, b2)
            &&& f.duration_ms == spec_duration(ticks, k)
            &&& f.percentage == (if k == ticks.len() - 1 {
                100int
            } else {
                b1.spec_percentage()
            })
        }
}

/// The whole replay from tick `k` on: each remaining tick makes its
/// transition and contributes exactly one frame.
pub open spec fn replay_from(
    b: Board,
    bend: Board,
    ticks: Seq<Tick>,
    k: int,
    opens: Seq<OpenAction>,
    flags: Seq<FlagAction>,
    frames: Seq<Frame>,
) -> bool
    decreases ticks.len() - k,
{
    if !(0 <= k <= ticks.len()) {
        false
    } else if k == ticks.len() {
        bend == b && frames.len() == 0
    } else {
        &&& frames.len() >= 1
        &&& exists|b2: Board|
            #[trigger] tick_transition(b, b2, ticks, k, frames[0], opens, flags) && replay_from(
                b2,
                bend,
                ticks,
                k + 1,
                opens,
                flags,
                frames.drop_first(),
            )
    }
}

/// Folds a chain of per-tick transitions into the replay relation.
proof fn lemma_replay_assemble(
    bs: Seq<Board>,
    ticks: Seq<Tick>,
    opens: Seq<OpenAction>,
    flags: Seq<FlagAction>,
    frames: Seq<Frame>,
    j: int,
)
    requires
        0 <= j <= ticks.len(),
        bs.len() == ticks.len() + 1,
        frames.len() == ticks.len(),
        forall|i: int|
            0 <= i < ticks.len() ==> tick_transition(
                bs[i],
                bs[i + 1],
                ticks,
                i,
                #[trigger] frames[i],
                opens,
                flags,
            ),
    ensures
        replay_from(bs[j], bs[ticks.len() as int], ticks, j, opens, flags, frames.skip(j)),
    decreases ticks.len() - j,
{
    if j == ticks.len() {
        assert(frames.skip(j) =~= Seq::<Frame>::empty());
    } else {
        lemma_replay_assemble(bs, ticks, opens, flags, frames, j + 1);
        assert(frames.skip(j)[0] == frames[j]);
        assert(frames.skip(j).drop_first() =~= frames.skip(j + 1));
        assert(tick_transition(bs[j], bs[j + 1], ticks, j, frames.skip(j)[0], opens, flags)
            && replay_from(
            bs[j + 1],
            bs[ticks.len() as int],
            ticks,
            j + 1,
            opens,
            flags,
            frames.skip(j).drop_first(),
        ));
    }
}

/// Replays the whole action log against the board, tick by tick, and
/// returns the frames: first the unrevealed board for one second, then
/// one frame per tick.  An action aimed off the board fails before
/// anything is touched.
pub fn replay(board: &mut Board, open_data: &Vec<OpenAction>, flag_data: &Vec<FlagAction>) -> (r:
    Result<Vec<Frame>, MinesweeperError>)
    requires
        old(board).wf(),
    ensures
        final(board).wf(),
        r is Ok <==> opens_in_bounds(open_data@, *old(board)) && flags_in_bounds(
            flag_data@,
            *old(board),
        ),
        r matches Err(e) ==> e == MinesweeperError::CoordinateOutOfBounds && *final(board) == *old(
            board,
        ),
        r matches Ok(frames) ==> {
            &&& frames@.len() >= 1
            &&& frames@[0].duration_ms == 1000
            &&& frames@[0].percentage == old(board).spec_percentage()
            &&& diff_ok(*old(board), frames@[0].diff@)
            &&& (frames@.len() > 1 ==> frames@.last().percentage == 100)
            &&& exists|ts: Seq<Tick>, bc: Board|
                {
                    &&& #[trigger] is_tick_seq(ts, open_data@, flag_data@)
                    &&& #[trigger] cleared(*old(board), bc)
                    &&& frames@.len() == ts.len() + 1
                    &&& replay_from(
                        bc,
                        *final(board),
                        ts,
                        0,
                        open_data@,
                        flag_data@,
                        frames@.skip(1),
                    )
                }
        },
{
    let n = open_data.len();
    let mut i: usize = 0;
    while i < n
        invariant
            i <= n,
            n == open_data@.len(),
            board.wf(),
            *board == *old(board),
            forall|j: int|
                0 <= j < i ==> board.in_bounds(
                    (#[trigger] open_data@[j]).x as int,
                    open_data@[j].y as int,
                ),
        decreases n - i,
    {
        let a = open_data[i];
        if a.x < 0 || a.y < 0 || a.x >= board.metadata.x_size || a.y >= board.metadata.y_size {
            return Err(MinesweeperError::CoordinateOutOfBounds);
        }
        i = i + 1;
    }
    let m = flag_data.len();
    let mut j: usize = 0;
    while j < m
        invariant
            j <= m,
            m == flag_data@.len(),
            board.wf(),
            *board == *old(board),
            opens_in_bounds(open_data@, *board),
            forall|j2: int|
                0 <= j2 < j ==> board.in_bounds(
                    (#[trigger] flag_data@[j2]).x as int,
                    flag_data@[j2].y as int,
                ),
        decreases m - j,
    {
        let a = flag_data[j];
        if a.x < 0 || a.y < 0 || a.x >= board.metadata.x_size || a.y >= board.metadata.y_size {
            return Err(MinesweeperError::CoordinateOutOfBounds);
        }
        j = j + 1;
    }
    let mut frames: Vec<Frame> = Vec::new();
    let pct0 = board.calculate_done_percentage();
    let diff0 = board.snapshot_and_clear_dirty();
    frames.push(Frame { diff: diff0, duration_ms: 1000, percentage: pct0 });
    let ghost bc = *board;
    let ghost f0 = frames@[0];
    let ticks = create_tick_map(open_data, flag_data);
    let ghost ts = ticks@;
    let tn = ticks.len();
    let ghost mut bs: Seq<Board> = seq![bc];
    let mut k: usize = 0;
    while k < tn
        invariant
            k <= tn,
            tn == ts.len(),
            ticks@ == ts,
            is_tick_seq(ts, open_data@, flag_data@),
            board.wf(),
            board.metadata == bc.metadata,
            opens_in_bounds(open_data@, bc),
            flags_in_bounds(flag_data@, bc),
            bs.len() == k + 1,
            bs[0] == bc,
            bs[k as int] == *board,
            forall|i2: int|
                0 <= i2 < k ==> tick_transition(
                    bs[i2],
                    bs[i2 + 1],
                    ts,
                    i2,
                    #[trigger] frames@.skip(1)[i2],
                    open_data@,
                    flag_data@,
                ),
            frames@.len() == k + 1,
            frames@[0] == f0,
            k == tn && tn > 0 ==> frames@[tn as int].percentage == 100,
        decreases tn - k,
    {
        let t = ticks[k].time;
        proof {
            assert(opens_in_bounds(open_data@, *board)) by {
                assert forall|i2: int|
                    0 <= i2 < open_data@.len() implies board.in_bounds(
                    (#[trigger] open_data@[i2]).x as int,
                    open_data@[i2].y as int,
                ) by {
                    assert(bc.in_bounds(open_data@[i2].x as int, open_data@[i2].y as int));
                }
            }
            assert(flags_in_bounds(flag_data@, *board)) by {
                assert forall|i2: int|
                    0 <= i2 < flag_data@.len() implies board.in_bounds(
                    (#[trigger] flag_data@[i2]).x as int,
                    flag_data@[i2].y as int,
                ) by {
                    assert(bc.in_bounds(flag_data@[i2].x as int, flag_data@[i2].y as int));
                }
            }
        }
        let ghost before_tick = *board;
        let ghost part1 = if ts[k as int].has_open {
            open_steps(open_data@, t as int)
        } else {
            Seq::<Step>::empty()
        };
        if ticks[k].has_open {
            apply_opens_at(board, open_data, t);
        }
        let ghost mid = *board;
        proof {
            if !ts[k as int].has_open {
                assert(board_chain(before_tick, mid, part1));
            }
        }
        let ghost part2 = if ts[k as int].has_flag {
            flag_steps(flag_data@, t as int)
        } else {
            Seq::<Step>::empty()
        };
        if ticks[k].has_flag {
            apply_flags_at(board, flag_data, t);
        }
        let ghost b1 = *board;
        proof {
            if !ts[k as int].has_flag {
                assert(board_chain(mid, b1, part2));
            }
            lemma_chain_concat(before_tick, mid, b1, part1, part2);
            assert(tick_steps(open_data@, flag_data@, ts[k as int]) == part1 + part2);
        }
        let duration: u64 = if k + 1 < tn {
            let t2 = ticks[k + 1].time;
            proof {
                assert(ts[k as int].time < ts[k + 1].time);
            }
            let d: i128 = (t2 as i128 - t as i128) * 50;
            if d > u64::MAX as i128 {
                u64::MAX
            } else {
                d as u64
            }
        } else {
            15000
        };
        let pct: u32 = if k + 1 == tn {
            100
        } else {
            board.calculate_done_percentage()
        };
        let diff = board.snapshot_and_clear_dirty();
        let ghost b2 = *board;
        let ghost fprev = frames@;
        let ghost bsprev = bs;
        frames.push(Frame { diff, duration_ms: duration, percentage: pct });
        proof {
            assert(diff_ok(b1, frames@.last().diff@));
            assert(cleared(b1, b2));
            assert(frames@.last().duration_ms == spec_duration(ts, k as int));
            assert(tick_transition(bs[k as int], b2, ts, k as int, frames@[k + 1], open_data@,
                flag_data@)) by {
                assert(board_chain(bs[k as int], b1, tick_steps(open_data@, flag_data@, ts[k as int]))
                    && diff_ok(b1, frames@[k + 1].diff@) && cleared(b1, b2) && frames@[k + 1].duration_ms
                    == spec_duration(ts, k as int) && frames@[k + 1].percentage == (if k as int
                    == ts.len() - 1 {
                    100int
                } else {
                    b1.spec_percentage()
                }));
            }
            bs = bs.push(b2);
            assert forall|i2: int|
                0 <= i2 < k + 1 implies tick_transition(
                bs[i2],
                bs[i2 + 1],
                ts,
                i2,
                #[trigger] frames@.skip(1)[i2],
                open_data@,
                flag_data@,
            ) by {
                if i2 < k {
                    assert(frames@.skip(1)[i2] == fprev.skip(1)[i2]);
                    assert(bs[i2] == bsprev[i2] && bs[i2 + 1] == bsprev[i2 + 1]);
                    assert(tick_transition(
                        bsprev[i2],
                        bsprev[i2 + 1],
                        ts,
                        i2,
                        fprev.skip(1)[i2],
                        open_data@,
                        flag_data@,
                    ));
                } else {
                    assert(frames@.skip(1)[i2] == frames@[k + 1]);
                    assert(bs[i2] == bsprev[k as int] && bs[i2 + 1] == b2);
                }
            }
        }
        k = k + 1;
    }
    proof {
        lemma_replay_assemble(bs, ts, open_data@, flag_data@, frames@.skip(1), 0);
        assert(frames@.skip(1).skip(0) =~= frames@.skip(1));
        assert(cleared(*old(board), bc));
        assert(bs[ts.len() as int] == *board);
        if frames@.len() > 1 {
            assert(frames@.last() == frames@[tn as int]);
        }
    }
    Ok(frames)
}

/// Every flag action as a step, in input order.
pub open spec fn all_flag_steps(flags: Seq<FlagAction>) -> Seq<Step> {
    flags.map_values(|a: FlagAction| Step::FlagAt(a.x as int, a.y as int, a.action))
}

/// Every open action as a step, in input order.
pub open spec fn all_open_steps(opens: Seq<OpenAction>) -> Seq<Step> {
    opens.map_values(|a: OpenAction| Step::OpenAt(a.x as int, a.y as int))
}

/// The still ("full reveal") mode: applies every flag action, then every
/// open action, ignoring times, and returns the completion percentage of
/// the final board.  An action aimed off the board fails before anything
/// is touched.
pub fn apply_all_actions(
    board: &mut Board,
    open_data: &Vec<OpenAction>,
    flag_data: &Vec<FlagAction>,
) -> (r: Result<u32, MinesweeperError>)
    requires
        old(board).wf(),
    ensures
        final(board).wf(),
        r is Ok <==> opens_in_bounds(open_data@, *old(board)) && flags_in_bounds(
            flag_data@,
            *old(board),
        ),
        r matches Err(e) ==> e == MinesweeperError::CoordinateOutOfBounds && *final(board) == *old(
            board,
        ),
        r matches Ok(p) ==> board_chain(
            *old(board),
            *final(board),
            all_flag_steps(flag_data@) + all_open_steps(open_data@),
        ) && p == final(board).spec_percentage() && p <= 100,
{
    let n = open_data.len();
    let mut i: usize = 0;
    while i < n
        invariant
            i <= n,
            n == open_data@.len(),
            board.wf(),
            *board == *old(board),
            forall|j: int|
                0 <= j < i ==> board.in_bounds(
                    (#[trigger] open_data@[j]).x as int,
                    open_data@[j].y as int,
                ),
        decreases n - i,
    {
        let a = open_data[i];
        if a.x < 0 || a.y < 0 || a.x >= board.metadata.x_size || a.y >= board.metadata.y_size {
            return Err(MinesweeperError::CoordinateOutOfBounds);
        }
        i = i + 1;
    }
    let m = flag_data.len();
    let mut j: usize = 0;
    while j < m
        invariant
            j <= m,
            m == flag_data@.len(),
            board.wf(),
            *board == *old(board),
            opens_in_bounds(open_data@, *board),
            forall|j2: int|
                0 <= j2 < j ==> board.in_bounds(
                    (#[trigger] flag_data@[j2]).x as int,
                    flag_data@[j2].y as int,
                ),
        decreases m - j,
    {
        let a = flag_data[j];
        if a.x < 0 || a.y < 0 || a.x >= board.metadata.x_size || a.y >= board.metadata.y_size {
            return Err(MinesweeperError::CoordinateOutOfBounds);
        }
        j = j + 1;
    }
    let ghost pre = *board;
    let mut fi: usize = 0;
    proof {
        assert(flag_data@.take(0) =~= Seq::<FlagAction>::empty());
        assert(all_flag_steps(flag_data@.take(0)) =~= Seq::<Step>::empty());
    }
    while fi < m
        invariant
            fi <= m,
            m == flag_data@.len(),
            board.wf(),
            board.metadata == pre.metadata,
            flags_in_bounds(flag_data@, pre),
            opens_in_bounds(open_data@, pre),
            board_chain(pre, *board, all_flag_steps(flag_data@.take(fi as int))),
        decreases m - fi,
    {
        let a = flag_data[fi];
        let ghost prev = *board;
        let ghost sts = all_flag_steps(flag_data@.take(fi as int));
        board.set_flag(a.x as usize, a.y as usize, a.action);
        proof {
            let st = Step::FlagAt(a.x as int, a.y as int, a.action);
            assert(step_ok(prev, *board, st)) by {
                reveal(step_ok);
            }
            lemma_chain_snoc(pre, prev, *board, sts, st);
            assert(flag_data@.take(fi + 1) =~= flag_data@.take(fi as int).push(
                flag_data@[fi as int],
            ));
            assert(all_flag_steps(flag_data@.take(fi + 1)) =~= sts.push(st));
        }
        fi = fi + 1;
    }
    proof {
        assert(flag_data@.take(m as int) =~= flag_data@);
    }
    let ghost bmid = *board;
    let mut oi: usize = 0;
    proof {
        assert(open_data@.take(0) =~= Seq::<OpenAction>::empty());
        assert(all_open_steps(open_data@.take(0)) =~= Seq::<Step>::empty());
    }
    while oi < n
        invariant
            oi <= n,
            n == open_data@.len(),
            board.wf(),
            board.metadata == pre.metadata,
            opens_in_bounds(open_data@, pre),
            board_chain(bmid, *board, all_open_steps(open_data@.take(oi as int))),
        decreases n - oi,
    {
        let a = open_data[oi];
        let ghost prev = *board;
        let ghost sts = all_open_steps(open_data@.take(oi as int));
        board.open_field(a.x as usize, a.y as usize);
        proof {
            let st = Step::OpenAt(a.x as int, a.y as int);
            assert(step_ok(prev, *board, st)) by {
                reveal(step_ok);
            }
            lemma_chain_snoc(bmid, prev, *board, sts, st);
            assert(open_data@.take(oi + 1) =~= open_data@.take(oi as int).push(
                open_data@[oi as int],
            ));
            assert(all_open_steps(open_data@.take(oi + 1)) =~= sts.push(st));
        }
        oi = oi + 1;
    }
    proof {
        assert(open_data@.take(n as int) =~= open_data@);
        lemma_chain_concat(
            pre,
            bmid,
            *board,
            all_flag_steps(flag_data@),
            all_open_steps(open_data@),
        );
    }
    let p = board.calculate_done_percentage();
    Ok(p)
}

} // verus!
