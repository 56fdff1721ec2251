//! Properties of the client's controls that span several frames.

use crate::movement::{cooldown_step, intent_of, CooldownView, MovementKeys};
use vstd::prelude::*;

verus! {

/// The two axes are independent: `W` and `S` set only the forward axis,
/// `A` and `D` only the sideways one, whatever else is held. Each key alone
/// moves one step its own way, and diagonal movement combines both.
pub proof fn law_keys_act_independently(keys: MovementKeys, other: MovementKeys)
    ensures
        keys.forward == other.forward && keys.back == other.back ==> intent_of(keys).0 == intent_of(
            other,
        ).0,
        keys.left == other.left && keys.right == other.right ==> intent_of(keys).1 == intent_of(
            other,
        ).1,
        keys.back && !keys.forward ==> intent_of(keys).0 == 1,
        keys.forward && !keys.back ==> intent_of(keys).0 == -1,
        keys.left && !keys.right ==> intent_of(keys).1 == 1,
        keys.right && !keys.left ==> intent_of(keys).1 == -1,
{
}

/// Holding two opposite keys is the same as holding neither.
pub proof fn law_opposite_keys_cancel(keys: MovementKeys)
    ensures
        keys.forward == keys.back ==> intent_of(keys).0 == 0,
        keys.left == keys.right ==> intent_of(keys).1 == 0,
{
}

/// The cooldown after the frames, and whether any of them jumped; a frame
/// is whether the jump key is held and how long the frame lasted.
pub open spec fn run_cooldown(c: CooldownView, frames: Seq<(bool, nat)>) -> (CooldownView, bool)
    decreases frames.len(),
{
    if frames.len() == 0 {
        (c, false)
    } else {
        let (before, jumped) = run_cooldown(c, frames.drop_last());
        let (after, jumps) = cooldown_step(before, frames.last().0, frames.last().1);
        (after, jumped || jumps)
    }
}

/// How long the jump key was held over the frames.
pub open spec fn held_time(frames: Seq<(bool, nat)>) -> nat
    decreases frames.len(),
{
    if frames.len() == 0 {
        0
    } else {
        held_time(frames.drop_last()) + if frames.last().0 {
            frames.last().1
        } else {
            0
        }
    }
}

/// The player cannot jump before the jump key has been held for the rest
/// of the cooldown: while the time held stays short of it, no frame jumps,
/// and the time held accumulates, also across frames in which the key is
/// released.
pub proof fn law_no_jump_within_cooldown(c: CooldownView, frames: Seq<(bool, nat)>)
    requires
        c.wf(),
        c.elapsed + held_time(frames) < c.duration,
    ensures
        !run_cooldown(c, frames).1,
        run_cooldown(c, frames).0.elapsed == c.elapsed + held_time(frames),
        run_cooldown(c, frames).0.duration == c.duration,
    decreases frames.len(),
{
    if frames.len() > 0 {
        law_no_jump_within_cooldown(c, frames.drop_last());
    }
}

/// A jump needs the key held and the cooldown full, and starts it over.
pub proof fn law_jump_restarts_cooldown(c: CooldownView, pressed: bool, delta: nat)
    requires
        c.wf(),
    ensures
        cooldown_step(c, pressed, delta).1 ==> pressed && c.elapsed + delta >= c.duration
            && cooldown_step(c, pressed, delta).0.elapsed == 0,
        cooldown_step(c, pressed, delta).0.wf(),
{
}

/// Whether frame `i` of `frames` jumps.
pub open spec fn jumps_at(c: CooldownView, frames: Seq<(bool, nat)>, i: nat) -> bool {
    cooldown_step(run_cooldown(c, frames.take(i as int)).0, frames[i as int].0, frames[i as int].1).1
}

/// The frame of the last jump before frame `i`, or -1 if there was none.
pub open spec fn last_jump_before(c: CooldownView, frames: Seq<(bool, nat)>, i: nat) -> int
    decreases i,
{
    if i == 0 {
        -1
    } else if jumps_at(c, frames, (i - 1) as nat) {
        i - 1
    } else {
        last_jump_before(c, frames, (i - 1) as nat)
    }
}

proof fn lemma_cooldown_holds_time_since_jump(c: CooldownView, frames: Seq<(bool, nat)>, i: nat)
    requires
        c.wf(),
        c.elapsed == 0,
        i <= frames.len(),
    ensures
        -1 <= last_jump_before(c, frames, i) < i,
        run_cooldown(c, frames.take(i as int)).0 == (CooldownView {
            elapsed: held_time(frames.subrange(last_jump_before(c, frames, i) + 1, i as int)),
            ..c
        }),
        run_cooldown(c, frames.take(i as int)).0.wf(),
    decreases i,
{
    if i == 0 {
        assert(frames.take(0) =~= Seq::<(bool, nat)>::empty());
        assert(frames.subrange(0, 0) =~= Seq::<(bool, nat)>::empty());
    } else {
        let k = (i - 1) as nat;
        lemma_cooldown_holds_time_since_jump(c, frames, k);
        assert(frames.take(i as int).drop_last() =~= frames.take(k as int));
        assert(frames.take(i as int).last() == frames[k as int]);
        let lj = last_jump_before(c, frames, k);
        if jumps_at(c, frames, k) {
            assert(frames.subrange(k as int + 1, i as int) =~= Seq::<(bool, nat)>::empty());
        } else {
            assert(frames.subrange(lj + 1, i as int).drop_last() =~= frames.subrange(
                lj + 1,
                k as int,
            ));
            assert(frames.subrange(lj + 1, i as int).last() == frames[k as int]);
        }
    }
}

/// Starting from a fresh cooldown, frame `i` jumps exactly when the jump
/// key is held in it and the time the key was held since the last jump
/// (or since the start), this frame included, reaches the cooldown. So
/// jumps are at least a whole cooldown of held time apart, and come as
/// soon as they may.
pub proof fn law_jump_spacing(c: CooldownView, frames: Seq<(bool, nat)>, i: nat)
    requires
        c.wf(),
        c.elapsed == 0,
        i < frames.len(),
    ensures
        jumps_at(c, frames, i) == (frames[i as int].0 && held_time(
            frames.subrange(last_jump_before(c, frames, i) + 1, i as int + 1),
        ) >= c.duration),
{
    lemma_cooldown_holds_time_since_jump(c, frames, i);
    let lj = last_jump_before(c, frames, i);
    assert(frames.subrange(lj + 1, i as int + 1).drop_last() =~= frames.subrange(lj + 1, i as int));
    assert(frames.subrange(lj + 1, i as int + 1).last() == frames[i as int]);
}

} // verus!
