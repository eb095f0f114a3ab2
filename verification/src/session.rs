//! The course of a session: taking control of the fans, controlling them, and
//! handing them back.

use crate::error::Error;
use vstd::prelude::*;

verus! {

/// The user id of root.
pub const ROOT_UID: u32 = 0;

/// Only root may drive fans.
pub fn check_root(euid: u32) -> (r: Result<(), Error>)
    ensures
        r == (if euid == ROOT_UID {
            Ok::<(), Error>(())
        } else {
            Err(Error::NotRoot)
        }),
{
    if euid != ROOT_UID {
        return Err(Error::NotRoot);
    }
    Ok(())
}

/// What a session does next. `E` is what can go wrong in it.
pub enum Phase<E> {
    /// Switch this fan to manual control.
    Enable { fan: usize },
    /// Control the fans until told to stop.
    Control,
    /// Switch this fan back to automatic control; control ended like this.
    Disable { fan: usize, outcome: Result<(), E> },
    /// Remove the pid file; control ended like this.
    RemovePid { outcome: Result<(), E> },
    /// End like this.
    Exit(Result<(), E>),
}

/// The failure of the first of two results, if there is any.
pub open spec fn first_failure<E>(first: Result<(), E>, second: Result<(), E>) -> Result<(), E> {
    match first {
        Err(e) => Err(e),
        Ok(()) => second,
    }
}

impl<E> Phase<E> {
    /// The first phase with `fans` fans.
    pub open spec fn first(fans: usize) -> Phase<E> {
        if fans == 0 {
            Phase::Control
        } else {
            Phase::Enable { fan: 0 }
        }
    }

    /// The phase that follows, where `result` is what came of this one. A fan that
    /// cannot be switched ends the session at once; a failure of the control itself
    /// is kept until the fans are handed back and the pid file is removed.
    pub open spec fn next(self, fans: usize, result: Result<(), E>) -> Phase<E> {
        match self {
            Phase::Enable { fan } => match result {
                Err(e) => Phase::Exit(Err(e)),
                Ok(()) => if fan + 1 < fans {
                    Phase::Enable { fan: (fan + 1) as usize }
                } else {
                    Phase::Control
                },
            },
            Phase::Control => if fans == 0 {
                Phase::RemovePid { outcome: result }
            } else {
                Phase::Disable { fan: 0, outcome: result }
            },
            Phase::Disable { fan, outcome } => match result {
                Err(e) => Phase::Exit(Err(e)),
                Ok(()) => if fan + 1 < fans {
                    Phase::Disable { fan: (fan + 1) as usize, outcome }
                } else {
                    Phase::RemovePid { outcome }
                },
            },
            Phase::RemovePid { outcome } => Phase::Exit(first_failure(outcome, result)),
            Phase::Exit(outcome) => Phase::Exit(outcome),
        }
    }

    /// The phase after a whole course of results.
    pub open spec fn after(self, fans: usize, results: Seq<Result<(), E>>) -> Phase<E>
        decreases results.len(),
    {
        if results.len() == 0 {
            self
        } else {
            self.after(fans, results.drop_last()).next(fans, results.last())
        }
    }

    /// The first phase with `fans` fans.
    pub fn start(fans: usize) -> (phase: Phase<E>)
        ensures
            phase == Phase::<E>::first(fans),
            fans > 0 ==> phase == (Phase::<E>::Enable { fan: 0 }),
            fans == 0 ==> phase == Phase::<E>::Control,
    {
        if fans == 0 {
            Phase::Control
        } else {
            Phase::Enable { fan: 0 }
        }
    }

    /// The phase that follows, where `result` is what came of this one.
    pub fn step(self, fans: usize, result: Result<(), E>) -> (phase: Phase<E>)
        ensures
            phase == self.next(fans, result),
            self matches Phase::Enable { fan } ==> phase == (if result is Err {
                Phase::Exit(result)
            } else if fan + 1 < fans {
                Phase::Enable { fan: (fan + 1) as usize }
            } else {
                Phase::Control
            }),
            self is Control ==> phase == (if fans > 0 {
                Phase::Disable { fan: 0, outcome: result }
            } else {
                Phase::RemovePid { outcome: result }
            }),
            self matches Phase::Disable { fan, outcome } ==> phase == (if result is Err {
                Phase::Exit(result)
            } else if fan + 1 < fans {
                Phase::Disable { fan: (fan + 1) as usize, outcome }
            } else {
                Phase::RemovePid { outcome }
            }),
            self matches Phase::RemovePid { outcome } ==> phase == Phase::Exit(
                if outcome is Err {
                    outcome
                } else {
                    result
                },
            ),
            self is Exit ==> phase == self,
    {
        match self {
            Phase::Enable { fan } => match result {
                Err(e) => Phase::Exit(Err(e)),
                Ok(()) => if fan < fans && fan + 1 < fans {
                    Phase::Enable { fan: fan + 1 }
                } else {
                    Phase::Control
                },
            },
            Phase::Control => if fans == 0 {
                Phase::RemovePid { outcome: result }
            } else {
                Phase::Disable { fan: 0, outcome: result }
            },
            Phase::Disable { fan, outcome } => match result {
                Err(e) => Phase::Exit(Err(e)),
                Ok(()) => if fan < fans && fan + 1 < fans {
                    Phase::Disable { fan: fan + 1, outcome }
                } else {
                    Phase::RemovePid { outcome }
                },
            },
            Phase::RemovePid { outcome } => Phase::Exit(
                match outcome {
                    Err(e) => Err(e),
                    Ok(()) => result,
                },
            ),
            Phase::Exit(outcome) => Phase::Exit(outcome),
        }
    }
}

/// `n` successes.
pub open spec fn successes<E>(n: nat) -> Seq<Result<(), E>> {
    Seq::new(n, |i: int| Ok::<(), E>(()))
}

proof fn lemma_after_append<E>(
    phase: Phase<E>,
    fans: usize,
    first: Seq<Result<(), E>>,
    second: Seq<Result<(), E>>,
)
    ensures
        phase.after(fans, first + second) == phase.after(fans, first).after(fans, second),
    decreases second.len(),
{
    if second.len() == 0 {
        assert(first + second == first);
    } else {
        assert((first + second).drop_last() == first + second.drop_last());
        lemma_after_append(phase, fans, first, second.drop_last());
    }
}

proof fn lemma_enabling<E>(fans: usize, k: nat)
    requires
        k <= fans,
    ensures
        Phase::<E>::first(fans).after(fans, successes(k)) == (if k == fans {
            Phase::<E>::Control
        } else {
            Phase::Enable { fan: k as usize }
        }),
    decreases k,
{
    if k > 0 {
        lemma_enabling::<E>(fans, (k - 1) as nat);
        assert(successes::<E>(k).drop_last() == successes::<E>((k - 1) as nat));
    }
}

proof fn lemma_disabling<E>(fans: usize, outcome: Result<(), E>, k: nat)
    requires
        k <= fans,
    ensures
        Phase::<E>::Control.next(fans, outcome).after(fans, successes(k)) == (if k == fans {
            Phase::RemovePid { outcome }
        } else {
            Phase::Disable { fan: k as usize, outcome }
        }),
    decreases k,
{
    if k > 0 {
        lemma_disabling(fans, outcome, (k - 1) as nat);
        assert(successes::<E>(k).drop_last() == successes::<E>((k - 1) as nat));
    }
}

/// Control starts once every fan is under manual control, and a fan that cannot be
/// switched ends the session with that failure before control starts.
pub proof fn law_control_after_every_fan<E>(fans: usize, k: usize, failure: E)
    requires
        k < fans,
    ensures
        Phase::<E>::first(fans).after(fans, successes(fans as nat)) == Phase::<E>::Control,
        Phase::<E>::first(fans).after(fans, successes(k as nat)) == (Phase::<E>::Enable { fan: k }),
        Phase::<E>::first(fans).after(fans, successes(k as nat)).next(fans, Err(failure))
            == Phase::<E>::Exit(Err(failure)),
{
    lemma_enabling::<E>(fans, fans as nat);
    lemma_enabling::<E>(fans, k as nat);
}

/// However control ends, every fan is handed back in order, then the pid file is
/// removed, and the session ends with the failure of the control, or else with that
/// of the removal, or else well.
pub proof fn law_fans_are_handed_back<E>(
    fans: usize,
    k: usize,
    outcome: Result<(), E>,
    removal: Result<(), E>,
)
    requires
        k < fans,
    ensures
        Phase::<E>::Control.after(fans, seq![outcome] + successes(k as nat)) == (Phase::Disable {
            fan: k,
            outcome,
        }),
        Phase::<E>::Control.after(fans, seq![outcome] + successes(fans as nat))
            == (Phase::RemovePid { outcome }),
        Phase::<E>::Control.after(
            fans,
            seq![outcome] + successes(fans as nat) + seq![removal],
        ) == Phase::Exit(first_failure(outcome, removal)),
{
    let control = Phase::<E>::Control;
    let one = seq![outcome];
    assert(one.drop_last() == Seq::<Result<(), E>>::empty());
    assert(control.after(fans, Seq::empty()) == control);
    assert(control.after(fans, one) == control.next(fans, outcome));
    lemma_after_append(control, fans, one, successes(k as nat));
    lemma_after_append(control, fans, one, successes(fans as nat));
    lemma_disabling(fans, outcome, k as nat);
    lemma_disabling(fans, outcome, fans as nat);
    let all = one + successes(fans as nat);
    assert((all + seq![removal]).drop_last() == all);
}

/// A fan that cannot be handed back ends the session at once with that failure,
/// whatever control ended with.
pub proof fn law_failed_hand_back_ends<E>(
    fans: usize,
    k: usize,
    outcome: Result<(), E>,
    failure: E,
)
    requires
        k < fans,
    ensures
        Phase::<E>::Control.after(fans, seq![outcome] + successes(k as nat)).next(
            fans,
            Err(failure),
        ) == Phase::<E>::Exit(Err(failure)),
{
    law_fans_are_handed_back(fans, k, outcome, Ok(()));
}

/// Without fans control starts at once, and the pid file is removed right after it.
pub proof fn law_session_without_fans<E>(outcome: Result<(), E>)
    ensures
        Phase::<E>::first(0) == Phase::<E>::Control,
        Phase::<E>::Control.next(0, outcome) == (Phase::RemovePid { outcome }),
{
}

/// When the pid file is removed, a failure of the control outweighs one of the removal.
pub proof fn law_control_failure_comes_first<E>(
    fans: usize,
    outcome: Result<(), E>,
    removal: Result<(), E>,
)
    ensures
        outcome is Err ==> (Phase::RemovePid { outcome }).next(fans, removal) == Phase::Exit(
            outcome,
        ),
        outcome is Ok ==> (Phase::RemovePid { outcome }).next(fans, removal) == Phase::Exit(
            removal,
        ),
{
}

/// A session that has ended stays as it is.
pub proof fn law_exit_is_final<E>(fans: usize, outcome: Result<(), E>, results: Seq<Result<(), E>>)
    ensures
        Phase::Exit(outcome).after(fans, results) == Phase::Exit(outcome),
    decreases results.len(),
{
    if results.len() > 0 {
        law_exit_is_final(fans, outcome, results.drop_last());
    }
}

} // verus!
