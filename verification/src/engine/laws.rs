//! What holds of the engine and the pump whatever happens to the tunnel.

use vstd::prelude::*;
use crate::engine::{
    after_all, pumped, stepped, ActionState, Engine, Event, Pump, PumpActionState, PumpEvent, Woken,
};
use crate::transport::carrier::{Carrier, Plan};
use crate::transport::connect_ip::{connect_text, ConnectError, LinkStats, Stages};

verus! {

/// Whether an event leaves no tunnel to carry on with.
pub open spec fn loses(event: Event) -> bool {
    event is NotOpened || event is TimedOut || event is Ended
}

/// The wait doubles from one second, with every tunnel lost since one came up, and is fifteen seconds
/// from the fifth on; waking and starting are no losses.
pub proof fn law_the_wait_doubles(
    engine: Engine,
    stages: Stages,
    lost: Seq<Event>,
    event: Event,
    woken: Woken,
)
    requires
        forall|i: int| 0 <= i < lost.len() ==> loses(#[trigger] lost[i]),
        loses(event),
        lost.len() < usize::MAX,
    ensures
        ({
            let up = stepped(engine, Event::Opened { stages }).0;
            let now = after_all(up, lost);
            let wait = stepped(now, event).1->retry_in;
            &&& stepped(now, event).1 is Wait
            &&& lost.len() == 0 ==> wait == 1_000
            &&& lost.len() == 1 ==> wait == 2_000
            &&& lost.len() == 2 ==> wait == 4_000
            &&& lost.len() == 3 ==> wait == 8_000
            &&& lost.len() >= 4 ==> wait == 15_000
            &&& stepped(now, Event::Woke(woken)).0 == now
            &&& stepped(now, Event::Started).0 == now
        }),
{
    lemma_losses(stepped(engine, Event::Opened { stages }).0, lost);
}

proof fn lemma_losses(up: Engine, lost: Seq<Event>)
    requires
        up.failures == 0,
        forall|i: int| 0 <= i < lost.len() ==> loses(#[trigger] lost[i]),
        lost.len() < usize::MAX,
    ensures
        after_all(up, lost).failures == lost.len(),
    decreases lost.len(),
{
    if lost.len() > 0 {
        assert forall|i: int| 0 <= i < lost.len() - 1 implies loses(
            #[trigger] lost.drop_last()[i],
        ) by {
            assert(lost.drop_last()[i] == lost[i]);
        }
        lemma_losses(up, lost.drop_last());
        assert(loses(lost[lost.len() - 1]));
    }
}

/// Whether a tunnel ended within a minute, having carried less than 256 KiB.
pub open spec fn cut_off(event: Event) -> bool {
    event matches Event::Ended { lived, carried, .. } && lived < 60_000 && carried < 262_144
}

/// A run of tunnels cut off is said from the third on, with how many they are, and HTTP/3 is left
/// alone from the third on, or from the first where HTTP/2 carried a moment before; a tunnel over
/// HTTP/2 is no reason to leave HTTP/3 alone.
pub proof fn law_a_run_of_short_lives_is_told(
    engine: Engine,
    run: Seq<Event>,
    reason: String,
    carrier: Carrier,
    upgraded: bool,
    lived: u64,
    carried: u64,
)
    requires
        engine.cut_short == 0,
        run.len() < usize::MAX,
        forall|i: int| 0 <= i < run.len() ==> cut_off(#[trigger] run[i]),
    ensures
        ({
            let now = after_all(engine, run);
            let event = Event::Ended { reason, carrier, upgraded, lived, carried };
            let (after, action) = stepped(now, event);
            let cut = lived < 60_000 && carried < 262_144;
            &&& action is Wait && action->reason == reason@ && !action->blocked && action->replace
                is None
            &&& after.cut_short == if cut {
                run.len() + 1
            } else {
                0
            }
            &&& action->cut_short == if cut && run.len() >= 2 {
                Some((run.len() + 1) as usize)
            } else {
                None
            }
            &&& action->park <==> cut && carrier == Carrier::H3 && (run.len() >= 2 || upgraded)
        }),
{
    lemma_run(engine, run);
}

proof fn lemma_run(engine: Engine, run: Seq<Event>)
    requires
        engine.cut_short == 0,
        run.len() < usize::MAX,
        forall|i: int| 0 <= i < run.len() ==> cut_off(#[trigger] run[i]),
    ensures
        after_all(engine, run).cut_short == run.len(),
    decreases run.len(),
{
    if run.len() > 0 {
        assert forall|i: int| 0 <= i < run.len() - 1 implies cut_off(
            #[trigger] run.drop_last()[i],
        ) by {
            assert(run.drop_last()[i] == run[i]);
        }
        lemma_run(engine, run.drop_last());
        assert(cut_off(run[run.len() - 1]));
    }
}

/// An attempt that fails says why, and does not end a run of tunnels cut off. It says
/// that something on the way refused the handshake exactly where the handshake was cut or HTTP/3 was
/// not answered, and asks for another device exactly where the endpoint declined with a status of 400 to 499. It
/// is never a reason to leave HTTP/3 alone.
pub proof fn law_an_attempt_that_fails_says_why(engine: Engine, problem: ConnectError)
    ensures
        ({
            let (after, action) = stepped(engine, Event::NotOpened { problem });
            &&& action is Wait && action->reason == connect_text(problem)
            &&& action->blocked <==> problem is HandshakeCut || problem is H3Unanswered
            &&& match problem {
                ConnectError::Refused(status) => if 400 <= status <= 499 {
                    action->replace == Some(status)
                } else {
                    action->replace is None
                },
                _ => action->replace is None,
            }
            &&& !action->park && action->cut_short is None
            &&& after.cut_short == engine.cut_short
        }),
        ({
            let (after, action) = stepped(engine, Event::TimedOut);
            &&& action is Wait && action->reason == "the tunnel did not open within 20 s"@
            &&& !action->blocked && !action->park && action->cut_short is None && action->replace
                is None
            &&& after.cut_short == engine.cut_short
        }),
{
}

/// HTTP/3 is worth another try where someone asked for a reconnect or the line moved, and not where
/// the time was up or the line stayed; a tunnel that opened is carried over.
pub proof fn law_what_makes_http3_worth_another_try(engine: Engine, stages: Stages)
    ensures
        !stepped(engine, Event::Started).1->unpark,
        !stepped(engine, Event::Woke(Woken::Slept)).1->unpark,
        stepped(engine, Event::Woke(Woken::Asked)).1->unpark,
        stepped(engine, Event::Woke(Woken::Line { moved: true })).1->unpark,
        !stepped(engine, Event::Woke(Woken::Line { moved: false })).1->unpark,
        stepped(engine, Event::Opened { stages }).1 == (ActionState::Carry { stages }),
        stepped(engine, Event::Opened { stages }).0.cut_short == engine.cut_short,
{
}

/// Whether an event of a tunnel is the end of it.
pub open spec fn ends(event: PumpEvent) -> bool {
    ||| event is SendFailed
    ||| event is AdapterEnded
    ||| event is ReceiveFailed
    ||| event is Closed
    ||| event is WriteFailed
    ||| event is ProbeFailed
    ||| event is ProbeTimedOut
    ||| event is ReconnectAsked
}

/// A tunnel carries until it cannot: it stops on what ends it and on nothing else, the core stops with
/// it only where the adapter ended, and HTTP/3 is worth another try only where a reconnect was asked
/// for. It is handed over where HTTP/3 opened beside it, and HTTP/3 is left alone where it did not.
pub proof fn law_what_ends_a_tunnel(pump: Pump, event: PumpEvent)
    ensures
        ({
            let action = pumped(pump, event);
            &&& action is Stop <==> ends(event)
            &&& action matches PumpActionState::Stop { unpark, stop_core, .. } ==> (unpark <==> event
                is ReconnectAsked) && (stop_core <==> event is AdapterEnded)
            &&& action is HandOver <==> event is UpgradeOpened
            &&& action is Park <==> event is UpgradeFailed || event is UpgradeTimedOut
            &&& action is Settle <==> event is LineChanged
            &&& event matches PumpEvent::LineChanged { moved } ==> action
                == (PumpActionState::Settle { unpark: moved })
            &&& action is TryHttp3 <==> event is UpgradeDue && event->plan == Plan::H3ThenH2
                && pump.carrying == Carrier::H2
        }),
{
}

/// A reading is of this tunnel: what was counted before it is taken off, a count that fell behind is
/// none, and nothing is reported where nothing was counted to begin with or nothing is counted now.
pub proof fn law_a_reading_is_of_this_tunnel(pump: Pump, stats: Option<LinkStats>, read: u64)
    ensures
        ({
            let action = pumped(pump, PumpEvent::Answered { stats, read });
            match (pump.baseline, stats) {
                (Some((datagrams, before)), Some(now)) => action matches PumpActionState::Report(
                    reading,
                ) && {
                    &&& reading.rtt == now.rtt && reading.cwnd == now.cwnd
                    &&& reading.sent == now.sent && reading.lost == now.lost
                    &&& now.datagrams_in >= datagrams ==> reading.datagrams + datagrams
                        == now.datagrams_in
                    &&& now.datagrams_in < datagrams ==> reading.datagrams == 0
                    &&& read >= before ==> reading.read + before == read
                    &&& read < before ==> reading.read == 0
                },
                _ => action is Carry,
            }
        }),
{
}

} // verus!
