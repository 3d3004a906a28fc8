//! What comes of the events that sessions begin and end with.

use super::agreement::made_later;
use super::focus::presses_of;
use super::notice::Notice;
use super::peers::{all_seen, discovered, listed, seen, targets, unlisted_off, Node, Status};
use super::state::{
    inputs, lemma_peer_place, peer_place, with_peer, Act, Awaiting, Caps, DialTarget, Focus, Frame,
    LeaveReason, MachineInfo, Mind, Peer,
};
use crate::geometry::Vec2;
use crate::input_settings::InputSettings;
use crate::input_transport::socket::Ip;
use crate::ledger::nothing_held;
use crate::machine::{MachineId, Stamp};
use std::sync::Arc;
use vstd::prelude::*;

verus! {

/// What was to be done before still is, and comes first.
pub open spec fn goes_on(before: Seq<Act>, after: Seq<Act>) -> bool {
    before.len() <= after.len() && forall|i: int|
        0 <= i < before.len() ==> (#[trigger] after[i]) == before[i]
}

proof fn lemma_contains(before: Seq<Act>, after: Seq<Act>, act: Act)
    requires
        goes_on(before, after),
        before.contains(act),
    ensures
        after.contains(act),
{
    let i = choose|i: int| 0 <= i < before.len() && before[i] == act;
    assert(after[i] == act);
}

/// Once the pointer is captured, this machine drives the other one from the very point that
/// it was told to take the pointer up at, at the speed between the two. What was held when a
/// session was handed on is pressed there again; otherwise nothing is held.
pub proof fn a_captured_pointer_drives(
    before: Mind,
    target: MachineId,
    pos: Vec2,
    held: bool,
    now: u64,
    after: Mind,
)
    requires
        after == before.captured(Ok(()), target, pos, held, now),
    ensures
        after.focus == Focus::Remote(target),
        after.pos == pos,
        after.factor == before.speed(target@),
        after.active_session == before.active_session,
        !held ==> after.source == nothing_held(),
        held ==> after.source == before.held,
        after.outbox == before.outbox.push(Act::SetActive { peer: target, active: true }) + if held
            && before.sends(target@) {
            inputs(target, before.active_session, presses_of(before.held))
        } else {
            Seq::empty()
        },
{
    assert(after.outbox =~= before.outbox.push(Act::SetActive { peer: target, active: true })
        + if held && before.sends(target@) {
        inputs(target, before.active_session, presses_of(before.held))
    } else {
        Seq::empty()
    });
}

/// Where the pointer cannot be captured, the other machine is told to let go of it again, and
/// the pointer is handed back where it left.
pub proof fn an_uncaptured_pointer_comes_back(
    before: Mind,
    cause: Notice,
    target: MachineId,
    pos: Vec2,
    held: bool,
    now: u64,
    after: Mind,
)
    requires
        after == before.captured(Err(cause), target, pos, held, now),
    ensures
        after.focus == before.focus,
        after.outbox.last() == Act::EndCapture(Some(before.last_local)),
        before.sends(target@) ==> after.outbox[after.outbox.len() - 2] == (Act::Send {
            to: target,
            frame: Frame::Leave {
                session: before.active_session,
                reason: LeaveReason::CaptureLost,
            },
        }),
{
}

/// A machine that holds the claim, takes part and can be reached gets the pointer of this one
/// put where it says; any other machine is told that its session ends, and nothing changes
/// here.
pub proof fn the_pointer_is_put_where_it_is_sent(
    before: Mind,
    from: MachineId,
    session: u64,
    pos: Vec2,
    now: u64,
    after: Mind,
)
    requires
        after == before.entering(from, session, pos, now),
    ensures
        ({
            let welcome = before.master_enabled && before.enabled(before.me.id@) && before.enabled(
                from@,
            ) && before.usable(from@) && before.claimed_by(from@) && !(before.focus is Remote);
            &&& welcome ==> after.outbox.last() == Act::Enter(pos) && after.awaiting == Some(
                Awaiting::Enter { source: from, session },
            )
            &&& !welcome ==> after == (Mind { outbox: after.outbox, ..before }) && after.outbox
                == if before.sends(from@) {
                before.outbox.push(
                    Act::Send {
                        to: from,
                        frame: Frame::Leave { session, reason: LeaveReason::Reconfigured },
                    },
                )
            } else {
                before.outbox
            }
        }),
{
}

/// Once the pointer was put there, the other machine drives this one in the session that it
/// named, with nothing held.
pub proof fn a_placed_pointer_is_driven(
    before: Mind,
    source: MachineId,
    session: u64,
    now: u64,
    after: Mind,
)
    requires
        after == before.entered(Ok(()), source, session, now),
    ensures
        after.focus == Focus::Driven(source),
        after.active_session == session,
        after.target == nothing_held(),
        after.outbox == before.outbox.push(Act::SetActive { peer: source, active: true }),
{
}

/// The end of the running session ends it on both sides. Here, where this machine was driven,
/// everything held for the other machine is let go of before the pointer is; where this
/// machine drove, everything held there is let go of, and the pointer comes back. The end of
/// any other session changes nothing.
pub proof fn a_session_ends_on_both_sides(
    before: Mind,
    from: MachineId,
    session: u64,
    reason: LeaveReason,
    now: u64,
    after: Mind,
)
    requires
        after == before.leave_heard(from, session, reason, now),
        before.raw.pending_target is None,
    ensures
        session != before.active_session ==> after == before,
        session == before.active_session && (before.focus matches Focus::Driven(source) && source@
            == from@) ==> {
            &&& after.focus is Local
            &&& after.target == nothing_held()
            &&& !after.raw.active
            &&& after.outbox == before.outbox + seq![
                Act::StopRaw { session },
                Act::ReleaseAll,
                Act::Leave,
                Act::SetActive { peer: from, active: false },
            ]
        },
        session == before.active_session && (before.focus matches Focus::Remote(target) && target@
            == from@) ==> {
            &&& after.focus is Local
            &&& after.source == nothing_held()
            &&& !after.raw.active
            &&& after.outbox.last() == Act::EndCapture(Some(before.last_local))
        },
{
    if session == before.active_session && (before.focus matches Focus::Driven(source) && source@
        == from@) {
        assert(after.outbox =~= before.outbox + seq![
            Act::StopRaw { session },
            Act::ReleaseAll,
            Act::Leave,
            Act::SetActive { peer: from, active: false },
        ]);
    }
}

/// Whoever uses the devices of a machine that takes part makes it the source of input: the
/// claim is its own, others are told where it was not, nobody drives it any more, and the
/// pause after having been driven is over.
pub proof fn whoever_is_at_a_machine_has_it(before: Mind, now: u64, after: Mind)
    requires
        after == before.used(now),
    ensures
        before.master_enabled && before.enabled(before.me.id@) ==> {
            &&& after.claim matches Some(stamp) && stamp.writer@ == before.me.id@
            &&& !(after.focus is Driven)
            &&& after.grace_until is None
            &&& !before.claimed_by(before.me.id@) ==> after.outbox.len() > before.outbox.len()
                && after.outbox[before.outbox.len() as int] == Act::Broadcast(
                Frame::SourceClaim(after.claim->0),
            )
            &&& !before.claimed_by(before.me.id@) ==> after.claim->0.lamport
                == (before.claim_lamport + 1) as u64
            &&& before.focus is Driven ==> after.target == nothing_held()
        },
        !before.master_enabled || !before.enabled(before.me.id@) ==> after == before,
{
}

/// A claim that is heard of counts exactly where it is later than the one known. Then this
/// machine drives nobody any more, and is driven by nobody but the machine that claims.
pub proof fn the_later_claim_takes_over(
    before: Mind,
    stamp: Stamp,
    now: u64,
    after: Mind,
)
    requires
        after == before.claim_heard(stamp, now),
    ensures
        after.claim_lamport >= stamp.lamport,
        after.claim_lamport >= before.claim_lamport,
        (before.claim matches Some(known) ==> made_later(stamp, known)) ==> {
            &&& after.claim == Some(stamp)
            &&& !(after.focus is Remote)
            &&& after.focus matches Focus::Driven(source) ==> source@ == stamp.writer@
            &&& (before.focus matches Focus::Driven(source) && source@ == stamp.writer@)
                ==> after.focus == before.focus
        },
        !(before.claim matches Some(known) ==> made_later(stamp, known)) ==> {
            &&& after.claim == before.claim
            &&& after.focus == before.focus
            &&& after.outbox == before.outbox
        },
{
}

proof fn lemma_told(mind: Mind, n: nat, i: int)
    requires
        n <= mind.peers.len(),
        0 <= i < n,
    ensures
        mind.all_told(n).peers == mind.peers,
        mind.all_told(n).open == mind.open,
        mind.all_told(n).master_enabled == mind.master_enabled,
        mind.all_told(n).focus == mind.focus,
        goes_on(mind.outbox, mind.all_told(n).outbox),
        mind.connected(mind.peers[i].id@) && mind.peer(mind.peers[i].id@).caps.master && mind.sends(
            mind.peers[i].id@,
        ) ==> mind.all_told(n).outbox.contains(
            Act::Send {
                to: mind.peers[i].id,
                frame: Frame::MasterState { enabled: mind.master_enabled },
            },
        ),
    decreases n,
{
    let before = mind.all_told((n - 1) as nat);
    if i < n - 1 {
        lemma_told(mind, (n - 1) as nat, i);
    } else if n > 1 {
        lemma_told(mind, (n - 1) as nat, 0);
    }
    assert(before.peers == mind.peers && before.open == mind.open);
    let act = Act::Send {
        to: mind.peers[i].id,
        frame: Frame::MasterState { enabled: mind.master_enabled },
    };
    let after = mind.all_told(n);
    assert(before.connected(mind.peers[n - 1].id@) == mind.connected(mind.peers[n - 1].id@));
    if i == n - 1 {
        if mind.connected(mind.peers[i].id@) && mind.peer(mind.peers[i].id@).caps.master
            && mind.sends(mind.peers[i].id@) {
            assert(after.outbox.last() == act);
            assert(after.outbox[after.outbox.len() - 1] == act);
        }
    } else if before.outbox.contains(act) {
        lemma_contains(before.outbox, after.outbox, act);
    }
}

/// The master switch takes this machine out and back in: off, it drives nobody and nobody
/// drives it; and either way every machine that understands it, is connected and can be told
/// is told of it.
pub proof fn the_master_switch_takes_a_machine_out(
    before: Mind,
    on: bool,
    now: u64,
    after: Mind,
    i: int,
)
    requires
        after == before.master_set(on, now),
        0 <= i < before.peers.len(),
    ensures
        after.master_enabled == on,
        !on ==> after.focus is Local && after.crossing is None,
        !on && !(before.focus is Local) ==> !after.raw.active,
        before.connected(before.peers[i].id@) && before.peer(before.peers[i].id@).caps.master
            && before.sends(before.peers[i].id@) ==> after.outbox.contains(
            Act::Send { to: before.peers[i].id, frame: Frame::MasterState { enabled: on } },
        ),
{
    let set = Mind { master_enabled: on, ..before }.dirty(now);
    assert(set.peers == before.peers);
    lemma_told(set, before.peers.len(), i);
    let id = before.peers[i].id@;
    assert(set.connected(id) == before.connected(id));
    assert(set.peer(id) == before.peer(id));
    let told = set.all_told(before.peers.len());
    assert(goes_on(told.outbox, after.outbox));
    let act = Act::Send { to: before.peers[i].id, frame: Frame::MasterState { enabled: on } };
    if told.outbox.contains(act) {
        lemma_contains(told.outbox, after.outbox, act);
    }
}

/// A machine whose connection ends drives nobody here, is driven by nobody from here, and
/// counts as gone; what is fetched from it is given up.
pub proof fn a_lost_machine_has_no_session(
    before: Mind,
    id: MachineId,
    reason: Notice,
    now: u64,
    after: Mind,
)
    requires
        after == before.disconnected(id, reason, now),
    ensures
        !after.focus.drives(id@),
        !after.focus.driven_by(id@),
        after.outbox.contains(Act::ForgetFetches(id)),
{
    let first = before.unprepared(id@).doing(Act::ForgetFetches(id));
    assert(first.outbox[first.outbox.len() - 1] == Act::ForgetFetches(id));
    assert(goes_on(first.outbox, after.outbox));
    lemma_contains(first.outbox, after.outbox, Act::ForgetFetches(id));
}

proof fn lemma_targets(me: Seq<char>, user: u64, nodes: Seq<Node>)
    ensures
        forall|i: int|
            0 <= i < nodes.len() && (#[trigger] nodes[i]).ip is Some && nodes[i].online
                && nodes[i].user == user && nodes[i].id@ != me ==> targets(
                me,
                user,
                nodes,
            ).contains(DialTarget { id: nodes[i].id, ip: nodes[i].ip->0 }),
        forall|k: int|
            0 <= k < targets(me, user, nodes).len() ==> exists|i: int|
                0 <= i < nodes.len() && (#[trigger] nodes[i]).id == (#[trigger] targets(
                    me,
                    user,
                    nodes,
                )[k]).id && nodes[i].ip == Some(targets(me, user, nodes)[k].ip) && nodes[i].online
                    && nodes[i].user == user && nodes[i].id@ != me,
    decreases nodes.len(),
{
    if nodes.len() > 0 {
        let front = nodes.drop_last();
        lemma_targets(me, user, front);
        let before = targets(me, user, front);
        let after = targets(me, user, nodes);
        assert forall|i: int|
            0 <= i < nodes.len() && (#[trigger] nodes[i]).ip is Some && nodes[i].online
                && nodes[i].user == user && nodes[i].id@ != me implies after.contains(
            DialTarget { id: nodes[i].id, ip: nodes[i].ip->0 },
        ) by {
            let wanted = DialTarget { id: nodes[i].id, ip: nodes[i].ip->0 };
            if i < front.len() {
                assert(front[i] == nodes[i]);
                let k = choose|k: int| 0 <= k < before.len() && before[k] == wanted;
                assert(after[k] == wanted);
            } else {
                assert(after[after.len() - 1] == wanted);
            }
        }
        assert forall|k: int| 0 <= k < after.len() implies exists|i: int|
            0 <= i < nodes.len() && (#[trigger] nodes[i]).id == (#[trigger] after[k]).id
                && nodes[i].ip == Some(after[k].ip) && nodes[i].online && nodes[i].user == user
                && nodes[i].id@ != me by {
            if k < before.len() {
                assert(after[k] == before[k]);
                let i = choose|i: int|
                    0 <= i < front.len() && (#[trigger] front[i]).id == before[k].id && front[i].ip
                        == Some(before[k].ip) && front[i].online && front[i].user == user
                        && front[i].id@ != me;
                assert(nodes[i] == front[i]);
            } else {
                assert(nodes[nodes.len() - 1].id == after[k].id);
            }
        }
    }
}

/// A look at the network has connections kept with exactly the other machines of the same
/// user that are online and have an address.
pub proof fn the_machines_online_are_dialled(before: Mind, status: Status, now: u64, after: Mind)
    requires
        discovered(before, Ok(status), now, after),
    ensures
        exists|k: int|
            0 <= k < after.outbox.len() && ((#[trigger] after.outbox[k]) matches Act::Dial(dial) && (
            forall|i: int|
                0 <= i < status.nodes@.len() && (#[trigger] status.nodes@[i]).ip is Some
                    && status.nodes@[i].online && status.nodes@[i].user == status.user
                    && status.nodes@[i].id@ != before.me.id@ ==> dial@.contains(
                    DialTarget { id: status.nodes@[i].id, ip: status.nodes@[i].ip->0 },
                )) && (forall|j: int|
                0 <= j < dial@.len() ==> exists|i: int|
                    0 <= i < status.nodes@.len() && (#[trigger] status.nodes@[i]).id == (
                    #[trigger] dial@[j]).id && status.nodes@[i].ip == Some(dial@[j].ip)
                        && status.nodes@[i].online && status.nodes@[i].user == status.user
                        && status.nodes@[i].id@ != before.me.id@)),
{
    lemma_targets(before.me.id@, status.user, status.nodes@);
    let dial = after.outbox.last()->Dial_0;
    assert(after.outbox[after.outbox.len() - 1] == Act::Dial(dial));
    assert(dial@ == targets(before.me.id@, status.user, status.nodes@));
}

proof fn lemma_place_is(peers: Seq<Peer>, id: Seq<char>)
    ensures
        0 <= peer_place(peers, id) <= peers.len(),
        peer_place(peers, id) < peers.len() ==> peers[peer_place(peers, id)].id@ == id,
        forall|i: int| 0 <= i < peer_place(peers, id) ==> (#[trigger] peers[i]).id@ != id,
    decreases peers.len(),
{
    if peers.len() > 0 && peers[0].id@ != id {
        let rest = peers.skip(1);
        lemma_place_is(rest, id);
        assert forall|i: int| 0 <= i < peer_place(peers, id) implies (#[trigger] peers[i]).id@
            != id by {
            if i > 0 {
                assert(rest[i - 1] == peers[i]);
            }
        }
    }
}

proof fn lemma_joined(peers: Seq<Peer>, id: MachineId)
    ensures
        ({
            let met = with_peer(peers, id);
            let at = peer_place(met, id@);
            0 <= at < met.len() && met[at].id@ == id@
        }),
{
    let met = with_peer(peers, id);
    lemma_place_is(peers, id@);
    lemma_place_is(met, id@);
    if peer_place(peers, id@) == peers.len() {
        assert(met[peers.len() as int].id@ == id@);
    }
}

proof fn lemma_met(peers: Seq<Peer>, id: MachineId, changed: Peer)
    requires
        changed.id@ == id@,
    ensures
        ({
            let met = with_peer(peers, id);
            let at = peer_place(met, id@);
            let after = met.update(at, changed);
            &&& peer_place(after, id@) == at
            &&& forall|other: Seq<char>| #![trigger peer_place(after, other)]
                other != id@ && peer_place(peers, other) < peers.len() ==> peer_place(
                    after,
                    other,
                ) == peer_place(peers, other) && after[peer_place(after, other)]
                    == peers[peer_place(peers, other)]
        }),
{
    let met = with_peer(peers, id);
    lemma_joined(peers, id);
    lemma_place_is(met, id@);
    let at = peer_place(met, id@);
    let after = met.update(at, changed);
    lemma_peer_place(after, id@, at);
    assert forall|other: Seq<char>| #![trigger peer_place(after, other)]
        other != id@ && peer_place(peers, other) < peers.len() implies peer_place(after, other)
        == peer_place(peers, other) && after[peer_place(after, other)] == peers[peer_place(
        peers,
        other,
    )] by {
        lemma_place_is(peers, other);
        let k = peer_place(peers, other);
        assert(peers[k].id@ == other);
        assert forall|i: int| 0 <= i < k implies (#[trigger] after[i]).id@ != other by {
            assert(peers[i].id@ != other);
            if i != at {
                assert(after[i] == peers[i]);
            }
        }
        lemma_peer_place(after, other, k);
    }
}

/// What is heard of a machine is noted of that machine and of no other, also where it was not
/// known before.
pub proof fn what_is_heard_is_noted(
    before: Mind,
    id: MachineId,
    info: Arc<MachineInfo>,
    other: Seq<char>,
)
    requires
        info.id@ == id@,
    ensures
        before.informed(info).knows(id@),
        before.informed(info).peer(id@).info == Some(info),
        before.knows(id@) ==> before.informed(info).peer(id@).connected == before.peer(
            id@,
        ).connected,
        before.knows(other) && other != id@ ==> before.informed(info).knows(other)
            && before.informed(info).peer(other) == before.peer(other),
        before.informed(info).focus == before.focus,
        before.informed(info).outbox == before.outbox,
{
    assert(before.informed(info).knows(id@) && before.informed(info).peer(id@).info == Some(info)
        && (before.knows(other) && other != id@ ==> before.informed(info).knows(other)
        && before.informed(info).peer(other) == before.peer(other)) && (before.knows(id@)
        ==> before.informed(info).peer(id@).connected == before.peer(id@).connected)) by {
        let met = with_peer(before.peers, info.id);
        let at = peer_place(met, info.id@);
        lemma_joined(before.peers, info.id);
        lemma_met(before.peers, info.id, Peer { info: Some(info), ..met[at] });
        let after = before.informed(info);
        assert(peer_place(after.peers, other) == peer_place(after.peers, other));
    }
}

spec fn newly_met(peer: Peer, hello: Arc<MachineInfo>, caps: Caps, ip: Option<Ip>) -> Peer {
    Peer {
        hostname: Some(hello.hostname),
        error: None,
        info: Some(hello),
        caps,
        connected: true,
        raw_generation: 0,
        degraded: false,
        ip,
        ..peer
    }
}

/// A machine that connects counts as connected from then on, with what it tells of itself and
/// what it understands; and it is told, where it can be, of the arrangement known here and of
/// who is the source of input.
pub proof fn a_machine_that_connects_is_told_how_things_stand(
    before: Mind,
    id: MachineId,
    hello: Arc<MachineInfo>,
    caps: Caps,
    ip: Option<Ip>,
    now: u64,
)
    requires
        before.focus is Local,
        before.raw.pending_target is None,
        before.sends(id@),
    ensures
        ({
            let after = before.greeted(id, hello, caps, ip, now);
            &&& after.knows(id@)
            &&& after.peer(id@).connected
            &&& !after.peer(id@).degraded
            &&& after.peer(id@).info == Some(hello)
            &&& after.peer(id@).caps == caps
            &&& after.peer(id@).ip == ip
            &&& before.doc matches Some(doc) ==> after.outbox.contains(
                Act::Send { to: id, frame: Frame::LayoutSync(doc) },
            )
            &&& before.claim matches Some(stamp) ==> after.outbox.contains(
                Act::Send { to: id, frame: Frame::SourceClaim(stamp) },
            )
            &&& caps.master ==> after.outbox.contains(
                Act::Send {
                    to: id,
                    frame: Frame::MasterState { enabled: before.master_enabled },
                },
            )
        }),
{
    let met_peers = with_peer(before.peers, id);
    let at = peer_place(met_peers, id@);
    lemma_joined(before.peers, id);
    let changed = newly_met(met_peers[at], hello, caps, ip);
    lemma_met(before.peers, id, changed);
    let met = Mind { peers: met_peers.update(at, changed), ..before };
    assert(before.parted(id, false, None, now).unprepared(id@) == before);
    let shown = match met.doc {
        Some(doc) => met.posted(id, Frame::LayoutSync(doc)),
        None => met,
    };
    let claimed = match shown.claim {
        Some(stamp) => shown.posted(id, Frame::SourceClaim(stamp)),
        None => shown,
    };
    let after = before.greeted(id, hello, caps, ip, now);
    assert(after == claimed.master_told(id));
    assert(claimed.connected(id@));
    if let Some(doc) = before.doc {
        let said = Act::Send { to: id, frame: Frame::LayoutSync(doc) };
        assert(shown.outbox[shown.outbox.len() - 1] == said);
        assert(goes_on(shown.outbox, after.outbox));
        lemma_contains(shown.outbox, after.outbox, said);
    }
    if let Some(stamp) = before.claim {
        let said = Act::Send { to: id, frame: Frame::SourceClaim(stamp) };
        assert(claimed.outbox[claimed.outbox.len() - 1] == said);
        assert(goes_on(claimed.outbox, after.outbox));
        lemma_contains(claimed.outbox, after.outbox, said);
    }
    if caps.master {
        assert(after.outbox[after.outbox.len() - 1] == Act::Send {
            to: id,
            frame: Frame::MasterState { enabled: before.master_enabled },
        });
    }
}

/// Settings that were written hold from then on, and end the session that ran under the old
/// ones; settings that could not be written change nothing but what is shown.
pub proof fn written_settings_hold(
    before: Mind,
    settings: Arc<InputSettings>,
    cause: Notice,
    now: u64,
)
    ensures
        before.settings_saved(Ok(()), settings, now).settings == settings,
        !(before.settings_saved(Ok(()), settings, now).focus is Remote),
        before.focus is Driven ==> before.settings_saved(Ok(()), settings, now).focus
            == before.focus,
        before.settings_saved(Err(cause), settings, now).settings == before.settings,
        before.settings_saved(Err(cause), settings, now).focus == before.focus,
        before.settings_saved(Err(cause), settings, now).outbox == before.outbox,
{
}

/// New displays of this machine are its own from then on, and all others are told.
pub proof fn new_displays_are_told(before: Mind, info: Arc<MachineInfo>)
    ensures
        before.redisplayed(info).me == info,
        before.redisplayed(info).outbox == before.outbox.push(Act::UpdateSelf(info)),
        before.redisplayed(info).doc == before.doc,
{
}

proof fn lemma_seen(peers: Seq<Peer>, me: Seq<char>, user: u64, nodes: Seq<Node>, i: int)
    requires
        0 <= i < nodes.len(),
        nodes[i].id@ != me,
        forall|j: int| i < j < nodes.len() ==> (#[trigger] nodes[j]).id@ != nodes[i].id@,
    ensures
        ({
            let after = all_seen(peers, me, user, nodes);
            let at = peer_place(after, nodes[i].id@);
            &&& 0 <= at < after.len()
            &&& after[at].hostname == Some(nodes[i].hostname)
            &&& after[at].online == (nodes[i].online && nodes[i].user == user)
            &&& after[at].online ==> after[at].ip == nodes[i].ip && after[at].direct
                == nodes[i].direct
        }),
    decreases nodes.len(),
{
    let earlier = all_seen(peers, me, user, nodes.drop_last());
    let node = nodes.last();
    if i < nodes.len() - 1 {
        lemma_seen(peers, me, user, nodes.drop_last(), i);
    }
    if node.id@ != me {
        let met = with_peer(earlier, node.id);
        let at = peer_place(met, node.id@);
        lemma_joined(earlier, node.id);
        lemma_met(earlier, node.id, seen(met[at], user, node));
        let after = all_seen(peers, me, user, nodes);
        assert(after == met.update(at, seen(met[at], user, node)));
        let sought = peer_place(after, nodes[i].id@);
        lemma_place_is(after, nodes[i].id@);
    }
}

proof fn lemma_unseen(peers: Seq<Peer>, me: Seq<char>, user: u64, nodes: Seq<Node>, id: Seq<char>)
    requires
        peer_place(peers, id) < peers.len(),
        forall|j: int| 0 <= j < nodes.len() ==> (#[trigger] nodes[j]).id@ != id,
    ensures
        ({
            let after = all_seen(peers, me, user, nodes);
            let at = peer_place(after, id);
            0 <= at < after.len() && after[at] == peers[peer_place(peers, id)]
        }),
    decreases nodes.len(),
{
    lemma_place_is(peers, id);
    if nodes.len() > 0 {
        let earlier = all_seen(peers, me, user, nodes.drop_last());
        let node = nodes.last();
        assert(nodes[nodes.len() - 1].id@ != id);
        lemma_unseen(peers, me, user, nodes.drop_last(), id);
        if node.id@ != me {
            let met = with_peer(earlier, node.id);
            let at = peer_place(met, node.id@);
            lemma_joined(earlier, node.id);
            lemma_met(earlier, node.id, seen(met[at], user, node));
            let after = all_seen(peers, me, user, nodes);
            assert(after == met.update(at, seen(met[at], user, node)));
            lemma_place_is(after, id);
        }
    }
}

proof fn lemma_unlisted(peers: Seq<Peer>, nodes: Seq<Node>, id: Seq<char>)
    ensures
        peer_place(unlisted_off(peers, nodes), id) == peer_place(peers, id),
{
    let after = unlisted_off(peers, nodes);
    let at = peer_place(peers, id);
    lemma_place_is(peers, id);
    assert forall|i: int| 0 <= i < at implies (#[trigger] after[i]).id@ != id by {
        assert(peers[i].id@ != id);
    }
    lemma_peer_place(after, id, at);
}

/// A look at the network shows a machine as the last that is said of it there: online exactly
/// where it is and belongs to the same user, and then with its address.
pub proof fn a_listing_is_believed(before: Mind, status: Status, now: u64, after: Mind, i: int)
    requires
        discovered(before, Ok(status), now, after),
        0 <= i < status.nodes@.len(),
        status.nodes@[i].id@ != before.me.id@,
        forall|j: int|
            i < j < status.nodes@.len() ==> (#[trigger] status.nodes@[j]).id@
                != status.nodes@[i].id@,
    ensures
        after.knows(status.nodes@[i].id@),
        after.peer(status.nodes@[i].id@).hostname == Some(status.nodes@[i].hostname),
        after.peer(status.nodes@[i].id@).online == (status.nodes@[i].online
            && status.nodes@[i].user == status.user),
        after.peer(status.nodes@[i].id@).online ==> after.peer(status.nodes@[i].id@).ip
            == status.nodes@[i].ip && after.peer(status.nodes@[i].id@).direct
            == status.nodes@[i].direct,
{
    let nodes = status.nodes@;
    let id = nodes[i].id@;
    let told = all_seen(before.peers, before.me.id@, status.user, nodes);
    lemma_seen(before.peers, before.me.id@, status.user, nodes, i);
    lemma_unlisted(told, nodes, id);
    lemma_place_is(told, id);
    assert(listed(nodes, id));
}

/// A machine that a look at the network does not find is not online; what else is known of it
/// stays.
pub proof fn a_machine_that_is_not_there_is_offline(
    before: Mind,
    status: Status,
    now: u64,
    after: Mind,
    id: Seq<char>,
)
    requires
        discovered(before, Ok(status), now, after),
        before.knows(id),
        forall|j: int| 0 <= j < status.nodes@.len() ==> (#[trigger] status.nodes@[j]).id@ != id,
    ensures
        after.knows(id),
        !after.peer(id).online,
        after.peer(id).connected == before.peer(id).connected,
        after.peer(id).info == before.peer(id).info,
{
    let nodes = status.nodes@;
    let told = all_seen(before.peers, before.me.id@, status.user, nodes);
    lemma_unseen(before.peers, before.me.id@, status.user, nodes, id);
    lemma_unlisted(told, nodes, id);
    lemma_place_is(told, id);
    assert(!listed(nodes, id));
}

/// Where the network could not be looked at, what was known of the machines stays.
pub proof fn a_failed_look_changes_no_machine(before: Mind, cause: Notice, now: u64, after: Mind)
    requires
        discovered(before, Err(cause), now, after),
    ensures
        after.peers == before.peers,
        after.focus == before.focus,
        after.tailscale_error is Some,
        after.outbox == before.outbox,
{
}

} // verus!
