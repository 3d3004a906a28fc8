//! What raw input comes to, from the wish for it to its end.

use super::landing::{is_shown, lies_across};
use super::pointer::{inside_to, within};
use super::raw::boundary_place;
use super::state::{Act, Focus, Frame, Mind, Ticket};
use super::notice::Notice;
use crate::geometry::Vec2;
use crate::layout::clamped_into;
use crate::machine::MachineId;
use vstd::prelude::*;

verus! {

/// Once raw devices can be captured, the other machine is asked to prepare for a new session
/// at the very point where the pointer is to land, and whether the pointer may leave it; this
/// machine counts as driving it and waits for it.
pub proof fn raw_input_is_announced(
    before: Mind,
    target: MachineId,
    pos: Vec2,
    edge: Option<u32>,
    now: u64,
)
    requires
        before.sends(target@),
        before.session < u64::MAX,
    ensures
        ({
            let after = before.raw_capturable(Ok(()), target, pos, edge, now);
            let number = (before.session + 1) as u64;
            &&& after.focus == Focus::Remote(target)
            &&& after.pos == pos
            &&& after.session == number
            &&& after.active_session == number
            &&& after.raw.preparing == Some(target)
            &&& after.raw.edge == edge
            &&& !after.raw.active
            &&& after.claim matches Some(stamp) && stamp.writer@ == before.me.id@
            &&& after.outbox.len() >= 2
            &&& after.outbox[after.outbox.len() - 2] == (Act::Send {
                to: target,
                frame: Frame::RawPrepare {
                    session: number,
                    pos,
                    boundary: !before.settings.focus_lock,
                },
            })
            &&& after.outbox.last() == (Act::AwaitRawTarget {
                peer: target,
                session: number,
                operation: after.raw.operation,
            })
        }),
{
}

/// A machine prepares for raw input only from the one that holds the claim, takes part and
/// can be reached, while it has its own pointer and prepares for nobody else; and for each
/// session of a machine once: a number that is not later than the last is refused.
pub proof fn raw_input_is_prepared_once(
    before: Mind,
    source: MachineId,
    session: u64,
    pos: Vec2,
    boundary: bool,
    now: u64,
)
    ensures
        ({
            let after = before.raw_preparing(source, session, pos, boundary, now);
            let welcome = before.master_enabled && before.enabled(before.me.id@) && before.enabled(
                source@,
            ) && before.usable(source@) && before.claimed_by(source@) && before.focus is Local
                && before.raw.pending_target is None && session > before.peer(
                source@,
            ).raw_generation && before.raw.can_inject;
            &&& welcome ==> {
                &&& after.raw.pending_target == Some((source, session))
                &&& after.raw.pending_policy == boundary
                &&& after.outbox.last() == (Act::PrepareRawTarget {
                    peer: source,
                    session,
                    pos,
                    operation: after.raw.operation,
                })
            }
            &&& !welcome ==> {
                &&& after.raw.pending_target == before.raw.pending_target
                &&& after.focus == before.focus
                &&& before.sends(source@) ==> (after.outbox.last() matches Act::Send {
                    to,
                    frame: Frame::RawReject { session: refused, reason: _ },
                } && to == source && refused == session)
            }
        }),
{
}

/// Once the pointer was put in place for it, a raw source drives this machine, and is told
/// where to connect to; raw input is received from it, and only now.
pub proof fn a_raw_source_is_let_in(
    before: Mind,
    source: MachineId,
    session: u64,
    port: u16,
    ticket: Ticket,
    now: u64,
)
    requires
        before.sends(source@),
        before.address(source@) is Some,
    ensures
        ({
            let after = before.raw_placed(Ok(()), source, session, port, ticket, now);
            &&& after.focus == Focus::Driven(source)
            &&& after.active_session == session
            &&& after.raw.active
            &&& after.raw.boundary == before.raw.pending_policy
            &&& after.outbox == before.outbox + seq![
                Act::ReceiveRaw {
                    peer: source,
                    ip: before.address(source@)->0,
                    session,
                    operation: before.raw.operation,
                },
                Act::SetActive { peer: source, active: true },
                Act::Send { to: source, frame: Frame::RawReady { session, port, ticket } },
            ]
        }),
{
    let after = before.raw_placed(Ok(()), source, session, port, ticket, now);
    assert(after.outbox =~= before.outbox + seq![
        Act::ReceiveRaw {
            peer: source,
            ip: before.address(source@)->0,
            session,
            operation: before.raw.operation,
        },
        Act::SetActive { peer: source, active: true },
        Act::Send { to: source, frame: Frame::RawReady { session, port, ticket } },
    ]);
}

/// A machine that is ready is connected to exactly where this machine asked it to prepare, for
/// this session, and is not connected to yet: at its own address, the port and with the secret
/// that it gave.
pub proof fn a_ready_machine_is_connected_to(
    before: Mind,
    from: MachineId,
    session: u64,
    port: u16,
    ticket: Ticket,
)
    ensures
        ({
            let after = before.raw_readied(from, session, port, ticket);
            let awaited = !before.raw.connecting && before.active_session == session && (
            before.raw.preparing matches Some(peer) && peer@ == from@) && (
            before.focus matches Focus::Remote(target) && target@ == from@);
            &&& !awaited ==> after == before
            &&& awaited && before.address(from@) is Some ==> after.raw.connecting && after.outbox
                == before.outbox.push(
                Act::ConnectRaw {
                    peer: from,
                    ip: before.address(from@)->0,
                    port,
                    session,
                    ticket,
                    operation: before.raw.operation,
                },
            )
        }),
{
}

/// Raw devices that were captured send to the machine that they were captured for, in the
/// session that was agreed; where they cannot be captured, the session ends.
pub proof fn captured_devices_send(
    before: Mind,
    target: MachineId,
    session: u64,
    cause: Notice,
    now: u64,
)
    ensures
        ({
            let after = before.raw_sending(Ok(()), target, session, now);
            &&& after.raw.active
            &&& after.raw.preparing is None
            &&& after.focus == before.focus
            &&& after.outbox == before.outbox + seq![
                Act::SetActive { peer: target, active: true },
                Act::SendRaw { peer: target, session, operation: before.raw.operation },
            ]
        }),
        ({
            let after = before.raw_sending(Err(cause), target, session, now);
            &&& after.focus is Local
            &&& !after.raw.active
            &&& after.outbox.last() == Act::EndCapture(Some(before.last_local))
        }),
{
    let after = before.raw_sending(Ok(()), target, session, now);
    assert(after.outbox =~= before.outbox + seq![
        Act::SetActive { peer: target, active: true },
        Act::SendRaw { peer: target, session, operation: before.raw.operation },
    ]);
}

/// A raw pointer that reaches an edge of this machine is announced to its source at the point
/// where it touches the edge, together with the machine that the edge leads to: in the running
/// session, where the pointer may leave, away from the corners, and once for each edge.
pub proof fn a_raw_boundary_is_announced(before: Mind, session: u64, edge: u32, along: i64)
    requires
        before.focus is Driven,
        before.sends(before.focus->Driven_0@),
        edge < before.armed.len(),
    ensures
        ({
            let after = before.boundary_hit(session, edge, along);
            let link = before.armed[edge as int];
            let due = before.raw.active && before.raw.boundary && session == before.active_session
                && before.raw.pending_boundary != Some((session, edge)) && before.admits(
                before.focus->Driven_0@,
            ) && super::pointer::has_link(before.links, link) && super::pointer::amid(
                link,
                along,
                before.corner_dead_zone,
            );
            &&& !due ==> after == before
            &&& due ==> after.raw.pending_boundary == Some((session, edge)) && after.outbox
                == before.outbox.push(
                Act::Send {
                    to: before.focus->Driven_0,
                    frame: Frame::RawBoundary {
                        session,
                        target: link.to,
                        pos: if link.side is Left || link.side is Right {
                            Vec2 { x: (link.at * 0x1_0000) as i64, y: along }
                        } else {
                            Vec2 { x: along, y: (link.at * 0x1_0000) as i64 }
                        },
                    },
                },
            )
        }),
{
}

/// A raw pointer that crosses home arrives at the corresponding point of this machine, which
/// has it again; what was held there is let go of.
pub proof fn a_raw_pointer_comes_home_opposite(
    before: Mind,
    from: MachineId,
    session: u64,
    target: MachineId,
    pos: Vec2,
    now: u64,
    x: int,
    y: int,
)
    requires
        before.focus matches Focus::Remote(driven) && driven@ == from@,
        before.raw.active,
        session == before.active_session,
        !before.settings.focus_lock,
        target@ == before.me.id@,
        ({
            let at = boundary_place(
                before.links,
                from@,
                target@,
                pos,
                before.corner_dead_zone,
            );
            &&& 0 <= at < before.links.len()
            &&& lies_across(
                before.links[at],
                if before.links[at].side is Left || before.links[at].side is Right {
                    pos.y as int
                } else {
                    pos.x as int
                },
                x,
                y,
            )
        }),
        is_shown(before.me.displays@, x, y),
    ensures
        ({
            let after = before.boundary_crossed(from, session, target, Some(pos), now);
            &&& after.focus is Local
            &&& !after.raw.active
            &&& after.outbox.last() == Act::EndCapture(Some(Vec2 { x: x as i64, y: y as i64 }))
        }),
{
    let at = boundary_place(before.links, from@, target@, pos, before.corner_dead_zone);
    let link = before.links[at];
    super::landing::lemma_across(
        link,
        before.me.displays@,
        pos,
        if link.side is Left || link.side is Right {
            pos.y
        } else {
            pos.x
        },
        x,
        y,
    );
    assert(clamped_into(before.me.displays@, within(inside_to(link, pos))) == Vec2 {
        x: x as i64,
        y: y as i64,
    });
}

/// A raw session that fails ends where it was, on either side; what belongs to another session
/// ends nothing.
pub proof fn a_failed_raw_session_ends(
    before: Mind,
    peer: MachineId,
    session: u64,
    error: Notice,
    now: u64,
)
    ensures
        session != before.active_session ==> before.raw_over(peer, session, error, now) == before,
        session == before.active_session && (before.focus.drives(peer@) || before.focus.driven_by(
            peer@,
        )) ==> before.raw_over(peer, session, error, now).focus is Local && !before.raw_over(
            peer,
            session,
            error,
            now,
        ).raw.active,
        (before.focus is Remote && (before.raw.active || before.raw.preparing is Some))
            ==> before.raw_failed(error, now).focus is Local && !before.raw_failed(
            error,
            now,
        ).raw.active,
{
}

} // verus!
