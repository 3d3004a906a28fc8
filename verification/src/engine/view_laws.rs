//! What is shown is how things stand.

use super::state::{placed, Mind, Peer};
use super::view::{
    connection_of, edge_shown, edges_shown, machine_shown, peers_shown, shows, spot, Surroundings,
    UiConnection, UiMachine, UiState,
};
use crate::layout::EdgeLink;
use crate::machine::text_before;
use vstd::prelude::*;

verus! {

proof fn lemma_spot_is(machines: Seq<UiMachine>, id: Seq<char>)
    ensures
        0 <= spot(machines, id) <= machines.len(),
    decreases machines.len(),
{
    if machines.len() > 0 && !text_before(id, machines[0].id@) {
        lemma_spot_is(machines.skip(1), id);
    }
}

proof fn lemma_shown(mind: Mind, peers: Seq<Peer>, i: int)
    requires
        0 <= i < peers.len(),
        peers[i].info is Some,
    ensures
        peers_shown(mind, peers).contains(
            machine_shown(mind, peers[i].id, peers[i].info->0, connection_of(peers[i])),
        ),
    decreases peers.len(),
{
    let front = peers.drop_last();
    let before = peers_shown(mind, front);
    let after = peers_shown(mind, peers);
    let wanted = machine_shown(mind, peers[i].id, peers[i].info->0, connection_of(peers[i]));
    lemma_spot_is(before, peers.last().id@);
    let at = spot(before, peers.last().id@);
    if i < front.len() {
        assert(front[i] == peers[i]);
        lemma_shown(mind, front, i);
        let k = choose|k: int| 0 <= k < before.len() && before[k] == wanted;
        if peers.last().info is Some {
            let n = if k < at {
                k
            } else {
                k + 1
            };
            assert(after[n] == wanted);
        } else {
            assert(after[k] == wanted);
        }
    } else {
        assert(after[at] == wanted);
    }
}

/// This machine is shown first, and every other machine that told of itself is shown with what
/// it told, where it stands, whether it takes part, whether it is the source of input, and how
/// it is reached: as offline, as being connected to while it is not connected but online or
/// while its connection is flaky, and otherwise directly or through a relay.
pub proof fn machines_are_shown_as_they_are(
    mind: Mind,
    around: Surroundings,
    ui: UiState,
    i: int,
)
    requires
        shows(mind, around, ui),
        0 <= i < mind.peers.len(),
        mind.peers[i].info is Some,
    ensures
        ui.machines@.len() > 0,
        ui.machines@[0].id == mind.me.id,
        ui.machines@[0].connection is SelfMachine,
        exists|k: int|
            0 < k < ui.machines@.len() && ({
                let machine = #[trigger] ui.machines@[k];
                let peer = mind.peers[i];
                &&& machine.id == peer.id
                &&& Some(machine.info) == peer.info
                &&& machine.enabled == mind.enabled(peer.id@)
                &&& machine.is_source == (mind.claim matches Some(stamp) && stamp.writer@
                    == peer.id@)
                &&& placed(mind.places(), peer.id@) matches Some(p) ==> machine.offset == p.offset
                &&& !peer.connected && !peer.online ==> machine.connection is Offline
                &&& !peer.connected && peer.online ==> machine.connection is Connecting
                &&& peer.connected && peer.degraded ==> machine.connection is Connecting
                &&& peer.connected && !peer.degraded && peer.direct
                    ==> machine.connection is Direct
                &&& peer.connected && !peer.degraded && !peer.direct ==> machine.connection is Derp
                &&& peer.connected && !peer.degraded && (peer.rtt_us matches Some(rtt)
                    && peer.direct) ==> machine.connection == (UiConnection::Direct {
                    rtt_us: peer.rtt_us->0,
                })
            }),
{
    lemma_shown(mind, mind.peers, i);
    let wanted = machine_shown(
        mind,
        mind.peers[i].id,
        mind.peers[i].info->0,
        connection_of(mind.peers[i]),
    );
    let rest = peers_shown(mind, mind.peers);
    let k = choose|k: int| 0 <= k < rest.len() && rest[k] == wanted;
    assert(ui.machines@[k + 1] == wanted);
}

proof fn lemma_edges(mind: Mind, links: Seq<EdgeLink>, i: int)
    requires
        0 <= i < links.len(),
        edge_shown(mind, links[i]) is Some,
    ensures
        edges_shown(mind, links).contains(edge_shown(mind, links[i])->0),
    decreases links.len(),
{
    let front = links.drop_last();
    let before = edges_shown(mind, front);
    let after = edges_shown(mind, links);
    let wanted = edge_shown(mind, links[i])->0;
    if i < front.len() {
        assert(front[i] == links[i]);
        lemma_edges(mind, front, i);
        let k = choose|k: int| 0 <= k < before.len() && before[k] == wanted;
        assert(after[k] == wanted);
    } else {
        assert(after[after.len() - 1] == wanted);
    }
}

/// Where two placed machines meet is shown, once for both directions, as the stretch of the
/// canvas that the pointer leaves the first through; and as one that can be crossed exactly
/// where both take part and each is this machine or can be reached.
pub proof fn meeting_places_are_shown(mind: Mind, around: Surroundings, ui: UiState, i: int)
    requires
        shows(mind, around, ui),
        0 <= i < mind.geo_links.len(),
        text_before(mind.geo_links[i].from@, mind.geo_links[i].to@),
        placed(mind.places(), mind.geo_links[i].from@) is Some,
    ensures
        exists|k: int|
            0 <= k < ui.edges@.len() && ({
                let edge = #[trigger] ui.edges@[k];
                let link = mind.geo_links[i];
                let offset = placed(mind.places(), link.from@)->0.offset;
                &&& edge.a == link.from
                &&& edge.b == link.to
                &&& edge.crossable == (mind.enabled(link.from@) && mind.enabled(link.to@) && (
                link.from@ == mind.me.id@ || mind.usable(link.from@)) && (link.to@ == mind.me.id@
                    || mind.usable(link.to@)))
                &&& link.side is Left || link.side is Right ==> edge.x1 == link.at + offset.x
                    && edge.x2 == edge.x1 && edge.y1 == link.from_range.0 + offset.y && edge.y2
                    == link.from_range.1 + offset.y
                &&& link.side is Top || link.side is Bottom ==> edge.y1 == link.at + offset.y
                    && edge.y2 == edge.y1 && edge.x1 == link.from_range.0 + offset.x && edge.x2
                    == link.from_range.1 + offset.x
            }),
{
    lemma_edges(mind, mind.geo_links, i);
    let wanted = edge_shown(mind, mind.geo_links[i])->0;
    let all = edges_shown(mind, mind.geo_links);
    let k = choose|k: int| 0 <= k < all.len() && all[k] == wanted;
    assert(ui.edges@[k] == wanted);
}

/// The rest is shown as it is: who has the pointer, who is the source of input, what presses
/// against an edge and how far it got, and what is switched on.
pub proof fn the_state_is_shown_as_it_is(mind: Mind, around: Surroundings, ui: UiState)
    requires
        shows(mind, around, ui),
    ensures
        ui.self_id == mind.me.id,
        ui.focus == mind.focus,
        mind.claim matches Some(stamp) ==> ui.source == Some(stamp.writer),
        mind.claim is None ==> ui.source is None,
        mind.crossing matches Some(c) ==> (ui.crossing matches Some(shown) && shown.from
            == c.link.from && shown.to == c.link.to && shown.progress == c.progress && shown.side
            == c.link.side && shown.position == c.pos),
        mind.crossing is None ==> ui.crossing is None,
        ui.master_enabled == mind.master_enabled,
        ui.clipboard_sync == mind.clipboard_sync,
        ui.raw_active == mind.raw.active,
        ui.preparing_input == mind.raw.preparing,
        ui.input_settings == mind.settings,
        ui.input_error == mind.raw.error,
        ui.capture_error == mind.capture_error,
        ui.config_error == mind.config_error,
        ui.tailscale_error == mind.tailscale_error,
        ui.restart_requested == mind.restart_requested,
{
}

} // verus!
