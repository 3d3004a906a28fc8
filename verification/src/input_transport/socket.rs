//! Datagrams: who may send them, how they are framed, and when a path works.

use super::packets::MAX_DATAGRAM;
use crate::bytes::{
    digits, digits_and_number_are_inverse, lemma_digits_len, lemma_range_16, number, push_number,
    read_number,
};
use crate::outside::{random_cause, random_number};
use std::collections::VecDeque;
use vstd::prelude::*;

verus! {

#[derive(Clone, Copy, Debug, PartialEq, Eq, Structural)]
pub enum Ip {
    V4(u32),
    V6(u128),
}

#[derive(Clone, Copy, Debug, PartialEq, Eq, Structural)]
pub struct Address {
    pub ip: Ip,
    /// 0 where the port is not known yet.
    pub port: u16,
}

/// What a datagram starts with.
pub open spec fn magic() -> Seq<u8> {
    seq![0x53u8, 0x50, 0x49, 0x36]
}

/// The smallest datagram: magic, token, and a byte.
pub const MIN_DATAGRAM: usize = 21;

/// A datagram of an acceptable size with the right magic.
pub open spec fn framed(bytes: Seq<u8>) -> bool {
    &&& MIN_DATAGRAM <= bytes.len() <= MAX_DATAGRAM
    &&& bytes.take(4) == magic()
}

/// The token a datagram carries.
pub open spec fn token_of(bytes: Seq<u8>) -> nat {
    number(bytes.subrange(4, 20))
}

/// A datagram may come from `address` where a route leads to `remote`.
pub open spec fn comes_from(address: Address, remote: Address) -> bool {
    address.ip == remote.ip && (remote.port == 0 || address == remote)
}

/// The token under which a datagram is delivered: that of a route which its sender may use.
pub open spec fn delivered_under(
    routes: Map<u128, Address>,
    bytes: Seq<u8>,
    address: Address,
) -> Option<u128> {
    let token = token_of(bytes) as u128;
    if framed(bytes) && routes.contains_key(token) && comes_from(address, routes[token]) {
        Some(token)
    } else {
        None
    }
}

pub fn may_come_from(address: Address, remote: Address) -> (r: bool)
    ensures
        r == comes_from(address, remote),
{
    address.ip == remote.ip && (remote.port == 0 || address == remote)
}

/// The token of a datagram, where its frame is right.
pub fn read_frame(bytes: &Vec<u8>) -> (r: Option<u128>)
    ensures
        match r {
            Some(token) => framed(bytes@) && token == token_of(bytes@),
            None => !framed(bytes@),
        },
{
    if bytes.len() < MIN_DATAGRAM || bytes.len() > MAX_DATAGRAM {
        return None;
    }
    assert(bytes@.take(4).len() == 4);
    if bytes[0] != 0x53 || bytes[1] != 0x50 || bytes[2] != 0x49 || bytes[3] != 0x36 {
        proof {
            if bytes@.take(4) == magic() {
                assert(bytes@.take(4)[0] == magic()[0]);
                assert(bytes@.take(4)[1] == magic()[1]);
                assert(bytes@.take(4)[2] == magic()[2]);
                assert(bytes@.take(4)[3] == magic()[3]);
            }
        }
        return None;
    }
    assert(bytes@.take(4) =~= magic());
    Some(read_number(bytes, 4))
}

/// Why a datagram cannot be sent.
#[derive(Clone, Copy, Debug, PartialEq, Eq, Structural)]
pub enum FrameError {
    /// The peer's port is not known yet.
    NotAuthenticated,
    TooLong,
}

/// A datagram: magic, the peer's token, and the packet.
pub fn frame(remote: Address, token: u128, packet: &Vec<u8>) -> (r: Result<Vec<u8>, FrameError>)
    ensures
        match r {
            Ok(bytes) => remote.port != 0 && bytes@ == magic() + digits(token as nat, 16) + packet@
                && bytes@.len() <= MAX_DATAGRAM,
            Err(FrameError::NotAuthenticated) => remote.port == 0,
            Err(FrameError::TooLong) => remote.port != 0 && 20 + packet@.len() > MAX_DATAGRAM,
        },
{
    if remote.port == 0 {
        return Err(FrameError::NotAuthenticated);
    }
    if packet.len() > MAX_DATAGRAM - 20 {
        return Err(FrameError::TooLong);
    }
    let mut bytes: Vec<u8> = Vec::new();
    bytes.push(0x53);
    bytes.push(0x50);
    bytes.push(0x49);
    bytes.push(0x36);
    assert(bytes@ =~= magic());
    push_number(&mut bytes, token);
    proof {
        lemma_digits_len(token as nat, 16);
    }
    let ghost head = bytes@;
    for i in 0..packet.len()
        invariant
            bytes@ =~= head + packet@.take(i as int),
    {
        bytes.push(packet[i]);
    }
    assert(packet@.take(packet@.len() as int) =~= packet@);
    Ok(bytes)
}

/// A datagram that was framed for a token is read back under that token, with its packet
/// behind the header.
pub proof fn a_framed_packet_is_read_back(token: u128, packet: Seq<u8>)
    requires
        0 < packet.len() <= MAX_DATAGRAM - 20,
    ensures
        ({
            let bytes = magic() + digits(token as nat, 16) + packet;
            framed(bytes) && token_of(bytes) == token && bytes.skip(20) == packet
        }),
{
    let bytes = magic() + digits(token as nat, 16) + packet;
    lemma_digits_len(token as nat, 16);
    lemma_range_16();
    digits_and_number_are_inverse(token as nat, digits(token as nat, 16), 16);
    assert(bytes.take(4) =~= magic());
    assert(bytes.subrange(4, 20) =~= digits(token as nat, 16));
    assert(bytes.skip(20) =~= packet);
}

/// Who may send under a token.
#[derive(Clone, Copy, Debug, PartialEq, Eq, Structural)]
pub struct Route {
    pub token: u128,
    pub remote: Address,
}

/// Why a route is refused.
#[derive(Clone, Copy, Debug, PartialEq, Eq, Structural)]
pub enum RouteError {
    Duplicate,
    AddressChanged,
    Closed,
}

pub struct Routes {
    pub routes: Vec<Route>,
}

/// The routes by token.
pub open spec fn table(routes: Seq<Route>) -> Map<u128, Address>
    decreases routes.len(),
{
    if routes.len() == 0 {
        Map::empty()
    } else {
        table(routes.drop_last()).insert(routes.last().token, routes.last().remote)
    }
}

impl View for Routes {
    type V = Map<u128, Address>;

    open spec fn view(&self) -> Map<u128, Address> {
        table(self.routes@)
    }
}

proof fn lemma_table(routes: Seq<Route>)
    requires
        distinct(routes),
    ensures
        forall|i: int|
            0 <= i < routes.len() ==> table(routes).contains_key((#[trigger] routes[i]).token)
                && table(routes)[routes[i].token] == routes[i].remote,
        forall|token: u128| #[trigger]
            table(routes).contains_key(token) ==> exists|i: int|
                0 <= i < routes.len() && (#[trigger] routes[i]).token == token,
    decreases routes.len(),
{
    if routes.len() > 0 {
        let front = routes.drop_last();
        lemma_table(front);
        assert forall|i: int| 0 <= i < routes.len() implies table(routes).contains_key(
            (#[trigger] routes[i]).token,
        ) && table(routes)[routes[i].token] == routes[i].remote by {
            if i < front.len() {
                assert(front[i] == routes[i]);
                assert(routes[i].token != routes[routes.len() - 1].token);
            }
        }
        assert forall|token: u128| #[trigger] table(routes).contains_key(
            token,
        ) implies exists|i: int|
            0 <= i < routes.len() && (#[trigger] routes[i]).token == token by {
            if table(front).contains_key(token) {
                let i = choose|i: int|
                    0 <= i < front.len() && (#[trigger] front[i]).token == token;
                assert(routes[i].token == token);
            } else {
                assert(routes[routes.len() - 1].token == token);
            }
        }
    }
}

pub open spec fn distinct(routes: Seq<Route>) -> bool {
    forall|i: int, j: int|
        0 <= i < j < routes.len() ==> (#[trigger] routes[i]).token != (#[trigger] routes[j]).token
}

impl Routes {
    pub open spec fn wf(&self) -> bool {
        distinct(self.routes@)
    }

    pub fn new() -> (r: Self)
        ensures
            r.wf(),
            r@ == Map::<u128, Address>::empty(),
    {
        Routes { routes: Vec::new() }
    }

    fn find(&self, token: u128) -> (r: Option<usize>)
        requires
            self.wf(),
        ensures
            match r {
                Some(i) => i < self.routes@.len() && self.routes@[i as int].token == token
                    && self@.contains_key(token) && self@[token] == self.routes@[i as int].remote,
                None => !self@.contains_key(token),
            },
    {
        proof {
            lemma_table(self.routes@);
        }
        for i in 0..self.routes.len()
            invariant
                self.wf(),
                forall|k: int|
                    0 <= k < self.routes@.len() ==> self@.contains_key(
                        (#[trigger] self.routes@[k]).token,
                    ) && self@[self.routes@[k].token] == self.routes@[k].remote,
                forall|k: int| 0 <= k < i ==> (#[trigger] self.routes@[k]).token != token,
        {
            if self.routes[i].token == token {
                return Some(i);
            }
        }
        None
    }

    /// Opens a route; a token is used once.
    pub fn subscribe(&mut self, token: u128, remote: Address) -> (r: Result<(), RouteError>)
        requires
            old(self).wf(),
        ensures
            final(self).wf(),
            if old(self)@.contains_key(token) {
                r == Err::<(), RouteError>(RouteError::Duplicate) && final(self)@ == old(self)@
            } else {
                r == Ok::<(), RouteError>(()) && final(self)@ == old(self)@.insert(token, remote)
            },
    {
        if self.find(token).is_some() {
            return Err(RouteError::Duplicate);
        }
        let ghost before = self.routes@;
        proof {
            lemma_table(before);
        }
        self.routes.push(Route { token, remote });
        assert(self.routes@.drop_last() =~= before);
        Ok(())
    }

    /// Closes a route.
    pub fn close(&mut self, token: u128)
        requires
            old(self).wf(),
        ensures
            final(self).wf(),
            final(self)@ == old(self)@.remove(token),
    {
        let ghost before = self.routes@;
        proof {
            lemma_table(before);
        }
        match self.find(token) {
            Some(i) => {
                self.routes.remove(i);
                let ghost after = self.routes@;
                proof {
                    assert(after =~= before.remove(i as int));
                    assert(distinct(after)) by {
                        assert forall|a: int, b: int| 0 <= a < b < after.len() implies (
                        #[trigger] after[a]).token != (#[trigger] after[b]).token by {
                            let p = if a < i {
                                a
                            } else {
                                a + 1
                            };
                            let q = if b < i {
                                b
                            } else {
                                b + 1
                            };
                            assert(before[p].token != before[q].token);
                        }
                    }
                    lemma_table(after);
                    assert forall|t: u128| #[trigger] table(after).contains_key(t) == table(
                        before,
                    ).remove(token).contains_key(t) by {
                        if table(after).contains_key(t) {
                            let k = choose|k: int|
                                0 <= k < after.len() && (#[trigger] after[k]).token == t;
                            let p = if k < i {
                                k
                            } else {
                                k + 1
                            };
                            assert(before[p].token == t);
                            assert(before[p].token != before[i as int].token);
                        }
                        if table(before).remove(token).contains_key(t) {
                            let k = choose|k: int|
                                0 <= k < before.len() && (#[trigger] before[k]).token == t;
                            let p = if k < i {
                                k
                            } else {
                                k - 1
                            };
                            assert(after[p].token == t);
                        }
                    }
                    assert forall|t: u128| #[trigger] table(after).contains_key(t) implies table(
                        after,
                    )[t] == table(before)[t] by {
                        let k = choose|k: int|
                            0 <= k < after.len() && (#[trigger] after[k]).token == t;
                        let p = if k < i {
                            k
                        } else {
                            k + 1
                        };
                        assert(before[p] == after[k]);
                    }
                    assert(table(after) =~= table(before).remove(token));
                }
            },
            None => {
                assert(self@ =~= table(before).remove(token));
            },
        }
    }

    /// Fixes the address a route's peer uses, where that is still open.
    pub fn pin(&mut self, token: u128, remote: Address, address: Address) -> (r: Result<
        Address,
        RouteError,
    >)
        requires
            old(self).wf(),
        ensures
            final(self).wf(),
            if !comes_from(address, remote) {
                r == Err::<Address, RouteError>(RouteError::AddressChanged) && final(self)@
                    == old(self)@
            } else if !old(self)@.contains_key(token) {
                r == Err::<Address, RouteError>(RouteError::Closed) && final(self)@ == old(self)@
            } else {
                r == Ok::<Address, RouteError>(address) && final(self)@ == old(self)@.insert(
                    token,
                    address,
                )
            },
    {
        if !may_come_from(address, remote) {
            return Err(RouteError::AddressChanged);
        }
        let ghost before = self.routes@;
        proof {
            lemma_table(before);
        }
        match self.find(token) {
            Some(i) => {
                self.routes.set(i, Route { token, remote: address });
                let ghost after = self.routes@;
                proof {
                    assert(distinct(after)) by {
                        assert forall|a: int, b: int| 0 <= a < b < after.len() implies (
                        #[trigger] after[a]).token != (#[trigger] after[b]).token by {
                            assert(before[a].token != before[b].token);
                        }
                    }
                    lemma_table(after);
                    let goal = table(before).insert(token, address);
                    assert forall|t: u128| #[trigger] table(after).contains_key(t)
                        == goal.contains_key(t) by {
                        if table(after).contains_key(t) {
                            let k = choose|k: int|
                                0 <= k < after.len() && (#[trigger] after[k]).token == t;
                            assert(before[k].token == t);
                        }
                        if table(before).contains_key(t) {
                            let k = choose|k: int|
                                0 <= k < before.len() && (#[trigger] before[k]).token == t;
                            assert(after[k].token == t);
                        }
                        if t == token {
                            assert(after[i as int].token == t);
                        }
                    }
                    assert forall|t: u128| #[trigger] table(after).contains_key(t) implies table(
                        after,
                    )[t] == goal[t] by {
                        let k = choose|k: int|
                            0 <= k < after.len() && (#[trigger] after[k]).token == t;
                        assert(before[k].token == t);
                        if t == token {
                            if k != i {
                                assert(after[k].token != after[i as int].token);
                            }
                        } else {
                            assert(before[k] == after[k]);
                        }
                    }
                    assert(table(after) =~= goal);
                }
                Ok(address)
            },
            None => Err(RouteError::Closed),
        }
    }

    /// The token under which a datagram is delivered.
    pub fn accept(&self, bytes: &Vec<u8>, address: Address) -> (r: Option<u128>)
        requires
            self.wf(),
        ensures
            r == delivered_under(self@, bytes@, address),
    {
        let Some(token) = read_frame(bytes) else {
            return None;
        };
        match self.find(token) {
            Some(i) => if may_come_from(address, self.routes[i].remote) {
                Some(token)
            } else {
                None
            },
            None => None,
        }
    }
}

/// A datagram under a token that was withdrawn is not delivered, nor one from an address that
/// the token was not given to; whoever was given another token since, nothing changes in that.
pub proof fn a_withdrawn_token_delivers_nothing(
    routes: Map<u128, Address>,
    withdrawn: u128,
    since: Map<u128, Address>,
    bytes: Seq<u8>,
    address: Address,
)
    requires
        token_of(bytes) == withdrawn,
        !since.contains_key(withdrawn),
    ensures
        delivered_under(
            routes.remove(withdrawn).union_prefer_right(since),
            bytes,
            address,
        ) is None,
        routes.contains_key(withdrawn) && !comes_from(address, routes[withdrawn])
            ==> delivered_under(routes, bytes, address) is None,
{
}

/// That no token could be drawn, and why.
pub open spec fn no_authorization(cause: Seq<char>) -> Seq<char> {
    "cannot generate input authorization: "@ + cause
}

/// A number that was drawn as a token; where none could be, that is said with the cause.
pub fn token_of_draw(drawn: Result<u128, String>) -> (r: Result<u128, String>)
    ensures
        match drawn {
            Ok(number) => r == Ok::<u128, String>(number),
            Err(cause) => r matches Err(text) && text@ == no_authorization(cause@),
        },
{
    match drawn {
        Ok(number) => Ok(number),
        Err(cause) => {
            let mut text: String = "cannot generate input authorization: ".to_owned();
            text.append(cause.as_str());
            Err(text)
        },
    }
}

/// A token that authorizes a connection: a number drawn at random, whichever it is.
pub fn token() -> (r: Result<u128, String>)
    ensures
        r matches Err(text) ==> exists|cause: Seq<char>| text@ == #[trigger] no_authorization(cause),
{
    let drawn: Result<u128, String> = match random_number() {
        Ok(number) => Ok(number),
        Err(error) => Err(random_cause(error)),
    };
    token_of_draw(drawn)
}

/// The two tokens of a ticket: what the peer sends under, then what it is sent under.
pub fn ticket_tokens(ticket: &Vec<u8>) -> (r: Option<(u128, u128)>)
    ensures
        match r {
            Some((local, remote)) => ticket@.len() == 32 && remote == number(
                ticket@.subrange(0, 16),
            ) && local == number(ticket@.subrange(16, 32)),
            None => ticket@.len() != 32,
        },
{
    if ticket.len() != 32 {
        return None;
    }
    let remote: u128 = read_number(ticket, 0);
    let local: u128 = read_number(ticket, 16);
    Some((local, remote))
}

/// Greetings that must come back before a path counts as working.
pub const PROBES: u32 = 4;

/// Greetings that are remembered.
pub const MAX_SENT: usize = 100;

/// The handshake of a path.
pub struct Probe {
    pub sent: VecDeque<u64>,
    pub acknowledged: u32,
}

/// Stamps without one of them.
pub open spec fn without_stamp(sent: Seq<u64>, stamp: u64) -> Seq<u64>
    decreases sent.len(),
{
    if sent.len() == 0 {
        Seq::empty()
    } else if sent.last() == stamp {
        without_stamp(sent.drop_last(), stamp)
    } else {
        without_stamp(sent.drop_last(), stamp).push(sent.last())
    }
}

impl Probe {
    pub fn new() -> (r: Self)
        ensures
            r.sent@ == Seq::<u64>::empty(),
            r.acknowledged == 0,
    {
        Probe { sent: VecDeque::new(), acknowledged: 0 }
    }

    /// A greeting went out.
    pub fn greeted(&mut self, stamp: u64)
        ensures
            final(self).acknowledged == old(self).acknowledged,
            final(self).sent@ == if old(self).sent@.len() >= MAX_SENT {
                old(self).sent@.push(stamp).skip(1)
            } else {
                old(self).sent@.push(stamp)
            },
    {
        self.sent.push_back(stamp);
        if self.sent.len() > MAX_SENT {
            self.sent.pop_front();
        }
        proof {
            if old(self).sent@.len() >= MAX_SENT {
                assert(self.sent@ =~= old(self).sent@.push(stamp).skip(1));
            }
        }
    }

    /// A greeting came back; true once enough have. Each counts once.
    pub fn returned(&mut self, stamp: u64) -> (r: bool)
        requires
            old(self).acknowledged < PROBES,
        ensures
            final(self).sent@ == without_stamp(old(self).sent@, stamp),
            final(self).acknowledged == if old(self).sent@.contains(stamp) {
                old(self).acknowledged + 1
            } else {
                old(self).acknowledged as int
            },
            r == (final(self).acknowledged >= PROBES),
    {
        let mut kept: VecDeque<u64> = VecDeque::new();
        let mut known: bool = false;
        let ghost all = self.sent@;
        assert(all.take(0) =~= Seq::empty());
        for i in 0..self.sent.len()
            invariant
                all == self.sent@,
                kept@ == without_stamp(all.take(i as int), stamp),
                known == all.take(i as int).contains(stamp),
        {
            assert(all.take(i + 1).drop_last() =~= all.take(i as int));
            let one: u64 = self.sent[i];
            assert(all.take(i + 1)[i as int] == one);
            proof {
                if all.take(i as int).contains(stamp) {
                    let k = choose|k: int| 0 <= k < i && all.take(i as int)[k] == stamp;
                    assert(all.take(i + 1)[k] == stamp);
                }
                if all.take(i + 1).contains(stamp) && one != stamp {
                    let now = all.take(i + 1);
                    let k = choose|k: int| 0 <= k < now.len() && now[k] == stamp;
                    assert(all.take(i as int)[k] == stamp);
                }
            }
            if one == stamp {
                known = true;
            } else {
                kept.push_back(one);
            }
        }
        assert(all.take(all.len() as int) =~= all);
        self.sent = kept;
        if known {
            self.acknowledged = self.acknowledged + 1;
        }
        self.acknowledged >= PROBES
    }
}

} // verus!
