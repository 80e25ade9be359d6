//! The collective primitives over the mesh: broadcast, gather at the master and
//! scatter from the master. The caller moves the bytes over the connections as
//! the functions here direct; they decide the order of each exchange, frame
//! and check what moves, assemble the results and keep the traffic counters.

use vstd::prelude::*;

use crate::error::NetError;
use crate::frame::{decode_len, encode_frame, frame_of, payload_of, lemma_frame_round_trip, HEADER_LEN, le_value};
use crate::topology::{views, Topology};

verus! {

/// Traffic counters of one party. They only grow, until reset.
#[derive(Clone, Copy, Debug, PartialEq, Eq, Structural)]
pub struct Stats {
    pub bytes_sent: usize,
    pub bytes_recv: usize,
    pub broadcasts: usize,
    pub to_master: usize,
    pub from_master: usize,
}

impl Stats {
    pub open spec fn zero() -> Stats {
        Stats { bytes_sent: 0, bytes_recv: 0, broadcasts: 0, to_master: 0, from_master: 0 }
    }
}

impl Default for Stats {
    fn default() -> (r: Stats)
        ensures
            r == Stats::zero(),
    {
        Stats { bytes_sent: 0, bytes_recv: 0, broadcasts: 0, to_master: 0, from_master: 0 }
    }
}

/// `a + b`, held at `usize::MAX` where it would pass it.
pub open spec fn sat_add(a: usize, b: int) -> usize {
    if a + b > usize::MAX {
        usize::MAX
    } else {
        (a + b) as usize
    }
}

fn add_sat(a: usize, b: usize) -> (r: usize)
    ensures
        r == sat_add(a, b as int),
{
    a.saturating_add(b)
}

/// `a * b + a0`, held at `usize::MAX`.
fn mul_add_sat(a0: usize, a: usize, b: usize) -> (r: usize)
    ensures
        r == sat_add(a0, a * b),
{
    match a.checked_mul(b) {
        Some(p) => a0.saturating_add(p),
        None => {
            assert(a * b > usize::MAX);
            usize::MAX
        },
    }
}

/// How a party exchanges its broadcast payload with one peer.
#[derive(Clone, Copy, Debug, PartialEq, Eq, Structural)]
pub enum Exchange {
    /// Read the peer's payload, then write one's own.
    ReadThenWrite,
    /// The peer is oneself: copy the payload.
    Local,
    /// Write one's own payload, then read the peer's.
    WriteThenRead,
}

/// The order of party `me` towards `peer`: the higher id reads first.
pub open spec fn exchange_spec(me: nat, peer: nat) -> Exchange {
    if peer < me {
        Exchange::ReadThenWrite
    } else if peer == me {
        Exchange::Local
    } else {
        Exchange::WriteThenRead
    }
}

/// The two ends of an exchange never both wait to read: of two distinct
/// parties exactly one reads first and the other writes first.
pub proof fn lemma_exchange_deadlock_free(a: nat, b: nat)
    requires
        a != b,
    ensures
        exchange_spec(a, b) != Exchange::Local,
        exchange_spec(a, b) == Exchange::ReadThenWrite <==> exchange_spec(b, a)
            == Exchange::WriteThenRead,
        exchange_spec(a, b) != exchange_spec(b, a),
{
}

/// What party `me` holds after a broadcast: its own payload at its own index,
/// what it read from each peer at the peer's.
pub open spec fn broadcast_view(me: nat, own: Seq<u8>, incoming: Seq<Seq<u8>>) -> Seq<Seq<u8>> {
    Seq::new(incoming.len(), |p: int| if p == me { own } else { incoming[p] })
}

/// Bytes that the master reads, or writes, in framed messages to the other parties.
pub open spec fn framed_traffic(msgs: Seq<Seq<u8>>, me: nat) -> int
    decreases msgs.len(),
{
    if msgs.len() == 0 {
        0
    } else {
        let last = msgs.len() - 1;
        framed_traffic(msgs.drop_last(), me) + (if last == me {
            0int
        } else {
            HEADER_LEN + msgs.last().len()
        })
    }
}

/// Counters after a broadcast of `m` bytes among `n` parties.
pub open spec fn after_broadcast(s: Stats, n: nat, m: nat) -> Stats {
    Stats {
        bytes_sent: sat_add(s.bytes_sent, (n - 1) * m),
        bytes_recv: sat_add(s.bytes_recv, (n - 1) * m),
        broadcasts: sat_add(s.broadcasts, 1),
        ..s
    }
}

/// One party's end of the mesh: its topology and its traffic counters.
pub struct Channel {
    pub topology: Topology,
    pub stats: Stats,
}

impl Channel {
    pub open spec fn wf(&self) -> bool {
        self.topology.wf()
    }

    pub open spec fn me(&self) -> nat {
        self.topology.self_id as nat
    }

    pub open spec fn n(&self) -> nat {
        self.topology.n()
    }

    /// A channel over `topology`, with zero counters.
    pub fn new(topology: Topology) -> (r: Channel)
        ensures
            r.topology == topology,
            r.stats == Stats::zero(),
    {
        Channel { topology, stats: Stats::default() }
    }

    /// Own party id.
    pub fn party_id(&self) -> (r: usize)
        ensures
            r == self.topology.self_id,
    {
        self.topology.party_id()
    }

    /// Number of parties.
    pub fn n_parties(&self) -> (r: usize)
        ensures
            r == self.n(),
    {
        self.topology.n_parties()
    }

    /// Whether oneself is the master, party 0.
    pub fn am_master(&self) -> (r: bool)
        ensures
            r == (self.topology.self_id == 0),
    {
        self.topology.am_master()
    }

    /// Whether the mesh is complete and not torn down.
    pub fn is_init(&self) -> (r: bool)
        ensures
            r == self.topology.ready,
    {
        self.topology.is_init()
    }

    /// Drops every connection.
    pub fn deinit(&mut self)
        requires
            old(self).wf(),
        ensures
            final(self).wf(),
            !final(self).topology.ready,
            forall|i: int| 0 <= i < final(self).n() ==> !#[trigger] final(self).topology.links@[i],
            final(self).topology.self_id == old(self).topology.self_id,
            final(self).topology.addrs == old(self).topology.addrs,
            final(self).stats == old(self).stats,
    {
        self.topology.deinit();
    }

    /// Sets every counter back to zero.
    pub fn reset_stats(&mut self)
        ensures
            final(self).stats == Stats::zero(),
            final(self).topology == old(self).topology,
    {
        self.stats = Stats::default();
    }

    /// The counters.
    pub fn stats(&self) -> (r: Stats)
        ensures
            r == self.stats,
    {
        self.stats
    }

    /// How to exchange a broadcast payload with `peer`.
    pub fn exchange_with(&self, peer: usize) -> (r: Exchange)
        ensures
            r == exchange_spec(self.topology.self_id as nat, peer as nat),
    {
        if peer < self.topology.self_id {
            Exchange::ReadThenWrite
        } else if peer == self.topology.self_id {
            Exchange::Local
        } else {
            Exchange::WriteThenRead
        }
    }

    /// Ends a broadcast of `own`: `incoming` holds, at each peer's index, the
    /// bytes read from that peer (its entry at one's own index is ignored).
    /// Every party sends payloads of the same length, so each read is as long
    /// as `own`.
    pub fn finish_broadcast(&mut self, own: &Vec<u8>, incoming: Vec<Vec<u8>>) -> (r: Result<
        Vec<Vec<u8>>,
        NetError,
    >)
        requires
            old(self).wf(),
        ensures
            final(self).topology == old(self).topology,
            incoming@.len() != old(self).n() ==> r == Err::<Vec<Vec<u8>>, NetError>(
                NetError::WrongLength,
            ),
            incoming@.len() == old(self).n() ==> {
                &&& r is Ok
                &&& views(r->Ok_0@) == broadcast_view(old(self).me(), own@, views(incoming@))
                &&& r->Ok_0@.len() == incoming@.len()
                &&& forall|p: int|
                    0 <= p < incoming@.len() ==> (#[trigger] r->Ok_0@[p])@ == (if p == old(
                        self,
                    ).me() {
                        own@
                    } else {
                        incoming@[p]@
                    })
                &&& final(self).stats == after_broadcast(old(self).stats, old(self).n(), own@.len())
            },
            r is Err ==> final(self).stats == old(self).stats,
    {
        let n = self.topology.n_parties();
        if incoming.len() != n {
            return Err(NetError::WrongLength);
        }
        let me = self.topology.self_id;
        let m = own.len();
        let mut out: Vec<Vec<u8>> = Vec::new();
        let mut rest = incoming;
        let ghost inc = views(incoming@);
        // Take the entries from the back, so that each is moved out once.
        let mut rev: Vec<Vec<u8>> = Vec::new();
        let mut k: usize = n;
        while k > 0
            invariant
                k <= n,
                n == inc.len(),
                rest@.len() == k,
                forall|p: int| 0 <= p < k ==> #[trigger] rest@[p]@ == inc[p],
                rev@.len() == n - k,
                forall|q: int|
                    0 <= q < n - k ==> #[trigger] rev@[q]@ == (if n - 1 - q == me {
                        own@
                    } else {
                        inc[n - 1 - q]
                    }),
            decreases k,
        {
            let v = rest.pop().unwrap();
            k = k - 1;
            if k == me {
                rev.push(own.clone());
            } else {
                rev.push(v);
            }
        }
        while rev.len() > 0
            invariant
                rev@.len() + out@.len() == n,
                forall|q: int|
                    0 <= q < rev@.len() ==> #[trigger] rev@[q]@ == (if n - 1 - q == me {
                        own@
                    } else {
                        inc[n - 1 - q]
                    }),
                forall|p: int|
                    0 <= p < out@.len() ==> #[trigger] out@[p]@ == (if p == me {
                        own@
                    } else {
                        inc[p]
                    }),
            decreases rev@.len(),
        {
            let v = rev.pop().unwrap();
            out.push(v);
        }
        proof {
            assert(views(out@) =~= broadcast_view(me as nat, own@, inc));
        }
        self.stats.bytes_sent = mul_add_sat(self.stats.bytes_sent, n - 1, m);
        self.stats.bytes_recv = mul_add_sat(self.stats.bytes_recv, n - 1, m);
        self.stats.broadcasts = add_sat(self.stats.broadcasts, 1);
        Ok(out)
    }

    /// The frame that a worker writes to the master to hand it `payload`;
    /// the master sends nothing and gets `WrongRole`.
    pub fn to_master_frame(&mut self, payload: &Vec<u8>) -> (r: Result<Vec<u8>, NetError>)
        requires
            old(self).wf(),
        ensures
            final(self).topology == old(self).topology,
            old(self).me() == 0 ==> r == Err::<Vec<u8>, NetError>(NetError::WrongRole)
                && final(self).stats == old(self).stats,
            old(self).me() != 0 ==> {
                &&& r matches Ok(f) && f@ == frame_of(payload@)
                &&& final(self).stats == Stats {
                    bytes_sent: sat_add(old(self).stats.bytes_sent, HEADER_LEN + payload@.len()),
                    to_master: sat_add(old(self).stats.to_master, 1),
                    ..old(self).stats
                }
            },
    {
        if self.topology.am_master() {
            return Err(NetError::WrongRole);
        }
        let f = encode_frame(payload);
        self.stats.bytes_sent = add_sat(self.stats.bytes_sent, add_sat(HEADER_LEN, payload.len()));
        self.stats.to_master = add_sat(self.stats.to_master, 1);
        Ok(f)
    }

    /// Ends a gather at the master: `bodies` holds, at each worker's index,
    /// the message read from that worker (its entry at the master's own index
    /// is ignored). The result holds every party's payload in id order.
    pub fn finish_gather(&mut self, own: &Vec<u8>, bodies: Vec<Vec<u8>>) -> (r: Result<
        Vec<Vec<u8>>,
        NetError,
    >)
        requires
            old(self).wf(),
        ensures
            final(self).topology == old(self).topology,
            old(self).me() != 0 ==> r == Err::<Vec<Vec<u8>>, NetError>(NetError::WrongRole),
            old(self).me() == 0 && bodies@.len() != old(self).n() ==> r == Err::<
                Vec<Vec<u8>>,
                NetError,
            >(NetError::WrongLength),
            r is Err ==> final(self).stats == old(self).stats,
            old(self).me() == 0 && bodies@.len() == old(self).n() ==> {
                &&& r is Ok
                &&& views(r->Ok_0@) == broadcast_view(0, own@, views(bodies@))
                &&& r->Ok_0@.len() == bodies@.len()
                &&& forall|p: int|
                    0 <= p < bodies@.len() ==> (#[trigger] r->Ok_0@[p])@ == (if p == 0 {
                        own@
                    } else {
                        bodies@[p]@
                    })
                &&& final(self).stats == Stats {
                    bytes_recv: sat_add(
                        old(self).stats.bytes_recv,
                        framed_traffic(views(r->Ok_0@), 0),
                    ),
                    to_master: sat_add(old(self).stats.to_master, 1),
                    ..old(self).stats
                }
            },
    {
        if !self.topology.am_master() {
            return Err(NetError::WrongRole);
        }
        if bodies.len() != self.topology.n_parties() {
            return Err(NetError::WrongLength);
        }
        let saved = self.stats;
        let r = self.finish_broadcast(own, bodies);
        self.stats = saved;
        let out = match r {
            Ok(v) => v,
            Err(e) => {
                return Err(e);
            },
        };
        let t = framed_len(&out, 0);
        proof {
            lemma_framed_traffic_nonneg(views(out@), 0);
        }
        self.stats.bytes_recv = add_sat(self.stats.bytes_recv, t);
        self.stats.to_master = add_sat(self.stats.to_master, 1);
        Ok(out)
    }

    /// Whether a scatter may go on with a payload (`has_payload`) or without:
    /// only the master hands one.
    pub fn check_scatter_role(&self, has_payload: bool) -> (r: Result<(), NetError>)
        ensures
            r is Ok <==> has_payload == (self.topology.self_id == 0),
            r matches Err(e) ==> e == NetError::WrongRole,
    {
        if has_payload == self.topology.am_master() {
            Ok(())
        } else {
            Err(NetError::WrongRole)
        }
    }

    /// Starts a scatter at the master: the frame to write to each worker (empty
    /// at the master's own index), and the master's own entry.
    pub fn scatter_frames(&mut self, payload: Option<Vec<Vec<u8>>>) -> (r: Result<
        (Vec<Vec<u8>>, Vec<u8>),
        NetError,
    >)
        requires
            old(self).wf(),
        ensures
            final(self).topology == old(self).topology,
            r is Err ==> final(self).stats == old(self).stats,
            old(self).me() != 0 || payload is None ==> r == Err::<(Vec<Vec<u8>>, Vec<u8>), NetError>(
                NetError::WrongRole,
            ),
            old(self).me() == 0 && payload is Some && payload->Some_0@.len() != old(self).n() ==> r
                == Err::<(Vec<Vec<u8>>, Vec<u8>), NetError>(NetError::WrongLength),
            old(self).me() == 0 && payload is Some && payload->Some_0@.len() == old(self).n() ==> {
                &&& r matches Ok((frames, mine)) && {
                    &&& frames@.len() == payload->Some_0@.len()
                    &&& frames@[0]@.len() == 0
                    &&& forall|p: int| 0 < p < payload->Some_0@.len() ==> #[trigger] frames@[p]@ == frame_of(payload->Some_0@[p]@)
                    &&& mine@ == payload->Some_0@[0]@
                }
                &&& final(self).stats == Stats {
                    bytes_sent: sat_add(old(self).stats.bytes_sent, framed_traffic(views(payload->Some_0@), 0)),
                    from_master: sat_add(old(self).stats.from_master, 1),
                    ..old(self).stats
                }
            },
    {
        if !self.topology.am_master() {
            return Err(NetError::WrongRole);
        }
        let msgs = match payload {
            Some(s) => s,
            None => {
                return Err(NetError::WrongRole);
            },
        };
        if msgs.len() != self.topology.n_parties() {
            return Err(NetError::WrongLength);
        }
        let mut frames: Vec<Vec<u8>> = Vec::new();
        frames.push(Vec::new());
        let mut p: usize = 1;
        while p < msgs.len()
            invariant
                1 <= p <= msgs@.len(),
                frames@.len() == p,
                frames@[0]@.len() == 0,
                forall|q: int| 0 < q < p ==> #[trigger] frames@[q]@ == frame_of(msgs@[q]@),
            decreases msgs@.len() - p,
        {
            frames.push(encode_frame(&msgs[p]));
            p = p + 1;
        }
        let t = framed_len(&msgs, 0);
        proof {
            lemma_framed_traffic_nonneg(views(msgs@), 0);
        }
        self.stats.bytes_sent = add_sat(self.stats.bytes_sent, t);
        self.stats.from_master = add_sat(self.stats.from_master, 1);
        let mine = msgs[0].clone();
        Ok((frames, mine))
    }

    /// Ends a scatter at a worker, which read `body` from the master.
    pub fn finish_recv(&mut self, body: Vec<u8>) -> (r: Result<Vec<u8>, NetError>)
        requires
            old(self).wf(),
        ensures
            final(self).topology == old(self).topology,
            old(self).me() == 0 ==> r == Err::<Vec<u8>, NetError>(NetError::WrongRole)
                && final(self).stats == old(self).stats,
            old(self).me() != 0 ==> {
                &&& r matches Ok(b) && b@ == body@
                &&& final(self).stats == Stats {
                    bytes_recv: sat_add(old(self).stats.bytes_recv, body@.len() as int),
                    from_master: sat_add(old(self).stats.from_master, 1),
                    ..old(self).stats
                }
            },
    {
        if self.topology.am_master() {
            return Err(NetError::WrongRole);
        }
        self.stats.bytes_recv = add_sat(self.stats.bytes_recv, body.len());
        self.stats.from_master = add_sat(self.stats.from_master, 1);
        Ok(body)
    }
}

/// The length that an 8-byte frame header announces.
pub fn frame_body_len(header: &Vec<u8>) -> (r: Result<usize, NetError>)
    ensures
        header@.len() != HEADER_LEN ==> r == Err::<usize, NetError>(NetError::BadFrame),
        header@.len() == HEADER_LEN && le_value(header@) > usize::MAX ==> r == Err::<usize, NetError>(
            NetError::BadFrame,
        ),
        header@.len() == HEADER_LEN && le_value(header@) <= usize::MAX ==> (r matches Ok(v) && v as nat
            == le_value(header@)),
{
    if header.len() != HEADER_LEN {
        return Err(NetError::BadFrame);
    }
    let v = decode_len(header);
    assert(header@.subrange(0, HEADER_LEN as int) =~= header@);
    if v as u128 > usize::MAX as u128 {
        return Err(NetError::BadFrame);
    }
    Ok(v as usize)
}

/// Total of `framed_traffic`, held at `usize::MAX`.
fn framed_len(msgs: &Vec<Vec<u8>>, me: usize) -> (r: usize)
    ensures
        r == sat_add(0, framed_traffic(views(msgs@), me as nat)),
{
    let mut t: usize = 0;
    let mut i: usize = 0;
    while i < msgs.len()
        invariant
            i <= msgs@.len(),
            t == sat_add(0, framed_traffic(views(msgs@.subrange(0, i as int)), me as nat)),
        decreases msgs@.len() - i,
    {
        let ghost pre = views(msgs@.subrange(0, i as int));
        let ghost post = views(msgs@.subrange(0, i + 1));
        assert(post.drop_last() =~= pre);
        proof {
            lemma_framed_traffic_nonneg(pre, me as nat);
        }
        if i != me {
            t = add_sat(t, add_sat(HEADER_LEN, msgs[i].len()));
        }
        i = i + 1;
    }
    assert(msgs@.subrange(0, i as int) =~= msgs@);
    t
}

proof fn lemma_framed_traffic_nonneg(msgs: Seq<Seq<u8>>, me: nat)
    ensures
        framed_traffic(msgs, me) >= 0,
    decreases msgs.len(),
{
    if msgs.len() > 0 {
        lemma_framed_traffic_nonneg(msgs.drop_last(), me);
    }
}

/// Broadcast consistency: when every party reads from each peer what that
/// peer sent, every party ends holding the same sequence, the payloads in id
/// order.
pub proof fn lemma_broadcast_consistent(payloads: Seq<Seq<u8>>, i: nat, j: nat)
    requires
        i < payloads.len(),
        j < payloads.len(),
    ensures
        broadcast_view(i, payloads[i as int], payloads) == payloads,
        broadcast_view(i, payloads[i as int], payloads) == broadcast_view(
            j,
            payloads[j as int],
            payloads,
        ),
{
    assert(broadcast_view(i, payloads[i as int], payloads) =~= payloads);
    assert(broadcast_view(j, payloads[j as int], payloads) =~= payloads);
}

/// After one broadcast from zero counters, each party has sent and received
/// `(n - 1) * m` bytes.
pub proof fn lemma_broadcast_traffic(n: nat, m: nat)
    requires
        n >= 1,
        (n - 1) * m <= usize::MAX,
    ensures
        after_broadcast(Stats::zero(), n, m).bytes_sent == (n - 1) * m,
        after_broadcast(Stats::zero(), n, m).bytes_recv == (n - 1) * m,
        after_broadcast(Stats::zero(), n, m).broadcasts == 1,
{
}

/// Gather, then scatter: the master, decoding each worker's frame, ends
/// holding every party's payload in id order; each worker, decoding the frame
/// the master wrote to it, gets its own entry of the scattered sequence.
pub proof fn lemma_gather_scatter(payloads: Seq<Seq<u8>>, scattered: Seq<Seq<u8>>)
    requires
        payloads.len() >= 1,
        forall|p: int| 0 <= p < payloads.len() ==> #[trigger] payloads[p].len() <= u64::MAX,
        forall|p: int| 0 <= p < scattered.len() ==> #[trigger] scattered[p].len() <= u64::MAX,
    ensures
        forall|p: int|
            0 < p < payloads.len() ==> payload_of(#[trigger] frame_of(payloads[p])) == Some(
                payloads[p],
            ),
        broadcast_view(0, payloads[0], payloads) == payloads,
        forall|p: int|
            0 < p < scattered.len() ==> payload_of(#[trigger] frame_of(scattered[p])) == Some(scattered[p]),
{
    assert forall|p: int| 0 < p < payloads.len() implies payload_of(
        #[trigger] frame_of(payloads[p]),
    ) == Some(payloads[p]) by {
        lemma_frame_round_trip(payloads[p]);
    }
    assert forall|p: int| 0 < p < scattered.len() implies payload_of(#[trigger] frame_of(scattered[p]))
        == Some(scattered[p]) by {
        lemma_frame_round_trip(scattered[p]);
    }
    lemma_broadcast_consistent(payloads, 0, 0);
}

} // verus!
