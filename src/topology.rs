//! The party list and the schedule that connects every pair of parties.

use vstd::prelude::*;

use crate::error::NetError;

verus! {

/// ASCII white space, as trimmed from each line of a host list.
pub open spec fn is_space(b: u8) -> bool {
    b == 0x20u8 || b == 0x09u8 || b == 0x0au8 || b == 0x0bu8 || b == 0x0cu8 || b == 0x0du8
}

/// `s` without its leading white space.
pub open spec fn trim_start(s: Seq<u8>) -> Seq<u8>
    decreases s.len(),
{
    if s.len() > 0 && is_space(s[0]) {
        trim_start(s.subrange(1, s.len() as int))
    } else {
        s
    }
}

/// `s` without its trailing white space.
pub open spec fn trim_end(s: Seq<u8>) -> Seq<u8>
    decreases s.len(),
{
    if s.len() > 0 && is_space(s.last()) {
        trim_end(s.drop_last())
    } else {
        s
    }
}

pub open spec fn trim(s: Seq<u8>) -> Seq<u8> {
    trim_end(trim_start(s))
}

/// The lines of a text, split at each `\n` (a text without one is one line).
pub open spec fn lines(t: Seq<u8>) -> Seq<Seq<u8>>
    decreases t.len(),
{
    if t.len() == 0 {
        seq![Seq::empty()]
    } else {
        let l = lines(t.drop_last());
        if t.last() == 0x0au8 {
            l.push(Seq::empty())
        } else {
            l.update(l.len() - 1, l.last().push(t.last()))
        }
    }
}

/// The trimmed lines that are not blank, in order.
pub open spec fn entries_of_lines(ls: Seq<Seq<u8>>) -> Seq<Seq<u8>>
    decreases ls.len(),
{
    if ls.len() == 0 {
        Seq::empty()
    } else {
        let rest = entries_of_lines(ls.drop_last());
        if trim(ls.last()).len() > 0 {
            rest.push(trim(ls.last()))
        } else {
            rest
        }
    }
}

/// The addresses of a host list, one per non-blank line; line order gives party ids.
pub open spec fn host_entries(t: Seq<u8>) -> Seq<Seq<u8>> {
    entries_of_lines(lines(t))
}

pub proof fn lemma_lines_nonempty(t: Seq<u8>)
    ensures
        lines(t).len() >= 1,
    decreases t.len(),
{
    if t.len() > 0 {
        lemma_lines_nonempty(t.drop_last());
    }
}

/// Bounds `lo..hi` of the trimmed part of `t[start..end]`.
fn trim_range(t: &Vec<u8>, start: usize, end: usize) -> (r: (usize, usize))
    requires
        start <= end <= t@.len(),
    ensures
        start <= r.0 <= r.1 <= end,
        t@.subrange(r.0 as int, r.1 as int) == trim(t@.subrange(start as int, end as int)),
{
    let mut lo: usize = start;
    while lo < end && is_space_byte(t[lo])
        invariant
            start <= lo <= end <= t@.len(),
            trim_start(t@.subrange(start as int, end as int)) == trim_start(
                t@.subrange(lo as int, end as int),
            ),
        decreases end - lo,
    {
        let ghost s = t@.subrange(lo as int, end as int);
        assert(s.subrange(1, s.len() as int) =~= t@.subrange(lo + 1, end as int));
        lo = lo + 1;
    }
    assert(trim_start(t@.subrange(lo as int, end as int)) == t@.subrange(lo as int, end as int));
    let mut hi: usize = end;
    while hi > lo && is_space_byte(t[hi - 1])
        invariant
            start <= lo <= hi <= end <= t@.len(),
            trim(t@.subrange(start as int, end as int)) == trim_end(
                t@.subrange(lo as int, hi as int),
            ),
        decreases hi - lo,
    {
        let ghost s = t@.subrange(lo as int, hi as int);
        assert(s.drop_last() =~= t@.subrange(lo as int, hi - 1));
        hi = hi - 1;
    }
    assert(trim_end(t@.subrange(lo as int, hi as int)) == t@.subrange(lo as int, hi as int));
    (lo, hi)
}

fn is_space_byte(b: u8) -> (r: bool)
    ensures
        r == is_space(b),
{
    b == 0x20u8 || b == 0x09u8 || b == 0x0au8 || b == 0x0bu8 || b == 0x0cu8 || b == 0x0du8
}

/// Copy of `t[lo..hi]`.
fn copy_range(t: &Vec<u8>, lo: usize, hi: usize) -> (r: Vec<u8>)
    requires
        lo <= hi <= t@.len(),
    ensures
        r@ == t@.subrange(lo as int, hi as int),
{
    let mut r: Vec<u8> = Vec::new();
    let mut i: usize = lo;
    while i < hi
        invariant
            lo <= i <= hi <= t@.len(),
            r@ == t@.subrange(lo as int, i as int),
        decreases hi - i,
    {
        r.push(t[i]);
        i = i + 1;
        assert(r@ =~= t@.subrange(lo as int, i as int));
    }
    r
}

/// The views of a list of byte strings.
pub open spec fn views(v: Seq<Vec<u8>>) -> Seq<Seq<u8>> {
    v.map_values(|b: Vec<u8>| b@)
}

/// Parses a host list: one address per non-blank line, trimmed, in line order.
pub fn parse_host_list(text: &Vec<u8>) -> (r: Vec<Vec<u8>>)
    ensures
        views(r@) == host_entries(text@),
{
    let mut out: Vec<Vec<u8>> = Vec::new();
    let mut start: usize = 0;
    let mut i: usize = 0;
    proof {
        assert(text@.subrange(0, 0) =~= Seq::<u8>::empty());
    }
    while i < text.len()
        invariant
            start <= i <= text@.len(),
            lines(text@.subrange(0, i as int)).len() >= 1,
            lines(text@.subrange(0, i as int)).last() == text@.subrange(start as int, i as int),
            views(out@) == entries_of_lines(lines(text@.subrange(0, i as int)).drop_last()),
        decreases text@.len() - i,
    {
        let ghost pre = text@.subrange(0, i as int);
        let ghost post = text@.subrange(0, i + 1);
        assert(post.drop_last() =~= pre);
        let ghost lp = lines(pre);
        if text[i] == 0x0au8 {
            let (lo, hi) = trim_range(text, start, i);
            assert(lines(post).drop_last() =~= lp);
            assert(lp =~= lp.drop_last().push(lp.last()));
            if lo < hi {
                let e = copy_range(text, lo, hi);
                let ghost before = out@;
                out.push(e);
                assert(views(out@) =~= views(before).push(e@));
            }
            start = i + 1;
        } else {
            assert(lines(post).drop_last() =~= lp.drop_last());
        }
        i = i + 1;
        assert(lines(text@.subrange(0, i as int)).last() =~= text@.subrange(start as int, i as int));
    }
    assert(text@.subrange(0, i as int) =~= text@);
    let ghost lt = lines(text@);
    assert(lt =~= lt.drop_last().push(lt.last()));
    let (lo, hi) = trim_range(text, start, text.len());
    if lo < hi {
        let e = copy_range(text, lo, hi);
        let ghost before = out@;
        out.push(e);
        assert(views(out@) =~= views(before).push(e@));
    }
    out
}

/// One step of the connection schedule of a party.
#[derive(Clone, Copy, Debug, PartialEq, Eq, Structural)]
pub enum SetupStep {
    /// Connect to the listening party given, retrying while it refuses.
    Connect(usize),
    /// Listen on one's own address and accept the party given.
    Accept(usize),
    /// Write one sentinel byte to the party given, which starts its round next.
    SignalNext(usize),
    /// Read one sentinel byte from the party given, whose round has ended.
    AwaitPrev(usize),
}

/// The schedule of party `s` among `n`. Round `k` links `k` to every party above
/// it; party `s` therefore accepts from each party below it, waits for the
/// sentinel of party `s - 1`, connects to each party above it, and then signals
/// party `s + 1`.
pub open spec fn plan(s: nat, n: nat) -> Seq<SetupStep> {
    Seq::new(s, |k: int| SetupStep::Accept(k as usize)) + (if s > 0 {
        seq![SetupStep::AwaitPrev((s - 1) as usize)]
    } else {
        Seq::empty()
    }) + Seq::new((n - s - 1) as nat, |k: int| SetupStep::Connect((s + 1 + k) as usize)) + (
    if s + 1 < n {
        seq![SetupStep::SignalNext((s + 1) as usize)]
    } else {
        Seq::empty()
    })
}

/// The peer that a step links to, for the steps that open a connection.
pub open spec fn link_of(st: SetupStep) -> Option<nat> {
    match st {
        SetupStep::Connect(p) => Some(p as nat),
        SetupStep::Accept(p) => Some(p as nat),
        _ => None,
    }
}

/// The position in the schedule of `s` of the step that links to `p`.
pub open spec fn link_index(s: nat, p: nat) -> int {
    if p < s {
        p as int
    } else {
        s + (if s > 0 { 1int } else { 0int }) + (p - s - 1)
    }
}

proof fn lemma_plan_shape(s: nat, n: nat)
    requires
        s < n <= usize::MAX,
    ensures
        plan(s, n).len() == s + (if s > 0 { 1int } else { 0int }) + (n - s - 1) + (if s + 1 < n { 1int } else { 0int }),
        forall|k: int| 0 <= k < s ==> plan(s, n)[k] == SetupStep::Accept(k as usize),
        s > 0 ==> plan(s, n)[s as int] == SetupStep::AwaitPrev((s - 1) as usize),
        forall|p: nat|
            s < p < n ==> plan(s, n)[link_index(s, p)] == SetupStep::Connect(p as usize),
        s + 1 < n ==> plan(s, n)[plan(s, n).len() - 1] == SetupStep::SignalNext((s + 1) as usize),
{
    let a = Seq::new(s, |k: int| SetupStep::Accept(k as usize));
    let b: Seq<SetupStep> = if s > 0 {
        seq![SetupStep::AwaitPrev((s - 1) as usize)]
    } else {
        Seq::empty()
    };
    let c = Seq::new((n - s - 1) as nat, |k: int| SetupStep::Connect((s + 1 + k) as usize));
    let d: Seq<SetupStep> = if s + 1 < n {
        seq![SetupStep::SignalNext((s + 1) as usize)]
    } else {
        Seq::empty()
    };
    assert(plan(s, n) == a + b + c + d);
    assert forall|p: nat| s < p < n implies plan(s, n)[link_index(s, p)] == SetupStep::Connect(
        p as usize,
    ) by {
        let i = link_index(s, p);
        assert((a + b + c)[i] == c[p - s - 1]);
    }
}

/// Mesh completeness of the schedule: party `s` links to every other party
/// exactly once, and never to itself or to a party outside the list.
pub proof fn lemma_plan_links_each_peer_once(s: nat, n: nat)
    requires
        s < n <= usize::MAX,
    ensures
        forall|p: nat|
            p < n && p != s ==> 0 <= #[trigger] link_index(s, p) < plan(s, n).len() && link_of(
                plan(s, n)[link_index(s, p)],
            ) == Some(p),
        forall|k: int|
            0 <= k < plan(s, n).len() ==> (link_of(#[trigger] plan(s, n)[k]) matches Some(p) ==> p
                < n && p != s && k == link_index(s, p)),
{
    lemma_plan_shape(s, n);
    let pl = plan(s, n);
    assert forall|k: int| 0 <= k < pl.len() implies (link_of(#[trigger] pl[k]) matches Some(p) ==> p
        < n && p != s && k == link_index(s, p)) by {
        if k < s {
        } else if s > 0 && k == s {
        } else if s + 1 < n && k == pl.len() - 1 {
        } else {
            let p = (k - s - (if s > 0 { 1int } else { 0int }) + s + 1) as nat;
            assert(link_index(s, p) == k);
            assert(s < p < n);
            assert(pl[k] == SetupStep::Connect(p as usize));
        }
    }
}

/// Some step of the schedule of party `s` opens a connection to `p`.
pub open spec fn linked_by_plan(s: nat, n: nat, p: nat) -> bool {
    exists|k: int| 0 <= k < plan(s, n).len() && #[trigger] link_of(plan(s, n)[k]) == Some(p)
}

/// Mesh completeness: marking the peer of every step of the schedule of
/// party `s` that opens a connection leaves exactly the other `n - 1` parties
/// linked, so that `finish_setup` then finds the mesh ready.
pub proof fn lemma_mesh_complete(s: nat, n: nat)
    requires
        s < n <= usize::MAX,
    ensures
        forall|p: nat| p < n ==> (#[trigger] linked_by_plan(s, n, p) <==> p != s),
        linked_count(Seq::new(n, |p: int| p != s)) == n - 1,
{
    lemma_plan_links_each_peer_once(s, n);
    assert forall|p: nat| p < n implies (#[trigger] linked_by_plan(s, n, p) <==> p != s) by {
        if p != s {
            assert(link_of(plan(s, n)[link_index(s, p)]) == Some(p));
        }
    }
    let links = Seq::new(n, |p: int| p != s);
    lemma_linked_count_all_but(links, s);
}

/// The two ends of each link agree: the lower party connects and the higher
/// party accepts, and each sentinel that is written is awaited.
pub proof fn lemma_plan_pairs_match(a: nat, b: nat, n: nat)
    requires
        a < b < n <= usize::MAX,
    ensures
        plan(a, n)[link_index(a, b)] == SetupStep::Connect(b as usize),
        plan(b, n)[link_index(b, a)] == SetupStep::Accept(a as usize),
        b == a + 1 ==> plan(a, n).last() == SetupStep::SignalNext(b as usize) && plan(b, n)[(a
            + 1) as int] == SetupStep::AwaitPrev(a as usize),
{
    lemma_plan_shape(a, n);
    lemma_plan_shape(b, n);
}

/// The connection schedule of party `s` among `n`.
pub fn setup_plan(s: usize, n: usize) -> (r: Vec<SetupStep>)
    requires
        s < n,
    ensures
        r@ == plan(s as nat, n as nat),
{
    let mut r: Vec<SetupStep> = Vec::new();
    let mut k: usize = 0;
    while k < s
        invariant
            k <= s < n,
            r@ == Seq::new(k as nat, |i: int| SetupStep::Accept(i as usize)),
        decreases s - k,
    {
        r.push(SetupStep::Accept(k));
        k = k + 1;
        assert(r@ =~= Seq::new(k as nat, |i: int| SetupStep::Accept(i as usize)));
    }
    if s > 0 {
        r.push(SetupStep::AwaitPrev(s - 1));
    }
    let ghost head = r@;
    let mut p: usize = s + 1;
    while p < n
        invariant
            s < p <= n || (p == s + 1 && p == n),
            s < n,
            r@ == head + Seq::new((p - s - 1) as nat, |i: int| SetupStep::Connect((s + 1 + i) as usize)),
        decreases n - p,
    {
        r.push(SetupStep::Connect(p));
        p = p + 1;
        assert(r@ =~= head + Seq::new((p - s - 1) as nat, |i: int| SetupStep::Connect((s + 1 + i) as usize)));
    }
    if s + 1 < n {
        r.push(SetupStep::SignalNext(s + 1));
    }
    assert(r@ =~= plan(s as nat, n as nat));
    r
}

/// Number of linked parties among `links`.
pub open spec fn linked_count(links: Seq<bool>) -> nat
    decreases links.len(),
{
    if links.len() == 0 {
        0
    } else {
        linked_count(links.drop_last()) + (if links.last() { 1nat } else { 0nat })
    }
}

proof fn lemma_linked_count_all_but(links: Seq<bool>, s: nat)
    requires
        forall|i: int| 0 <= i < links.len() ==> links[i] == (i != s),
    ensures
        linked_count(links) == links.len() - (if s < links.len() { 1int } else { 0int }),
    decreases links.len(),
{
    if links.len() > 0 {
        lemma_linked_count_all_but(links.drop_last(), s);
    }
}

/// The parties of a run as one party sees them: the address of each, in the
/// order of the host list, which is the same for every party; which of them it
/// holds a live connection to; and whether the mesh is complete.
pub struct Topology {
    /// Own party id.
    pub self_id: usize,
    /// Address of each party, indexed by party id.
    pub addrs: Vec<Vec<u8>>,
    /// Whether a live connection to each party is held; never to oneself.
    pub links: Vec<bool>,
    /// Whether the mesh was found complete and is not torn down.
    pub ready: bool,
}

impl Topology {
    pub open spec fn n(&self) -> nat {
        self.addrs@.len()
    }

    /// Every party but oneself is linked.
    pub open spec fn all_linked(&self) -> bool {
        forall|i: int| 0 <= i < self.n() && i != self.self_id ==> #[trigger] self.links@[i]
    }

    pub open spec fn wf(&self) -> bool {
        &&& self.self_id < self.n()
        &&& self.links@.len() == self.n()
        &&& !self.links@[self.self_id as int]
        &&& self.ready ==> self.all_linked()
    }

    /// The topology of the host list `text` for the party `self_id`, with no
    /// connection yet.
    pub fn from_host_list(text: &Vec<u8>, self_id: usize) -> (r: Result<Topology, NetError>)
        ensures
            r is Err <==> self_id >= host_entries(text@).len(),
            r matches Err(e) ==> e == NetError::PartyIdOutOfRange,
            r matches Ok(t) ==> {
                &&& t.wf()
                &&& t.self_id == self_id
                &&& views(t.addrs@) == host_entries(text@)
                &&& forall|i: int| 0 <= i < t.n() ==> !#[trigger] t.links@[i]
                &&& !t.ready
            },
    {
        let addrs = parse_host_list(text);
        proof {
            assert(views(addrs@).len() == addrs@.len());
        }
        if self_id >= addrs.len() {
            return Err(NetError::PartyIdOutOfRange);
        }
        let mut links: Vec<bool> = Vec::new();
        let mut i: usize = 0;
        while i < addrs.len()
            invariant
                i <= addrs@.len(),
                links@.len() == i,
                forall|j: int| 0 <= j < i ==> !#[trigger] links@[j],
            decreases addrs@.len() - i,
        {
            links.push(false);
            i = i + 1;
        }
        Ok(Topology { self_id, addrs, links, ready: false })
    }

    /// Own party id.
    pub fn party_id(&self) -> (r: usize)
        ensures
            r == self.self_id,
    {
        self.self_id
    }

    /// Number of parties.
    pub fn n_parties(&self) -> (r: usize)
        ensures
            r == self.n(),
    {
        self.addrs.len()
    }

    /// Whether oneself is the master, party 0.
    pub fn am_master(&self) -> (r: bool)
        ensures
            r == (self.self_id == 0),
    {
        self.self_id == 0
    }

    /// Whether the mesh is complete and not torn down.
    pub fn is_init(&self) -> (r: bool)
        ensures
            r == self.ready,
    {
        self.ready
    }

    /// The connection schedule of this party.
    pub fn setup_plan(&self) -> (r: Vec<SetupStep>)
        requires
            self.wf(),
        ensures
            r@ == plan(self.self_id as nat, self.n()),
    {
        setup_plan(self.self_id, self.addrs.len())
    }

    /// Notes a live connection to `peer`.
    pub fn record_link(&mut self, peer: usize)
        requires
            old(self).wf(),
            peer < old(self).n(),
            peer != old(self).self_id,
        ensures
            final(self).wf(),
            final(self).links@ == old(self).links@.update(peer as int, true),
            final(self).self_id == old(self).self_id,
            final(self).addrs == old(self).addrs,
            final(self).ready == old(self).ready,
    {
        self.links.set(peer, true);
    }

    /// Marks the mesh ready if every other party is linked, and says whether it is.
    pub fn finish_setup(&mut self) -> (r: bool)
        requires
            old(self).wf(),
        ensures
            final(self).wf(),
            r == old(self).all_linked(),
            final(self).ready == r,
            r ==> linked_count(final(self).links@) == final(self).n() - 1,
            final(self).links == old(self).links,
            final(self).self_id == old(self).self_id,
            final(self).addrs == old(self).addrs,
    {
        let mut i: usize = 0;
        let mut all = true;
        while i < self.links.len()
            invariant
                i <= self.links@.len(),
                all == (forall|j: int| 0 <= j < i && j != self.self_id ==> #[trigger] self.links@[j]),
            decreases self.links@.len() - i,
        {
            if i != self.self_id && !self.links[i] {
                all = false;
            }
            i = i + 1;
        }
        self.ready = all;
        proof {
            if all {
                lemma_linked_count_all_but(self.links@, self.self_id as nat);
            }
        }
        all
    }

    /// Number of live connections held.
    pub fn live_links(&self) -> (r: usize)
        ensures
            r == linked_count(self.links@),
    {
        let mut i: usize = 0;
        let mut c: usize = 0;
        while i < self.links.len()
            invariant
                i <= self.links@.len(),
                c == linked_count(self.links@.subrange(0, i as int)),
                c <= i,
            decreases self.links@.len() - i,
        {
            assert(self.links@.subrange(0, i + 1).drop_last() =~= self.links@.subrange(0, i as int));
            if self.links[i] {
                c = c + 1;
            }
            i = i + 1;
        }
        assert(self.links@.subrange(0, i as int) =~= self.links@);
        c
    }

    /// Drops every connection; the mesh is no longer ready.
    pub fn deinit(&mut self)
        requires
            old(self).wf(),
        ensures
            final(self).wf(),
            forall|i: int| 0 <= i < final(self).n() ==> !#[trigger] final(self).links@[i],
            !final(self).ready,
            final(self).self_id == old(self).self_id,
            final(self).addrs == old(self).addrs,
    {
        self.ready = false;
        let mut i: usize = 0;
        while i < self.links.len()
            invariant
                i <= self.links@.len(),
                self.links@.len() == self.addrs@.len(),
                self.self_id < self.addrs@.len(),
                self.self_id == old(self).self_id,
                self.addrs == old(self).addrs,
                !self.ready,
                !self.links@[self.self_id as int],
                forall|j: int| 0 <= j < i ==> !#[trigger] self.links@[j],
            decreases self.links@.len() - i,
        {
            self.links.set(i, false);
            i = i + 1;
        }
    }
}

} // verus!
