//! One node of the network: its identity, its hardware time anchor, its
//! logical clock and rate, its neighbour table and the ports it holds
//! outbound connections to.
use vstd::prelude::*;
use crate::codec::{encode, decode, encoded, decoded};
use crate::table::{NeighbourTable, fastest_ahead, slowest_behind};

verus! {

/// Upper bound on the number of nodes, used in the trigger thresholds.
pub const S: u128 = 5;

/// Skew unit of the trigger thresholds.
pub const KAPPA: u128 = 1_000;

/// Slack of the fast-mode thresholds.
pub const DELTA: u128 = 500;

/// Extra rate of the slow catch-up mode.
pub const MU: u128 = 1;

/// Which trigger decided a synchronization round.
#[derive(Clone, Copy, Debug, PartialEq, Eq, Structural)]
pub enum Mode {
    /// The fast-mode trigger held: the rate went back to normal.
    Fast,
    /// The slow-mode trigger held: the rate became `1 + MU`.
    Slow,
    /// Neither held: the rate was left as it was.
    InSync,
}

/// The abstract state of a node.
pub struct NodeModel {
    pub id: u64,
    /// Last hardware time observed, in nanoseconds.
    pub anchor: u128,
    /// The logical clock advertised to neighbours.
    pub clock: u128,
    /// Multiplier applied to elapsed hardware time.
    pub rate: u128,
    /// Last value reported by each neighbour.
    pub neighbours: Map<u64, u128>,
    /// Ports with an open outbound connection, in the order they were opened.
    pub ports: Seq<u16>,
}

/// The largest neighbour value above the node's clock, or the clock itself.
pub open spec fn fastest(m: NodeModel) -> u128 {
    fastest_ahead(m.neighbours, m.clock)
}

/// The smallest neighbour value below the node's clock, or the clock itself.
pub open spec fn slowest(m: NodeModel) -> u128 {
    slowest_behind(m.neighbours, m.clock)
}

/// The fast-mode trigger with parameters `s`, `kappa`, `delta`.
pub open spec fn fast_trigger(m: NodeModel, s: u128, kappa: u128, delta: u128) -> bool {
    let diff_fast = fastest(m) - m.clock;
    let diff_slow = m.clock - slowest(m);
    &&& diff_fast > 2 * s * kappa - delta
    &&& diff_slow < 2 * s * kappa + delta
}

/// The slow-mode trigger with parameters `s`, `kappa`.
pub open spec fn slow_trigger(m: NodeModel, s: u128, kappa: u128) -> bool {
    let diff_fast = m.clock - fastest(m);
    let diff_slowest = slowest(m) - m.clock;
    &&& diff_fast >= (2 * s - 1) * kappa
    &&& diff_slowest <= (2 * s - 1) * kappa
}

/// The trigger that decides a round from state `m`.
pub open spec fn mode_of(m: NodeModel) -> Mode {
    if fast_trigger(m, S, KAPPA, DELTA) {
        Mode::Fast
    } else if slow_trigger(m, S, KAPPA) {
        Mode::Slow
    } else {
        Mode::InSync
    }
}

/// The rate that a round from state `m` sets.
pub open spec fn next_rate(m: NodeModel) -> u128 {
    match mode_of(m) {
        Mode::Fast => 1,
        Mode::Slow => (1 + MU) as u128,
        Mode::InSync => m.rate,
    }
}

/// Whether the clock can be advanced to hardware time `now` at rate `rate`
/// without going back in time or past the largest representable value.
pub open spec fn can_advance(m: NodeModel, rate: u128, now: u128) -> bool {
    m.anchor <= now && m.clock + rate * (now - m.anchor) <= u128::MAX
}

/// The state after advancing the clock to hardware time `now`.
pub open spec fn advanced(m: NodeModel, now: u128) -> NodeModel {
    NodeModel { clock: (m.clock + m.rate * (now - m.anchor)) as u128, anchor: now, ..m }
}

/// The state after one synchronization round at hardware time `now`.
pub open spec fn ticked(m: NodeModel, now: u128) -> NodeModel {
    advanced(NodeModel { rate: next_rate(m), ..m }, now)
}

/// The ports of `cands` that are not in `held`, each once, in order of first
/// appearance.
pub open spec fn fresh_ports(cands: Seq<u16>, held: Seq<u16>) -> Seq<u16>
    decreases cands.len(),
{
    if cands.len() == 0 {
        Seq::empty()
    } else {
        let rest = fresh_ports(cands.drop_last(), held);
        let p = cands.last();
        if held.contains(p) || rest.contains(p) {
            rest
        } else {
            rest.push(p)
        }
    }
}

/// A valid state: the rate is normal or slow, and no port is held twice.
pub open spec fn valid(m: NodeModel) -> bool {
    &&& m.rate == 1 || m.rate == 1 + MU
    &&& m.ports.no_duplicates()
}

/// Whether `p` is one of `v`.
fn contains_port(v: &Vec<u16>, p: u16) -> (r: bool)
    ensures
        r == v@.contains(p),
{
    let mut i: usize = 0;
    while i < v.len()
        invariant
            0 <= i <= v@.len(),
            forall|j: int| 0 <= j < i ==> v@[j] != p,
        decreases v@.len() - i,
    {
        if v[i] == p {
            return true;
        }
        i = i + 1;
    }
    false
}

/// The ports of `cands` that are not in `held`, each once.
fn fresh_port_list(cands: &Vec<u16>, held: &Vec<u16>) -> (r: Vec<u16>)
    ensures
        r@ == fresh_ports(cands@, held@),
{
    let mut r: Vec<u16> = Vec::new();
    let mut i: usize = 0;
    while i < cands.len()
        invariant
            0 <= i <= cands@.len(),
            r@ == fresh_ports(cands@.subrange(0, i as int), held@),
        decreases cands@.len() - i,
    {
        let p = cands[i];
        proof {
            let c = cands@.subrange(0, i + 1);
            assert(c.drop_last() =~= cands@.subrange(0, i as int));
            assert(c.last() == p);
        }
        if !contains_port(held, p) && !contains_port(&r, p) {
            r.push(p);
        }
        i = i + 1;
    }
    assert(cands@.subrange(0, cands@.len() as int) =~= cands@);
    r
}

/// One node of the network.
pub struct Node {
    id: u64,
    current_clock_value: u128,
    logical_clock_value: u128,
    rate: u128,
    neighbours_logical_clocks: NeighbourTable,
    connected_ports: Vec<u16>,
}

impl View for Node {
    type V = NodeModel;

    closed spec fn view(&self) -> NodeModel {
        NodeModel {
            id: self.id,
            anchor: self.current_clock_value,
            clock: self.logical_clock_value,
            rate: self.rate,
            neighbours: self.neighbours_logical_clocks@,
            ports: self.connected_ports@,
        }
    }
}

impl Node {
    /// Well-formed node: its state is valid.
    pub open spec fn wf(&self) -> bool {
        valid(self@)
    }

    /// A node with identity `id` created at hardware time `now`: its clock
    /// starts at `now`, its rate is normal, and it knows no neighbour and holds
    /// no connection.
    pub fn new(id: u64, now: u128) -> (r: Node)
        ensures
            r.wf(),
            r@ == (NodeModel {
                id,
                anchor: now,
                clock: now,
                rate: 1,
                neighbours: Map::empty(),
                ports: Seq::empty(),
            }),
    {
        let r = Node {
            id,
            current_clock_value: now,
            logical_clock_value: now,
            rate: 1,
            neighbours_logical_clocks: NeighbourTable::new(),
            connected_ports: Vec::new(),
        };
        assert(r@.ports =~= Seq::<u16>::empty());
        r
    }

    /// Records `time` as the last clock value of neighbour `id`, replacing any
    /// earlier one.
    pub fn update_neighbours(&mut self, id: u64, time: u128)
        ensures
            final(self)@ == (NodeModel { neighbours: old(self)@.neighbours.insert(id, time), ..old(self)@ }),
    {
        self.neighbours_logical_clocks.record(id, time);
    }

    /// Handles one message read from a neighbour: when it is well formed its
    /// sender's value is recorded and `true` returned; otherwise nothing
    /// changes and `false` is returned.
    pub fn receive_message(&mut self, msg: &[u8]) -> (ok: bool)
        ensures
            ok == decoded(msg@) is Some,
            match decoded(msg@) {
                Some((id, time)) => final(self)@ == (NodeModel {
                    neighbours: old(self)@.neighbours.insert(id, time),
                    ..old(self)@
                }),
                None => final(self)@ == old(self)@,
            },
    {
        match decode(msg) {
            Some((id, time)) => {
                self.update_neighbours(id, time);
                true
            },
            None => false,
        }
    }

    /// The ports of `target_ports` to which no connection is held, each once,
    /// in order: those that a round tries to connect to.
    pub fn pending_ports(&self, target_ports: &Vec<u16>) -> (r: Vec<u16>)
        ensures
            r@ == fresh_ports(target_ports@, self@.ports),
    {
        fresh_port_list(target_ports, &self.connected_ports)
    }

    /// Takes note of the connections that were opened to the ports `opened`.
    /// Returns the ports that were new, each once: exactly one stream is to be
    /// kept for each of them, and the others dropped.
    pub fn connect_to_neighbours(&mut self, opened: &Vec<u16>) -> (added: Vec<u16>)
        requires
            old(self).wf(),
        ensures
            final(self).wf(),
            added@ == fresh_ports(opened@, old(self)@.ports),
            final(self)@ == (NodeModel { ports: old(self)@.ports + added@, ..old(self)@ }),
    {
        let added = fresh_port_list(opened, &self.connected_ports);
        let ghost held = self.connected_ports@;
        proof {
            lemma_fresh_ports(opened@, held);
        }
        let mut i: usize = 0;
        while i < added.len()
            invariant
                0 <= i <= added@.len(),
                self.connected_ports@ == held + added@.subrange(0, i as int),
                self.id == old(self).id,
                self.current_clock_value == old(self).current_clock_value,
                self.logical_clock_value == old(self).logical_clock_value,
                self.rate == old(self).rate,
                self.neighbours_logical_clocks == old(self).neighbours_logical_clocks,
                held == old(self).connected_ports@,
            decreases added@.len() - i,
        {
            self.connected_ports.push(added[i]);
            i = i + 1;
            assert(self.connected_ports@ =~= held + added@.subrange(0, i as int));
        }
        assert(added@.subrange(0, added@.len() as int) =~= added@);
        proof {
            lemma_append_fresh(held, opened@);
        }
        added
    }

    /// The message that announces this node's identity and logical clock.
    pub fn broadcast_message(&self) -> (msg: Vec<u8>)
        ensures
            msg@ == encoded(self@.id, self@.clock),
    {
        encode(self.id, self.logical_clock_value)
    }

    /// The largest neighbour value above the logical clock, or the logical
    /// clock itself when no neighbour is ahead.
    pub fn fastest_node_ahead(&self) -> (r: u128)
        ensures
            r == fastest(self@),
    {
        self.neighbours_logical_clocks.fastest_ahead(self.logical_clock_value)
    }

    /// The smallest neighbour value below the logical clock, or the logical
    /// clock itself when no neighbour is behind.
    pub fn slowest_node_behind(&self) -> (r: u128)
        ensures
            r == slowest(self@),
    {
        self.neighbours_logical_clocks.slowest_behind(self.logical_clock_value)
    }

    /// Whether the fast-mode trigger holds: the fastest neighbour ahead leads
    /// by more than `2*s*kappa - delta` while the slowest one behind trails by
    /// less than `2*s*kappa + delta`.
    pub fn check_fast_mode_trigger(&self, s: u128, kappa: u128, delta: u128) -> (r: bool)
        requires
            2 * s * kappa + delta <= u128::MAX,
        ensures
            r == fast_trigger(self@, s, kappa, delta),
    {
        let logical = self.logical_clock_value;
        let ahead = self.fastest_node_ahead() - logical;
        let behind = logical - self.slowest_node_behind();
        proof {
            assert(0 <= s * kappa <= s * kappa * 2 == 2 * s * kappa) by (nonlinear_arith)
                requires
                    s >= 0,
                    kappa >= 0,
            ;
        }
        let twice = s * kappa * 2;
        // a negative threshold is below any lead
        let leads = if twice >= delta {
            ahead > twice - delta
        } else {
            true
        };
        leads && behind < twice + delta
    }

    /// Whether the slow-mode trigger holds: the clock is at least
    /// `(2*s-1)*kappa` past the fastest neighbour ahead, and the slowest one
    /// behind is at most `(2*s-1)*kappa` above the clock.
    pub fn check_slowest_mode_trigger(&self, s: u128, kappa: u128) -> (r: bool)
        ensures
            r == slow_trigger(self@, s, kappa),
    {
        let logical = self.logical_clock_value;
        let ahead = self.fastest_node_ahead() - logical;
        let behind = logical - self.slowest_node_behind();
        // Both differences are at most zero: `-ahead` and `-behind`.
        if s == 0 {
            proof {
                assert((2 * s - 1) * kappa == -kappa) by (nonlinear_arith)
                    requires
                        s == 0,
                ;
            }
            // threshold `-kappa`
            ahead <= kappa && behind >= kappa
        } else {
            proof {
                assert(kappa == 0 <==> (2 * s - 1) * kappa == 0) by (nonlinear_arith)
                    requires
                        s >= 1,
                        kappa >= 0,
                ;
                assert((2 * s - 1) * kappa >= 0) by (nonlinear_arith)
                    requires
                        s >= 1,
                        kappa >= 0,
                ;
            }
            // threshold `(2*s-1)*kappa`, which is not negative
            ahead == 0 && kappa == 0
        }
    }

    /// Advances the logical clock by `rate` times the hardware time elapsed
    /// since the anchor, and moves the anchor to `now`.
    pub fn update_clock(&mut self, now: u128)
        requires
            can_advance(old(self)@, old(self)@.rate, now),
        ensures
            final(self).wf() == old(self).wf(),
            final(self)@ == advanced(old(self)@, now),
            final(self)@.clock >= old(self)@.clock,
    {
        proof {
            assert(0 <= self.rate * (now - self.current_clock_value)) by (nonlinear_arith)
                requires
                    self.rate >= 0,
                    now >= self.current_clock_value,
            ;
        }
        let elapsed = now - self.current_clock_value;
        self.logical_clock_value = self.logical_clock_value + self.rate * elapsed;
        self.current_clock_value = now;
    }

    /// One synchronization round at hardware time `now`: evaluates the fast
    /// trigger, then the slow one, sets the rate accordingly and advances the
    /// clock. Returns the trigger that decided, or `None`, leaving the node
    /// unchanged, when `now` precedes the anchor or the clock would overflow.
    pub fn gcs_tick(&mut self, now: u128) -> (r: Option<Mode>)
        requires
            old(self).wf(),
        ensures
            final(self).wf(),
            r is Some <==> can_advance(old(self)@, next_rate(old(self)@), now),
            r is Some ==> r == Some(mode_of(old(self)@)) && final(self)@ == ticked(old(self)@, now),
            r is None ==> final(self)@ == old(self)@,
            final(self)@.clock >= old(self)@.clock,
    {
        let mode = if self.check_fast_mode_trigger(S, KAPPA, DELTA) {
            Mode::Fast
        } else if self.check_slowest_mode_trigger(S, KAPPA) {
            Mode::Slow
        } else {
            Mode::InSync
        };
        let rate = match mode {
            Mode::Fast => 1,
            Mode::Slow => 1 + MU,
            Mode::InSync => self.rate,
        };
        if now < self.current_clock_value {
            return None;
        }
        let elapsed = now - self.current_clock_value;
        match rate.checked_mul(elapsed) {
            None => None,
            Some(step) => match self.logical_clock_value.checked_add(step) {
                None => None,
                Some(_) => {
                    self.rate = rate;
                    self.update_clock(now);
                    Some(mode)
                },
            },
        }
    }

    /// The node's identity.
    pub fn id(&self) -> (r: u64)
        ensures
            r == self@.id,
    {
        self.id
    }

    /// The logical clock.
    pub fn logical_clock(&self) -> (r: u128)
        ensures
            r == self@.clock,
    {
        self.logical_clock_value
    }

    /// The hardware time of the last clock update.
    pub fn hardware_anchor(&self) -> (r: u128)
        ensures
            r == self@.anchor,
    {
        self.current_clock_value
    }

    /// The current rate.
    pub fn rate(&self) -> (r: u128)
        ensures
            r == self@.rate,
    {
        self.rate
    }
}

/// Facts on `fresh_ports`: what it holds, and that it holds each port once.
proof fn lemma_fresh_ports(cands: Seq<u16>, held: Seq<u16>)
    ensures
        fresh_ports(cands, held).no_duplicates(),
        forall|p: u16| #[trigger]
            fresh_ports(cands, held).contains(p) <==> cands.contains(p) && !held.contains(p),
    decreases cands.len(),
{
    if cands.len() > 0 {
        let d = cands.drop_last();
        lemma_fresh_ports(d, held);
        let rest = fresh_ports(d, held);
        let p = cands.last();
        assert forall|q: u16| #[trigger]
            fresh_ports(cands, held).contains(q) <==> cands.contains(q) && !held.contains(q) by {
            if cands.contains(q) && q != p {
                let i = choose|i: int| 0 <= i < cands.len() && cands[i] == q;
                assert(d[i] == q);
            }
            if d.contains(q) {
                let i = choose|i: int| 0 <= i < d.len() && d[i] == q;
                assert(cands[i] == q);
            }
            if !(held.contains(p) || rest.contains(p)) {
                assert(rest.push(p).contains(q) <==> rest.contains(q) || q == p) by {
                    if rest.push(p).contains(q) {
                        let i = choose|i: int| 0 <= i < rest.len() + 1 && rest.push(p)[i] == q;
                        if i < rest.len() {
                            assert(rest[i] == q);
                        }
                    }
                    if rest.contains(q) {
                        let i = choose|i: int| 0 <= i < rest.len() && rest[i] == q;
                        assert(rest.push(p)[i] == q);
                    }
                    assert(rest.push(p)[rest.len() as int] == p);
                }
            }
            assert(cands[cands.len() - 1] == p);
        }
    }
}

/// Appending the fresh ports of `cands` to `held` keeps the ports distinct and
/// leaves none of `cands` fresh.
proof fn lemma_append_fresh(held: Seq<u16>, cands: Seq<u16>)
    requires
        held.no_duplicates(),
    ensures
        (held + fresh_ports(cands, held)).no_duplicates(),
        forall|p: u16| cands.contains(p) ==> #[trigger] (held + fresh_ports(cands, held)).contains(p),
{
    let f = fresh_ports(cands, held);
    let once = held + f;
    lemma_fresh_ports(cands, held);
    assert forall|i: int, j: int| 0 <= i < j < once.len() implies once[i] != once[j] by {
        if j >= held.len() && i < held.len() {
            assert(f.contains(once[j]));
            assert(held.contains(once[i]));
        }
    }
    assert forall|p: u16| cands.contains(p) implies #[trigger] once.contains(p) by {
        if held.contains(p) {
            let i = choose|i: int| 0 <= i < held.len() && held[i] == p;
            assert(once[i] == p);
        } else {
            assert(f.contains(p));
            let i = choose|i: int| 0 <= i < f.len() && f[i] == p;
            assert(once[held.len() + i] == p);
        }
    }
}

/// Two successive clock updates at hardware times `t1 < t2`, at a constant
/// rate, advance the clock by exactly `rate * (t2 - t1)` the second time, and
/// neither moves it back.
pub proof fn lemma_update_clock_successive(m: NodeModel, t1: u128, t2: u128)
    requires
        m.anchor <= t1 < t2,
        m.clock + m.rate * (t2 - m.anchor) <= u128::MAX,
    ensures
        advanced(m, t1).clock >= m.clock,
        advanced(advanced(m, t1), t2).clock == advanced(m, t1).clock + m.rate * (t2 - t1),
        advanced(advanced(m, t1), t2).clock >= advanced(m, t1).clock,
{
    let a = m.anchor as int;
    let r = m.rate as int;
    assert(0 <= r * (t1 - a) <= r * (t1 - a) + r * (t2 - t1) == r * (t2 - a)) by (nonlinear_arith)
        requires
            r >= 0,
            a <= t1 < t2,
    ;
}

/// Taking note twice of connections to the same ports: after the first time
/// every one of them is held exactly once, and the second time adds none.
pub proof fn lemma_connect_idempotent(held: Seq<u16>, ports: Seq<u16>)
    requires
        held.no_duplicates(),
    ensures
        (held + fresh_ports(ports, held)).no_duplicates(),
        forall|p: u16| ports.contains(p) ==> #[trigger] (held + fresh_ports(ports, held)).contains(p),
        fresh_ports(ports, held + fresh_ports(ports, held)) == Seq::<u16>::empty(),
{
    let once = held + fresh_ports(ports, held);
    lemma_append_fresh(held, ports);
    lemma_fresh_ports(ports, once);
    let again = fresh_ports(ports, once);
    if again.len() > 0 {
        assert(again.contains(again[0]));
    }
    assert(again =~= Seq::<u16>::empty());
}

/// A round never moves the clock back, and keeps the node valid.
pub proof fn lemma_tick_monotonic(m: NodeModel, now: u128)
    requires
        valid(m),
        can_advance(m, next_rate(m), now),
    ensures
        ticked(m, now).clock >= m.clock,
        valid(ticked(m, now)),
{
    let r = next_rate(m) as int;
    assert(0 <= r * (now - m.anchor)) by (nonlinear_arith)
        requires
            r >= 0,
            m.anchor <= now,
    ;
}

} // verus!
