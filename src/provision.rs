//! The configuration steps of a receive or send socket, and the state
//! machine that runs them in order and stops at the first failure.
//!
//! The steps themselves are system calls made by the caller: the machine
//! hands out the next step, is told whether it succeeded, and reports the
//! outcome, naming the step that failed.

use vstd::prelude::*;
use crate::addr::{
    Endpoint, Ipv4, decimal, endpoint_text, ipv4_text, push_decimal, push_endpoint, push_ipv4,
};
use vstd::string::StringSliceAdditionalSpecFns;

verus! {

/// One configuration step of a socket.
#[derive(Clone, Copy, Debug, PartialEq, Eq, Structural)]
pub enum SocketOp {
    /// Open a UDP/IPv4 datagram socket.
    Open,
    /// Allow binding an address already in use.
    ReuseAddress,
    /// Allow several sockets on one port.
    ReusePort,
    /// Bind the socket to an endpoint.
    Bind(Endpoint),
    /// Set the hop count of outgoing multicast datagrams.
    MulticastTtl(u32),
    /// Join a multicast group on an interface.
    Join { group: Ipv4, interface: Ipv4 },
}

/// A step that failed, which names what it was done with.
#[derive(Clone, Copy, Debug, PartialEq, Eq, Structural)]
pub struct SocketError {
    pub op: SocketOp,
}

/// The diagnostic for a failed step, naming the step and its address.
pub open spec fn failure_message(op: SocketOp) -> Seq<u8> {
    match op {
        SocketOp::Open => "could not open socket".spec_bytes(),
        SocketOp::ReuseAddress => "could not enable address reuse".spec_bytes(),
        SocketOp::ReusePort => "could not enable port reuse".spec_bytes(),
        SocketOp::Bind(e) => "could not bind on ".spec_bytes() + endpoint_text(e),
        SocketOp::MulticastTtl(h) => "could not set multicast hop count ".spec_bytes() + decimal(
            h as nat,
        ),
        SocketOp::Join { group, interface } => "could not join ".spec_bytes() + ipv4_text(group)
            + " on interface ".spec_bytes() + ipv4_text(interface),
    }
}

impl SocketError {
    /// The diagnostic for this failure.
    pub fn message(&self) -> (r: Vec<u8>)
        ensures
            r@ == failure_message(self.op),
    {
        let mut out: Vec<u8> = Vec::new();
        match self.op {
            SocketOp::Open => out.extend_from_slice("could not open socket".as_bytes()),
            SocketOp::ReuseAddress => out.extend_from_slice(
                "could not enable address reuse".as_bytes(),
            ),
            SocketOp::ReusePort => out.extend_from_slice("could not enable port reuse".as_bytes()),
            SocketOp::Bind(e) => {
                out.extend_from_slice("could not bind on ".as_bytes());
                push_endpoint(&mut out, e);
            },
            SocketOp::MulticastTtl(h) => {
                out.extend_from_slice("could not set multicast hop count ".as_bytes());
                push_decimal(&mut out, h);
            },
            SocketOp::Join { group, interface } => {
                out.extend_from_slice("could not join ".as_bytes());
                push_ipv4(&mut out, group);
                out.extend_from_slice(" on interface ".as_bytes());
                push_ipv4(&mut out, interface);
            },
        }
        out
    }
}

/// One join for each group, in order, all on `interface`.
pub open spec fn join_ops(groups: Seq<Ipv4>, interface: Ipv4) -> Seq<SocketOp> {
    Seq::new(groups.len(), |i: int| SocketOp::Join { group: groups[i], interface })
}

/// Steps of a receive socket: open, allow reuse of address and port, bind
/// the wildcard address on `port`, then join each group on `interface`.
pub open spec fn receive_plan(port: u16, groups: Seq<Ipv4>, interface: Ipv4) -> Seq<SocketOp> {
    seq![
        SocketOp::Open,
        SocketOp::ReuseAddress,
        SocketOp::ReusePort,
        SocketOp::Bind(Endpoint { ip: Ipv4 { a: 0, b: 0, c: 0, d: 0 }, port }),
    ] + join_ops(groups, interface)
}

/// Steps of a send socket: open, set the hop count, bind `interface` on an
/// ephemeral port.
pub open spec fn send_plan(interface: Ipv4, hop_count: u32) -> Seq<SocketOp> {
    seq![
        SocketOp::Open,
        SocketOp::MulticastTtl(hop_count),
        SocketOp::Bind(Endpoint { ip: interface, port: 0 }),
    ]
}

/// Abstract state of a provisioner: its steps, how many of them succeeded,
/// and whether the one after those failed.
pub ghost struct ProvisionState {
    pub plan: Seq<SocketOp>,
    pub done: nat,
    pub failed: bool,
}

/// The state before any step.
pub open spec fn start(plan: Seq<SocketOp>) -> ProvisionState {
    ProvisionState { plan, done: 0, failed: false }
}

pub open spec fn state_wf(s: ProvisionState) -> bool {
    &&& s.done <= s.plan.len()
    &&& s.failed ==> s.done < s.plan.len()
}

/// The step to run next, if any: none once all succeeded or one failed.
pub open spec fn pending(s: ProvisionState) -> Option<SocketOp> {
    if !s.failed && s.done < s.plan.len() {
        Some(s.plan[s.done as int])
    } else {
        None
    }
}

/// The state once the pending step succeeded or failed.
pub open spec fn after(s: ProvisionState, succeeded: bool) -> ProvisionState {
    if succeeded {
        ProvisionState { done: s.done + 1, ..s }
    } else {
        ProvisionState { failed: true, ..s }
    }
}

/// The outcome so far: none while steps remain, success once all
/// succeeded, or the step that failed.
pub open spec fn outcome_of(s: ProvisionState) -> Option<Result<(), SocketError>> {
    if s.failed {
        Some(Err(SocketError { op: s.plan[s.done as int] }))
    } else if s.done == s.plan.len() {
        Some(Ok(()))
    } else {
        None
    }
}

/// Runs the machine from `s`, the `k`-th step run meeting the `k`-th result
/// of `results`, while steps are pending and results remain; gives the
/// final state and the steps that were run.
pub open spec fn drive(s: ProvisionState, results: Seq<bool>) -> (ProvisionState, Seq<SocketOp>)
    decreases results.len(),
{
    if results.len() == 0 {
        (s, seq![])
    } else {
        match pending(s) {
            None => (s, seq![]),
            Some(op) => {
                let (f, ops) = drive(after(s, results[0]), results.drop_first());
                (f, seq![op] + ops)
            },
        }
    }
}

proof fn lemma_drive_all_succeed(s: ProvisionState, results: Seq<bool>)
    requires
        state_wf(s),
        !s.failed,
        results.len() >= s.plan.len() - s.done,
        forall|k: int| 0 <= k < s.plan.len() - s.done ==> results[k],
    ensures
        drive(s, results).1 == s.plan.subrange(s.done as int, s.plan.len() as int),
        drive(s, results).0 == (ProvisionState { done: s.plan.len(), ..s }),
    decreases results.len(),
{
    if s.done == s.plan.len() {
        assert(s.plan.subrange(s.done as int, s.plan.len() as int) =~= Seq::<SocketOp>::empty());
        if results.len() > 0 {
            assert(pending(s) is None);
        }
    } else {
        let next = after(s, results[0]);
        lemma_drive_all_succeed(next, results.drop_first());
        assert(seq![s.plan[s.done as int]] + next.plan.subrange(next.done as int, s.plan.len() as int)
            =~= s.plan.subrange(s.done as int, s.plan.len() as int));
    }
}

proof fn lemma_drive_first_failure(s: ProvisionState, results: Seq<bool>, i: int)
    requires
        state_wf(s),
        !s.failed,
        0 <= i < s.plan.len() - s.done,
        results.len() > i,
        !results[i],
        forall|k: int| 0 <= k < i ==> results[k],
    ensures
        drive(s, results).1 == s.plan.subrange(s.done as int, s.done + i + 1),
        drive(s, results).0 == (ProvisionState { done: (s.done + i) as nat, failed: true, ..s }),
    decreases i,
{
    let next = after(s, results[0]);
    if i == 0 {
        assert(pending(next) is None);
        assert(drive(next, results.drop_first()) == (next, Seq::<SocketOp>::empty()));
        assert(s.plan.subrange(s.done as int, s.done as int + 1) =~= seq![s.plan[s.done as int]]);
    } else {
        lemma_drive_first_failure(next, results.drop_first(), i - 1);
        assert(seq![s.plan[s.done as int]] + next.plan.subrange(next.done as int, s.done + i + 1)
            =~= s.plan.subrange(s.done as int, s.done + i + 1));
    }
}

/// Fail fast: run from the start with one result per step, the machine runs
/// the steps in order up to the first that fails, that one included, and no
/// later one, and reports the step that failed; when none fails it runs them
/// all and reports success.
pub proof fn lemma_fail_fast(plan: Seq<SocketOp>, results: Seq<bool>)
    requires
        results.len() >= plan.len(),
    ensures
        (forall|k: int| 0 <= k < plan.len() ==> results[k]) ==> {
            &&& drive(start(plan), results).1 == plan
            &&& outcome_of(drive(start(plan), results).0) == Some(Ok::<(), SocketError>(()))
        },
        forall|i: int|
            0 <= i < plan.len() && !results[i] && (forall|k: int| 0 <= k < i ==> results[k]) ==> {
                &&& drive(start(plan), results).1 == plan.take(i + 1)
                &&& outcome_of(drive(start(plan), results).0) == Some(
                    Err::<(), SocketError>(SocketError { op: plan[i] }),
                )
            },
{
    if forall|k: int| 0 <= k < plan.len() ==> results[k] {
        lemma_drive_all_succeed(start(plan), results);
        assert(plan.subrange(0, plan.len() as int) =~= plan);
    }
    assert forall|i: int|
        0 <= i < plan.len() && !results[i] && (forall|k: int| 0 <= k < i ==> results[k]) implies {
        &&& drive(start(plan), results).1 == plan.take(i + 1)
        &&& outcome_of(drive(start(plan), results).0) == Some(
            Err::<(), SocketError>(SocketError { op: plan[i] }),
        )
    } by {
        lemma_drive_first_failure(start(plan), results, i);
    }
}

/// If some of the first `n` results is a failure, one of them is the first.
proof fn lemma_first_failure_exists(results: Seq<bool>, n: int)
    requires
        0 <= n <= results.len(),
        exists|i: int| 0 <= i < n && !results[i],
    ensures
        exists|i: int| 0 <= i < n && !results[i] && (forall|k: int| 0 <= k < i ==> results[k]),
    decreases n,
{
    if exists|i: int| 0 <= i < n - 1 && !results[i] {
        lemma_first_failure_exists(results, n - 1);
    } else {
        assert(!results[n - 1]);
        assert(forall|k: int| 0 <= k < n - 1 ==> results[k]);
    }
}

/// A receive socket whose set-up succeeded was opened once, then joined to
/// every group, in order, on the interface: datagrams to any of the groups
/// reach that one socket.
pub proof fn lemma_receive_joins_every_group(
    port: u16,
    groups: Seq<Ipv4>,
    interface: Ipv4,
    results: Seq<bool>,
)
    requires
        results.len() >= receive_plan(port, groups, interface).len(),
    ensures
        ({
            let plan = receive_plan(port, groups, interface);
            let (f, ops) = drive(start(plan), results);
            outcome_of(f) == Some(Ok::<(), SocketError>(())) ==> {
                &&& ops == plan
                &&& ops[0] == SocketOp::Open
                &&& forall|j: int| 0 < j < ops.len() ==> ops[j] != SocketOp::Open
                &&& forall|i: int|
                    0 <= i < groups.len() ==> ops[4 + i] == (SocketOp::Join {
                        group: groups[i],
                        interface,
                    })
            }
        }),
{
    let plan = receive_plan(port, groups, interface);
    lemma_fail_fast(plan, results);
    if exists|i: int| 0 <= i < plan.len() && !results[i] {
        lemma_first_failure_exists(results, plan.len() as int);
    }
}

/// Runs the configuration steps of a socket in order, stopping at the first
/// step that fails.
pub struct Provisioner {
    plan: Vec<SocketOp>,
    done: usize,
    failed: bool,
}

impl View for Provisioner {
    type V = ProvisionState;

    closed spec fn view(&self) -> ProvisionState {
        ProvisionState { plan: self.plan@, done: self.done as nat, failed: self.failed }
    }
}

impl Provisioner {
    pub open spec fn wf(&self) -> bool {
        state_wf(self@)
    }

    /// The steps of a receive socket bound to `port` and joined to `groups`
    /// (at least one) on `interface`.
    pub fn for_receive(port: u16, groups: &Vec<Ipv4>, interface: Ipv4) -> (r: Provisioner)
        requires
            groups@.len() > 0,
        ensures
            r.wf(),
            r@ == start(receive_plan(port, groups@, interface)),
    {
        let mut plan: Vec<SocketOp> = Vec::new();
        plan.push(SocketOp::Open);
        plan.push(SocketOp::ReuseAddress);
        plan.push(SocketOp::ReusePort);
        plan.push(SocketOp::Bind(Endpoint { ip: Ipv4::unspecified(), port }));
        let mut i: usize = 0;
        while i < groups.len()
            invariant
                i <= groups@.len(),
                plan@ == receive_plan(port, groups@.take(i as int), interface),
            decreases groups@.len() - i,
        {
            plan.push(SocketOp::Join { group: groups[i], interface });
            proof {
                assert(groups@.take(i + 1).drop_last() =~= groups@.take(i as int));
            }
            assert(plan@ =~= receive_plan(port, groups@.take(i + 1), interface));
            i = i + 1;
        }
        assert(groups@.take(groups@.len() as int) =~= groups@);
        Provisioner { plan, done: 0, failed: false }
    }

    /// The steps of a send socket from `interface` whose datagrams cross at
    /// most `hop_count` routers.
    pub fn for_send(interface: Ipv4, hop_count: u32) -> (r: Provisioner)
        requires
            hop_count > 0,
        ensures
            r.wf(),
            r@ == start(send_plan(interface, hop_count)),
    {
        let mut plan: Vec<SocketOp> = Vec::new();
        plan.push(SocketOp::Open);
        plan.push(SocketOp::MulticastTtl(hop_count));
        plan.push(SocketOp::Bind(Endpoint { ip: interface, port: 0 }));
        assert(plan@ =~= send_plan(interface, hop_count));
        Provisioner { plan, done: 0, failed: false }
    }

    /// The step to run next; `None` once every step succeeded or one failed.
    pub fn next_op(&self) -> (r: Option<SocketOp>)
        requires
            self.wf(),
        ensures
            r == pending(self@),
    {
        if !self.failed && self.done < self.plan.len() {
            Some(self.plan[self.done])
        } else {
            None
        }
    }

    /// Records whether the pending step succeeded.
    pub fn record(&mut self, succeeded: bool)
        requires
            old(self).wf(),
            pending(old(self)@) is Some,
        ensures
            final(self).wf(),
            final(self)@ == after(old(self)@, succeeded),
    {
        let steps = self.plan.len();
        if succeeded {
            assert(self.done < steps);
            self.done = self.done + 1;
        } else {
            self.failed = true;
        }
    }

    /// `None` while steps remain; `Ok` once all succeeded; otherwise the
    /// step that failed.
    pub fn outcome(&self) -> (r: Option<Result<(), SocketError>>)
        requires
            self.wf(),
        ensures
            r == outcome_of(self@),
    {
        if self.failed {
            Some(Err(SocketError { op: self.plan[self.done] }))
        } else if self.done == self.plan.len() {
            Some(Ok(()))
        } else {
            None
        }
    }
}

} // verus!
