use vstd::prelude::*;

use crate::errors::{same_error, ErrorKind, PoolError};
use crate::rpc::{RpcKind, RpcPlan, RpcRequestV};
use crate::handle::{
    control_msg, control_ok, launch_fail_at, launch_id, launch_msg, launch_ok, launches_ok_upto,
    control_fail_at, controls_ok_upto, ControlOutcome, HandleView, LanguageService, LaunchOutcome,
};

verus! {

/// The bounded range ports are drawn from: `PORT_MIN` inclusive to
/// `PORT_MAX` exclusive.
pub const PORT_MIN: u32 = 5000;

pub const PORT_MAX: u32 = 6000;

/// How many random samples the arbiter takes before it falls back to a
/// sweep of the whole range.
const RANDOM_TRIES: usize = 16;

/// Relies on rand::Rng::gen_range on rand::thread_rng: a uniform sample
/// from the half-open range `lo..hi`, which panics only on an empty range.
#[verifier::external_body]
fn random_in_range(lo: u32, hi: u32) -> (r: u32)
    requires
        lo < hi,
    ensures
        lo <= r < hi,
{
    rand::Rng::gen_range(&mut rand::thread_rng(), lo..hi)
}

/// A fixed-size pool of sandbox handles plus the port arbiter they share.
///
/// `services` is the stack of handles not checked out by any request;
/// `ports` is the set of allocated ports, kept as a vector without
/// duplicates.
pub struct LanguageServicePool {
    services: Vec<LanguageService>,
    ports: Vec<u32>,
}

impl LanguageServicePool {
    /// The handles currently available for checkout, last in first out.
    pub closed spec fn services_view(self) -> Seq<LanguageService> {
        self.services@
    }

    /// The allocated ports.
    pub closed spec fn ports_view(self) -> Seq<u32> {
        self.ports@
    }

    pub open spec fn has_port(self, p: u32) -> bool {
        self.ports_view().contains(p)
    }

    /// The port arbiter's invariant: every allocated port lies in the
    /// configured range and no port is allocated twice.
    pub open spec fn ports_wf(self) -> bool {
        &&& forall|i: int|
            0 <= i < self.ports_view().len() ==> PORT_MIN <= #[trigger] self.ports_view()[i]
                < PORT_MAX
        &&& forall|i: int, j: int|
            0 <= i < j < self.ports_view().len() ==> self.ports_view()[i] != self.ports_view()[j]
    }

    /// Every started available handle holds an allocated port, and no two
    /// started available handles hold the same port.
    pub open spec fn services_wf(self) -> bool {
        &&& forall|i: int|
            0 <= i < self.services_view().len() && (#[trigger] self.services_view()[i])@.started()
                ==> self.has_port(self.services_view()[i]@.port->0)
        &&& forall|i: int, j: int|
            0 <= i < j < self.services_view().len() && (#[trigger] self.services_view()[i])@.started()
                && (#[trigger] self.services_view()[j])@.started()
                ==> self.services_view()[i]@.port->0 != self.services_view()[j]@.port->0
    }

    pub open spec fn wf(self) -> bool {
        self.ports_wf() && self.services_wf()
    }

    /// How many handles are available for checkout.
    pub fn available_count(&self) -> (r: usize)
        ensures
            r == self.services_view().len(),
    {
        self.services.len()
    }

    /// How many ports are currently allocated.
    pub fn allocated_port_count(&self) -> (r: usize)
        ensures
            r == self.ports_view().len(),
    {
        self.ports.len()
    }

    /// Builds a pool of `services` fresh, unstarted handles and an empty
    /// port set.
    pub fn new(services: usize) -> (p: LanguageServicePool)
        ensures
            p.wf(),
            p.services_view().len() == services,
            forall|i: int| 0 <= i < services ==> (#[trigger] p.services_view()[i])@.fresh(),
            p.ports_view().len() == 0,
    {
        let mut service_list: Vec<LanguageService> = Vec::new();
        let mut k: usize = 0;
        while k < services
            invariant
                k <= services,
                service_list@.len() == k,
                forall|i: int| 0 <= i < k ==> (#[trigger] service_list@[i])@.fresh(),
            decreases services - k,
        {
            service_list.push(LanguageService::new());
            k = k + 1;
        }
        LanguageServicePool { services: service_list, ports: Vec::new() }
    }

    fn contains_port(&self, p: u32) -> (r: bool)
        ensures
            r == self.has_port(p),
    {
        let mut i: usize = 0;
        while i < self.ports.len()
            invariant
                i <= self.ports@.len(),
                forall|k: int| 0 <= k < i ==> self.ports@[k] != p,
            decreases self.ports@.len() - i,
        {
            if self.ports[i] == p {
                assert(self.ports@[i as int] == p);
                return true;
            }
            i = i + 1;
        }
        false
    }

    proof fn lemma_push_port_wf(pre: LanguageServicePool, post: LanguageServicePool, p: u32)
        requires
            pre.wf(),
            PORT_MIN <= p < PORT_MAX,
            !pre.has_port(p),
            post.ports_view() == pre.ports_view().push(p),
            post.services_view() == pre.services_view(),
        ensures
            post.wf(),
            forall|q: u32| pre.has_port(q) ==> post.has_port(q),
            post.has_port(p),
    {
        let pv = pre.ports_view();
        assert forall|q: u32| pre.has_port(q) implies post.has_port(q) by {
            let k = choose|k: int| 0 <= k < pv.len() && pv[k] == q;
            assert(post.ports_view()[k] == q);
        }
        assert(post.ports_view()[pv.len() as int] == p);
        assert forall|i: int, j: int|
            0 <= i < j < post.ports_view().len() implies post.ports_view()[i]
            != post.ports_view()[j] by {
            if j == pv.len() as int {
                assert(pv[i] == post.ports_view()[i]);
                assert(pre.has_port(pv[i]));
            }
        }
        assert forall|i: int|
            0 <= i < post.services_view().len() && (#[trigger] post.services_view()[i])@.started()
            implies post.has_port(post.services_view()[i]@.port->0) by {
            assert(pre.has_port(pre.services_view()[i]@.port->0));
        }
    }

    /// Allocates a port nothing else holds: a bounded number of random
    /// samples from the range, then a sweep of the whole range. Fails only
    /// when every port in the range is already allocated — the documented
    /// bounded-retry-then-fail policy for range exhaustion.
    pub fn generate_port(&mut self) -> (r: Result<u32, PoolError>)
        requires
            old(self).wf(),
        ensures
            final(self).wf(),
            final(self).services_view() == old(self).services_view(),
            r is Ok ==> PORT_MIN <= r->Ok_0 < PORT_MAX && !old(self).has_port(r->Ok_0) && final(self).ports_view() == old(self).ports_view().push(r->Ok_0),
            r is Err ==> (r->Err_0).kind == ErrorKind::PortsExhausted && final(self).ports_view()
                == old(self).ports_view() && (forall|q: u32|
                PORT_MIN <= q < PORT_MAX ==> old(self).has_port(q)),
    {
        let mut tries: usize = 0;
        while tries < RANDOM_TRIES
            invariant
                *self == *old(self),
                old(self).wf(),
            decreases RANDOM_TRIES - tries,
        {
            let p = random_in_range(PORT_MIN, PORT_MAX);
            if !self.contains_port(p) {
                let ghost pre = *self;
                self.ports.push(p);
                proof {
                    Self::lemma_push_port_wf(pre, *self, p);
                }
                return Ok(p);
            }
            tries = tries + 1;
        }
        let mut q: u32 = PORT_MIN;
        while q < PORT_MAX
            invariant
                *self == *old(self),
                old(self).wf(),
                PORT_MIN <= q <= PORT_MAX,
                forall|x: u32| PORT_MIN <= x < q ==> old(self).has_port(x),
            decreases PORT_MAX - q,
        {
            if !self.contains_port(q) {
                let ghost pre = *self;
                self.ports.push(q);
                proof {
                    Self::lemma_push_port_wf(pre, *self, q);
                }
                return Ok(q);
            }
            q = q + 1;
        }
        Err(
            PoolError::new(
                ErrorKind::PortsExhausted,
                "every port in the configured range is allocated".to_owned(),
            ),
        )
    }

    /// Removes `port` from the allocated set; a no-op when it is absent.
    ///
    /// This touches the port set alone. Releasing a port that a started
    /// available handle still holds would break the pool's correspondence
    /// invariant, so the bulk and per-request operations only release ports
    /// of handles that were already torn down or checked out.
    pub fn release_port(&mut self, port: u32)
        requires
            old(self).ports_wf(),
        ensures
            final(self).ports_wf(),
            final(self).services_view() == old(self).services_view(),
            !final(self).has_port(port),
            forall|q: u32| q != port ==> (final(self).has_port(q) <==> old(self).has_port(q)),
            final(self).ports_view().len() == old(self).ports_view().len() - (if old(self).has_port(port) {
                1int
            } else {
                0int
            }),
    {
        let mut i: usize = 0;
        while i < self.ports.len()
            invariant
                *self == *old(self),
                old(self).ports_wf(),
                i <= self.ports@.len(),
                forall|k: int| 0 <= k < i ==> self.ports@[k] != port,
            decreases self.ports@.len() - i,
        {
            if self.ports[i] == port {
                let ghost pre = self.ports@;
                self.ports.remove(i);
                proof {
                    assert(pre == old(self).ports_view());
                    assert(pre[i as int] == port);
                    assert(pre.contains(port));
                    pre.remove_ensures(i as int);
                    let post = self.ports@;
                    assert(post == pre.remove(i as int));
                    assert(post.len() == pre.len() - 1);
                    assert forall|k: int| 0 <= k < post.len() implies post[k] != port by {
                        if k < i as int {
                            assert(post[k] == pre[k]);
                        } else {
                            assert(post[k] == pre[k + 1]);
                            if pre[k + 1] == port {
                                assert(old(self).ports_view()[i as int] == old(self).ports_view()[k + 1]);
                                assert(false);
                            }
                        }
                    }
                    assert(!post.contains(port));
                    assert forall|x: u32| x != port && pre.contains(x) implies post.contains(
                        x,
                    ) by {
                        let k = choose|k: int| 0 <= k < pre.len() && pre[k] == x;
                        if k < i as int {
                            assert(post[k] == x);
                        } else {
                            assert(post[k - 1] == x);
                        }
                    }
                    assert forall|x: u32| post.contains(x) implies pre.contains(x) by {
                        let k = choose|k: int| 0 <= k < post.len() && post[k] == x;
                        if k < i as int {
                            assert(pre[k] == x);
                        } else {
                            assert(pre[k + 1] == x);
                        }
                    }
                    assert forall|a: int, b: int| 0 <= a < b < post.len() implies post[a]
                        != post[b] by {
                        let a0 = if a < i as int {
                            a
                        } else {
                            a + 1
                        };
                        let b0 = if b < i as int {
                            b
                        } else {
                            b + 1
                        };
                        assert(post[a] == pre[a0]);
                        assert(post[b] == pre[b0]);
                        assert(0 <= a0 < b0 < pre.len());
                        assert(old(self).ports_view()[a0] != old(self).ports_view()[b0]);
                    }
                }
                return;
            }
            i = i + 1;
        }
        assert(!self.ports@.contains(port));
    }

    /// Removes and returns one handle from the available stack, or `None`
    /// when every handle is checked out and the caller must retry.
    pub fn assign_one(&mut self) -> (r: Option<LanguageService>)
        requires
            old(self).wf(),
        ensures
            final(self).wf(),
            final(self).ports_view() == old(self).ports_view(),
            old(self).services_view().len() == 0 ==> r is None && final(self).services_view()
                == old(self).services_view(),
            old(self).services_view().len() > 0 ==> r is Some && r->0 == old(self).services_view().last() && final(self).services_view() == old(self).services_view().drop_last(),
    {
        let r = self.services.pop();
        proof {
            assert(self.ports_view() == old(self).ports_view());
            if old(self).services_view().len() > 0 {
                let pre = old(self).services_view();
                let post = self.services@;
                assert(post =~= pre.drop_last());
                assert forall|i: int|
                    0 <= i < post.len() && (#[trigger] post[i])@.started() implies self.has_port(
                    post[i]@.port->0,
                ) by {
                    assert(pre[i] == post[i]);
                    assert((#[trigger] pre[i])@.started());
                    assert(old(self).has_port(pre[i]@.port->0));
                }
                assert forall|i: int, j: int|
                    0 <= i < j < post.len() && (#[trigger] post[i])@.started() && (
                #[trigger] post[j])@.started() implies post[i]@.port->0 != post[j]@.port->0 by {
                    assert(pre[i] == post[i]);
                    assert(pre[j] == post[j]);
                    assert((pre[i])@.started() && (pre[j])@.started());
                    assert(pre[i]@.port->0 != pre[j]@.port->0);
                }
            }
        }
        r
    }

    /// Returns a checked-out handle to the available stack. A started handle
    /// must still hold its allocated port, and no other available started
    /// handle may hold the same port: exactly what held when the handle was
    /// checked out and what every operation on a checked-out handle
    /// preserves.
    pub fn release(&mut self, handle: LanguageService)
        requires
            old(self).wf(),
            handle@.started() ==> old(self).has_port(handle@.port->0),
            handle@.started() ==> forall|i: int|
                0 <= i < old(self).services_view().len() && (#[trigger] old(self).services_view()[i])@.started() ==> old(self).services_view()[i]@.port->0
                    != handle@.port->0,
        ensures
            final(self).wf(),
            final(self).ports_view() == old(self).ports_view(),
            final(self).services_view() == old(self).services_view().push(handle),
    {
        self.services.push(handle);
        proof {
            assert(self.ports_view() == old(self).ports_view());
            let pre = old(self).services_view();
            let post = self.services@;
            let n = pre.len() as int;
            assert(post == pre.push(handle));
            assert forall|i: int|
                0 <= i < post.len() && (#[trigger] post[i])@.started() implies self.has_port(
                post[i]@.port->0,
            ) by {
                if i < n {
                    assert(pre[i] == post[i]);
                    assert((#[trigger] pre[i])@.started());
                    assert(old(self).has_port(pre[i]@.port->0));
                } else {
                    assert(post[i] == handle);
                    assert(old(self).has_port(handle@.port->0));
                }
            }
            assert forall|i: int, j: int|
                0 <= i < j < post.len() && (#[trigger] post[i])@.started() && (
            #[trigger] post[j])@.started() implies post[i]@.port->0 != post[j]@.port->0 by {
                if j < n {
                    assert(pre[i] == post[i]);
                    assert(pre[j] == post[j]);
                    assert((pre[i])@.started() && (pre[j])@.started());
                    assert(pre[i]@.port->0 != pre[j]@.port->0);
                } else {
                    assert(post[j] == handle);
                    assert(pre[i] == post[i]);
                    assert((#[trigger] pre[i])@.started());
                }
            }
        }
    }
}

/// One planned launch of `start_all`: the handle at slot `index` is to be
/// started at `port`.
#[derive(Clone, Copy, Debug)]
pub struct StartStep {
    pub index: usize,
    pub port: u32,
}

/// One planned teardown of `shutdown_all`: the handle at slot `index` holds
/// the process `id` and the allocated `port`.
#[derive(Debug)]
pub struct DestroyStep {
    pub index: usize,
    pub id: String,
    pub port: u32,
}

/// Some step among the first `k` of the plan names slot `i`.
pub open spec fn start_covered_before(plan: Seq<StartStep>, k: int, i: int) -> bool {
    exists|kk: int| 0 <= kk < k && (#[trigger] plan[kk]).index == i
}

/// Some step among the first `k` of the plan names slot `i`.
pub open spec fn destroy_covered_before(plan: Seq<DestroyStep>, k: int, i: int) -> bool {
    exists|kk: int| 0 <= kk < k && (#[trigger] plan[kk]).index == i
}

/// Some step among the first `k` of the plan releases port `q`.
pub open spec fn destroy_port_before(plan: Seq<DestroyStep>, k: int, q: u32) -> bool {
    exists|kk: int| 0 <= kk < k && (#[trigger] plan[kk]).port == q
}

/// Some step of the plan allocates port `q`.
pub open spec fn start_port_planned(plan: Seq<StartStep>, q: u32) -> bool {
    exists|kk: int| 0 <= kk < plan.len() && (#[trigger] plan[kk]).port == q
}

/// Step `k` of the plan has been applied: the slot it names is started with
/// the process identifier of outcome `k` at the planned port, its paused
/// flag untouched.
pub open spec fn started_as(
    post: Seq<LanguageService>,
    pre: Seq<LanguageService>,
    plan: Seq<StartStep>,
    outcomes: Seq<LaunchOutcome>,
    k: int,
) -> bool {
    post[plan[k].index as int]@ == (HandleView {
        id: Option::Some(launch_id(outcomes[k])),
        port: Option::Some(plan[k].port),
        paused: pre[plan[k].index as int]@.paused,
    })
}

pub const LAUNCH_CUT_SHORT: &'static str = "the launch sequence ended before every planned launch was made";

pub const TEARDOWN_CUT_SHORT: &'static str = "the teardown sequence ended before every planned teardown was made";

impl LanguageServicePool {
    /// Every step of a start plan names a distinct unstarted slot, in
    /// ascending slot order, with an allocated in-range port; the planned
    /// ports are pairwise distinct and distinct from every started handle's
    /// port; and every unstarted slot is named by some step.
    pub open spec fn start_plan_ok(self, plan: Seq<StartStep>) -> bool {
        &&& forall|k: int|
            0 <= k < plan.len() ==> (#[trigger] plan[k]).index < self.services_view().len() && !self.services_view()[plan[k].index as int]@.started() && PORT_MIN <= plan[k].port
                < PORT_MAX && self.has_port(plan[k].port)
        &&& forall|k: int, i: int|
            0 <= k < plan.len() && 0 <= i < self.services_view().len() && (
            #[trigger] self.services_view()[i])@.started() ==> self.services_view()[i]@.port->0 != (
            #[trigger] plan[k]).port
        &&& forall|k1: int, k2: int|
            0 <= k1 < k2 < plan.len() ==> (#[trigger] plan[k1]).index < (#[trigger] plan[k2]).index
                && plan[k1].port != plan[k2].port
        &&& forall|i: int|
            0 <= i < self.services_view().len() && !((#[trigger] self.services_view()[i])@.started())
                ==> start_covered_before(plan, plan.len() as int, i)
    }

    proof fn lemma_contains_push(pre: Seq<u32>, p: u32)
        ensures
            forall|q: u32| pre.contains(q) ==> #[trigger] pre.push(p).contains(q),
            pre.push(p).contains(p),
    {
        assert forall|q: u32| pre.contains(q) implies #[trigger] pre.push(p).contains(q) by {
            let k = choose|k: int| 0 <= k < pre.len() && pre[k] == q;
            assert(pre.push(p)[k] == q);
        }
        assert(pre.push(p)[pre.len() as int] == p);
    }

    /// A pool whose first `c` planned slots have been started as planned and
    /// whose other slots still agree with the base pool is well-formed.
    proof fn lemma_start_progress_wf(
        base: LanguageServicePool,
        cur: LanguageServicePool,
        plan: Seq<StartStep>,
        outcomes: Seq<LaunchOutcome>,
        c: int,
    )
        requires
            base.wf(),
            base.start_plan_ok(plan),
            0 <= c <= plan.len(),
            c <= outcomes.len(),
            cur.ports_view() == base.ports_view(),
            cur.services_view().len() == base.services_view().len(),
            forall|kk: int|
                0 <= kk < c ==> started_as(
                    cur.services_view(),
                    base.services_view(),
                    plan,
                    outcomes,
                    kk,
                ),
            forall|i: int|
                0 <= i < base.services_view().len() && !start_covered_before(plan, c, i) ==> (
                #[trigger] cur.services_view()[i])@ == base.services_view()[i]@,
        ensures
            cur.wf(),
    {
        let n = base.services_view().len() as int;
        assert forall|i: int|
            0 <= i < n && (#[trigger] cur.services_view()[i])@.started() implies cur.has_port(
            cur.services_view()[i]@.port->0,
        ) by {
            if start_covered_before(plan, c, i) {
                let kk = choose|kk: int| 0 <= kk < c && (#[trigger] plan[kk]).index == i;
                assert(started_as(cur.services_view(), base.services_view(), plan, outcomes, kk));
                assert(cur.services_view()[i]@.port->0 == plan[kk].port);
                assert(base.has_port(plan[kk].port));
            } else {
                assert((#[trigger] base.services_view()[i])@.started());
                assert(base.has_port(base.services_view()[i]@.port->0));
            }
        }
        assert forall|i: int, j: int|
            0 <= i < j < n && (#[trigger] cur.services_view()[i])@.started() && (
        #[trigger] cur.services_view()[j])@.started() implies cur.services_view()[i]@.port->0
            != cur.services_view()[j]@.port->0 by {
            if start_covered_before(plan, c, i) && start_covered_before(plan, c, j) {
                let ki = choose|kk: int| 0 <= kk < c && (#[trigger] plan[kk]).index == i;
                let kj = choose|kk: int| 0 <= kk < c && (#[trigger] plan[kk]).index == j;
                assert(started_as(cur.services_view(), base.services_view(), plan, outcomes, ki));
                assert(started_as(cur.services_view(), base.services_view(), plan, outcomes, kj));
                if ki < kj {
                    assert(plan[ki].port != plan[kj].port);
                } else if kj < ki {
                    assert(plan[kj].port != plan[ki].port);
                } else {
                    assert(false);
                }
            } else if start_covered_before(plan, c, i) {
                let ki = choose|kk: int| 0 <= kk < c && (#[trigger] plan[kk]).index == i;
                assert(started_as(cur.services_view(), base.services_view(), plan, outcomes, ki));
                assert((#[trigger] base.services_view()[j])@.started());
                assert(base.services_view()[j]@.port->0 != plan[ki].port);
            } else if start_covered_before(plan, c, j) {
                let kj = choose|kk: int| 0 <= kk < c && (#[trigger] plan[kk]).index == j;
                assert(started_as(cur.services_view(), base.services_view(), plan, outcomes, kj));
                assert((#[trigger] base.services_view()[i])@.started());
                assert(base.services_view()[i]@.port->0 != plan[kj].port);
            } else {
                assert((#[trigger] base.services_view()[i])@.started());
                assert((#[trigger] base.services_view()[j])@.started());
                assert(base.services_view()[i]@.port->0 != base.services_view()[j]@.port->0);
            }
        }
    }

    /// Plans `start_all`: allocates one fresh port per unstarted handle and
    /// pairs it with that handle's slot. Handles already started are left
    /// untouched and keep their ports, so planning twice allocates nothing
    /// the second time. Fails only when the port range runs out, with
    /// every port already drawn kept allocated (partial side effects are not
    /// rolled back).
    pub fn start_all(&mut self) -> (r: Result<Vec<StartStep>, PoolError>)
        requires
            old(self).wf(),
        ensures
            final(self).wf(),
            final(self).services_view() == old(self).services_view(),
            forall|q: u32| old(self).has_port(q) ==> final(self).has_port(q),
            r is Ok ==> final(self).start_plan_ok((r->Ok_0)@) && (forall|k: int|
                0 <= k < (r->Ok_0)@.len() ==> !old(self).has_port((#[trigger] (r->Ok_0)@[k]).port)),
            r is Ok ==> final(self).ports_view() == old(self).ports_view() + (r->Ok_0)@.map_values(
                |s: StartStep| s.port,
            ) && (forall|q: u32|
                final(self).has_port(q) <==> (old(self).has_port(q) || start_port_planned(
                    (r->Ok_0)@,
                    q,
                ))),
            r is Err ==> (r->Err_0).kind == ErrorKind::PortsExhausted && (forall|q: u32|
                PORT_MIN <= q < PORT_MAX ==> final(self).has_port(q)),
    {
        let n = self.services.len();
        let mut plan: Vec<StartStep> = Vec::new();
        let mut i: usize = 0;
        proof {
            assert(old(self).ports_view() + plan@.map_values(|s: StartStep| s.port) =~= old(self).ports_view());
        }
        while i < n
            invariant
                old(self).wf(),
                self.wf(),
                n == self.services_view().len(),
                i <= n,
                self.services_view() == old(self).services_view(),
                forall|q: u32| old(self).has_port(q) ==> self.has_port(q),
                self.ports_view() == old(self).ports_view() + plan@.map_values(
                    |s: StartStep| s.port,
                ),
                forall|q: u32|
                    self.has_port(q) <==> (old(self).has_port(q) || start_port_planned(plan@, q)),
                forall|k: int|
                    0 <= k < plan@.len() ==> (#[trigger] plan@[k]).index < i
                        && !self.services_view()[plan@[k].index as int]@.started() && PORT_MIN
                        <= plan@[k].port < PORT_MAX && self.has_port(plan@[k].port) && !old(self).has_port(plan@[k].port),
                forall|k: int, j: int|
                    0 <= k < plan@.len() && 0 <= j < n && (
                    #[trigger] self.services_view()[j])@.started()
                        ==> self.services_view()[j]@.port->0 != (#[trigger] plan@[k]).port,
                forall|k1: int, k2: int|
                    0 <= k1 < k2 < plan@.len() ==> (#[trigger] plan@[k1]).index < (
                    #[trigger] plan@[k2]).index && plan@[k1].port != plan@[k2].port,
                forall|ii: int|
                    0 <= ii < i && !((#[trigger] self.services_view()[ii])@.started())
                        ==> start_covered_before(plan@, plan@.len() as int, ii),
            decreases n - i,
        {
            let needs_start = !self.services[i].is_started();
            if needs_start {
                let ghost pre_pool = *self;
                let ghost pre_plan = plan@;
                let port = match self.generate_port() {
                    Ok(p) => p,
                    Err(e) => {
                        proof {
                            assert forall|q: u32| PORT_MIN <= q < PORT_MAX implies self.has_port(
                                q,
                            ) by {
                                assert(pre_pool.has_port(q));
                                assert(self.ports_view() == pre_pool.ports_view());
                            }
                        }
                        return Err(e);
                    },
                };
                plan.push(StartStep { index: i, port });
                proof {
                    Self::lemma_contains_push(pre_pool.ports_view(), port);
                    assert(plan@ == pre_plan.push(StartStep { index: i, port }));
                    assert(plan@.map_values(|s: StartStep| s.port) =~= pre_plan.map_values(
                        |s: StartStep| s.port,
                    ).push(port));
                    assert(old(self).ports_view() + plan@.map_values(|s: StartStep| s.port) =~= (
                    old(self).ports_view() + pre_plan.map_values(|s: StartStep| s.port)).push(
                        port,
                    ));
                    assert forall|q: u32|
                        self.has_port(q) <==> (old(self).has_port(q) || start_port_planned(
                            plan@,
                            q,
                        )) by {
                        if self.has_port(q) {
                            let k = choose|k: int|
                                0 <= k < self.ports_view().len() && self.ports_view()[k] == q;
                            if k < pre_pool.ports_view().len() {
                                assert(pre_pool.ports_view()[k] == q);
                                assert(pre_pool.has_port(q));
                                if !old(self).has_port(q) {
                                    assert(start_port_planned(pre_plan, q));
                                    let kk = choose|kk: int|
                                        0 <= kk < pre_plan.len() && (#[trigger] pre_plan[kk]).port
                                            == q;
                                    assert((#[trigger] plan@[kk]).port == q);
                                }
                            } else {
                                assert(q == port);
                                assert((#[trigger] plan@[pre_plan.len() as int]).port == q);
                            }
                        }
                        if old(self).has_port(q) {
                            assert(pre_pool.has_port(q));
                            assert(self.has_port(q));
                        }
                        if start_port_planned(plan@, q) {
                            let kk = choose|kk: int|
                                0 <= kk < plan@.len() && (#[trigger] plan@[kk]).port == q;
                            if kk < pre_plan.len() {
                                assert(pre_plan[kk].port == q);
                                assert(start_port_planned(pre_plan, q));
                                assert(pre_pool.has_port(q));
                                assert(self.has_port(q));
                            } else {
                                assert(q == port);
                                assert(self.ports_view()[pre_pool.ports_view().len() as int] == q);
                            }
                        }
                    }
                    assert forall|k: int|
                        0 <= k < plan@.len() implies (#[trigger] plan@[k]).index < i + 1
                            && !self.services_view()[plan@[k].index as int]@.started() && PORT_MIN
                            <= plan@[k].port < PORT_MAX && self.has_port(plan@[k].port) && !old(self).has_port(plan@[k].port) by {
                        if k < pre_plan.len() {
                            assert(plan@[k] == pre_plan[k]);
                            assert(pre_pool.has_port(pre_plan[k].port));
                        } else {
                            assert(plan@[k] == (StartStep { index: i, port }));
                        }
                    }
                    assert forall|k: int, j: int|
                        0 <= k < plan@.len() && 0 <= j < n && (
                        #[trigger] self.services_view()[j])@.started()
                            implies self.services_view()[j]@.port->0 != (
                        #[trigger] plan@[k]).port by {
                        if k < pre_plan.len() {
                            assert(plan@[k] == pre_plan[k]);
                        } else {
                            assert(plan@[k] == (StartStep { index: i, port }));
                            assert(pre_pool.has_port(self.services_view()[j]@.port->0));
                        }
                    }
                    assert forall|k1: int, k2: int|
                        0 <= k1 < k2 < plan@.len() implies (#[trigger] plan@[k1]).index < (
                        #[trigger] plan@[k2]).index && plan@[k1].port != plan@[k2].port by {
                        assert(plan@[k1] == pre_plan[k1]);
                        if k2 < pre_plan.len() {
                            assert(plan@[k2] == pre_plan[k2]);
                        } else {
                            assert(plan@[k2] == (StartStep { index: i, port }));
                            assert(pre_pool.has_port(pre_plan[k1].port));
                        }
                    }
                    assert forall|ii: int|
                        0 <= ii < i + 1 && !((#[trigger] self.services_view()[ii])@.started())
                            implies start_covered_before(plan@, plan@.len() as int, ii) by {
                        if ii == i {
                            assert((#[trigger] plan@[pre_plan.len() as int]).index == ii);
                        } else {
                            let kk = choose|kk: int|
                                0 <= kk < pre_plan.len() && (#[trigger] pre_plan[kk]).index == ii;
                            assert((#[trigger] plan@[kk]).index == ii);
                        }
                    }
                }
            }
            i = i + 1;
        }
        Ok(plan)
    }

    /// Applies the launch outcomes of a planned `start_all`, slot by slot in
    /// plan order, stopping at the first failed launch: the slots before it
    /// are started, the slots from it on are untouched, and the first
    /// failure is the error returned (no rollback). When every planned
    /// launch succeeded, every handle of the pool is started, and by
    /// well-formedness their ports are pairwise distinct, allocated and
    /// inside the configured range.
    pub fn start_all_apply(&mut self, plan: &Vec<StartStep>, outcomes: &Vec<LaunchOutcome>) -> (r:
        Result<(), PoolError>)
        requires
            old(self).wf(),
            old(self).start_plan_ok(plan@),
        ensures
            final(self).wf(),
            final(self).ports_view() == old(self).ports_view(),
            final(self).services_view().len() == old(self).services_view().len(),
            forall|i: int|
                0 <= i < old(self).services_view().len() && !start_covered_before(
                    plan@,
                    plan@.len() as int,
                    i,
                ) ==> (#[trigger] final(self).services_view()[i])@ == old(self).services_view()[i]@,
            forall|j: int|
                #[trigger] launch_fail_at(outcomes@, plan@.len() as int, j) ==> r is Err && (
                r->Err_0).kind == ErrorKind::ProcessLaunch && (r->Err_0).message@ == launch_msg(
                    outcomes@[j],
                ) && (forall|k: int|
                    0 <= k < j ==> started_as(
                        final(self).services_view(),
                        old(self).services_view(),
                        plan@,
                        outcomes@,
                        k,
                    )) && (forall|k: int|
                    j <= k < plan@.len() ==> (#[trigger] final(self).services_view()[plan@[k].index as int])@
                        == old(self).services_view()[plan@[k].index as int]@),
            launches_ok_upto(outcomes@, plan@.len() as int) && outcomes@.len() < plan@.len()
                ==> r is Err && (r->Err_0).kind == ErrorKind::ProcessLaunch && (r->Err_0).message@
                == LAUNCH_CUT_SHORT@ && (forall|k: int|
                0 <= k < outcomes@.len() ==> started_as(
                    final(self).services_view(),
                    old(self).services_view(),
                    plan@,
                    outcomes@,
                    k,
                )) && (forall|k: int|
                outcomes@.len() <= k < plan@.len() ==> (#[trigger] final(self).services_view()[plan@[k].index as int])@ == old(self).services_view()[plan@[k].index as int]@),
            launches_ok_upto(outcomes@, plan@.len() as int) && outcomes@.len() >= plan@.len()
                ==> r is Ok && (forall|k: int|
                0 <= k < plan@.len() ==> started_as(
                    final(self).services_view(),
                    old(self).services_view(),
                    plan@,
                    outcomes@,
                    k,
                )) && (forall|i: int|
                0 <= i < old(self).services_view().len() ==> (#[trigger] final(self).services_view()[i])@.started()),
    {
        let m = if plan.len() < outcomes.len() {
            plan.len()
        } else {
            outcomes.len()
        };
        let mut k: usize = 0;
        while k < m
            invariant
                old(self).wf(),
                old(self).start_plan_ok(plan@),
                m == if plan@.len() < outcomes@.len() {
                    plan@.len() as int
                } else {
                    outcomes@.len() as int
                },
                k <= m,
                self.ports_view() == old(self).ports_view(),
                self.services_view().len() == old(self).services_view().len(),
                forall|kk: int| 0 <= kk < k ==> launch_ok(outcomes@[kk]),
                forall|kk: int|
                    0 <= kk < k ==> started_as(
                        self.services_view(),
                        old(self).services_view(),
                        plan@,
                        outcomes@,
                        kk,
                    ),
                forall|i: int|
                    0 <= i < self.services_view().len() && !start_covered_before(
                        plan@,
                        k as int,
                        i,
                    ) ==> (#[trigger] self.services_view()[i])@ == old(self).services_view()[i]@,
            decreases m - k,
        {
            let step_index = plan[k].index;
            let step_port = plan[k].port;
            proof {
                if start_covered_before(plan@, k as int, step_index as int) {
                    let kk = choose|kk: int|
                        0 <= kk < k && (#[trigger] plan@[kk]).index == step_index as int;
                    assert(plan@[kk].index < plan@[k as int].index);
                    assert(false);
                }
                assert(self.services_view()[step_index as int]@ == old(self).services_view()[step_index as int]@);
            }
            let ghost svc_pre = self.services_view();
            let s = &mut self.services[step_index];
            let res = s.start(step_port, &outcomes[k]);
            proof {
                assert forall|kk: int|
                    0 <= kk < k implies started_as(
                    self.services_view(),
                    old(self).services_view(),
                    plan@,
                    outcomes@,
                    kk,
                ) by {
                    assert(plan@[kk].index < plan@[k as int].index);
                    assert(self.services_view()[plan@[kk].index as int] == svc_pre[plan@[kk].index as int]);
                    assert(started_as(svc_pre, old(self).services_view(), plan@, outcomes@, kk));
                }
            }
            match res {
                Ok(_) => {
                    proof {
                        assert(launch_ok(outcomes@[k as int]));
                        assert(started_as(
                            self.services_view(),
                            old(self).services_view(),
                            plan@,
                            outcomes@,
                            k as int,
                        ));
                        assert forall|i: int|
                            0 <= i < self.services_view().len() && !start_covered_before(
                                plan@,
                                k as int + 1,
                                i,
                            ) implies (#[trigger] self.services_view()[i])@ == old(self).services_view()[i]@ by {
                            if i != step_index as int {
                                if start_covered_before(plan@, k as int, i) {
                                    let kk = choose|kk: int|
                                        0 <= kk < k && (#[trigger] plan@[kk]).index == i;
                                    assert(start_covered_before(plan@, k as int + 1, i));
                                    assert(false);
                                }
                            } else {
                                assert((#[trigger] plan@[k as int]).index == i);
                                assert(start_covered_before(plan@, k as int + 1, i));
                                assert(false);
                            }
                        }
                    }
                },
                Err(e) => {
                    proof {
                        assert(!launch_ok(outcomes@[k as int]));
                        assert(launch_fail_at(outcomes@, plan@.len() as int, k as int));
                        assert forall|j: int|
                            #[trigger] launch_fail_at(
                                outcomes@,
                                plan@.len() as int,
                                j,
                            ) implies j == k as int by {
                            if j < k as int {
                                assert(launch_ok(outcomes@[j]));
                            } else if j > k as int {
                                assert(launch_ok(outcomes@[k as int]));
                            }
                        }
                        assert forall|i: int|
                            0 <= i < self.services_view().len() && !start_covered_before(
                                plan@,
                                k as int,
                                i,
                            ) implies (#[trigger] self.services_view()[i])@ == old(self).services_view()[i]@ by {
                            if i == step_index as int {
                                assert(self.services_view()[i]@ == svc_pre[i]@);
                            }
                        }
                        assert forall|kk: int|
                            k as int <= kk < plan@.len() implies (#[trigger] self.services_view()[plan@[kk].index as int])@
                            == old(self).services_view()[plan@[kk].index as int]@ by {
                            if start_covered_before(plan@, k as int, plan@[kk].index as int) {
                                let ll = choose|ll: int|
                                    0 <= ll < k && (#[trigger] plan@[ll]).index == plan@[kk].index;
                                assert(plan@[ll].index < plan@[kk].index);
                                assert(false);
                            }
                        }
                        assert forall|i: int|
                            0 <= i < old(self).services_view().len() && !start_covered_before(
                                plan@,
                                plan@.len() as int,
                                i,
                            ) implies (#[trigger] self.services_view()[i])@ == old(self).services_view()[i]@ by {
                            if start_covered_before(plan@, k as int, i) {
                                let ll = choose|ll: int|
                                    0 <= ll < k && (#[trigger] plan@[ll]).index == i;
                                assert((#[trigger] plan@[ll]).index == i && 0 <= ll
                                    < plan@.len() as int);
                                assert(false);
                            }
                        }
                        Self::lemma_start_progress_wf(
                            *old(self),
                            *self,
                            plan@,
                            outcomes@,
                            k as int,
                        );
                    }
                    return Err(e);
                },
            }
            k = k + 1;
        }
        proof {
            Self::lemma_start_progress_wf(*old(self), *self, plan@, outcomes@, m as int);
        }
        if outcomes.len() < plan.len() {
            proof {
                assert forall|j: int|
                    !(#[trigger] launch_fail_at(outcomes@, plan@.len() as int, j)) by {
                    if launch_fail_at(outcomes@, plan@.len() as int, j) {
                        assert(launch_ok(outcomes@[j]));
                    }
                }
                assert forall|kk: int|
                    outcomes@.len() <= kk < plan@.len() implies (#[trigger] self.services_view()[plan@[kk].index as int])@
                    == old(self).services_view()[plan@[kk].index as int]@ by {
                    if start_covered_before(plan@, m as int, plan@[kk].index as int) {
                        let ll = choose|ll: int|
                            0 <= ll < m as int && (#[trigger] plan@[ll]).index == plan@[kk].index;
                        assert(plan@[ll].index < plan@[kk].index);
                        assert(false);
                    }
                }
            }
            return Err(PoolError::new(ErrorKind::ProcessLaunch, LAUNCH_CUT_SHORT.to_owned()));
        }
        proof {
            assert forall|j: int|
                !(#[trigger] launch_fail_at(outcomes@, plan@.len() as int, j)) by {
                if launch_fail_at(outcomes@, plan@.len() as int, j) {
                    assert(launch_ok(outcomes@[j]));
                }
            }
            assert forall|i: int|
                0 <= i < old(self).services_view().len() implies (#[trigger] self.services_view()[i])@.started() by {
                if start_covered_before(plan@, plan@.len() as int, i) {
                    let kk = choose|kk: int|
                        0 <= kk < plan@.len() && (#[trigger] plan@[kk]).index == i;
                    assert(started_as(
                        self.services_view(),
                        old(self).services_view(),
                        plan@,
                        outcomes@,
                        kk,
                    ));
                } else {
                    assert((#[trigger] old(self).services_view()[i])@.started());
                }
            }
        }
        Ok(())
    }

    /// Every step of a teardown plan names a distinct started slot, in
    /// ascending slot order, carrying that slot's process identifier and
    /// port; the planned ports are pairwise distinct; and every started slot
    /// is named by some step.
    pub open spec fn shutdown_plan_ok(self, plan: Seq<DestroyStep>) -> bool {
        &&& forall|k: int|
            0 <= k < plan.len() ==> (#[trigger] plan[k]).index < self.services_view().len()
                && self.services_view()[plan[k].index as int]@.started()
                && self.services_view()[plan[k].index as int]@.id->0 == plan[k].id@
                && self.services_view()[plan[k].index as int]@.port->0 == plan[k].port
        &&& forall|k1: int, k2: int|
            0 <= k1 < k2 < plan.len() ==> (#[trigger] plan[k1]).index < (#[trigger] plan[k2]).index
                && plan[k1].port != plan[k2].port
        &&& forall|i: int|
            0 <= i < self.services_view().len() && (#[trigger] self.services_view()[i])@.started()
                ==> destroy_covered_before(plan, plan.len() as int, i)
    }

    /// Plans `shutdown_all`: collects, slot by slot, the process identifier
    /// and the allocated port of every started handle.
    pub fn shutdown_all(&self) -> (r: Vec<DestroyStep>)
        requires
            self.wf(),
        ensures
            self.shutdown_plan_ok(r@),
    {
        let n = self.services.len();
        let mut plan: Vec<DestroyStep> = Vec::new();
        let mut i: usize = 0;
        while i < n
            invariant
                self.wf(),
                n == self.services_view().len(),
                i <= n,
                forall|k: int|
                    0 <= k < plan@.len() ==> (#[trigger] plan@[k]).index < i
                        && self.services_view()[plan@[k].index as int]@.started()
                        && self.services_view()[plan@[k].index as int]@.id->0 == plan@[k].id@
                        && self.services_view()[plan@[k].index as int]@.port->0 == plan@[k].port,
                forall|k1: int, k2: int|
                    0 <= k1 < k2 < plan@.len() ==> (#[trigger] plan@[k1]).index < (
                    #[trigger] plan@[k2]).index && plan@[k1].port != plan@[k2].port,
                forall|ii: int|
                    0 <= ii < i && (#[trigger] self.services_view()[ii])@.started()
                        ==> destroy_covered_before(plan@, plan@.len() as int, ii),
            decreases n - i,
        {
            let started = self.services[i].is_started();
            if started {
                let ghost pre_plan = plan@;
                let id = self.services[i].id.as_ref().unwrap().clone();
                let port = self.services[i].port.unwrap();
                plan.push(DestroyStep { index: i, id, port });
                proof {
                    assert(plan@.len() == pre_plan.len() + 1);
                    assert forall|k1: int, k2: int|
                        0 <= k1 < k2 < plan@.len() implies (#[trigger] plan@[k1]).index < (
                        #[trigger] plan@[k2]).index && plan@[k1].port != plan@[k2].port by {
                        assert(plan@[k1] == pre_plan[k1]);
                        if k2 < pre_plan.len() {
                            assert(plan@[k2] == pre_plan[k2]);
                        } else {
                            let i1 = plan@[k1].index as int;
                            assert((#[trigger] self.services_view()[i1])@.started());
                            assert((#[trigger] self.services_view()[i as int])@.started());
                            assert(self.services_view()[i1]@.port->0 != self.services_view()[i as int]@.port->0);
                        }
                    }
                    assert forall|ii: int|
                        0 <= ii < i + 1 && (#[trigger] self.services_view()[ii])@.started()
                            implies destroy_covered_before(plan@, plan@.len() as int, ii) by {
                        if ii == i {
                            assert((#[trigger] plan@[pre_plan.len() as int]).index == ii);
                        } else {
                            let kk = choose|kk: int|
                                0 <= kk < pre_plan.len() && (#[trigger] pre_plan[kk]).index == ii;
                            assert((#[trigger] plan@[kk]).index == ii);
                        }
                    }
                }
            }
            i = i + 1;
        }
        plan
    }

    /// A pool whose first `c` planned slots have been torn down and whose
    /// other slots still agree with the base pool is well-formed, whatever
    /// its ports are (a torn-down slot constrains nothing).
    proof fn lemma_shutdown_progress_wf(
        base: LanguageServicePool,
        cur: LanguageServicePool,
        plan: Seq<DestroyStep>,
        c: int,
    )
        requires
            base.wf(),
            base.shutdown_plan_ok(plan),
            0 <= c <= plan.len(),
            cur.ports_view() == base.ports_view(),
            cur.services_view().len() == base.services_view().len(),
            forall|kk: int|
                0 <= kk < c ==> (#[trigger] cur.services_view()[plan[kk].index as int])@.fresh(),
            forall|i: int|
                0 <= i < base.services_view().len() && !destroy_covered_before(plan, c, i) ==> (
                #[trigger] cur.services_view()[i])@ == base.services_view()[i]@,
        ensures
            cur.wf(),
    {
        let n = base.services_view().len() as int;
        assert forall|i: int|
            0 <= i < n && (#[trigger] cur.services_view()[i])@.started() implies cur.has_port(
            cur.services_view()[i]@.port->0,
        ) by {
            if destroy_covered_before(plan, c, i) {
                let kk = choose|kk: int| 0 <= kk < c && (#[trigger] plan[kk]).index == i;
                assert(cur.services_view()[i]@.fresh());
                assert(false);
            } else {
                assert((#[trigger] base.services_view()[i])@.started());
                assert(base.has_port(base.services_view()[i]@.port->0));
            }
        }
        assert forall|i: int, j: int|
            0 <= i < j < n && (#[trigger] cur.services_view()[i])@.started() && (
        #[trigger] cur.services_view()[j])@.started() implies cur.services_view()[i]@.port->0
            != cur.services_view()[j]@.port->0 by {
            if destroy_covered_before(plan, c, i) {
                let kk = choose|kk: int| 0 <= kk < c && (#[trigger] plan[kk]).index == i;
                assert(cur.services_view()[i]@.fresh());
                assert(false);
            } else if destroy_covered_before(plan, c, j) {
                let kk = choose|kk: int| 0 <= kk < c && (#[trigger] plan[kk]).index == j;
                assert(cur.services_view()[j]@.fresh());
                assert(false);
            } else {
                assert((#[trigger] base.services_view()[i])@.started());
                assert((#[trigger] base.services_view()[j])@.started());
                assert(base.services_view()[i]@.port->0 != base.services_view()[j]@.port->0);
            }
        }
    }

    /// Applies the teardown outcomes of a planned `shutdown_all`, slot by
    /// slot in plan order, stopping at the first failed teardown, whose
    /// error is returned. Ports are released only when the whole sequence
    /// succeeded: after a partial failure every port stays allocated and the
    /// pool needs manual recovery — the documented no-rollback policy. On
    /// success no handle is started and exactly the planned ports have been
    /// released; a port set that held nothing but the planned ports is then
    /// empty.
    pub fn shutdown_all_apply(
        &mut self,
        plan: &Vec<DestroyStep>,
        outcomes: &Vec<ControlOutcome>,
    ) -> (r: Result<(), PoolError>)
        requires
            old(self).wf(),
            old(self).shutdown_plan_ok(plan@),
        ensures
            final(self).wf(),
            final(self).services_view().len() == old(self).services_view().len(),
            forall|i: int|
                0 <= i < old(self).services_view().len() && !destroy_covered_before(
                    plan@,
                    plan@.len() as int,
                    i,
                ) ==> (#[trigger] final(self).services_view()[i])@ == old(self).services_view()[i]@,
            forall|j: int|
                #[trigger] control_fail_at(outcomes@, plan@.len() as int, j) ==> r is Err && (
                r->Err_0).kind == ErrorKind::ProcessTeardown && (r->Err_0).message@ == control_msg(
                    outcomes@[j],
                ) && final(self).ports_view() == old(self).ports_view() && (forall|k: int|
                    0 <= k < j ==> (#[trigger] final(self).services_view()[plan@[k].index as int])@.fresh())
                    && (forall|k: int|
                    j <= k < plan@.len() ==> (#[trigger] final(self).services_view()[plan@[k].index as int])@
                        == old(self).services_view()[plan@[k].index as int]@),
            controls_ok_upto(outcomes@, plan@.len() as int) && outcomes@.len() < plan@.len()
                ==> r is Err && (r->Err_0).kind == ErrorKind::ProcessTeardown && (
            r->Err_0).message@ == TEARDOWN_CUT_SHORT@ && final(self).ports_view() == old(self).ports_view() && (forall|k: int|
                0 <= k < outcomes@.len() ==> (#[trigger] final(self).services_view()[plan@[k].index as int])@.fresh())
                && (forall|k: int|
                outcomes@.len() <= k < plan@.len() ==> (#[trigger] final(self).services_view()[plan@[k].index as int])@
                    == old(self).services_view()[plan@[k].index as int]@),
            controls_ok_upto(outcomes@, plan@.len() as int) && outcomes@.len() >= plan@.len()
                ==> r is Ok && (forall|i: int|
                0 <= i < old(self).services_view().len() ==> !(#[trigger] final(self).services_view()[i])@.started()) && (forall|q: u32|
                final(self).has_port(q) <==> (old(self).has_port(q) && !destroy_port_before(
                    plan@,
                    plan@.len() as int,
                    q,
                ))) && final(self).ports_view().len() == old(self).ports_view().len()
                - plan@.len() && (old(self).ports_view().len() == plan@.len() ==> final(self).ports_view().len() == 0),
    {
        let m = if plan.len() < outcomes.len() {
            plan.len()
        } else {
            outcomes.len()
        };
        let mut k: usize = 0;
        while k < m
            invariant
                old(self).wf(),
                old(self).shutdown_plan_ok(plan@),
                m == if plan@.len() < outcomes@.len() {
                    plan@.len() as int
                } else {
                    outcomes@.len() as int
                },
                k <= m,
                self.ports_view() == old(self).ports_view(),
                self.services_view().len() == old(self).services_view().len(),
                forall|kk: int| 0 <= kk < k ==> control_ok(outcomes@[kk]),
                forall|kk: int|
                    0 <= kk < k ==> (#[trigger] self.services_view()[plan@[kk].index as int])@.fresh(),
                forall|i: int|
                    0 <= i < self.services_view().len() && !destroy_covered_before(
                        plan@,
                        k as int,
                        i,
                    ) ==> (#[trigger] self.services_view()[i])@ == old(self).services_view()[i]@,
            decreases m - k,
        {
            let step_index = plan[k].index;
            proof {
                if destroy_covered_before(plan@, k as int, step_index as int) {
                    let kk = choose|kk: int|
                        0 <= kk < k && (#[trigger] plan@[kk]).index == step_index as int;
                    assert(plan@[kk].index < plan@[k as int].index);
                    assert(false);
                }
                assert(self.services_view()[step_index as int]@ == old(self).services_view()[step_index as int]@);
                assert(self.services_view()[step_index as int]@.started());
            }
            let ghost svc_pre = self.services_view();
            let s = &mut self.services[step_index];
            let res = s.shutdown(&outcomes[k]);
            proof {
                assert forall|kk: int|
                    0 <= kk < k implies (#[trigger] self.services_view()[plan@[kk].index as int])@.fresh() by {
                    assert(plan@[kk].index < plan@[k as int].index);
                    assert(self.services_view()[plan@[kk].index as int] == svc_pre[plan@[kk].index as int]);
                }
            }
            match res {
                Ok(_) => {
                    proof {
                        assert(control_ok(outcomes@[k as int]));
                        assert((self.services_view()[step_index as int])@.fresh());
                        assert forall|i: int|
                            0 <= i < self.services_view().len() && !destroy_covered_before(
                                plan@,
                                k as int + 1,
                                i,
                            ) implies (#[trigger] self.services_view()[i])@ == old(self).services_view()[i]@ by {
                            if i != step_index as int {
                                if destroy_covered_before(plan@, k as int, i) {
                                    let kk = choose|kk: int|
                                        0 <= kk < k && (#[trigger] plan@[kk]).index == i;
                                    assert(destroy_covered_before(plan@, k as int + 1, i));
                                    assert(false);
                                }
                            } else {
                                assert((#[trigger] plan@[k as int]).index == i);
                                assert(destroy_covered_before(plan@, k as int + 1, i));
                                assert(false);
                            }
                        }
                    }
                },
                Err(e) => {
                    proof {
                        assert(!control_ok(outcomes@[k as int]));
                        assert(control_fail_at(outcomes@, plan@.len() as int, k as int));
                        assert forall|j: int|
                            #[trigger] control_fail_at(
                                outcomes@,
                                plan@.len() as int,
                                j,
                            ) implies j == k as int by {
                            if j < k as int {
                                assert(control_ok(outcomes@[j]));
                            } else if j > k as int {
                                assert(control_ok(outcomes@[k as int]));
                            }
                        }
                        assert forall|i: int|
                            0 <= i < self.services_view().len() && !destroy_covered_before(
                                plan@,
                                k as int,
                                i,
                            ) implies (#[trigger] self.services_view()[i])@ == old(self).services_view()[i]@ by {
                            if i == step_index as int {
                                assert(self.services_view()[i]@ == svc_pre[i]@);
                            }
                        }
                        assert forall|kk: int|
                            k as int <= kk < plan@.len() implies (#[trigger] self.services_view()[plan@[kk].index as int])@
                            == old(self).services_view()[plan@[kk].index as int]@ by {
                            if destroy_covered_before(plan@, k as int, plan@[kk].index as int) {
                                let ll = choose|ll: int|
                                    0 <= ll < k && (#[trigger] plan@[ll]).index == plan@[kk].index;
                                assert(plan@[ll].index < plan@[kk].index);
                                assert(false);
                            }
                        }
                        assert forall|i: int|
                            0 <= i < old(self).services_view().len() && !destroy_covered_before(
                                plan@,
                                plan@.len() as int,
                                i,
                            ) implies (#[trigger] self.services_view()[i])@ == old(self).services_view()[i]@ by {
                            if destroy_covered_before(plan@, k as int, i) {
                                let ll = choose|ll: int|
                                    0 <= ll < k && (#[trigger] plan@[ll]).index == i;
                                assert((#[trigger] plan@[ll]).index == i && 0 <= ll
                                    < plan@.len() as int);
                                assert(false);
                            }
                        }
                        Self::lemma_shutdown_progress_wf(*old(self), *self, plan@, k as int);
                    }
                    return Err(e);
                },
            }
            k = k + 1;
        }
        proof {
            Self::lemma_shutdown_progress_wf(*old(self), *self, plan@, m as int);
        }
        if outcomes.len() < plan.len() {
            proof {
                assert forall|j: int|
                    !(#[trigger] control_fail_at(outcomes@, plan@.len() as int, j)) by {
                    if control_fail_at(outcomes@, plan@.len() as int, j) {
                        assert(control_ok(outcomes@[j]));
                    }
                }
                assert forall|kk: int|
                    outcomes@.len() <= kk < plan@.len() implies (#[trigger] self.services_view()[plan@[kk].index as int])@
                    == old(self).services_view()[plan@[kk].index as int]@ by {
                    if destroy_covered_before(plan@, m as int, plan@[kk].index as int) {
                        let ll = choose|ll: int|
                            0 <= ll < m as int && (#[trigger] plan@[ll]).index == plan@[kk].index;
                        assert(plan@[ll].index < plan@[kk].index);
                        assert(false);
                    }
                }
            }
            return Err(PoolError::new(ErrorKind::ProcessTeardown, TEARDOWN_CUT_SHORT.to_owned()));
        }
        proof {
            assert forall|j: int|
                !(#[trigger] control_fail_at(outcomes@, plan@.len() as int, j)) by {
                if control_fail_at(outcomes@, plan@.len() as int, j) {
                    assert(control_ok(outcomes@[j]));
                }
            }
            assert forall|i: int|
                0 <= i < old(self).services_view().len() implies !(#[trigger] self.services_view()[i])@.started() by {
                if destroy_covered_before(plan@, plan@.len() as int, i) {
                    let kk = choose|kk: int|
                        0 <= kk < plan@.len() && (#[trigger] plan@[kk]).index == i;
                    assert(self.services_view()[i]@.fresh());
                } else {
                    if old(self).services_view()[i]@.started() {
                        assert(destroy_covered_before(plan@, plan@.len() as int, i));
                        assert(false);
                    }
                }
            }
        }
        let ghost cleared = *self;
        let np = plan.len();
        let mut k2: usize = 0;
        while k2 < np
            invariant
                old(self).wf(),
                old(self).shutdown_plan_ok(plan@),
                np == plan@.len(),
                k2 <= np,
                self.ports_wf(),
                self.services_view() == cleared.services_view(),
                cleared.ports_view() == old(self).ports_view(),
                forall|q: u32|
                    self.has_port(q) <==> (old(self).has_port(q) && !destroy_port_before(
                        plan@,
                        k2 as int,
                        q,
                    )),
                self.ports_view().len() == old(self).ports_view().len() - k2,
            decreases np - k2,
        {
            let p = plan[k2].port;
            proof {
                let i2 = plan@[k2 as int].index as int;
                assert((#[trigger] old(self).services_view()[i2])@.started());
                assert(old(self).has_port(old(self).services_view()[i2]@.port->0));
                assert(old(self).has_port(p));
                if destroy_port_before(plan@, k2 as int, p) {
                    let kk = choose|kk: int|
                        0 <= kk < k2 && (#[trigger] plan@[kk]).port == p;
                    assert(plan@[kk].port != plan@[k2 as int].port);
                    assert(false);
                }
                assert(self.has_port(p));
            }
            let ghost before = *self;
            self.release_port(p);
            proof {
                assert forall|q: u32|
                    self.has_port(q) <==> (old(self).has_port(q) && !destroy_port_before(
                        plan@,
                        k2 as int + 1,
                        q,
                    )) by {
                    if q == p {
                        assert((#[trigger] plan@[k2 as int]).port == q);
                        assert(destroy_port_before(plan@, k2 as int + 1, q));
                        assert(!self.has_port(q));
                    } else {
                        assert(self.has_port(q) <==> before.has_port(q));
                        if destroy_port_before(plan@, k2 as int + 1, q) {
                            let kk = choose|kk: int|
                                0 <= kk < k2 + 1 && (#[trigger] plan@[kk]).port == q;
                            assert(kk < k2);
                            assert(destroy_port_before(plan@, k2 as int, q));
                        }
                        if destroy_port_before(plan@, k2 as int, q) {
                            let kk = choose|kk: int|
                                0 <= kk < k2 && (#[trigger] plan@[kk]).port == q;
                            assert(destroy_port_before(plan@, k2 as int + 1, q));
                        }
                    }
                }
            }
            k2 = k2 + 1;
        }
        proof {
            assert forall|i: int|
                0 <= i < self.services_view().len() && (#[trigger] self.services_view()[i])@.started()
                implies self.has_port(self.services_view()[i]@.port->0) by {
                assert(!(#[trigger] cleared.services_view()[i])@.started());
                assert(false);
            }
        }
        Ok(())
    }

    /// Plans `prepare_all_environments`: for every handle in slot order, a
    /// write of the execution script then a write of the preparation script,
    /// cut short with a transport failure at the first handle that is not
    /// started. The planning touches no state: runs of the planned calls are
    /// folded with `rpc_collect`, whose first-failure rule gives the
    /// operation's short-circuit.
    pub fn prepare_all_environments(
        &self,
        language: String,
        preparation: String,
        execution: String,
    ) -> (r: RpcPlan)
        ensures
            (forall|i: int|
                0 <= i < self.services_view().len() ==> (
                #[trigger] self.services_view()[i])@.started()) ==> r.halted is None
                && r.requests@.len() == 2 * self.services_view().len(),
            forall|f: int|
                0 <= f < self.services_view().len() && !((
                #[trigger] self.services_view()[f])@.started()) && (forall|i: int|
                    0 <= i < f ==> (#[trigger] self.services_view()[i])@.started()) ==> r.halted
                    is Some && (r.halted->0).kind == ErrorKind::Transport && r.requests@.len() == 2
                    * f,
            forall|i: int|
                0 <= i < self.services_view().len() && 2 * i + 1 < r.requests@.len() ==> (
                #[trigger] r.requests@[2 * i])@ == (RpcRequestV {
                    port: self.services_view()[i]@.port->0,
                    language: language@,
                    kind: RpcKind::WriteExecution,
                    body: execution@,
                }) && r.requests@[2 * i + 1]@ == (RpcRequestV {
                    port: self.services_view()[i]@.port->0,
                    language: language@,
                    kind: RpcKind::WritePreparation,
                    body: preparation@,
                }),
    {
        let n = self.services.len();
        let mut requests: Vec<crate::rpc::RpcRequest> = Vec::new();
        let mut i: usize = 0;
        while i < n
            invariant
                n == self.services_view().len(),
                i <= n,
                requests@.len() == 2 * i,
                forall|k: int| 0 <= k < i ==> (#[trigger] self.services_view()[k])@.started(),
                forall|k: int|
                    0 <= k < i ==> (#[trigger] requests@[2 * k])@ == (RpcRequestV {
                        port: self.services_view()[k]@.port->0,
                        language: language@,
                        kind: RpcKind::WriteExecution,
                        body: execution@,
                    }) && requests@[2 * k + 1]@ == (RpcRequestV {
                        port: self.services_view()[k]@.port->0,
                        language: language@,
                        kind: RpcKind::WritePreparation,
                        body: preparation@,
                    }),
            decreases n - i,
        {
            let s = &self.services[i];
            match s.write_execution(language.clone(), execution.clone()) {
                Ok(req) => {
                    requests.push(req);
                },
                Err(e) => {
                    return RpcPlan { requests, halted: Some(e) };
                },
            }
            match s.write_preparation(language.clone(), preparation.clone()) {
                Ok(req) => {
                    requests.push(req);
                },
                Err(e) => {
                    // a handle that produced the first write is started, so
                    // the second write cannot be refused
                    assert(false);
                    return RpcPlan { requests, halted: Some(e) };
                },
            }
            i = i + 1;
        }
        RpcPlan { requests, halted: None }
    }
}

/// One in-flight per-request execution: the handle checked out for it (owned
/// by the run, so no other request can touch it), the planned runner calls,
/// and what the restart housekeeping has recorded so far.
pub struct ExecuteRun {
    pub handle: LanguageService,
    pub requests: Vec<crate::rpc::RpcRequest>,
    pub halted: Option<PoolError>,
    pub restart_after: bool,
    pub restart_error: Option<PoolError>,
    pub relaunch_port: Option<u32>,
    pub prior_id: Ghost<Option<Seq<char>>>,
}

impl LanguageServicePool {
    /// What every step of an in-flight run preserves: the checked-out
    /// handle's port, and the port allocated for its relaunch, are allocated
    /// and held by no available started handle.
    pub open spec fn run_ok(self, run: ExecuteRun) -> bool {
        &&& run.handle@.started() ==> self.has_port(run.handle@.port->0) && (forall|i: int|
            0 <= i < self.services_view().len() && (#[trigger] self.services_view()[i])@.started()
                ==> self.services_view()[i]@.port->0 != run.handle@.port->0)
        &&& run.relaunch_port is Some ==> self.has_port(run.relaunch_port->0) && (forall|i: int|
            0 <= i < self.services_view().len() && (#[trigger] self.services_view()[i])@.started()
                ==> self.services_view()[i]@.port->0 != run.relaunch_port->0)
    }

    /// Checks out one handle and plans the per-request sequence "write the
    /// code, execute it"; `None` when no handle is available and the caller
    /// must retry. The run's calls are then performed by the embedding
    /// program, folded with `rpc_collect`, and finished with `restart_step`
    /// and `complete`.
    pub fn execute_code(&mut self, language: String, code: String, restart_after: bool) -> (r:
        Option<ExecuteRun>)
        requires
            old(self).wf(),
        ensures
            final(self).wf(),
            final(self).ports_view() == old(self).ports_view(),
            old(self).services_view().len() == 0 ==> r is None && final(self).services_view()
                == old(self).services_view(),
            old(self).services_view().len() > 0 ==> r is Some && final(self).services_view()
                == old(self).services_view().drop_last() && (r->0).handle == old(self).services_view().last() && final(self).run_ok(r->0) && (r->0).restart_after
                == restart_after && (r->0).restart_error is None && (r->0).relaunch_port is None
                && (r->0).prior_id@ == (r->0).handle@.id,
            old(self).services_view().len() > 0 && (r->0).handle@.started() ==> (r->0).halted
                is None && (r->0).requests@.len() == 2 && (r->0).requests@[0]@ == (RpcRequestV {
                port: (r->0).handle@.port->0,
                language: language@,
                kind: RpcKind::WriteCode,
                body: code@,
            }) && (r->0).requests@[1]@ == (RpcRequestV {
                port: (r->0).handle@.port->0,
                language: language@,
                kind: RpcKind::Execute,
                body: Seq::<char>::empty(),
            }),
            old(self).services_view().len() > 0 && !(r->0).handle@.started() ==> (r->0).halted
                is Some && ((r->0).halted->0).kind == ErrorKind::Transport && (
            r->0).requests@.len() == 0,
    {
        let handle_opt = self.assign_one();
        match handle_opt {
            None => None,
            Some(handle) => {
                proof {
                    if handle@.started() {
                        let pre = old(self).services_view();
                        let last = pre.len() - 1;
                        assert((#[trigger] pre[last as int])@.started());
                        assert(old(self).has_port(handle@.port->0));
                        assert forall|i: int|
                            0 <= i < self.services_view().len() && (
                            #[trigger] self.services_view()[i])@.started()
                            implies self.services_view()[i]@.port->0 != handle@.port->0 by {
                            assert(pre[i] == self.services_view()[i]);
                            assert((#[trigger] pre[i])@.started());
                            assert(pre[i]@.port->0 != pre[last as int]@.port->0);
                        }
                    }
                }
                let ghost pid = handle@.id;
                let mut requests: Vec<crate::rpc::RpcRequest> = Vec::new();
                let mut halted: Option<PoolError> = None;
                match handle.write_code(language.clone(), code) {
                    Ok(req) => {
                        requests.push(req);
                    },
                    Err(e) => {
                        halted = Some(e);
                    },
                }
                if halted.is_none() {
                    match handle.execute_code(language) {
                        Ok(req) => {
                            requests.push(req);
                        },
                        Err(e) => {
                            halted = Some(e);
                        },
                    }
                }
                Some(
                    ExecuteRun {
                        handle,
                        requests,
                        halted,
                        restart_after,
                        restart_error: None,
                        relaunch_port: None,
                        prior_id: Ghost(pid),
                    },
                )
            },
        }
    }

    /// Checks out one handle and plans the full per-request sequence "write
    /// the execution script, write the preparation script, write the code,
    /// execute"; `None` when no handle is available and the caller must
    /// retry. Runs of the planned calls are folded with `rpc_collect`, whose
    /// first-failure rule short-circuits the four steps.
    pub fn prepare_and_execute_code(
        &mut self,
        language: String,
        preparation: String,
        execution: String,
        code: String,
        restart_after: bool,
    ) -> (r: Option<ExecuteRun>)
        requires
            old(self).wf(),
        ensures
            final(self).wf(),
            final(self).ports_view() == old(self).ports_view(),
            old(self).services_view().len() == 0 ==> r is None && final(self).services_view()
                == old(self).services_view(),
            old(self).services_view().len() > 0 ==> r is Some && final(self).services_view()
                == old(self).services_view().drop_last() && (r->0).handle == old(self).services_view().last() && final(self).run_ok(r->0) && (r->0).restart_after
                == restart_after && (r->0).restart_error is None && (r->0).relaunch_port is None
                && (r->0).prior_id@ == (r->0).handle@.id,
            old(self).services_view().len() > 0 && (r->0).handle@.started() ==> (r->0).halted
                is None && (r->0).requests@.len() == 4 && (r->0).requests@[0]@ == (RpcRequestV {
                port: (r->0).handle@.port->0,
                language: language@,
                kind: RpcKind::WriteExecution,
                body: execution@,
            }) && (r->0).requests@[1]@ == (RpcRequestV {
                port: (r->0).handle@.port->0,
                language: language@,
                kind: RpcKind::WritePreparation,
                body: preparation@,
            }) && (r->0).requests@[2]@ == (RpcRequestV {
                port: (r->0).handle@.port->0,
                language: language@,
                kind: RpcKind::WriteCode,
                body: code@,
            }) && (r->0).requests@[3]@ == (RpcRequestV {
                port: (r->0).handle@.port->0,
                language: language@,
                kind: RpcKind::Execute,
                body: Seq::<char>::empty(),
            }),
            old(self).services_view().len() > 0 && !(r->0).handle@.started() ==> (r->0).halted
                is Some && ((r->0).halted->0).kind == ErrorKind::Transport && (
            r->0).requests@.len() == 0,
    {
        let handle_opt = self.assign_one();
        match handle_opt {
            None => None,
            Some(handle) => {
                proof {
                    if handle@.started() {
                        let pre = old(self).services_view();
                        let last = pre.len() - 1;
                        assert((#[trigger] pre[last as int])@.started());
                        assert(old(self).has_port(handle@.port->0));
                        assert forall|i: int|
                            0 <= i < self.services_view().len() && (
                            #[trigger] self.services_view()[i])@.started()
                            implies self.services_view()[i]@.port->0 != handle@.port->0 by {
                            assert(pre[i] == self.services_view()[i]);
                            assert((#[trigger] pre[i])@.started());
                            assert(pre[i]@.port->0 != pre[last as int]@.port->0);
                        }
                    }
                }
                let ghost pid = handle@.id;
                let mut requests: Vec<crate::rpc::RpcRequest> = Vec::new();
                let mut halted: Option<PoolError> = None;
                match handle.write_execution(language.clone(), execution) {
                    Ok(req) => {
                        requests.push(req);
                    },
                    Err(e) => {
                        halted = Some(e);
                    },
                }
                if halted.is_none() {
                    match handle.write_preparation(language.clone(), preparation) {
                        Ok(req) => {
                            requests.push(req);
                        },
                        Err(e) => {
                            halted = Some(e);
                        },
                    }
                }
                if halted.is_none() {
                    match handle.write_code(language.clone(), code) {
                        Ok(req) => {
                            requests.push(req);
                        },
                        Err(e) => {
                            halted = Some(e);
                        },
                    }
                }
                if halted.is_none() {
                    match handle.execute_code(language) {
                        Ok(req) => {
                            requests.push(req);
                        },
                        Err(e) => {
                            halted = Some(e);
                        },
                    }
                }
                Some(
                    ExecuteRun {
                        handle,
                        requests,
                        halted,
                        restart_after,
                        restart_error: None,
                        relaunch_port: None,
                        prior_id: Ghost(pid),
                    },
                )
            },
        }
    }

    /// The housekeeping between the runner calls and the relaunch: when the
    /// run asked for a restart, applies the teardown outcome, releases the
    /// torn-down handle's port and allocates a fresh one. Returns the port
    /// the embedding program must launch the new runner at, or `None` when
    /// no launch is owed — no restart was asked for, or the teardown or the
    /// allocation failed and the failure is recorded in the run.
    ///
    /// A restart of a started handle, once its teardown went through, always
    /// finds a port: the one just released is free, so the arbiter's sweep
    /// cannot come up empty. Only a restart of a handle that was never
    /// started can exhaust the range.
    pub fn restart_step(&mut self, run: &mut ExecuteRun, teardown: &ControlOutcome) -> (r: Option<
        u32,
    >)
        requires
            old(self).wf(),
            old(self).run_ok(*old(run)),
            old(run).restart_error is None,
            old(run).relaunch_port is None,
        ensures
            final(self).wf(),
            final(self).run_ok(*final(run)),
            final(self).services_view() == old(self).services_view(),
            final(run).requests == old(run).requests,
            final(run).halted == old(run).halted,
            final(run).restart_after == old(run).restart_after,
            final(run).prior_id == old(run).prior_id,
            !old(run).restart_after ==> r is None && *final(run) == *old(run) && final(self).ports_view() == old(self).ports_view(),
            old(run).restart_after && old(run).handle@.started() && !control_ok(*teardown) ==> r
                is None && final(run).handle@ == old(run).handle@ && final(run).restart_error
                is Some && (final(run).restart_error->0).kind == ErrorKind::ProcessTeardown && (
            final(run).restart_error->0).message@ == control_msg(*teardown) && final(run).relaunch_port is None && final(self).ports_view() == old(self).ports_view(),
            old(run).restart_after && old(run).handle@.started() && control_ok(*teardown) ==> r
                is Some && final(run).handle@.fresh() && final(run).relaunch_port == Some(r->0)
                && final(run).restart_error is None && PORT_MIN <= r->0 < PORT_MAX && final(self).has_port(r->0) && (r->0 != old(run).handle@.port->0 ==> !final(self).has_port(
                old(run).handle@.port->0,
            )) && (forall|q: u32|
                q != old(run).handle@.port->0 && q != r->0 ==> (final(self).has_port(q) <==> old(self).has_port(q))),
            old(run).restart_after && !old(run).handle@.started() ==> final(run).handle@ == old(run).handle@ && (r is Some ==> final(run).relaunch_port == Some(r->0) && final(run).restart_error is None && PORT_MIN <= r->0 < PORT_MAX && final(self).has_port(r->0)
                && !old(self).has_port(r->0) && (forall|q: u32|
                q != r->0 ==> (final(self).has_port(q) <==> old(self).has_port(q)))) && (r is None
                ==> final(run).relaunch_port is None && final(run).restart_error is Some && (final(run).restart_error->0).kind == ErrorKind::PortsExhausted && final(self).ports_view()
                == old(self).ports_view() && (forall|q: u32|
                PORT_MIN <= q < PORT_MAX ==> final(self).has_port(q))),
    {
        if !run.restart_after {
            return None;
        }
        if run.handle.is_started() {
            let old_port = run.handle.port.unwrap();
            let res = run.handle.shutdown(teardown);
            match res {
                Ok(_) => {
                    self.release_port(old_port);
                    proof {
                        assert forall|i: int|
                            0 <= i < self.services_view().len() && (
                            #[trigger] self.services_view()[i])@.started() implies self.has_port(
                            self.services_view()[i]@.port->0,
                        ) by {
                            assert(old(self).has_port(self.services_view()[i]@.port->0));
                            assert(self.services_view()[i]@.port->0 != old_port);
                        }
                    }
                },
                Err(e) => {
                    run.restart_error = Some(e);
                    return None;
                },
            }
        }
        let ghost pre_gen = *self;
        match self.generate_port() {
            Ok(p) => {
                run.relaunch_port = Some(p);
                proof {
                    assert(self.has_port(p)) by {
                        assert(self.ports_view().last() == p);
                    }
                    assert forall|i: int|
                        0 <= i < self.services_view().len() && (
                        #[trigger] self.services_view()[i])@.started()
                        implies self.services_view()[i]@.port->0 != p by {}
                    if old(run).handle@.started() {
                        let op = old(run).handle@.port->0;
                        assert forall|q: u32|
                            q != op && q != p implies (self.has_port(q) <==> old(self).has_port(
                                q,
                            )) by {
                            if self.has_port(q) {
                                let k = choose|k: int|
                                    0 <= k < self.ports_view().len() && self.ports_view()[k] == q;
                                assert(k < pre_gen.ports_view().len());
                                assert(pre_gen.ports_view()[k] == q);
                                assert(pre_gen.has_port(q));
                            }
                            if old(self).has_port(q) {
                                assert(pre_gen.has_port(q));
                                let k = choose|k: int|
                                    0 <= k < pre_gen.ports_view().len() && pre_gen.ports_view()[k]
                                        == q;
                                assert(self.ports_view()[k] == q);
                            }
                        }
                        if p != op && self.has_port(op) {
                            let k = choose|k: int|
                                0 <= k < self.ports_view().len() && self.ports_view()[k] == op;
                            assert(k < pre_gen.ports_view().len());
                            assert(pre_gen.ports_view()[k] == op);
                            assert(pre_gen.has_port(op));
                            assert(false);
                        }
                    } else {
                        assert forall|q: u32|
                            q != p implies (self.has_port(q) <==> old(self).has_port(q)) by {
                            if self.has_port(q) {
                                let k = choose|k: int|
                                    0 <= k < self.ports_view().len() && self.ports_view()[k] == q;
                                assert(k < pre_gen.ports_view().len());
                                assert(pre_gen.ports_view()[k] == q);
                                assert(pre_gen.has_port(q));
                            }
                            if old(self).has_port(q) {
                                let k = choose|k: int|
                                    0 <= k < pre_gen.ports_view().len() && pre_gen.ports_view()[k]
                                        == q;
                                assert(self.ports_view()[k] == q);
                            }
                        }
                        assert(!old(self).has_port(p));
                    }
                }
                Some(p)
            },
            Err(e) => {
                proof {
                    if old(run).handle@.started() {
                        // the teardown went through on this path, so the
                        // handle's old port was just released and lies in the
                        // range: the arbiter's sweep cannot have missed it
                        let op = old(run).handle@.port->0;
                        assert(old(self).has_port(op));
                        let k = choose|k: int|
                            0 <= k < old(self).ports_view().len() && old(self).ports_view()[k]
                                == op;
                        assert(PORT_MIN <= old(self).ports_view()[k] < PORT_MAX);
                        assert(!pre_gen.has_port(op));
                        assert(pre_gen.has_port(op));
                        assert(false);
                    } else {
                        assert forall|q: u32| PORT_MIN <= q < PORT_MAX implies self.has_port(
                            q,
                        ) by {
                            assert(pre_gen.has_port(q));
                            assert(self.ports_view() == pre_gen.ports_view());
                        }
                    }
                }
                run.restart_error = Some(e);
                None
            },
        }
    }

    /// Finishes a per-request run: applies the relaunch outcome when one is
    /// owed, returns the handle to the pool unconditionally, and surfaces
    /// the first failure among the runner calls (`rpc`, folded by
    /// `rpc_collect`), the restart housekeeping and the relaunch — or the
    /// captured output when everything went through. After a restart that
    /// went through, the returned handle runs under the relaunch's process
    /// identifier: whenever the provider hands out a fresh identifier, the
    /// handle's identity differs from the one it had when it was checked
    /// out.
    pub fn complete(
        &mut self,
        run: ExecuteRun,
        rpc: Result<String, PoolError>,
        launch: Option<&LaunchOutcome>,
    ) -> (r: Result<String, PoolError>)
        requires
            old(self).wf(),
            old(self).run_ok(run),
            launch is Some <==> run.relaunch_port is Some,
            run.relaunch_port is Some ==> !run.handle@.started(),
        ensures
            final(self).wf(),
            final(self).ports_view() == old(self).ports_view(),
            final(self).services_view().len() == old(self).services_view().len() + 1,
            forall|i: int|
                0 <= i < old(self).services_view().len() ==> final(self).services_view()[i] == old(self).services_view()[i],
            run.relaunch_port is Some && launch_ok(*(launch->0)) ==> final(self).services_view().last()@ == (HandleView {
                id: Option::Some(launch_id(*(launch->0))),
                port: Option::Some(run.relaunch_port->0),
                paused: run.handle@.paused,
            }),
            run.relaunch_port is Some && !launch_ok(*(launch->0)) ==> final(self).services_view().last()@ == run.handle@,
            run.relaunch_port is None ==> final(self).services_view().last()@ == run.handle@,
            rpc is Err ==> r is Err && same_error(r->Err_0, rpc->Err_0),
            rpc is Ok && run.restart_error is Some ==> r is Err && same_error(
                r->Err_0,
                run.restart_error->0,
            ),
            rpc is Ok && run.restart_error is None && run.relaunch_port is Some && !launch_ok(
                *(launch->0),
            ) ==> r is Err && (r->Err_0).kind == ErrorKind::ProcessLaunch && (r->Err_0).message@
                == launch_msg(*(launch->0)),
            rpc is Ok && run.restart_error is None && (run.relaunch_port is None || launch_ok(
                *(launch->0),
            )) ==> r is Ok && (r->Ok_0)@ == (rpc->Ok_0)@,
            run.relaunch_port is Some && launch_ok(*(launch->0)) ==> final(self).services_view().last()@.started(),
            run.relaunch_port is Some && launch_ok(*(launch->0)) && Option::Some(
                launch_id(*(launch->0)),
            ) != run.prior_id@ ==> final(self).services_view().last()@.id != run.prior_id@,
    {
        let ExecuteRun {
            handle,
            requests,
            halted,
            restart_after,
            restart_error,
            relaunch_port,
            prior_id,
        } = run;
        let mut handle = handle;
        let mut launch_error: Option<PoolError> = None;
        match launch {
            Option::Some(o) => {
                let p = relaunch_port.unwrap();
                match handle.start(p, o) {
                    Ok(_) => {},
                    Err(e) => {
                        launch_error = Some(e);
                    },
                }
            },
            Option::None => {},
        }
        self.release(handle);
        match rpc {
            Err(e) => Err(e),
            Ok(out) => {
                match restart_error {
                    Option::Some(e) => Err(e),
                    Option::None => {
                        match launch_error {
                            Option::Some(e) => Err(e),
                            Option::None => Ok(out),
                        }
                    },
                }
            },
        }
    }
}

/// Checking a handle out and returning it at once restores the available
/// stack: with the stack `s` not empty, what `assign_one` leaves
/// (`s.drop_last()`) with the handle it returned (`s.last()`) pushed back is
/// `s` again — so `release` after `assign_one` restores the available set
/// and its size.
pub proof fn lemma_release_after_assign(s: Seq<LanguageService>)
    requires
        s.len() > 0,
    ensures
        s.drop_last().push(s.last()) == s,
{
    assert(s.drop_last().push(s.last()) =~= s);
}

/// What the embedding HTTP layer shares across requests: the pool.
pub struct AppData {
    pub runner: LanguageServicePool,
}

impl AppData {
    pub fn new(n_of_services: usize) -> (d: AppData)
        ensures
            d.runner.wf(),
            d.runner.services_view().len() == n_of_services,
            forall|i: int|
                0 <= i < n_of_services ==> (#[trigger] d.runner.services_view()[i])@.fresh(),
            d.runner.ports_view().len() == 0,
    {
        AppData { runner: LanguageServicePool::new(n_of_services) }
    }
}

} // verus!
