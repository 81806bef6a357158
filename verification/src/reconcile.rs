//! The supervisor's reload decisions.
//!
//! A listener is identified by its (network name, listen address) pair.
//! On reload the running set is reconciled against the expected set: a
//! plan says which listeners to stop and which to start, and stale
//! listeners are always stopped before new ones are started, so a listen
//! address can move between networks atomically.

use vstd::prelude::*;
use crate::bytes::bytes_eq;
use crate::config::{ListenEntry4, ListenEntry6};
use crate::ip::IpAddr;

verus! {

broadcast use crate::bytes::lemma_vec_u8_deep_view;

/// The identity of one listener task.
pub struct ListenerId {
    pub network: Vec<u8>,
    pub ip: IpAddr,
}

#[verifier::ext_equal]
pub struct ListenerIdView {
    pub network: Seq<u8>,
    pub ip: IpAddr,
}

impl DeepView for ListenerId {
    type V = ListenerIdView;

    open spec fn deep_view(&self) -> ListenerIdView {
        ListenerIdView { network: self.network@, ip: self.ip }
    }
}

pub open spec fn spec_ids_contain(ids: Seq<ListenerIdView>, id: ListenerIdView) -> bool {
    exists|k: int| 0 <= k < ids.len() && ids[k] == id
}

fn ids_contain(ids: &Vec<ListenerId>, network: &[u8], ip: &IpAddr) -> (r: bool)
    ensures
        r == spec_ids_contain(ids.deep_view(), ListenerIdView { network: network@, ip: *ip }),
{
    let mut k: usize = 0;
    while k < ids.len()
        invariant
            0 <= k <= ids@.len(),
            forall|t: int|
                0 <= t < k ==> ids.deep_view()[t] != (ListenerIdView {
                    network: network@,
                    ip: *ip,
                }),
        decreases ids@.len() - k,
    {
        proof {
            assert(ids.deep_view()[k as int] == ids@[k as int].deep_view());
        }
        if bytes_eq(ids[k].network.as_slice(), network) && ids[k].ip == *ip {
            proof {
                assert(spec_ids_contain(
                    ids.deep_view(),
                    ListenerIdView { network: network@, ip: *ip },
                ));
            }
            return true;
        }
        k = k + 1;
    }
    proof {
        let idv = ListenerIdView { network: network@, ip: *ip };
        if spec_ids_contain(ids.deep_view(), idv) {
            let t = choose|t: int| 0 <= t < ids.deep_view().len() && ids.deep_view()[t] == idv;
        }
    }
    false
}

/// The running identities that are no longer expected, in running order.
pub open spec fn spec_to_stop(running: Seq<ListenerIdView>, expected: Seq<ListenerIdView>) -> Seq<
    ListenerIdView,
>
    decreases running.len(),
{
    if running.len() == 0 {
        Seq::empty()
    } else {
        (if spec_ids_contain(expected, running[0]) {
            Seq::empty()
        } else {
            seq![running[0]]
        }) + spec_to_stop(running.drop_first(), expected)
    }
}

/// The expected identities that are not yet running, first occurrences
/// only, in expected order.
pub open spec fn spec_to_start(
    expected: Seq<ListenerIdView>,
    running: Seq<ListenerIdView>,
    k: int,
) -> Seq<ListenerIdView>
    decreases expected.len() - k,
{
    if k < 0 || k >= expected.len() {
        Seq::empty()
    } else {
        (if !spec_ids_contain(running, expected[k]) && !spec_ids_contain(
            expected.take(k),
            expected[k],
        ) {
            seq![expected[k]]
        } else {
            Seq::empty()
        }) + spec_to_start(expected, running, k + 1)
    }
}

fn copy_id(id: &ListenerId) -> (r: ListenerId)
    ensures
        r.deep_view() == id.deep_view(),
{
    ListenerId { network: vstd::slice::slice_to_vec(id.network.as_slice()), ip: id.ip }
}

/// Compute the reload plan: which running listeners to stop and which
/// expected listeners to start.  The identities to stop are exactly the
/// running ones absent from the expected set; the identities to start
/// are exactly the expected ones absent from the running set, once each.
pub fn reconcile_plan(running: &Vec<ListenerId>, expected: &Vec<ListenerId>) -> (r: (
    Vec<ListenerId>,
    Vec<ListenerId>,
))
    ensures
        r.0.deep_view() == spec_to_stop(running.deep_view(), expected.deep_view()),
        r.1.deep_view() == spec_to_start(expected.deep_view(), running.deep_view(), 0),
{
    let ghost rv = running.deep_view();
    let ghost ev = expected.deep_view();
    let mut to_stop: Vec<ListenerId> = Vec::new();
    let mut k: usize = 0;
    proof {
        assert(rv.skip(0) =~= rv);
        assert(to_stop.deep_view() + spec_to_stop(rv.skip(0), ev) =~~= spec_to_stop(rv, ev));
    }
    while k < running.len()
        invariant
            0 <= k <= running@.len(),
            rv == running.deep_view(),
            ev == expected.deep_view(),
            to_stop.deep_view() + spec_to_stop(rv.skip(k as int), ev) == spec_to_stop(rv, ev),
        decreases running@.len() - k,
    {
        let ghost pre = to_stop.deep_view();
        proof {
            assert(rv.skip(k as int).drop_first() =~= rv.skip(k + 1));
            assert(rv.skip(k as int)[0] == rv[k as int]);
            assert(rv[k as int] == running@[k as int].deep_view());
        }
        if !ids_contain(expected, running[k].network.as_slice(), &running[k].ip) {
            to_stop.push(copy_id(&running[k]));
            proof {
                assert(to_stop.deep_view() =~~= pre + seq![rv[k as int]]);
            }
        }
        proof {
            assert(to_stop.deep_view() + spec_to_stop(rv.skip(k + 1), ev) =~~= spec_to_stop(
                rv,
                ev,
            ));
        }
        k = k + 1;
    }
    proof {
        assert(rv.skip(running@.len() as int) =~= Seq::<ListenerIdView>::empty());
        assert(to_stop.deep_view() + Seq::<ListenerIdView>::empty() =~~= to_stop.deep_view());
    }

    let mut to_start: Vec<ListenerId> = Vec::new();
    let mut j: usize = 0;
    proof {
        assert(to_start.deep_view() + spec_to_start(ev, rv, 0) =~~= spec_to_start(ev, rv, 0));
    }
    while j < expected.len()
        invariant
            0 <= j <= expected@.len(),
            rv == running.deep_view(),
            ev == expected.deep_view(),
            to_start.deep_view() + spec_to_start(ev, rv, j as int) == spec_to_start(ev, rv, 0),
        decreases expected@.len() - j,
    {
        let ghost pre = to_start.deep_view();
        proof {
            assert(ev[j as int] == expected@[j as int].deep_view());
        }
        let seen = seen_before(expected, j);
        if !ids_contain(running, expected[j].network.as_slice(), &expected[j].ip) && !seen {
            to_start.push(copy_id(&expected[j]));
            proof {
                assert(to_start.deep_view() =~~= pre + seq![ev[j as int]]);
            }
        }
        proof {
            assert(to_start.deep_view() + spec_to_start(ev, rv, j + 1) =~~= spec_to_start(
                ev,
                rv,
                0,
            ));
        }
        j = j + 1;
    }
    proof {
        assert(to_start.deep_view() + Seq::<ListenerIdView>::empty() =~~= to_start.deep_view());
    }
    (to_stop, to_start)
}

/// Whether the identity at `j` already occurred earlier in the list.
fn seen_before(ids: &Vec<ListenerId>, j: usize) -> (r: bool)
    requires
        j < ids@.len(),
    ensures
        r == spec_ids_contain(ids.deep_view().take(j as int), ids.deep_view()[j as int]),
{
    let mut t: usize = 0;
    let ghost idv = ids.deep_view()[j as int];
    proof {
        assert(idv == ids@[j as int].deep_view());
    }
    while t < j
        invariant
            0 <= t <= j < ids@.len(),
            idv == ids.deep_view()[j as int],
            forall|u: int| 0 <= u < t ==> ids.deep_view()[u] != idv,
        decreases j - t,
    {
        proof {
            assert(ids.deep_view()[t as int] == ids@[t as int].deep_view());
        }
        if bytes_eq(ids[t].network.as_slice(), ids[j].network.as_slice()) && ids[t].ip == ids[j].ip
         {
            proof {
                assert(ids.deep_view().take(j as int)[t as int] == idv);
            }
            return true;
        }
        t = t + 1;
    }
    proof {
        if spec_ids_contain(ids.deep_view().take(j as int), idv) {
            let u = choose|u: int|
                0 <= u < j && ids.deep_view().take(j as int)[u] == idv;
            assert(ids.deep_view()[u] == idv);
        }
    }
    false
}

/// A reload that produces an identical listen plan creates and destroys
/// no listener: when the running and expected identity sets coincide,
/// both halves of the plan are empty.
pub proof fn lemma_identical_plan_is_noop(running: Seq<ListenerIdView>, expected: Seq<ListenerIdView>)
    requires
        forall|k: int| 0 <= k < running.len() ==> spec_ids_contain(expected, #[trigger] running[k]),
        forall|k: int| 0 <= k < expected.len() ==> spec_ids_contain(running, #[trigger] expected[k]),
    ensures
        spec_to_stop(running, expected).len() == 0,
        spec_to_start(expected, running, 0).len() == 0,
{
    lemma_to_stop_all_expected(running, expected);
    lemma_to_start_all_running(expected, running, 0);
}

proof fn lemma_to_stop_all_expected(running: Seq<ListenerIdView>, expected: Seq<ListenerIdView>)
    requires
        forall|k: int| 0 <= k < running.len() ==> spec_ids_contain(expected, #[trigger] running[k]),
    ensures
        spec_to_stop(running, expected).len() == 0,
    decreases running.len(),
{
    if running.len() > 0 {
        assert(spec_ids_contain(expected, running[0]));
        assert(forall|k: int|
            0 <= k < running.drop_first().len() ==> spec_ids_contain(
                expected,
                #[trigger] running.drop_first()[k],
            ));
        lemma_to_stop_all_expected(running.drop_first(), expected);
    }
}

proof fn lemma_to_start_all_running(expected: Seq<ListenerIdView>, running: Seq<ListenerIdView>, k: int)
    requires
        forall|t: int| 0 <= t < expected.len() ==> spec_ids_contain(running, #[trigger] expected[t]),
    ensures
        spec_to_start(expected, running, k).len() == 0,
    decreases expected.len() - k,
{
    if 0 <= k < expected.len() {
        assert(spec_ids_contain(running, expected[k]));
        lemma_to_start_all_running(expected, running, k + 1);
    }
}

// --- expanding listen plans into listener identities ---------------------

/// The identities of one network's IPv4 listen plan entry.
pub open spec fn spec_ids_of_entry4(e: crate::config::ListenEntry4View) -> Seq<ListenerIdView> {
    Seq::new(e.addrs.len(), |k: int| ListenerIdView { network: e.network, ip: IpAddr::V4(e.addrs[k]) })
}

pub open spec fn spec_expand_plan4(plan: Seq<crate::config::ListenEntry4View>) -> Seq<ListenerIdView>
    decreases plan.len(),
{
    if plan.len() == 0 {
        Seq::empty()
    } else {
        spec_ids_of_entry4(plan[0]) + spec_expand_plan4(plan.drop_first())
    }
}

/// The addresses of one IPv4 plan entry as listener identities.
fn ids_of_entry4(e: &ListenEntry4) -> (r: Vec<ListenerId>)
    ensures
        r.deep_view() == spec_ids_of_entry4(e.deep_view()),
{
    let mut r: Vec<ListenerId> = Vec::new();
    let mut t: usize = 0;
    while t < e.addrs.len()
        invariant
            0 <= t <= e.addrs@.len(),
            r@.len() == t,
            forall|u: int|
                0 <= u < t ==> (#[trigger] r@[u]).deep_view() == (ListenerIdView {
                    network: e.network@,
                    ip: IpAddr::V4(e.addrs@[u]),
                }),
        decreases e.addrs@.len() - t,
    {
        r.push(ListenerId { network: vstd::slice::slice_to_vec(e.network.as_slice()), ip: IpAddr::V4(e.addrs[t]) });
        t = t + 1;
    }
    proof {
        assert forall|u: int| 0 <= u < e.addrs@.len() implies r.deep_view()[u]
            == spec_ids_of_entry4(e.deep_view())[u] by {
            assert(r.deep_view()[u] == r@[u].deep_view());
        }
        assert(r.deep_view() =~~= spec_ids_of_entry4(e.deep_view()));
    }
    r
}

/// Move every identity of `src` onto the end of `dst`.
fn append_ids(dst: &mut Vec<ListenerId>, src: &mut Vec<ListenerId>)
    ensures
        final(dst).deep_view() == old(dst).deep_view() + old(src).deep_view(),
{
    dst.append(src);
    proof {
        assert forall|u: int| 0 <= u < dst@.len() implies dst.deep_view()[u] == (old(
            dst,
        ).deep_view() + old(src).deep_view())[u] by {
            assert(dst.deep_view()[u] == dst@[u].deep_view());
            if u < old(dst)@.len() {
                assert(old(dst).deep_view()[u] == old(dst)@[u].deep_view());
            } else {
                assert(old(src).deep_view()[u - old(dst)@.len()] == old(src)@[u - old(
                    dst,
                )@.len()].deep_view());
            }
        }
        assert(dst.deep_view() =~~= old(dst).deep_view() + old(src).deep_view());
    }
}

/// The listener identities an IPv4 listen plan asks for, in plan order.
pub fn expand_plan4(plan: &Vec<ListenEntry4>) -> (r: Vec<ListenerId>)
    ensures
        r.deep_view() == spec_expand_plan4(plan.deep_view()),
{
    let ghost pv = plan.deep_view();
    let mut out: Vec<ListenerId> = Vec::new();
    let mut k: usize = 0;
    proof {
        assert(pv.skip(0) =~= pv);
        assert(out.deep_view() + spec_expand_plan4(pv.skip(0)) =~~= spec_expand_plan4(pv));
    }
    while k < plan.len()
        invariant
            0 <= k <= plan@.len(),
            pv == plan.deep_view(),
            out.deep_view() + spec_expand_plan4(pv.skip(k as int)) == spec_expand_plan4(pv),
        decreases plan@.len() - k,
    {
        proof {
            assert(pv.skip(k as int).drop_first() =~= pv.skip(k + 1));
            assert(pv.skip(k as int)[0] == pv[k as int]);
            assert(pv[k as int] == plan@[k as int].deep_view());
        }
        let mut ids = ids_of_entry4(&plan[k]);
        append_ids(&mut out, &mut ids);
        proof {
            assert(out.deep_view() + spec_expand_plan4(pv.skip(k + 1)) =~~= spec_expand_plan4(pv));
        }
        k = k + 1;
    }
    proof {
        assert(pv.skip(plan@.len() as int) =~= Seq::<crate::config::ListenEntry4View>::empty());
        assert(out.deep_view() + Seq::<ListenerIdView>::empty() =~~= out.deep_view());
    }
    out
}

/// The identities of one network's IPv6 listen plan entry.
pub open spec fn spec_ids_of_entry6(e: crate::config::ListenEntry6View) -> Seq<ListenerIdView> {
    Seq::new(e.addrs.len(), |k: int| ListenerIdView { network: e.network, ip: IpAddr::V6(e.addrs[k]) })
}

pub open spec fn spec_expand_plan6(plan: Seq<crate::config::ListenEntry6View>) -> Seq<ListenerIdView>
    decreases plan.len(),
{
    if plan.len() == 0 {
        Seq::empty()
    } else {
        spec_ids_of_entry6(plan[0]) + spec_expand_plan6(plan.drop_first())
    }
}

/// The addresses of one IPv6 plan entry as listener identities.
fn ids_of_entry6(e: &ListenEntry6) -> (r: Vec<ListenerId>)
    ensures
        r.deep_view() == spec_ids_of_entry6(e.deep_view()),
{
    let mut r: Vec<ListenerId> = Vec::new();
    let mut t: usize = 0;
    while t < e.addrs.len()
        invariant
            0 <= t <= e.addrs@.len(),
            r@.len() == t,
            forall|u: int|
                0 <= u < t ==> (#[trigger] r@[u]).deep_view() == (ListenerIdView {
                    network: e.network@,
                    ip: IpAddr::V6(e.addrs@[u]),
                }),
        decreases e.addrs@.len() - t,
    {
        r.push(ListenerId { network: vstd::slice::slice_to_vec(e.network.as_slice()), ip: IpAddr::V6(e.addrs[t]) });
        t = t + 1;
    }
    proof {
        assert forall|u: int| 0 <= u < e.addrs@.len() implies r.deep_view()[u]
            == spec_ids_of_entry6(e.deep_view())[u] by {
            assert(r.deep_view()[u] == r@[u].deep_view());
        }
        assert(r.deep_view() =~~= spec_ids_of_entry6(e.deep_view()));
    }
    r
}

/// The listener identities an IPv6 listen plan asks for, in plan order.
pub fn expand_plan6(plan: &Vec<ListenEntry6>) -> (r: Vec<ListenerId>)
    ensures
        r.deep_view() == spec_expand_plan6(plan.deep_view()),
{
    let ghost pv = plan.deep_view();
    let mut out: Vec<ListenerId> = Vec::new();
    let mut k: usize = 0;
    proof {
        assert(pv.skip(0) =~= pv);
        assert(out.deep_view() + spec_expand_plan6(pv.skip(0)) =~~= spec_expand_plan6(pv));
    }
    while k < plan.len()
        invariant
            0 <= k <= plan@.len(),
            pv == plan.deep_view(),
            out.deep_view() + spec_expand_plan6(pv.skip(k as int)) == spec_expand_plan6(pv),
        decreases plan@.len() - k,
    {
        proof {
            assert(pv.skip(k as int).drop_first() =~= pv.skip(k + 1));
            assert(pv.skip(k as int)[0] == pv[k as int]);
            assert(pv[k as int] == plan@[k as int].deep_view());
        }
        let mut ids = ids_of_entry6(&plan[k]);
        append_ids(&mut out, &mut ids);
        proof {
            assert(out.deep_view() + spec_expand_plan6(pv.skip(k + 1)) =~~= spec_expand_plan6(pv));
        }
        k = k + 1;
    }
    proof {
        assert(pv.skip(plan@.len() as int) =~= Seq::<crate::config::ListenEntry6View>::empty());
        assert(out.deep_view() + Seq::<ListenerIdView>::empty() =~~= out.deep_view());
    }
    out
}

} // verus!
