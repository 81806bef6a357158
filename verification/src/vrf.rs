//! The decision logic of the VRF lookup.
//!
//! Finding the VRF a host address belongs to walks netlink data: the
//! address table gives the interface index of the address, the link's
//! attributes give its controller, and the controller's attributes say
//! whether it is a VRF and what it is called.  The scans over those
//! tables are verified here over plain records; the netlink transport
//! itself stays outside the library.

use vstd::prelude::*;
use crate::ip::IpAddr;

verus! {

broadcast use crate::bytes::lemma_vec_u8_deep_view;

/// One entry of the host's address table: an address and the index of
/// the interface that carries it.
#[derive(Clone, Debug)]
pub struct AddrRecord {
    pub ip: IpAddr,
    pub index: u32,
}

/// What one link-attribute record can say that the lookup reads.
pub enum LinkAttr {
    /// The index of the controlling interface.
    Controller(u32),
    /// The interface's name.
    IfName(Vec<u8>),
    /// The link-info list; `true` marks the VRF kind.
    Info(Vec<bool>),
    /// Anything the lookup does not read.
    Other,
}

pub enum LinkAttrView {
    Controller(u32),
    IfName(Seq<u8>),
    Info(Seq<bool>),
    Other,
}

impl DeepView for LinkAttr {
    type V = LinkAttrView;

    open spec fn deep_view(&self) -> LinkAttrView {
        match self {
            LinkAttr::Controller(v) => LinkAttrView::Controller(*v),
            LinkAttr::IfName(n) => LinkAttrView::IfName(n@),
            LinkAttr::Info(i) => LinkAttrView::Info(i@),
            LinkAttr::Other => LinkAttrView::Other,
        }
    }
}

/// The index of the first interface that carries `ip`, if any.
pub open spec fn spec_address_index_at(addrs: Seq<AddrRecord>, ip: IpAddr, k: int) -> Option<u32>
    decreases addrs.len() - k,
{
    if k < 0 || k >= addrs.len() {
        None
    } else if addrs[k].ip == ip {
        Some(addrs[k].index)
    } else {
        spec_address_index_at(addrs, ip, k + 1)
    }
}

pub open spec fn spec_address_index(addrs: Seq<AddrRecord>, ip: IpAddr) -> Option<u32> {
    spec_address_index_at(addrs, ip, 0)
}

/// Find the interface index an address lives on.
pub fn find_address_index(addrs: &Vec<AddrRecord>, ip: &IpAddr) -> (r: Option<u32>)
    ensures
        r == spec_address_index(addrs@, *ip),
{
    let mut k: usize = 0;
    while k < addrs.len()
        invariant
            0 <= k <= addrs@.len(),
            spec_address_index_at(addrs@, *ip, 0) == spec_address_index_at(addrs@, *ip, k as int),
        decreases addrs@.len() - k,
    {
        if addrs[k].ip == *ip {
            return Some(addrs[k].index);
        }
        k = k + 1;
    }
    None
}

/// The first controller index among a link's attributes, if any.
pub open spec fn spec_controller_at(attrs: Seq<LinkAttrView>, k: int) -> Option<u32>
    decreases attrs.len() - k,
{
    if k < 0 || k >= attrs.len() {
        None
    } else if attrs[k] matches LinkAttrView::Controller(v) {
        Some(attrs[k]->Controller_0)
    } else {
        spec_controller_at(attrs, k + 1)
    }
}

pub open spec fn spec_controller(attrs: Seq<LinkAttrView>) -> Option<u32> {
    spec_controller_at(attrs, 0)
}

/// Find the controlling interface of a link.
pub fn find_controller(attrs: &Vec<LinkAttr>) -> (r: Option<u32>)
    ensures
        r == spec_controller(attrs.deep_view()),
{
    let mut k: usize = 0;
    while k < attrs.len()
        invariant
            0 <= k <= attrs@.len(),
            spec_controller_at(attrs.deep_view(), 0) == spec_controller_at(
                attrs.deep_view(),
                k as int,
            ),
        decreases attrs@.len() - k,
    {
        proof {
            assert(attrs.deep_view()[k as int] == attrs@[k as int].deep_view());
        }
        match &attrs[k] {
            LinkAttr::Controller(v) => {
                return Some(*v);
            },
            _ => {
            },
        }
        k = k + 1;
    }
    None
}

/// Whether one link-info attribute marks the VRF kind.
pub open spec fn spec_attr_marks_vrf(a: LinkAttrView) -> bool {
    a is Info && (exists|j: int| 0 <= j < a->Info_0.len() && #[trigger] a->Info_0[j])
}

/// Whether some link-info list among the attributes marks the VRF kind.
pub open spec fn spec_is_vrf(attrs: Seq<LinkAttrView>) -> bool {
    exists|k: int| 0 <= k < attrs.len() && spec_attr_marks_vrf(#[trigger] attrs[k])
}

/// The last interface name among the attributes, or the empty name.
pub open spec fn spec_last_ifname(attrs: Seq<LinkAttrView>) -> Seq<u8>
    decreases attrs.len(),
{
    if attrs.len() == 0 {
        Seq::empty()
    } else if attrs.last() matches LinkAttrView::IfName(n) {
        attrs.last()->IfName_0
    } else {
        spec_last_ifname(attrs.drop_last())
    }
}

/// The name of a link when it is a VRF: its last recorded interface
/// name (or the empty name) exactly when some link-info entry marks the
/// VRF kind.
pub fn vrf_name(attrs: &Vec<LinkAttr>) -> (r: Option<Vec<u8>>)
    ensures
        r is Some <==> spec_is_vrf(attrs.deep_view()),
        r matches Some(n) ==> n@ == spec_last_ifname(attrs.deep_view()),
{
    let ghost av = attrs.deep_view();
    let mut name: Vec<u8> = Vec::new();
    let mut is_vrf = false;
    let mut k: usize = 0;
    proof {
        assert(av.take(0) =~= Seq::<LinkAttrView>::empty());
    }
    while k < attrs.len()
        invariant
            0 <= k <= attrs@.len(),
            av == attrs.deep_view(),
            name@ == spec_last_ifname(av.take(k as int)),
            is_vrf == spec_is_vrf(av.take(k as int)),
        decreases attrs@.len() - k,
    {
        proof {
            assert(av[k as int] == attrs@[k as int].deep_view());
            assert(av.take(k + 1).drop_last() =~= av.take(k as int));
            assert(av.take(k + 1).last() == av[k as int]);
        }
        match &attrs[k] {
            LinkAttr::IfName(n) => {
                name = vstd::slice::slice_to_vec(n.as_slice());
            },
            LinkAttr::Info(info) => {
                let mut j: usize = 0;
                while j < info.len() && !info[j]
                    invariant
                        0 <= j <= info@.len(),
                        forall|t: int| 0 <= t < j ==> !info@[t],
                    decreases info@.len() - j,
                {
                    j = j + 1;
                }
                if j < info.len() {
                    is_vrf = true;
                    proof {
                        assert(av[k as int] == LinkAttrView::Info(info@));
                        assert(av[k as int]->Info_0[j as int]);
                        assert(spec_attr_marks_vrf(av[k as int]));
                    }
                } else {
                    proof {
                        assert(av[k as int] == LinkAttrView::Info(info@));
                        assert(!spec_attr_marks_vrf(av[k as int])) by {
                            if exists|t: int|
                                0 <= t < av[k as int]->Info_0.len() && #[trigger] av[
                                    k as int
                                ]->Info_0[t] {
                                let t = choose|t: int|
                                    0 <= t < av[k as int]->Info_0.len() && #[trigger] av[
                                        k as int
                                    ]->Info_0[t];
                                assert(!info@[t]);
                            }
                        }
                    }
                }
            },
            _ => {
            },
        }
        proof {
            match av[k as int] {
                LinkAttrView::Info(_) => {
                },
                _ => {
                    assert(!spec_attr_marks_vrf(av[k as int]));
                },
            }
            lemma_is_vrf_step(av, k as int, is_vrf);
        }
        k = k + 1;
    }
    proof {
        assert(av.take(attrs@.len() as int) =~= av);
    }
    if is_vrf {
        Some(name)
    } else {
        None
    }
}

/// One scan step preserves the VRF flag invariant.
proof fn lemma_is_vrf_step(av: Seq<LinkAttrView>, k: int, flag: bool)
    requires
        0 <= k < av.len(),
        flag == (spec_is_vrf(av.take(k)) || spec_attr_marks_vrf(av[k])),
    ensures
        flag == spec_is_vrf(av.take(k + 1)),
{
    if flag {
        if spec_is_vrf(av.take(k)) {
            let t = choose|t: int|
                0 <= t < av.take(k).len() && spec_attr_marks_vrf(#[trigger] av.take(k)[t]);
            assert(av.take(k + 1)[t] == av.take(k)[t]);
            assert(spec_is_vrf(av.take(k + 1)));
        } else {
            assert(av.take(k + 1)[k] == av[k]);
            assert(spec_is_vrf(av.take(k + 1)));
        }
    } else {
        if spec_is_vrf(av.take(k + 1)) {
            let t = choose|t: int|
                0 <= t < av.take(k + 1).len() && spec_attr_marks_vrf(#[trigger] av.take(k + 1)[t]);
            if t < k {
                assert(av.take(k)[t] == av.take(k + 1)[t]);
                assert(spec_is_vrf(av.take(k)));
            } else {
                assert(av.take(k + 1)[t] == av[k]);
            }
            assert(false);
        }
    }
}

} // verus!
