//! The configuration parser.
//!
//! Each file in the configuration directory describes one network; the
//! file name is the network name.  The first non-empty line holds the
//! bind addresses and optionally network-scoped resolvers; every later
//! non-empty line describes one container.  `parse_config` parses one
//! file's content; `parse_configs` folds a whole directory listing into
//! a backend snapshot plus the two listen plans.

use vstd::prelude::*;
use vstd::string::StringExecFns;
use crate::bytes::{spec_split, spec_lower, spec_ends_with, split_bytes, lower_bytes, ends_with};
use crate::error::{AardvarkError, AardvarkResult};
use crate::backend::{CtrDnsEntry, CtrDnsEntryView, NetworkDns, NetworkDnsView, NetworkFlag, NetworkFlagView, NetworkNames, NetworkNamesView, NameEntry, NameEntryView, NetworkReverse, NetworkReverseView, ReverseEntry, ReverseEntryView, IpNets, IpNetsView};
use crate::ip::{IpAddr, Ipv4Addr, Ipv6Addr, spec_parse_ip, spec_parse_ipv4, spec_parse_ipv6, parse_ip, parse_ipv4, parse_ipv6};

verus! {

broadcast use crate::bytes::lemma_vec_u8_deep_view;

/// The bytes of the reserved PID file name, `aardvark.pid`; a file so
/// named in the configuration directory is not a network.
pub open spec fn spec_pid_file_name() -> Seq<u8> {
    seq![97u8, 97u8, 114u8, 100u8, 118u8, 97u8, 114u8, 107u8, 46u8, 112u8, 105u8, 100u8]
}

pub fn pid_file_name() -> (r: Vec<u8>)
    ensures
        r@ == spec_pid_file_name(),
{
    let mut v: Vec<u8> = Vec::new();
    v.push(97);
    v.push(97);
    v.push(114);
    v.push(100);
    v.push(118);
    v.push(97);
    v.push(114);
    v.push(107);
    v.push(46);
    v.push(112);
    v.push(105);
    v.push(100);
    proof {
        assert(v@ =~= spec_pid_file_name());
    }
    v
}

/// The bytes of the reserved suffix `%int` that marks a network internal.
pub open spec fn spec_internal_suffix() -> Seq<u8> {
    seq![37u8, 105u8, 110u8, 116u8]
}

pub fn internal_suffix() -> (r: Vec<u8>)
    ensures
        r@ == spec_internal_suffix(),
{
    let mut v: Vec<u8> = Vec::new();
    v.push(37);
    v.push(105);
    v.push(110);
    v.push(116);
    proof {
        assert(v@ =~= spec_internal_suffix());
    }
    v
}

/// A single container entry in a config file.
pub struct CtrEntry {
    pub id: Vec<u8>,
    pub v4: Option<Vec<Ipv4Addr>>,
    pub v6: Option<Vec<Ipv6Addr>>,
    pub aliases: Vec<Vec<u8>>,
    pub dns_servers: Option<Vec<IpAddr>>,
}

pub struct CtrEntryView {
    pub id: Seq<u8>,
    pub v4: Option<Seq<Ipv4Addr>>,
    pub v6: Option<Seq<Ipv6Addr>>,
    pub aliases: Seq<Seq<u8>>,
    pub dns_servers: Option<Seq<IpAddr>>,
}

impl DeepView for CtrEntry {
    type V = CtrEntryView;

    open spec fn deep_view(&self) -> CtrEntryView {
        CtrEntryView {
            id: self.id@,
            v4: match self.v4 {
                Some(v) => Some(v@),
                None => None,
            },
            v6: match self.v6 {
                Some(v) => Some(v@),
                None => None,
            },
            aliases: self.aliases.deep_view(),
            dns_servers: match self.dns_servers {
                Some(v) => Some(v@),
                None => None,
            },
        }
    }
}

/// What one parsed network config file holds.
pub struct ParsedNetworkConfig {
    pub network_bind_ip: Vec<IpAddr>,
    pub container_entry: Vec<CtrEntry>,
    pub network_dnsservers: Vec<IpAddr>,
}

pub struct ParsedNetworkConfigView {
    pub network_bind_ip: Seq<IpAddr>,
    pub container_entry: Seq<CtrEntryView>,
    pub network_dnsservers: Seq<IpAddr>,
}

impl DeepView for ParsedNetworkConfig {
    type V = ParsedNetworkConfigView;

    open spec fn deep_view(&self) -> ParsedNetworkConfigView {
        ParsedNetworkConfigView {
            network_bind_ip: self.network_bind_ip@,
            container_entry: self.container_entry.deep_view(),
            network_dnsservers: self.network_dnsservers@,
        }
    }
}

// --- lists of comma-separated values -----------------------------------

/// The addresses of a comma-separated list, when every element parses.
pub open spec fn spec_parse_ip_list(s: Seq<u8>) -> Option<Seq<IpAddr>> {
    let p = spec_split(s, 44);
    if forall|k: int| 0 <= k < p.len() ==> spec_parse_ip(#[trigger] p[k]) is Some {
        Some(Seq::new(p.len(), |k: int| spec_parse_ip(p[k])->0))
    } else {
        None
    }
}

pub open spec fn spec_parse_ipv4_list(s: Seq<u8>) -> Option<Seq<Ipv4Addr>> {
    let p = spec_split(s, 44);
    if forall|k: int| 0 <= k < p.len() ==> spec_parse_ipv4(#[trigger] p[k]) is Some {
        Some(Seq::new(p.len(), |k: int| spec_parse_ipv4(p[k])->0))
    } else {
        None
    }
}

pub open spec fn spec_parse_ipv6_list(s: Seq<u8>) -> Option<Seq<Ipv6Addr>> {
    let p = spec_split(s, 44);
    if forall|k: int| 0 <= k < p.len() ==> spec_parse_ipv6(#[trigger] p[k]) is Some {
        Some(Seq::new(p.len(), |k: int| spec_parse_ipv6(p[k])->0))
    } else {
        None
    }
}

fn parse_ip_list(s: &[u8]) -> (r: Option<Vec<IpAddr>>)
    ensures
        r is Some <==> spec_parse_ip_list(s@) is Some,
        r is Some ==> Some(r->0@) == spec_parse_ip_list(s@),
{
    let parts = split_bytes(s, 44);
    let ghost p = parts.deep_view();
    let mut out: Vec<IpAddr> = Vec::new();
    let mut k: usize = 0;
    while k < parts.len()
        invariant
            0 <= k <= parts@.len(),
            p == parts.deep_view(),
            p == spec_split(s@, 44),
            forall|j: int| 0 <= j < k ==> spec_parse_ip(#[trigger] p[j]) is Some,
            out@ == Seq::new(k as nat, |j: int| spec_parse_ip(p[j])->0),
        decreases parts@.len() - k,
    {
        proof {
            assert(p[k as int] == parts@[k as int].deep_view());
        }
        match parse_ip(parts[k].as_slice()) {
            Some(ip) => {
                out.push(ip);
                proof {
                    assert(out@ =~= Seq::new((k + 1) as nat, |j: int| spec_parse_ip(p[j])->0));
                }
            },
            None => {
                return None;
            },
        }
        k = k + 1;
    }
    proof {
        assert(out@ =~= Seq::new(p.len(), |j: int| spec_parse_ip(p[j])->0));
    }
    Some(out)
}

fn parse_ipv4_list(s: &[u8]) -> (r: Option<Vec<Ipv4Addr>>)
    ensures
        r is Some <==> spec_parse_ipv4_list(s@) is Some,
        r is Some ==> Some(r->0@) == spec_parse_ipv4_list(s@),
{
    let parts = split_bytes(s, 44);
    let ghost p = parts.deep_view();
    let mut out: Vec<Ipv4Addr> = Vec::new();
    let mut k: usize = 0;
    while k < parts.len()
        invariant
            0 <= k <= parts@.len(),
            p == parts.deep_view(),
            p == spec_split(s@, 44),
            forall|j: int| 0 <= j < k ==> spec_parse_ipv4(#[trigger] p[j]) is Some,
            out@ == Seq::new(k as nat, |j: int| spec_parse_ipv4(p[j])->0),
        decreases parts@.len() - k,
    {
        proof {
            assert(p[k as int] == parts@[k as int].deep_view());
        }
        match parse_ipv4(parts[k].as_slice()) {
            Some(ip) => {
                out.push(ip);
                proof {
                    assert(out@ =~= Seq::new((k + 1) as nat, |j: int| spec_parse_ipv4(p[j])->0));
                }
            },
            None => {
                return None;
            },
        }
        k = k + 1;
    }
    proof {
        assert(out@ =~= Seq::new(p.len(), |j: int| spec_parse_ipv4(p[j])->0));
    }
    Some(out)
}

fn parse_ipv6_list(s: &[u8]) -> (r: Option<Vec<Ipv6Addr>>)
    ensures
        r is Some <==> spec_parse_ipv6_list(s@) is Some,
        r is Some ==> Some(r->0@) == spec_parse_ipv6_list(s@),
{
    let parts = split_bytes(s, 44);
    let ghost p = parts.deep_view();
    let mut out: Vec<Ipv6Addr> = Vec::new();
    let mut k: usize = 0;
    while k < parts.len()
        invariant
            0 <= k <= parts@.len(),
            p == parts.deep_view(),
            p == spec_split(s@, 44),
            forall|j: int| 0 <= j < k ==> spec_parse_ipv6(#[trigger] p[j]) is Some,
            out@ == Seq::new(k as nat, |j: int| spec_parse_ipv6(p[j])->0),
        decreases parts@.len() - k,
    {
        proof {
            assert(p[k as int] == parts@[k as int].deep_view());
        }
        match parse_ipv6(parts[k].as_slice()) {
            Some(ip) => {
                out.push(ip);
                proof {
                    assert(out@ =~= Seq::new((k + 1) as nat, |j: int| spec_parse_ipv6(p[j])->0));
                }
            },
            None => {
                return None;
            },
        }
        k = k + 1;
    }
    proof {
        assert(out@ =~= Seq::new(p.len(), |j: int| spec_parse_ipv6(p[j])->0));
    }
    Some(out)
}

/// Each part lowercased.
pub open spec fn spec_lower_list(p: Seq<Seq<u8>>) -> Seq<Seq<u8>> {
    Seq::new(p.len(), |k: int| spec_lower(p[k]))
}

fn lower_list(parts: &Vec<Vec<u8>>) -> (r: Vec<Vec<u8>>)
    ensures
        r.deep_view() == spec_lower_list(parts.deep_view()),
{
    let mut out: Vec<Vec<u8>> = Vec::new();
    let mut k: usize = 0;
    while k < parts.len()
        invariant
            0 <= k <= parts@.len(),
            out@.len() == k,
            forall|t: int| 0 <= t < k ==> #[trigger] out@[t]@ == spec_lower(parts@[t]@),
        decreases parts@.len() - k,
    {
        out.push(lower_bytes(parts[k].as_slice()));
        k = k + 1;
    }
    proof {
        assert forall|t: int| 0 <= t < parts@.len() implies out.deep_view()[t] == spec_lower_list(
            parts.deep_view(),
        )[t] by {
            assert(out.deep_view()[t] == out@[t].deep_view());
            assert(parts.deep_view()[t] == parts@[t].deep_view());
        }
        assert(out.deep_view() =~~= spec_lower_list(parts.deep_view()));
    }
    out
}

// --- the two line forms ------------------------------------------------

/// The first non-empty line: a comma-separated list of bind addresses,
/// optionally followed by a comma-separated list of resolvers.
pub open spec fn spec_parse_first_line(line: Seq<u8>) -> Option<(Seq<IpAddr>, Seq<IpAddr>)> {
    let f = spec_split(line, 32);
    match spec_parse_ip_list(f[0]) {
        None => None,
        Some(binds) => if f.len() > 1 {
            match spec_parse_ip_list(f[1]) {
                None => None,
                Some(dns) => Some((binds, dns)),
            }
        } else {
            Some((binds, Seq::empty()))
        },
    }
}

fn parse_first_line(line: &[u8]) -> (r: Option<(Vec<IpAddr>, Vec<IpAddr>)>)
    ensures
        r is Some <==> spec_parse_first_line(line@) is Some,
        r matches Some(t) ==> Some((t.0@, t.1@)) == spec_parse_first_line(line@),
{
    let fields = split_bytes(line, 32);
    proof {
        crate::bytes::lemma_spec_split_len(line@, 32);
        assert(fields.deep_view()[0] == fields@[0].deep_view());
    }
    let binds = match parse_ip_list(fields[0].as_slice()) {
        Some(b) => b,
        None => {
            return None;
        },
    };
    if fields.len() > 1 {
        proof {
            assert(fields.deep_view()[1] == fields@[1].deep_view());
        }
        let dns = match parse_ip_list(fields[1].as_slice()) {
            Some(d) => d,
            None => {
                return None;
            },
        };
        Some((binds, dns))
    } else {
        Some((binds, Vec::new()))
    }
}

/// A container line: id, v4 list, v6 list, names, optional resolvers.
/// Ids and names are lowercased on ingest; an empty address field means
/// none for that family.
pub open spec fn spec_parse_ctr_line(line: Seq<u8>) -> Option<CtrEntryView> {
    let p = spec_split(line, 32);
    if p.len() < 4 {
        None
    } else {
        let v4r: Option<Option<Seq<Ipv4Addr>>> = if p[1].len() == 0 {
            Some(None)
        } else {
            match spec_parse_ipv4_list(p[1]) {
                Some(l) => Some(Some(l)),
                None => None,
            }
        };
        let v6r: Option<Option<Seq<Ipv6Addr>>> = if p[2].len() == 0 {
            Some(None)
        } else {
            match spec_parse_ipv6_list(p[2]) {
                Some(l) => Some(Some(l)),
                None => None,
            }
        };
        let dnsr: Option<Option<Seq<IpAddr>>> = if p.len() == 5 && p[4].len() != 0 {
            match spec_parse_ip_list(p[4]) {
                Some(l) => Some(Some(l)),
                None => None,
            }
        } else {
            Some(None)
        };
        if v4r is Some && v6r is Some && dnsr is Some {
            Some(
                CtrEntryView {
                    id: spec_lower(p[0]),
                    v4: v4r->0,
                    v6: v6r->0,
                    aliases: spec_lower_list(spec_split(p[3], 44)),
                    dns_servers: dnsr->0,
                },
            )
        } else {
            None
        }
    }
}

fn parse_ctr_line(line: &[u8]) -> (r: Option<CtrEntry>)
    ensures
        r is Some <==> spec_parse_ctr_line(line@) is Some,
        r is Some ==> Some(r->0.deep_view()) == spec_parse_ctr_line(line@),
{
    let parts = split_bytes(line, 32);
    if parts.len() < 4 {
        return None;
    }
    proof {
        assert(parts.deep_view()[0] == parts@[0].deep_view());
        assert(parts.deep_view()[1] == parts@[1].deep_view());
        assert(parts.deep_view()[2] == parts@[2].deep_view());
        assert(parts.deep_view()[3] == parts@[3].deep_view());
    }
    let v4 = if parts[1].len() != 0 {
        match parse_ipv4_list(parts[1].as_slice()) {
            Some(l) => Some(l),
            None => {
                return None;
            },
        }
    } else {
        None
    };
    let v6 = if parts[2].len() != 0 {
        match parse_ipv6_list(parts[2].as_slice()) {
            Some(l) => Some(l),
            None => {
                return None;
            },
        }
    } else {
        None
    };
    let dns_servers = if parts.len() == 5 && parts[4].len() != 0 {
        proof {
            assert(parts.deep_view()[4] == parts@[4].deep_view());
        }
        match parse_ip_list(parts[4].as_slice()) {
            Some(l) => Some(l),
            None => {
                return None;
            },
        }
    } else {
        None
    };
    let id = lower_bytes(parts[0].as_slice());
    let alias_parts = split_bytes(parts[3].as_slice(), 44);
    let aliases = lower_list(&alias_parts);
    Some(CtrEntry { id, v4, v6, aliases, dns_servers })
}

// --- a whole file -------------------------------------------------------

/// The fold over the lines from index `k` on.  `first_done` records
/// whether the first non-empty line was already consumed.
pub open spec fn spec_parse_lines(lines: Seq<Seq<u8>>, k: int, first_done: bool) -> Option<
    ParsedNetworkConfigView,
>
    decreases lines.len() - k,
{
    if k < 0 || k >= lines.len() {
        Some(
            ParsedNetworkConfigView {
                network_bind_ip: Seq::empty(),
                container_entry: Seq::empty(),
                network_dnsservers: Seq::empty(),
            },
        )
    } else if lines[k].len() == 0 {
        spec_parse_lines(lines, k + 1, first_done)
    } else if !first_done {
        match spec_parse_first_line(lines[k]) {
            None => None,
            Some(bd) => match spec_parse_lines(lines, k + 1, true) {
                None => None,
                Some(rest) => Some(
                    ParsedNetworkConfigView {
                        network_bind_ip: bd.0 + rest.network_bind_ip,
                        container_entry: rest.container_entry,
                        network_dnsservers: bd.1 + rest.network_dnsservers,
                    },
                ),
            },
        }
    } else {
        match spec_parse_ctr_line(lines[k]) {
            None => None,
            Some(ctr) => match spec_parse_lines(lines, k + 1, true) {
                None => None,
                Some(rest) => Some(
                    ParsedNetworkConfigView {
                        network_bind_ip: rest.network_bind_ip,
                        container_entry: seq![ctr] + rest.container_entry,
                        network_dnsservers: rest.network_dnsservers,
                    },
                ),
            },
        }
    }
}

/// What parsing a whole file yields: the fold over its lines, except
/// that a file providing no bind address is rejected.
pub open spec fn spec_parse_config(content: Seq<u8>) -> Option<ParsedNetworkConfigView> {
    match spec_parse_lines(spec_split(content, 10), 0, false) {
        None => None,
        Some(cfg) => if cfg.network_bind_ip.len() == 0 {
            None
        } else {
            Some(cfg)
        },
    }
}

/// Read and parse a single configuration file's content.
///
/// Succeeds exactly when every line is well formed and at least one bind
/// address is given; the parsed value is exactly what the line grammar
/// assigns to the content.
pub fn parse_config(content: &[u8]) -> (r: AardvarkResult<ParsedNetworkConfig>)
    ensures
        r is Ok <==> spec_parse_config(content@) is Some,
        r is Ok ==> Some(r->Ok_0.deep_view()) == spec_parse_config(content@),
        r is Ok ==> r->Ok_0.network_bind_ip@.len() > 0,
{
    let lines = split_bytes(content, 10);
    let ghost ls = lines.deep_view();
    let mut bind_addrs: Vec<IpAddr> = Vec::new();
    let mut network_dns_servers: Vec<IpAddr> = Vec::new();
    let mut ctrs: Vec<CtrEntry> = Vec::new();
    let mut is_first = true;
    let mut k: usize = 0;
    proof {
        match spec_parse_lines(ls, 0, false) {
            None => {
            },
            Some(r) => {
                assert(Seq::<IpAddr>::empty() + r.network_bind_ip =~= r.network_bind_ip);
                assert(Seq::<IpAddr>::empty() + r.network_dnsservers =~= r.network_dnsservers);
                assert(Seq::<CtrEntryView>::empty() + r.container_entry =~= r.container_entry);
            },
        }
    }
    while k < lines.len()
        invariant
            0 <= k <= lines@.len(),
            ls == lines.deep_view(),
            ls == spec_split(content@, 10),
            is_first ==> bind_addrs@.len() == 0 && network_dns_servers@.len() == 0
                && ctrs.deep_view().len() == 0,
            combine_parsed(bind_addrs@, network_dns_servers@, ctrs.deep_view(), spec_parse_lines(ls, k as int, !is_first)) == spec_parse_lines(ls, 0, false),
        decreases lines@.len() - k,
    {
        let ghost pre_binds = bind_addrs@;
        let ghost pre_dns = network_dns_servers@;
        let ghost pre_ctrs = ctrs.deep_view();
        proof {
            assert(ls[k as int] == lines@[k as int].deep_view());
        }
        if lines[k].len() == 0 {
            proof {
                assert(spec_parse_lines(ls, k as int, !is_first) == spec_parse_lines(
                    ls,
                    k + 1,
                    !is_first,
                ));
            }
            k = k + 1;
            continue;
        }
        if is_first {
            match parse_first_line(lines[k].as_slice()) {
                Some(bd) => {
                    let (mut b, mut d) = bd;
                    bind_addrs.append(&mut b);
                    network_dns_servers.append(&mut d);
                    is_first = false;
                },
                None => {
                    return Err(
                        AardvarkError::msg(
                            String::from_str("invalid network configuration file"),
                        ),
                    );
                },
            }
        } else {
            match parse_ctr_line(lines[k].as_slice()) {
                Some(ctr) => {
                    ctrs.push(ctr);
                    proof {
                        assert(ctrs.deep_view() =~~= pre_ctrs + seq![spec_parse_ctr_line(
                            ls[k as int],
                        )->0]);
                    }
                },
                None => {
                    return Err(
                        AardvarkError::msg(
                            String::from_str("improperly formatted configuration line"),
                        ),
                    );
                },
            }
        }
        proof {
            lemma_combine_step(pre_binds, pre_dns, pre_ctrs, bind_addrs@, network_dns_servers@, ctrs.deep_view(), ls, k as int);
        }
        k = k + 1;
    }
    proof {
        let tail = spec_parse_lines(ls, lines@.len() as int, !is_first);
        assert(tail matches Some(e) && e.network_bind_ip.len() == 0 && e.container_entry.len()
            == 0 && e.network_dnsservers.len() == 0);
        let e = tail->0;
        assert(bind_addrs@ + e.network_bind_ip =~= bind_addrs@);
        assert(network_dns_servers@ + e.network_dnsservers =~= network_dns_servers@);
        assert(ctrs.deep_view() + e.container_entry =~= ctrs.deep_view());
    }
    if bind_addrs.len() == 0 {
        return Err(
            AardvarkError::msg(String::from_str("configuration provides no bind addresses")),
        );
    }
    Ok(
        ParsedNetworkConfig {
            network_bind_ip: bind_addrs,
            container_entry: ctrs,
            network_dnsservers: network_dns_servers,
        },
    )
}

/// The accumulated prefix glued onto the fold of the remaining lines.
pub open spec fn combine_parsed(
    binds: Seq<IpAddr>,
    dns: Seq<IpAddr>,
    ctrs: Seq<CtrEntryView>,
    rest: Option<ParsedNetworkConfigView>,
) -> Option<ParsedNetworkConfigView> {
    match rest {
        None => None,
        Some(r) => Some(
            ParsedNetworkConfigView {
                network_bind_ip: binds + r.network_bind_ip,
                container_entry: ctrs + r.container_entry,
                network_dnsservers: dns + r.network_dnsservers,
            },
        ),
    }
}

proof fn lemma_combine_step(
    pre_binds: Seq<IpAddr>,
    pre_dns: Seq<IpAddr>,
    pre_ctrs: Seq<CtrEntryView>,
    post_binds: Seq<IpAddr>,
    post_dns: Seq<IpAddr>,
    post_ctrs: Seq<CtrEntryView>,
    ls: Seq<Seq<u8>>,
    k: int,
)
    requires
        0 <= k < ls.len(),
        ls[k].len() != 0,
        ({
            // the step consumed line k either as the first line or as a
            // container line, extending the accumulators accordingly
            ||| (spec_parse_first_line(ls[k]) matches Some(bd) && post_binds == pre_binds + bd.0
                && post_dns == pre_dns + bd.1 && post_ctrs == pre_ctrs && pre_binds.len() == 0
                && pre_dns.len() == 0 && pre_ctrs.len() == 0 && combine_parsed(
                pre_binds,
                pre_dns,
                pre_ctrs,
                spec_parse_lines(ls, k, false),
            ) == spec_parse_lines(ls, 0, false))
            ||| (spec_parse_ctr_line(ls[k]) matches Some(ctr) && post_binds == pre_binds && post_dns
                == pre_dns && post_ctrs == pre_ctrs + seq![ctr] && combine_parsed(
                pre_binds,
                pre_dns,
                pre_ctrs,
                spec_parse_lines(ls, k, true),
            ) == spec_parse_lines(ls, 0, false))
        }),
    ensures
        combine_parsed(post_binds, post_dns, post_ctrs, spec_parse_lines(ls, k + 1, true))
            == spec_parse_lines(ls, 0, false),
{
    if spec_parse_first_line(ls[k]) matches Some(bd) && post_binds == pre_binds + bd.0 && post_dns
        == pre_dns + bd.1 && post_ctrs == pre_ctrs && pre_binds.len() == 0 && pre_dns.len() == 0
        && pre_ctrs.len() == 0 && combine_parsed(
        pre_binds,
        pre_dns,
        pre_ctrs,
        spec_parse_lines(ls, k, false),
    ) == spec_parse_lines(ls, 0, false) {
        match spec_parse_lines(ls, k + 1, true) {
            None => {
                assert(spec_parse_lines(ls, k, false) is None);
            },
            Some(rest) => {
                let whole = spec_parse_lines(ls, k, false)->0;
                assert(pre_binds + whole.network_bind_ip =~= post_binds + rest.network_bind_ip);
                assert(pre_dns + whole.network_dnsservers =~= post_dns + rest.network_dnsservers);
                assert(pre_ctrs + whole.container_entry =~= post_ctrs + rest.container_entry);
            },
        }
    } else {
        let ctr = spec_parse_ctr_line(ls[k])->0;
        match spec_parse_lines(ls, k + 1, true) {
            None => {
                assert(spec_parse_lines(ls, k, true) is None);
            },
            Some(rest) => {
                let whole = spec_parse_lines(ls, k, true)->0;
                assert(pre_binds + whole.network_bind_ip =~= post_binds + rest.network_bind_ip);
                assert(pre_dns + whole.network_dnsservers =~= post_dns + rest.network_dnsservers);
                assert(pre_ctrs + whole.container_entry =~= post_ctrs + rest.container_entry);
            },
        }
    }
}


// --- the directory fold: state types -----------------------------------

/// One file of the configuration directory: its name and its content.
pub struct ConfigFile {
    pub name: Vec<u8>,
    pub content: Vec<u8>,
}

pub struct ConfigFileView {
    pub name: Seq<u8>,
    pub content: Seq<u8>,
}

impl DeepView for ConfigFile {
    type V = ConfigFileView;

    open spec fn deep_view(&self) -> ConfigFileView {
        ConfigFileView { name: self.name@, content: self.content@ }
    }
}

/// The IPv4 listen plan of one network.
pub struct ListenEntry4 {
    pub network: Vec<u8>,
    pub addrs: Vec<Ipv4Addr>,
}

pub struct ListenEntry4View {
    pub network: Seq<u8>,
    pub addrs: Seq<Ipv4Addr>,
}

impl DeepView for ListenEntry4 {
    type V = ListenEntry4View;

    open spec fn deep_view(&self) -> ListenEntry4View {
        ListenEntry4View { network: self.network@, addrs: self.addrs@ }
    }
}

/// The IPv6 listen plan of one network.
pub struct ListenEntry6 {
    pub network: Vec<u8>,
    pub addrs: Vec<Ipv6Addr>,
}

pub struct ListenEntry6View {
    pub network: Seq<u8>,
    pub addrs: Seq<Ipv6Addr>,
}

impl DeepView for ListenEntry6 {
    type V = ListenEntry6View;

    open spec fn deep_view(&self) -> ListenEntry6View {
        ListenEntry6View { network: self.network@, addrs: self.addrs@ }
    }
}

/// Network membership keyed by container id, gathered while parsing.
pub struct IdNets {
    pub id: Vec<u8>,
    pub networks: Vec<Vec<u8>>,
}

pub struct IdNetsView {
    pub id: Seq<u8>,
    pub networks: Seq<Seq<u8>>,
}

impl DeepView for IdNets {
    type V = IdNetsView;

    open spec fn deep_view(&self) -> IdNetsView {
        IdNetsView { id: self.id@, networks: self.networks.deep_view() }
    }
}

/// Container addresses keyed by container id, gathered while parsing.
pub struct IdIps {
    pub id: Vec<u8>,
    pub ips: Vec<IpAddr>,
}

pub struct IdIpsView {
    pub id: Seq<u8>,
    pub ips: Seq<IpAddr>,
}

impl DeepView for IdIps {
    type V = IdIpsView;

    open spec fn deep_view(&self) -> IdIpsView {
        IdIpsView { id: self.id@, ips: self.ips@ }
    }
}


// --- first-index searches over the gathered tables ----------------------

pub open spec fn idx_id_nets_at(m: Seq<IdNetsView>, id: Seq<u8>, k: int) -> Option<int>
    decreases m.len() - k,
{
    if k < 0 || k >= m.len() {
        None
    } else if m[k].id == id {
        Some(k)
    } else {
        idx_id_nets_at(m, id, k + 1)
    }
}

pub open spec fn spec_idx_id_nets(m: Seq<IdNetsView>, id: Seq<u8>) -> Option<int> {
    idx_id_nets_at(m, id, 0)
}

// --- membership: record that a container is on a network -----------------

/// Membership update: the network is appended to the container's list
/// unless already present; an unknown container gets a fresh entry.
pub open spec fn spec_add_membership(m: Seq<IdNetsView>, id: Seq<u8>, net: Seq<u8>) -> Seq<
    IdNetsView,
> {
    match spec_idx_id_nets(m, id) {
        None => m.push(IdNetsView { id: id, networks: seq![net] }),
        Some(i) => if m[i].networks.contains(net) {
            m
        } else {
            m.update(i, IdNetsView { id: m[i].id, networks: m[i].networks.push(net) })
        },
    }
}

/// Whether one of the byte strings equals `x`.
fn names_contain(v: &Vec<Vec<u8>>, x: &[u8]) -> (r: bool)
    ensures
        r == v.deep_view().contains(x@),
{
    let mut j: usize = 0;
    while j < v.len()
        invariant
            0 <= j <= v@.len(),
            forall|t: int| 0 <= t < j ==> v.deep_view()[t] != x@,
        decreases v@.len() - j,
    {
        proof {
            assert(v.deep_view()[j as int] == v@[j as int].deep_view());
        }
        if crate::bytes::bytes_eq(v[j].as_slice(), x) {
            proof {
                assert(v.deep_view().contains(x@));
            }
            return true;
        }
        j = j + 1;
    }
    proof {
        assert(!v.deep_view().contains(x@)) by {
            if v.deep_view().contains(x@) {
                let t = choose|t: int| 0 <= t < v.deep_view().len() && v.deep_view()[t] == x@;
            }
        }
    }
    false
}

fn add_membership(m: &mut Vec<IdNets>, id: &[u8], net: &[u8])
    ensures
        final(m).deep_view() == spec_add_membership(old(m).deep_view(), id@, net@),
{
    let ghost mv = m.deep_view();
    let mut i: usize = 0;
    while i < m.len()
        invariant
            0 <= i <= m@.len(),
            m@ == old(m)@,
            mv == m.deep_view(),
            idx_id_nets_at(mv, id@, 0) == idx_id_nets_at(mv, id@, i as int),
        decreases m@.len() - i,
    {
        proof {
            assert(mv[i as int] == m@[i as int].deep_view());
        }
        if crate::bytes::bytes_eq(m[i].id.as_slice(), id) {
            if names_contain(&m[i].networks, net) {
                return ;
            }
            let mut e = m.remove(i);
            e.networks.push(vstd::slice::slice_to_vec(net));
            let ghost ev = e.deep_view();
            m.insert(i, e);
            proof {
                assert(ev.networks =~~= mv[i as int].networks.push(net@));
                assert(ev == IdNetsView { id: mv[i as int].id, networks: mv[i as int].networks.push(net@) });
                let expect = spec_add_membership(mv, id@, net@);
                assert(expect == mv.update(i as int, ev));
                assert forall|t: int| 0 <= t < expect.len() implies m.deep_view()[t] == expect[t] by {
                    assert(m.deep_view()[t] == m@[t].deep_view());
                }
                assert(m.deep_view() =~~= expect);
            }
            return ;
        }
        i = i + 1;
    }
    let mut networks: Vec<Vec<u8>> = Vec::new();
    networks.push(vstd::slice::slice_to_vec(net));
    let e = IdNets { id: vstd::slice::slice_to_vec(id), networks };
    let ghost ev = e.deep_view();
    m.push(e);
    proof {
        assert(ev.networks =~~= seq![net@]);
        assert(ev == IdNetsView { id: id@, networks: seq![net@] });
        let expect = spec_add_membership(mv, id@, net@);
        assert(expect == mv.push(ev));
        assert forall|t: int| 0 <= t < expect.len() implies m.deep_view()[t] == expect[t] by {
            assert(m.deep_view()[t] == m@[t].deep_view());
        }
        assert(m.deep_view() =~~= expect);
    }
}

// --- listen plans: record one bind address ------------------------------

pub open spec fn idx_listen4_at(m: Seq<ListenEntry4View>, net: Seq<u8>, k: int) -> Option<int>
    decreases m.len() - k,
{
    if k < 0 || k >= m.len() {
        None
    } else if m[k].network == net {
        Some(k)
    } else {
        idx_listen4_at(m, net, k + 1)
    }
}

pub open spec fn spec_idx_listen4(m: Seq<ListenEntry4View>, net: Seq<u8>) -> Option<int> {
    idx_listen4_at(m, net, 0)
}

/// The address appended to the network's IPv4 listen plan.
pub open spec fn spec_add_listen4(m: Seq<ListenEntry4View>, net: Seq<u8>, a: Ipv4Addr) -> Seq<
    ListenEntry4View,
> {
    match spec_idx_listen4(m, net) {
        None => m.push(ListenEntry4View { network: net, addrs: seq![a] }),
        Some(i) => m.update(i, ListenEntry4View { network: m[i].network, addrs: m[i].addrs.push(a) }),
    }
}

fn add_listen4(m: &mut Vec<ListenEntry4>, net: &[u8], a: Ipv4Addr)
    ensures
        final(m).deep_view() == spec_add_listen4(old(m).deep_view(), net@, a),
{
    let ghost mv = m.deep_view();
    let mut i: usize = 0;
    while i < m.len()
        invariant
            0 <= i <= m@.len(),
            m@ == old(m)@,
            mv == m.deep_view(),
            idx_listen4_at(mv, net@, 0) == idx_listen4_at(mv, net@, i as int),
        decreases m@.len() - i,
    {
        proof {
            assert(mv[i as int] == m@[i as int].deep_view());
        }
        if crate::bytes::bytes_eq(m[i].network.as_slice(), net) {
            let mut e = m.remove(i);
            e.addrs.push(a);
            let ghost ev = e.deep_view();
            m.insert(i, e);
            proof {
                assert(ev == ListenEntry4View { network: mv[i as int].network, addrs: mv[i as int].addrs.push(a) });
                let expect = spec_add_listen4(mv, net@, a);
                assert(expect == mv.update(i as int, ev));
                assert forall|t: int| 0 <= t < expect.len() implies m.deep_view()[t] == expect[t] by {
                    assert(m.deep_view()[t] == m@[t].deep_view());
                }
                assert(m.deep_view() =~~= expect);
            }
            return ;
        }
        i = i + 1;
    }
    let mut addrs: Vec<Ipv4Addr> = Vec::new();
    addrs.push(a);
    let e = ListenEntry4 { network: vstd::slice::slice_to_vec(net), addrs };
    let ghost ev = e.deep_view();
    m.push(e);
    proof {
        assert(ev.addrs =~= seq![a]);
        assert(ev == ListenEntry4View { network: net@, addrs: seq![a] });
        let expect = spec_add_listen4(mv, net@, a);
        assert(expect == mv.push(ev));
        assert forall|t: int| 0 <= t < expect.len() implies m.deep_view()[t] == expect[t] by {
            assert(m.deep_view()[t] == m@[t].deep_view());
        }
        assert(m.deep_view() =~~= expect);
    }
}


fn add_listen6(m: &mut Vec<ListenEntry6>, net: &[u8], a: Ipv6Addr)
    ensures
        final(m).deep_view() == spec_add_listen6(old(m).deep_view(), net@, a),
{
    let ghost mv = m.deep_view();
    let mut i: usize = 0;
    while i < m.len()
        invariant
            0 <= i <= m@.len(),
            m@ == old(m)@,
            mv == m.deep_view(),
            idx_listen6_at(mv, net@, 0) == idx_listen6_at(mv, net@, i as int),
        decreases m@.len() - i,
    {
        proof {
            assert(mv[i as int] == m@[i as int].deep_view());
        }
        if crate::bytes::bytes_eq(m[i].network.as_slice(), net) {
            let mut e = m.remove(i);
            e.addrs.push(a);
            let ghost ev = e.deep_view();
            m.insert(i, e);
            proof {
                assert(ev == ListenEntry6View { network: mv[i as int].network, addrs: mv[i as int].addrs.push(a) });
                let expect = spec_add_listen6(mv, net@, a);
                assert(expect == mv.update(i as int, ev));
                assert forall|t: int| 0 <= t < expect.len() implies m.deep_view()[t] == expect[t] by {
                    assert(m.deep_view()[t] == m@[t].deep_view());
                }
                assert(m.deep_view() =~~= expect);
            }
            return ;
        }
        i = i + 1;
    }
    let mut addrs: Vec<Ipv6Addr> = Vec::new();
    addrs.push(a);
    let e = ListenEntry6 { network: vstd::slice::slice_to_vec(net), addrs };
    let ghost ev = e.deep_view();
    m.push(e);
    proof {
        assert(ev.addrs =~= seq![a]);
        assert(ev == ListenEntry6View { network: net@, addrs: seq![a] });
        let expect = spec_add_listen6(mv, net@, a);
        assert(expect == mv.push(ev));
        assert forall|t: int| 0 <= t < expect.len() implies m.deep_view()[t] == expect[t] by {
            assert(m.deep_view()[t] == m@[t].deep_view());
        }
        assert(m.deep_view() =~~= expect);
    }
}

pub open spec fn idx_listen6_at(m: Seq<ListenEntry6View>, net: Seq<u8>, k: int) -> Option<int>
    decreases m.len() - k,
{
    if k < 0 || k >= m.len() {
        None
    } else if m[k].network == net {
        Some(k)
    } else {
        idx_listen6_at(m, net, k + 1)
    }
}

pub open spec fn spec_idx_listen6(m: Seq<ListenEntry6View>, net: Seq<u8>) -> Option<int> {
    idx_listen6_at(m, net, 0)
}

/// The address appended to the network's IPv6 listen plan.
pub open spec fn spec_add_listen6(m: Seq<ListenEntry6View>, net: Seq<u8>, a: Ipv6Addr) -> Seq<
    ListenEntry6View,
> {
    match spec_idx_listen6(m, net) {
        None => m.push(ListenEntry6View { network: net, addrs: seq![a] }),
        Some(i) => m.update(i, ListenEntry6View { network: m[i].network, addrs: m[i].addrs.push(a) }),
    }
}

// --- container addresses keyed by id ------------------------------------

pub open spec fn idx_id_ips_at(m: Seq<IdIpsView>, id: Seq<u8>, k: int) -> Option<int>
    decreases m.len() - k,
{
    if k < 0 || k >= m.len() {
        None
    } else if m[k].id == id {
        Some(k)
    } else {
        idx_id_ips_at(m, id, k + 1)
    }
}

pub open spec fn spec_idx_id_ips(m: Seq<IdIpsView>, id: Seq<u8>) -> Option<int> {
    idx_id_ips_at(m, id, 0)
}

/// The addresses appended to the container's list.
pub open spec fn spec_add_id_ips(m: Seq<IdIpsView>, id: Seq<u8>, ips: Seq<IpAddr>) -> Seq<
    IdIpsView,
> {
    match spec_idx_id_ips(m, id) {
        None => m.push(IdIpsView { id: id, ips: ips }),
        Some(i) => m.update(i, IdIpsView { id: m[i].id, ips: m[i].ips + ips }),
    }
}

fn add_id_ips(m: &mut Vec<IdIps>, id: &[u8], ips: &Vec<IpAddr>)
    ensures
        final(m).deep_view() == spec_add_id_ips(old(m).deep_view(), id@, ips@),
{
    let ghost mv = m.deep_view();
    let mut i: usize = 0;
    while i < m.len()
        invariant
            0 <= i <= m@.len(),
            m@ == old(m)@,
            mv == m.deep_view(),
            idx_id_ips_at(mv, id@, 0) == idx_id_ips_at(mv, id@, i as int),
        decreases m@.len() - i,
    {
        proof {
            assert(mv[i as int] == m@[i as int].deep_view());
        }
        if crate::bytes::bytes_eq(m[i].id.as_slice(), id) {
            let mut e = m.remove(i);
            crate::backend::append_ips(&mut e.ips, ips);
            let ghost ev = e.deep_view();
            m.insert(i, e);
            proof {
                assert(ev == IdIpsView { id: mv[i as int].id, ips: mv[i as int].ips + ips@ });
                let expect = spec_add_id_ips(mv, id@, ips@);
                assert(expect == mv.update(i as int, ev));
                assert forall|t: int| 0 <= t < expect.len() implies m.deep_view()[t] == expect[t] by {
                    assert(m.deep_view()[t] == m@[t].deep_view());
                }
                assert(m.deep_view() =~~= expect);
            }
            return ;
        }
        i = i + 1;
    }
    let e = IdIps { id: vstd::slice::slice_to_vec(id), ips: vstd::slice::slice_to_vec(ips.as_slice()) };
    let ghost ev = e.deep_view();
    m.push(e);
    proof {
        assert(ev == IdIpsView { id: id@, ips: ips@ });
        let expect = spec_add_id_ips(mv, id@, ips@);
        assert(expect == mv.push(ev));
        assert forall|t: int| 0 <= t < expect.len() implies m.deep_view()[t] == expect[t] by {
            assert(m.deep_view()[t] == m@[t].deep_view());
        }
        assert(m.deep_view() =~~= expect);
    }
}

// --- container-scoped resolvers: insert-or-replace ----------------------

pub open spec fn idx_ctr_dns_at(m: Seq<CtrDnsEntryView>, ip: IpAddr, k: int) -> Option<int>
    decreases m.len() - k,
{
    if k < 0 || k >= m.len() {
        None
    } else if m[k].ip == ip {
        Some(k)
    } else {
        idx_ctr_dns_at(m, ip, k + 1)
    }
}

pub open spec fn spec_idx_ctr_dns(m: Seq<CtrDnsEntryView>, ip: IpAddr) -> Option<int> {
    idx_ctr_dns_at(m, ip, 0)
}

/// The container-scoped resolver entry set (replacing any old value).
pub open spec fn spec_set_ctr_dns(
    m: Seq<CtrDnsEntryView>,
    ip: IpAddr,
    servers: Option<Seq<IpAddr>>,
) -> Seq<CtrDnsEntryView> {
    match spec_idx_ctr_dns(m, ip) {
        None => m.push(CtrDnsEntryView { ip: ip, servers: servers }),
        Some(i) => m.update(i, CtrDnsEntryView { ip: ip, servers: servers }),
    }
}

fn clone_servers(servers: &Option<Vec<IpAddr>>) -> (r: Option<Vec<IpAddr>>)
    ensures
        (r is Some <==> servers is Some),
        r matches Some(v) ==> Some(v@) == match servers {
            Some(w) => Some::<Seq<IpAddr>>(w@),
            None => None,
        },
{
    match servers {
        Some(v) => Some(vstd::slice::slice_to_vec(v.as_slice())),
        None => None,
    }
}

fn set_ctr_dns(m: &mut Vec<CtrDnsEntry>, ip: IpAddr, servers: &Option<Vec<IpAddr>>)
    ensures
        final(m).deep_view() == spec_set_ctr_dns(
            old(m).deep_view(),
            ip,
            match servers {
                Some(w) => Some(w@),
                None => None,
            },
        ),
{
    let ghost sv: Option<Seq<IpAddr>> = match servers {
        Some(w) => Some(w@),
        None => None,
    };
    let ghost mv = m.deep_view();
    let mut i: usize = 0;
    while i < m.len()
        invariant
            0 <= i <= m@.len(),
            m@ == old(m)@,
            mv == m.deep_view(),
            sv == (match servers {
                Some(w) => Some(w@),
                None => None::<Seq<IpAddr>>,
            }),
            idx_ctr_dns_at(mv, ip, 0) == idx_ctr_dns_at(mv, ip, i as int),
        decreases m@.len() - i,
    {
        proof {
            assert(mv[i as int] == m@[i as int].deep_view());
        }
        if m[i].ip == ip {
            let _old = m.remove(i);
            let e = CtrDnsEntry { ip, servers: clone_servers(servers) };
            let ghost ev = e.deep_view();
            m.insert(i, e);
            proof {
                assert(ev == CtrDnsEntryView { ip: ip, servers: sv });
                let expect = spec_set_ctr_dns(mv, ip, sv);
                assert(expect == mv.update(i as int, ev));
                assert forall|t: int| 0 <= t < expect.len() implies m.deep_view()[t] == expect[t] by {
                    assert(m.deep_view()[t] == m@[t].deep_view());
                }
                assert(m.deep_view() =~~= expect);
            }
            return ;
        }
        i = i + 1;
    }
    let e = CtrDnsEntry { ip, servers: clone_servers(servers) };
    let ghost ev = e.deep_view();
    m.push(e);
    proof {
        assert(ev == CtrDnsEntryView { ip: ip, servers: sv });
        let expect = spec_set_ctr_dns(mv, ip, sv);
        assert(expect == mv.push(ev));
        assert forall|t: int| 0 <= t < expect.len() implies m.deep_view()[t] == expect[t] by {
            assert(m.deep_view()[t] == m@[t].deep_view());
        }
        assert(m.deep_view() =~~= expect);
    }
}

// --- network-scoped resolvers: insert-or-replace ------------------------

pub open spec fn idx_network_dns_at(
    m: Seq<NetworkDnsView>,
    net: Seq<u8>,
    k: int,
) -> Option<int>
    decreases m.len() - k,
{
    if k < 0 || k >= m.len() {
        None
    } else if m[k].network == net {
        Some(k)
    } else {
        idx_network_dns_at(m, net, k + 1)
    }
}

pub open spec fn spec_idx_network_dns(m: Seq<NetworkDnsView>, net: Seq<u8>) -> Option<int> {
    idx_network_dns_at(m, net, 0)
}

/// The network's resolver list set (replacing any old value).
pub open spec fn spec_set_network_dns(
    m: Seq<NetworkDnsView>,
    net: Seq<u8>,
    servers: Seq<IpAddr>,
) -> Seq<NetworkDnsView> {
    match spec_idx_network_dns(m, net) {
        None => m.push(NetworkDnsView { network: net, servers: servers }),
        Some(i) => m.update(
            i,
            NetworkDnsView { network: m[i].network, servers: servers },
        ),
    }
}

fn set_network_dns(m: &mut Vec<NetworkDns>, net: &[u8], servers: &Vec<IpAddr>)
    ensures
        final(m).deep_view() == spec_set_network_dns(old(m).deep_view(), net@, servers@),
{
    let ghost mv = m.deep_view();
    let mut i: usize = 0;
    while i < m.len()
        invariant
            0 <= i <= m@.len(),
            m@ == old(m)@,
            mv == m.deep_view(),
            idx_network_dns_at(mv, net@, 0) == idx_network_dns_at(mv, net@, i as int),
        decreases m@.len() - i,
    {
        proof {
            assert(mv[i as int] == m@[i as int].deep_view());
        }
        if crate::bytes::bytes_eq(m[i].network.as_slice(), net) {
            let mut e = m.remove(i);
            e.servers = vstd::slice::slice_to_vec(servers.as_slice());
            let ghost ev = e.deep_view();
            m.insert(i, e);
            proof {
                assert(ev == NetworkDnsView { network: mv[i as int].network, servers: servers@ });
                let expect = spec_set_network_dns(mv, net@, servers@);
                assert(expect == mv.update(i as int, ev));
                assert forall|t: int| 0 <= t < expect.len() implies m.deep_view()[t] == expect[t] by {
                    assert(m.deep_view()[t] == m@[t].deep_view());
                }
                assert(m.deep_view() =~~= expect);
            }
            return ;
        }
        i = i + 1;
    }
    let e = NetworkDns {
        network: vstd::slice::slice_to_vec(net),
        servers: vstd::slice::slice_to_vec(servers.as_slice()),
    };
    let ghost ev = e.deep_view();
    m.push(e);
    proof {
        assert(ev == NetworkDnsView { network: net@, servers: servers@ });
        let expect = spec_set_network_dns(mv, net@, servers@);
        assert(expect == mv.push(ev));
        assert forall|t: int| 0 <= t < expect.len() implies m.deep_view()[t] == expect[t] by {
            assert(m.deep_view()[t] == m@[t].deep_view());
        }
        assert(m.deep_view() =~~= expect);
    }
}

// --- the internal flag: insert-or-replace -------------------------------

pub open spec fn idx_internal_at(
    m: Seq<NetworkFlagView>,
    net: Seq<u8>,
    k: int,
) -> Option<int>
    decreases m.len() - k,
{
    if k < 0 || k >= m.len() {
        None
    } else if m[k].network == net {
        Some(k)
    } else {
        idx_internal_at(m, net, k + 1)
    }
}

pub open spec fn spec_idx_internal(m: Seq<NetworkFlagView>, net: Seq<u8>) -> Option<int> {
    idx_internal_at(m, net, 0)
}

/// The network's internal flag set (replacing any old value).
pub open spec fn spec_set_internal(
    m: Seq<NetworkFlagView>,
    net: Seq<u8>,
    internal: bool,
) -> Seq<NetworkFlagView> {
    match spec_idx_internal(m, net) {
        None => m.push(NetworkFlagView { network: net, internal: internal }),
        Some(i) => m.update(
            i,
            NetworkFlagView { network: m[i].network, internal: internal },
        ),
    }
}

fn set_internal(m: &mut Vec<NetworkFlag>, net: &[u8], internal: bool)
    ensures
        final(m).deep_view() == spec_set_internal(old(m).deep_view(), net@, internal),
{
    let ghost mv = m.deep_view();
    let mut i: usize = 0;
    while i < m.len()
        invariant
            0 <= i <= m@.len(),
            m@ == old(m)@,
            mv == m.deep_view(),
            idx_internal_at(mv, net@, 0) == idx_internal_at(mv, net@, i as int),
        decreases m@.len() - i,
    {
        proof {
            assert(mv[i as int] == m@[i as int].deep_view());
        }
        if crate::bytes::bytes_eq(m[i].network.as_slice(), net) {
            let mut e = m.remove(i);
            e.internal = internal;
            let ghost ev = e.deep_view();
            m.insert(i, e);
            proof {
                assert(ev == NetworkFlagView { network: mv[i as int].network, internal: internal });
                let expect = spec_set_internal(mv, net@, internal);
                assert(expect == mv.update(i as int, ev));
                assert forall|t: int| 0 <= t < expect.len() implies m.deep_view()[t] == expect[t] by {
                    assert(m.deep_view()[t] == m@[t].deep_view());
                }
                assert(m.deep_view() =~~= expect);
            }
            return ;
        }
        i = i + 1;
    }
    let e = NetworkFlag { network: vstd::slice::slice_to_vec(net), internal };
    let ghost ev = e.deep_view();
    m.push(e);
    proof {
        assert(ev == NetworkFlagView { network: net@, internal: internal });
        let expect = spec_set_internal(mv, net@, internal);
        assert(expect == mv.push(ev));
        assert forall|t: int| 0 <= t < expect.len() implies m.deep_view()[t] == expect[t] by {
            assert(m.deep_view()[t] == m@[t].deep_view());
        }
        assert(m.deep_view() =~~= expect);
    }
}


// --- helpers that copy lists while appending ----------------------------

/// A copy of each name appended to `dst`.
fn append_names(dst: &mut Vec<Vec<u8>>, src: &Vec<Vec<u8>>)
    ensures
        final(dst).deep_view() == old(dst).deep_view() + src.deep_view(),
{
    let ghost base = dst.deep_view();
    let mut j: usize = 0;
    while j < src.len()
        invariant
            0 <= j <= src@.len(),
            dst@.len() == old(dst)@.len() + j,
            forall|t: int| 0 <= t < old(dst)@.len() ==> dst@[t] == old(dst)@[t],
            forall|t: int| 0 <= t < j ==> #[trigger] dst@[old(dst)@.len() + t]@ == src@[t]@,
        decreases src@.len() - j,
    {
        dst.push(vstd::slice::slice_to_vec(src[j].as_slice()));
        j = j + 1;
    }
    proof {
        assert forall|t: int| 0 <= t < dst@.len() implies dst.deep_view()[t] == (old(
            dst,
        ).deep_view() + src.deep_view())[t] by {
            assert(dst.deep_view()[t] == dst@[t].deep_view());
            if t < old(dst)@.len() {
                assert(old(dst).deep_view()[t] == old(dst)@[t].deep_view());
            } else {
                assert(src.deep_view()[t - old(dst)@.len()] == src@[t - old(dst)@.len()].deep_view());
                assert(dst@[old(dst)@.len() + (t - old(dst)@.len())]@ == src@[t - old(dst)@.len()]@);
            }
        }
        assert(dst.deep_view() =~~= old(dst).deep_view() + src.deep_view());
    }
}

// --- the reverse table: append names under (network, address) ----------

pub open spec fn idx_reverse_at(m: Seq<NetworkReverseView>, net: Seq<u8>, k: int) -> Option<int>
    decreases m.len() - k,
{
    if k < 0 || k >= m.len() {
        None
    } else if m[k].network == net {
        Some(k)
    } else {
        idx_reverse_at(m, net, k + 1)
    }
}

pub open spec fn spec_idx_reverse(m: Seq<NetworkReverseView>, net: Seq<u8>) -> Option<int> {
    idx_reverse_at(m, net, 0)
}

pub open spec fn idx_rev_ip_at(entries: Seq<ReverseEntryView>, ip: IpAddr, k: int) -> Option<int>
    decreases entries.len() - k,
{
    if k < 0 || k >= entries.len() {
        None
    } else if entries[k].ip == ip {
        Some(k)
    } else {
        idx_rev_ip_at(entries, ip, k + 1)
    }
}

pub open spec fn spec_idx_rev_ip(entries: Seq<ReverseEntryView>, ip: IpAddr) -> Option<int> {
    idx_rev_ip_at(entries, ip, 0)
}

fn rev_ip_index(entries: &Vec<ReverseEntry>, ip: IpAddr) -> (r: Option<usize>)
    ensures
        r matches Some(j) ==> j < entries@.len() && spec_idx_rev_ip(entries.deep_view(), ip)
            == Some(j as int),
        r is None ==> spec_idx_rev_ip(entries.deep_view(), ip) is None,
{
    let mut j: usize = 0;
    while j < entries.len()
        invariant
            0 <= j <= entries@.len(),
            idx_rev_ip_at(entries.deep_view(), ip, 0) == idx_rev_ip_at(entries.deep_view(), ip, j as int),
        decreases entries@.len() - j,
    {
        proof {
            assert(entries.deep_view()[j as int] == entries@[j as int].deep_view());
        }
        if entries[j].ip == ip {
            return Some(j);
        }
        j = j + 1;
    }
    None
}

/// The names appended to the reverse entry of `ip` on `net`; missing
/// tables and entries are created.
pub open spec fn spec_add_reverse(
    m: Seq<NetworkReverseView>,
    net: Seq<u8>,
    ip: IpAddr,
    names: Seq<Seq<u8>>,
) -> Seq<NetworkReverseView> {
    match spec_idx_reverse(m, net) {
        None => m.push(
            NetworkReverseView { network: net, entries: seq![ReverseEntryView { ip: ip, names: names }] },
        ),
        Some(i) => {
            let entries = m[i].entries;
            match spec_idx_rev_ip(entries, ip) {
                None => m.update(
                    i,
                    NetworkReverseView {
                        network: m[i].network,
                        entries: entries.push(ReverseEntryView { ip: ip, names: names }),
                    },
                ),
                Some(j) => m.update(
                    i,
                    NetworkReverseView {
                        network: m[i].network,
                        entries: entries.update(
                            j,
                            ReverseEntryView { ip: entries[j].ip, names: entries[j].names + names },
                        ),
                    },
                ),
            }
        },
    }
}

fn add_reverse(m: &mut Vec<NetworkReverse>, net: &[u8], ip: IpAddr, names: &Vec<Vec<u8>>)
    ensures
        final(m).deep_view() == spec_add_reverse(old(m).deep_view(), net@, ip, names.deep_view()),
{
    let ghost mv = m.deep_view();
    let mut i: usize = 0;
    while i < m.len()
        invariant
            0 <= i <= m@.len(),
            m@ == old(m)@,
            mv == m.deep_view(),
            idx_reverse_at(mv, net@, 0) == idx_reverse_at(mv, net@, i as int),
        decreases m@.len() - i,
    {
        proof {
            assert(mv[i as int] == m@[i as int].deep_view());
        }
        if crate::bytes::bytes_eq(m[i].network.as_slice(), net) {
            let mut e = m.remove(i);
            let ghost entries0 = e.entries.deep_view();
            if let Some(j) = rev_ip_index(&e.entries, ip) {
                // entry found: append the names to it
                let mut r = e.entries.remove(j);
                append_names(&mut r.names, names);
                let ghost rv = r.deep_view();
                e.entries.insert(j, r);
                proof {
                    assert(rv == ReverseEntryView { ip: entries0[j as int].ip, names: entries0[j as int].names + names.deep_view() });
                    assert forall|t: int| 0 <= t < e.entries@.len() implies e.entries.deep_view()[t]
                        == entries0.update(j as int, rv)[t] by {
                        assert(e.entries.deep_view()[t] == e.entries@[t].deep_view());
                    }
                    assert(e.entries.deep_view() =~~= entries0.update(j as int, rv));
                }
            } else {
                let r = ReverseEntry { ip, names: crate::backend::copy_names(names) };
                let ghost rv = r.deep_view();
                e.entries.push(r);
                proof {
                    assert(rv == ReverseEntryView { ip: ip, names: names.deep_view() });
                    assert forall|t: int| 0 <= t < e.entries@.len() implies e.entries.deep_view()[t]
                        == entries0.push(rv)[t] by {
                        assert(e.entries.deep_view()[t] == e.entries@[t].deep_view());
                    }
                    assert(e.entries.deep_view() =~~= entries0.push(rv));
                }
            }
            let ghost ev = e.deep_view();
            m.insert(i, e);
            proof {
                let expect = spec_add_reverse(mv, net@, ip, names.deep_view());
                assert(expect == mv.update(i as int, ev));
                assert forall|t: int| 0 <= t < expect.len() implies m.deep_view()[t] == expect[t] by {
                    assert(m.deep_view()[t] == m@[t].deep_view());
                }
                assert(m.deep_view() =~~= expect);
            }
            return ;
        }
        i = i + 1;
    }
    let mut entries: Vec<ReverseEntry> = Vec::new();
    entries.push(ReverseEntry { ip, names: crate::backend::copy_names(names) });
    let e = NetworkReverse { network: vstd::slice::slice_to_vec(net), entries };
    let ghost ev = e.deep_view();
    m.push(e);
    proof {
        assert(ev.entries =~~= seq![ReverseEntryView { ip: ip, names: names.deep_view() }]);
        assert(ev == NetworkReverseView { network: net@, entries: seq![ReverseEntryView { ip: ip, names: names.deep_view() }] });
        let expect = spec_add_reverse(mv, net@, ip, names.deep_view());
        assert(expect == mv.push(ev));
        assert forall|t: int| 0 <= t < expect.len() implies m.deep_view()[t] == expect[t] by {
            assert(m.deep_view()[t] == m@[t].deep_view());
        }
        assert(m.deep_view() =~~= expect);
    }
}

// --- the forward table: append addresses under (network, name) ----------

pub open spec fn idx_names_at(m: Seq<NetworkNamesView>, net: Seq<u8>, k: int) -> Option<int>
    decreases m.len() - k,
{
    if k < 0 || k >= m.len() {
        None
    } else if m[k].network == net {
        Some(k)
    } else {
        idx_names_at(m, net, k + 1)
    }
}

pub open spec fn spec_idx_names(m: Seq<NetworkNamesView>, net: Seq<u8>) -> Option<int> {
    idx_names_at(m, net, 0)
}

pub open spec fn idx_name_entry_at(entries: Seq<NameEntryView>, name: Seq<u8>, k: int) -> Option<
    int,
>
    decreases entries.len() - k,
{
    if k < 0 || k >= entries.len() {
        None
    } else if entries[k].name == name {
        Some(k)
    } else {
        idx_name_entry_at(entries, name, k + 1)
    }
}

pub open spec fn spec_idx_name_entry(entries: Seq<NameEntryView>, name: Seq<u8>) -> Option<int> {
    idx_name_entry_at(entries, name, 0)
}

fn name_entry_index(entries: &Vec<NameEntry>, name: &[u8]) -> (r: Option<usize>)
    ensures
        r matches Some(j) ==> j < entries@.len() && spec_idx_name_entry(
            entries.deep_view(),
            name@,
        ) == Some(j as int),
        r is None ==> spec_idx_name_entry(entries.deep_view(), name@) is None,
{
    let mut j: usize = 0;
    while j < entries.len()
        invariant
            0 <= j <= entries@.len(),
            idx_name_entry_at(entries.deep_view(), name@, 0) == idx_name_entry_at(entries.deep_view(), name@, j as int),
        decreases entries@.len() - j,
    {
        proof {
            assert(entries.deep_view()[j as int] == entries@[j as int].deep_view());
        }
        if crate::bytes::bytes_eq(entries[j].name.as_slice(), name) {
            return Some(j);
        }
        j = j + 1;
    }
    None
}

/// The addresses appended to the forward entry of `name` on `net`;
/// missing tables and entries are created.
pub open spec fn spec_add_name_ips(
    m: Seq<NetworkNamesView>,
    net: Seq<u8>,
    name: Seq<u8>,
    ips: Seq<IpAddr>,
) -> Seq<NetworkNamesView> {
    match spec_idx_names(m, net) {
        None => m.push(
            NetworkNamesView { network: net, entries: seq![NameEntryView { name: name, ips: ips }] },
        ),
        Some(i) => {
            let entries = m[i].entries;
            match spec_idx_name_entry(entries, name) {
                None => m.update(
                    i,
                    NetworkNamesView {
                        network: m[i].network,
                        entries: entries.push(NameEntryView { name: name, ips: ips }),
                    },
                ),
                Some(j) => m.update(
                    i,
                    NetworkNamesView {
                        network: m[i].network,
                        entries: entries.update(
                            j,
                            NameEntryView { name: entries[j].name, ips: entries[j].ips + ips },
                        ),
                    },
                ),
            }
        },
    }
}

fn add_name_ips(m: &mut Vec<NetworkNames>, net: &[u8], name: &[u8], ips: &Vec<IpAddr>)
    ensures
        final(m).deep_view() == spec_add_name_ips(old(m).deep_view(), net@, name@, ips@),
{
    let ghost mv = m.deep_view();
    let mut i: usize = 0;
    while i < m.len()
        invariant
            0 <= i <= m@.len(),
            m@ == old(m)@,
            mv == m.deep_view(),
            idx_names_at(mv, net@, 0) == idx_names_at(mv, net@, i as int),
        decreases m@.len() - i,
    {
        proof {
            assert(mv[i as int] == m@[i as int].deep_view());
        }
        if crate::bytes::bytes_eq(m[i].network.as_slice(), net) {
            let mut e = m.remove(i);
            let ghost entries0 = e.entries.deep_view();
            if let Some(j) = name_entry_index(&e.entries, name) {
                let mut r = e.entries.remove(j);
                crate::backend::append_ips(&mut r.ips, ips);
                let ghost rv = r.deep_view();
                e.entries.insert(j, r);
                proof {
                    assert(rv == NameEntryView { name: entries0[j as int].name, ips: entries0[j as int].ips + ips@ });
                    assert forall|t: int| 0 <= t < e.entries@.len() implies e.entries.deep_view()[t]
                        == entries0.update(j as int, rv)[t] by {
                        assert(e.entries.deep_view()[t] == e.entries@[t].deep_view());
                    }
                    assert(e.entries.deep_view() =~~= entries0.update(j as int, rv));
                }
            } else {
                let r = NameEntry { name: vstd::slice::slice_to_vec(name), ips: vstd::slice::slice_to_vec(ips.as_slice()) };
                let ghost rv = r.deep_view();
                e.entries.push(r);
                proof {
                    assert(rv == NameEntryView { name: name@, ips: ips@ });
                    assert forall|t: int| 0 <= t < e.entries@.len() implies e.entries.deep_view()[t]
                        == entries0.push(rv)[t] by {
                        assert(e.entries.deep_view()[t] == e.entries@[t].deep_view());
                    }
                    assert(e.entries.deep_view() =~~= entries0.push(rv));
                }
            }
            let ghost ev = e.deep_view();
            m.insert(i, e);
            proof {
                let expect = spec_add_name_ips(mv, net@, name@, ips@);
                assert(expect == mv.update(i as int, ev));
                assert forall|t: int| 0 <= t < expect.len() implies m.deep_view()[t] == expect[t] by {
                    assert(m.deep_view()[t] == m@[t].deep_view());
                }
                assert(m.deep_view() =~~= expect);
            }
            return ;
        }
        i = i + 1;
    }
    let mut entries: Vec<NameEntry> = Vec::new();
    entries.push(NameEntry { name: vstd::slice::slice_to_vec(name), ips: vstd::slice::slice_to_vec(ips.as_slice()) });
    let e = NetworkNames { network: vstd::slice::slice_to_vec(net), entries };
    let ghost ev = e.deep_view();
    m.push(e);
    proof {
        assert(ev.entries =~~= seq![NameEntryView { name: name@, ips: ips@ }]);
        assert(ev == NetworkNamesView { network: net@, entries: seq![NameEntryView { name: name@, ips: ips@ }] });
        let expect = spec_add_name_ips(mv, net@, name@, ips@);
        assert(expect == mv.push(ev));
        assert forall|t: int| 0 <= t < expect.len() implies m.deep_view()[t] == expect[t] by {
            assert(m.deep_view()[t] == m@[t].deep_view());
        }
        assert(m.deep_view() =~~= expect);
    }
}

// --- requester membership keyed by address ------------------------------

pub open spec fn idx_ip_nets_at(m: Seq<IpNetsView>, ip: IpAddr, k: int) -> Option<int>
    decreases m.len() - k,
{
    if k < 0 || k >= m.len() {
        None
    } else if m[k].ip == ip {
        Some(k)
    } else {
        idx_ip_nets_at(m, ip, k + 1)
    }
}

pub open spec fn spec_idx_ip_nets(m: Seq<IpNetsView>, ip: IpAddr) -> Option<int> {
    idx_ip_nets_at(m, ip, 0)
}

/// The networks appended to the membership list of `ip`.
pub open spec fn spec_add_ip_nets(m: Seq<IpNetsView>, ip: IpAddr, nets: Seq<Seq<u8>>) -> Seq<
    IpNetsView,
> {
    match spec_idx_ip_nets(m, ip) {
        None => m.push(IpNetsView { ip: ip, networks: nets }),
        Some(i) => m.update(i, IpNetsView { ip: m[i].ip, networks: m[i].networks + nets }),
    }
}

fn add_ip_nets(m: &mut Vec<IpNets>, ip: IpAddr, nets: &Vec<Vec<u8>>)
    ensures
        final(m).deep_view() == spec_add_ip_nets(old(m).deep_view(), ip, nets.deep_view()),
{
    let ghost mv = m.deep_view();
    let mut i: usize = 0;
    while i < m.len()
        invariant
            0 <= i <= m@.len(),
            m@ == old(m)@,
            mv == m.deep_view(),
            idx_ip_nets_at(mv, ip, 0) == idx_ip_nets_at(mv, ip, i as int),
        decreases m@.len() - i,
    {
        proof {
            assert(mv[i as int] == m@[i as int].deep_view());
        }
        if m[i].ip == ip {
            let mut e = m.remove(i);
            append_names(&mut e.networks, nets);
            let ghost ev = e.deep_view();
            m.insert(i, e);
            proof {
                assert(ev == IpNetsView { ip: mv[i as int].ip, networks: mv[i as int].networks + nets.deep_view() });
                let expect = spec_add_ip_nets(mv, ip, nets.deep_view());
                assert(expect == mv.update(i as int, ev));
                assert forall|t: int| 0 <= t < expect.len() implies m.deep_view()[t] == expect[t] by {
                    assert(m.deep_view()[t] == m@[t].deep_view());
                }
                assert(m.deep_view() =~~= expect);
            }
            return ;
        }
        i = i + 1;
    }
    let e = IpNets { ip, networks: crate::backend::copy_names(nets) };
    let ghost ev = e.deep_view();
    m.push(e);
    proof {
        assert(ev == IpNetsView { ip: ip, networks: nets.deep_view() });
        let expect = spec_add_ip_nets(mv, ip, nets.deep_view());
        assert(expect == mv.push(ev));
        assert forall|t: int| 0 <= t < expect.len() implies m.deep_view()[t] == expect[t] by {
            assert(m.deep_view()[t] == m@[t].deep_view());
        }
        assert(m.deep_view() =~~= expect);
    }
}


// --- the parse state and the per-container application ------------------

/// Everything the directory fold gathers before the backend is built.
pub struct ParseState {
    pub membership: Vec<IdNets>,
    pub container_ips: Vec<IdIps>,
    pub reverse: Vec<NetworkReverse>,
    pub network_names: Vec<NetworkNames>,
    pub listen4: Vec<ListenEntry4>,
    pub listen6: Vec<ListenEntry6>,
    pub ctr_dns: Vec<CtrDnsEntry>,
    pub network_dns: Vec<NetworkDns>,
    pub network_internal: Vec<NetworkFlag>,
}

pub struct ParseStateView {
    pub membership: Seq<IdNetsView>,
    pub container_ips: Seq<IdIpsView>,
    pub reverse: Seq<NetworkReverseView>,
    pub network_names: Seq<NetworkNamesView>,
    pub listen4: Seq<ListenEntry4View>,
    pub listen6: Seq<ListenEntry6View>,
    pub ctr_dns: Seq<CtrDnsEntryView>,
    pub network_dns: Seq<NetworkDnsView>,
    pub network_internal: Seq<NetworkFlagView>,
}

impl DeepView for ParseState {
    type V = ParseStateView;

    open spec fn deep_view(&self) -> ParseStateView {
        ParseStateView {
            membership: self.membership.deep_view(),
            container_ips: self.container_ips.deep_view(),
            reverse: self.reverse.deep_view(),
            network_names: self.network_names.deep_view(),
            listen4: self.listen4.deep_view(),
            listen6: self.listen6.deep_view(),
            ctr_dns: self.ctr_dns.deep_view(),
            network_dns: self.network_dns.deep_view(),
            network_internal: self.network_internal.deep_view(),
        }
    }
}

/// The state with no file folded in yet.
pub open spec fn spec_empty_state() -> ParseStateView {
    ParseStateView {
        membership: Seq::empty(),
        container_ips: Seq::empty(),
        reverse: Seq::empty(),
        network_names: Seq::empty(),
        listen4: Seq::empty(),
        listen6: Seq::empty(),
        ctr_dns: Seq::empty(),
        network_dns: Seq::empty(),
        network_internal: Seq::empty(),
    }
}

impl ParseState {
    fn new() -> (r: ParseState)
        ensures
            r.deep_view() == spec_empty_state(),
    {
        let r = ParseState {
            membership: Vec::new(),
            container_ips: Vec::new(),
            reverse: Vec::new(),
            network_names: Vec::new(),
            listen4: Vec::new(),
            listen6: Vec::new(),
            ctr_dns: Vec::new(),
            network_dns: Vec::new(),
            network_internal: Vec::new(),
        };
        proof {
            assert(r.membership.deep_view() =~= Seq::<IdNetsView>::empty());
            assert(r.container_ips.deep_view() =~= Seq::<IdIpsView>::empty());
            assert(r.reverse.deep_view() =~= Seq::<NetworkReverseView>::empty());
            assert(r.network_names.deep_view() =~= Seq::<NetworkNamesView>::empty());
            assert(r.listen4.deep_view() =~= Seq::<ListenEntry4View>::empty());
            assert(r.listen6.deep_view() =~= Seq::<ListenEntry6View>::empty());
            assert(r.ctr_dns.deep_view() =~= Seq::<CtrDnsEntryView>::empty());
            assert(r.network_dns.deep_view() =~= Seq::<NetworkDnsView>::empty());
            assert(r.network_internal.deep_view() =~= Seq::<NetworkFlagView>::empty());
        }
        r
    }
}

/// The container's addresses, the IPv4 ones first, as mixed-family values.
pub open spec fn spec_ips_of_ctr(ctr: CtrEntryView) -> Seq<IpAddr> {
    (match ctr.v4 {
        Some(l) => Seq::new(l.len(), |k: int| IpAddr::V4(l[k])),
        None => Seq::empty(),
    }) + (match ctr.v6 {
        Some(l) => Seq::new(l.len(), |k: int| IpAddr::V6(l[k])),
        None => Seq::empty(),
    })
}

/// The reverse table after recording `names` under each address in turn.
pub open spec fn spec_add_reverse_ips(
    rev: Seq<NetworkReverseView>,
    net: Seq<u8>,
    ips: Seq<IpAddr>,
    names: Seq<Seq<u8>>,
) -> Seq<NetworkReverseView>
    decreases ips.len(),
{
    if ips.len() == 0 {
        rev
    } else {
        spec_add_reverse_ips(spec_add_reverse(rev, net, ips[0], names), net, ips.drop_first(), names)
    }
}

/// The container-resolver table after recording `servers` under each
/// address in turn.
pub open spec fn spec_set_ctr_dns_ips(
    cd: Seq<CtrDnsEntryView>,
    ips: Seq<IpAddr>,
    servers: Option<Seq<IpAddr>>,
) -> Seq<CtrDnsEntryView>
    decreases ips.len(),
{
    if ips.len() == 0 {
        cd
    } else {
        spec_set_ctr_dns_ips(spec_set_ctr_dns(cd, ips[0], servers), ips.drop_first(), servers)
    }
}

/// The forward table after recording `ips` under each alias in turn.
pub open spec fn spec_add_aliases(
    nn: Seq<NetworkNamesView>,
    net: Seq<u8>,
    aliases: Seq<Seq<u8>>,
    ips: Seq<IpAddr>,
) -> Seq<NetworkNamesView>
    decreases aliases.len(),
{
    if aliases.len() == 0 {
        nn
    } else {
        spec_add_aliases(spec_add_name_ips(nn, net, aliases[0], ips), net, aliases.drop_first(), ips)
    }
}

/// One container entry folded into the state: membership, reverse
/// entries, container resolvers (only on non-internal networks), the
/// container's address list, the forward entries of each alias, and the
/// network's internal flag.
pub open spec fn spec_apply_ctr(
    st: ParseStateView,
    net: Seq<u8>,
    internal: bool,
    ctr: CtrEntryView,
) -> ParseStateView {
    let new_ips = spec_ips_of_ctr(ctr);
    ParseStateView {
        membership: spec_add_membership(st.membership, ctr.id, net),
        container_ips: spec_add_id_ips(st.container_ips, ctr.id, new_ips),
        reverse: spec_add_reverse_ips(st.reverse, net, new_ips, ctr.aliases),
        network_names: spec_add_aliases(st.network_names, net, ctr.aliases, new_ips),
        listen4: st.listen4,
        listen6: st.listen6,
        ctr_dns: if internal {
            st.ctr_dns
        } else {
            spec_set_ctr_dns_ips(st.ctr_dns, new_ips, ctr.dns_servers)
        },
        network_dns: st.network_dns,
        network_internal: spec_set_internal(st.network_internal, net, internal),
    }
}

/// The container's addresses as a vector, IPv4 first.
fn ips_of_ctr(ctr: &CtrEntry) -> (r: Vec<IpAddr>)
    ensures
        r@ == spec_ips_of_ctr(ctr.deep_view()),
{
    let mut out: Vec<IpAddr> = Vec::new();
    let ghost v4s: Seq<IpAddr> = match ctr.deep_view().v4 {
        Some(l) => Seq::new(l.len(), |k: int| IpAddr::V4(l[k])),
        None => Seq::empty(),
    };
    match &ctr.v4 {
        Some(l) => {
            let mut k: usize = 0;
            while k < l.len()
                invariant
                    0 <= k <= l@.len(),
                    v4s == Seq::new(l@.len(), |k: int| IpAddr::V4(l@[k])),
                    out@ == v4s.take(k as int),
                decreases l@.len() - k,
            {
                out.push(IpAddr::V4(l[k]));
                proof {
                    assert(out@ =~= v4s.take(k + 1));
                }
                k = k + 1;
            }
            proof {
                assert(out@ =~= v4s);
            }
        },
        None => {
        },
    }
    let ghost v6s: Seq<IpAddr> = match ctr.deep_view().v6 {
        Some(l) => Seq::new(l.len(), |k: int| IpAddr::V6(l[k])),
        None => Seq::empty(),
    };
    match &ctr.v6 {
        Some(l) => {
            let mut k: usize = 0;
            while k < l.len()
                invariant
                    0 <= k <= l@.len(),
                    v6s == Seq::new(l@.len(), |k: int| IpAddr::V6(l@[k])),
                    out@ == v4s + v6s.take(k as int),
                    out@.len() == v4s.len() + k,
                decreases l@.len() - k,
            {
                out.push(IpAddr::V6(l[k]));
                proof {
                    assert(out@ =~= v4s + v6s.take(k + 1));
                }
                k = k + 1;
            }
            proof {
                assert(out@ =~= v4s + v6s);
            }
        },
        None => {
            proof {
                assert(out@ =~= v4s + v6s);
            }
        },
    }
    out
}

fn apply_ctr(st: &mut ParseState, net: &[u8], internal: bool, ctr: &CtrEntry)
    ensures
        final(st).deep_view() == spec_apply_ctr(old(st).deep_view(), net@, internal, ctr.deep_view()),
{
    let ghost st0 = st.deep_view();
    let ghost cv = ctr.deep_view();
    let new_ips = ips_of_ctr(ctr);
    let ghost ips = new_ips@;

    add_membership(&mut st.membership, ctr.id.as_slice(), net);
    add_id_ips(&mut st.container_ips, ctr.id.as_slice(), &new_ips);

    let mut k: usize = 0;
    proof {
        assert(ips.skip(0) =~= ips);
    }
    while k < new_ips.len()
        invariant
            0 <= k <= new_ips@.len(),
            new_ips@ == ips,
            cv == ctr.deep_view(),
            spec_add_reverse_ips(st.reverse.deep_view(), net@, ips.skip(k as int), cv.aliases)
                == spec_add_reverse_ips(st0.reverse, net@, ips, cv.aliases),
            st.container_ips.deep_view() == spec_add_id_ips(st0.container_ips, cv.id, ips),
            st.membership.deep_view() == spec_add_membership(st0.membership, cv.id, net@),
            st.network_names.deep_view() == st0.network_names,
            st.listen4.deep_view() == st0.listen4,
            st.listen6.deep_view() == st0.listen6,
            st.ctr_dns.deep_view() == st0.ctr_dns,
            st.network_dns.deep_view() == st0.network_dns,
            st.network_internal.deep_view() == st0.network_internal,
        decreases new_ips@.len() - k,
    {
        proof {
            assert(ips.skip(k as int).drop_first() =~= ips.skip(k + 1));
            assert(ips.skip(k as int)[0] == ips[k as int]);
        }
        add_reverse(&mut st.reverse, net, new_ips[k], &ctr.aliases);
        k = k + 1;
    }
    proof {
        assert(ips.skip(new_ips@.len() as int) =~= Seq::<IpAddr>::empty());
    }

    if !internal {
        let mut k2: usize = 0;
        proof {
            assert(ips.skip(0) =~= ips);
        }
        while k2 < new_ips.len()
            invariant
                0 <= k2 <= new_ips@.len(),
                new_ips@ == ips,
                cv == ctr.deep_view(),
                spec_set_ctr_dns_ips(st.ctr_dns.deep_view(), ips.skip(k2 as int), cv.dns_servers)
                    == spec_set_ctr_dns_ips(st0.ctr_dns, ips, cv.dns_servers),
                st.container_ips.deep_view() == spec_add_id_ips(st0.container_ips, cv.id, ips),
                st.membership.deep_view() == spec_add_membership(st0.membership, cv.id, net@),
                st.reverse.deep_view() == spec_add_reverse_ips(st0.reverse, net@, ips, cv.aliases),
                st.network_names.deep_view() == st0.network_names,
                st.listen4.deep_view() == st0.listen4,
                st.listen6.deep_view() == st0.listen6,
                st.network_dns.deep_view() == st0.network_dns,
                st.network_internal.deep_view() == st0.network_internal,
            decreases new_ips@.len() - k2,
        {
            proof {
                assert(ips.skip(k2 as int).drop_first() =~= ips.skip(k2 + 1));
                assert(ips.skip(k2 as int)[0] == ips[k2 as int]);
            }
            set_ctr_dns(&mut st.ctr_dns, new_ips[k2], &ctr.dns_servers);
            k2 = k2 + 1;
        }
        proof {
            assert(ips.skip(new_ips@.len() as int) =~= Seq::<IpAddr>::empty());
        }
    }

    let mut k3: usize = 0;
    let ghost als = ctr.aliases.deep_view();
    proof {
        assert(als.skip(0) =~= als);
    }
    while k3 < ctr.aliases.len()
        invariant
            0 <= k3 <= ctr.aliases@.len(),
            als == ctr.aliases.deep_view(),
            cv == ctr.deep_view(),
            new_ips@ == ips,
            spec_add_aliases(st.network_names.deep_view(), net@, als.skip(k3 as int), ips)
                == spec_add_aliases(st0.network_names, net@, als, ips),
            st.container_ips.deep_view() == spec_add_id_ips(st0.container_ips, cv.id, ips),
            st.membership.deep_view() == spec_add_membership(st0.membership, cv.id, net@),
            st.reverse.deep_view() == spec_add_reverse_ips(st0.reverse, net@, ips, cv.aliases),
            st.listen4.deep_view() == st0.listen4,
            st.listen6.deep_view() == st0.listen6,
            st.ctr_dns.deep_view() == (if internal { st0.ctr_dns } else { spec_set_ctr_dns_ips(st0.ctr_dns, ips, cv.dns_servers) }),
            st.network_dns.deep_view() == st0.network_dns,
            st.network_internal.deep_view() == st0.network_internal,
        decreases ctr.aliases@.len() - k3,
    {
        proof {
            assert(als.skip(k3 as int).drop_first() =~= als.skip(k3 + 1));
            assert(als.skip(k3 as int)[0] == als[k3 as int]);
            assert(als[k3 as int] == ctr.aliases@[k3 as int]@);
        }
        add_name_ips(&mut st.network_names, net, ctr.aliases[k3].as_slice(), &new_ips);
        k3 = k3 + 1;
    }
    proof {
        assert(als.skip(ctr.aliases@.len() as int) =~= Seq::<Seq<u8>>::empty());
    }

    set_internal(&mut st.network_internal, net, internal);
}


// --- the per-file application and the directory fold --------------------

/// The two listen plans after partitioning the bind addresses by family.
pub open spec fn spec_add_binds(
    l4: Seq<ListenEntry4View>,
    l6: Seq<ListenEntry6View>,
    net: Seq<u8>,
    binds: Seq<IpAddr>,
) -> (Seq<ListenEntry4View>, Seq<ListenEntry6View>)
    decreases binds.len(),
{
    if binds.len() == 0 {
        (l4, l6)
    } else {
        match binds[0] {
            IpAddr::V4(a) => spec_add_binds(spec_add_listen4(l4, net, a), l6, net, binds.drop_first()),
            IpAddr::V6(a) => spec_add_binds(l4, spec_add_listen6(l6, net, a), net, binds.drop_first()),
        }
    }
}

/// The state after folding in the container entries in order.
pub open spec fn spec_apply_ctrs(
    st: ParseStateView,
    net: Seq<u8>,
    internal: bool,
    ctrs: Seq<CtrEntryView>,
) -> ParseStateView
    decreases ctrs.len(),
{
    if ctrs.len() == 0 {
        st
    } else {
        spec_apply_ctrs(spec_apply_ctr(st, net, internal, ctrs[0]), net, internal, ctrs.drop_first())
    }
}

/// One parsed network file folded into the state: the network's
/// resolver list (an internal network gets an empty one), the listen
/// plans, and every container entry.
pub open spec fn spec_apply_file(
    st: ParseStateView,
    net: Seq<u8>,
    internal: bool,
    cfg: ParsedNetworkConfigView,
) -> ParseStateView {
    let nd = if internal {
        spec_set_network_dns(st.network_dns, net, Seq::empty())
    } else if cfg.network_dnsservers.len() > 0 {
        spec_set_network_dns(st.network_dns, net, cfg.network_dnsservers)
    } else {
        st.network_dns
    };
    let plans = spec_add_binds(st.listen4, st.listen6, net, cfg.network_bind_ip);
    let st1 = ParseStateView {
        network_dns: nd,
        listen4: plans.0,
        listen6: plans.1,
        ..st
    };
    spec_apply_ctrs(st1, net, internal, cfg.container_entry)
}

/// The network name a file name denotes, with the internal suffix
/// stripped, and whether that suffix was present.
pub open spec fn spec_file_internal(name: Seq<u8>) -> bool {
    spec_ends_with(name, spec_internal_suffix())
}

pub open spec fn spec_file_net(name: Seq<u8>) -> Seq<u8> {
    if spec_file_internal(name) {
        name.take(name.len() - 4)
    } else {
        name
    }
}

/// The directory fold from file `k` on: the PID file and files that do
/// not parse are skipped, every other file is applied in order.
pub open spec fn spec_fold_files(files: Seq<ConfigFileView>, k: int, st: ParseStateView) -> ParseStateView
    decreases files.len() - k,
{
    if k < 0 || k >= files.len() {
        st
    } else if files[k].name == spec_pid_file_name() {
        spec_fold_files(files, k + 1, st)
    } else {
        match spec_parse_config(files[k].content) {
            None => spec_fold_files(files, k + 1, st),
            Some(cfg) => spec_fold_files(
                files,
                k + 1,
                spec_apply_file(st, spec_file_net(files[k].name), spec_file_internal(files[k].name), cfg),
            ),
        }
    }
}

// --- building the requester membership table ----------------------------

/// The membership table after appending `nets` under each address.
pub open spec fn spec_add_ips_networks(
    acc: Seq<IpNetsView>,
    ips: Seq<IpAddr>,
    nets: Seq<Seq<u8>>,
) -> Seq<IpNetsView>
    decreases ips.len(),
{
    if ips.len() == 0 {
        acc
    } else {
        spec_add_ips_networks(spec_add_ip_nets(acc, ips[0], nets), ips.drop_first(), nets)
    }
}

/// The requester membership table built from the per-container tables:
/// every address of a container is mapped to the container's networks.
/// Absence means some container has addresses but no recorded
/// membership.
pub open spec fn spec_build_ip_map_at(
    cips: Seq<IdIpsView>,
    memb: Seq<IdNetsView>,
    k: int,
    acc: Seq<IpNetsView>,
) -> Option<Seq<IpNetsView>>
    decreases cips.len() - k,
{
    if k < 0 || k >= cips.len() {
        Some(acc)
    } else {
        match spec_idx_id_nets(memb, cips[k].id) {
            None => None,
            Some(i) => spec_build_ip_map_at(
                cips,
                memb,
                k + 1,
                spec_add_ips_networks(acc, cips[k].ips, memb[i].networks),
            ),
        }
    }
}

/// What the whole directory parse yields.
pub struct DirParseView {
    pub ip_mappings: Seq<IpNetsView>,
    pub network_names: Seq<NetworkNamesView>,
    pub reverse: Seq<NetworkReverseView>,
    pub ctr_dns: Seq<CtrDnsEntryView>,
    pub network_dns: Seq<NetworkDnsView>,
    pub network_internal: Seq<NetworkFlagView>,
    pub listen4: Seq<ListenEntry4View>,
    pub listen6: Seq<ListenEntry6View>,
}

/// The directory parse: the fold over all files, then the membership
/// table; absence is the one structural error.
pub open spec fn spec_parse_configs(files: Seq<ConfigFileView>) -> Option<DirParseView> {
    let st = spec_fold_files(files, 0, spec_empty_state());
    match spec_build_ip_map_at(st.container_ips, st.membership, 0, Seq::empty()) {
        None => None,
        Some(ipm) => Some(
            DirParseView {
                ip_mappings: ipm,
                network_names: st.network_names,
                reverse: st.reverse,
                ctr_dns: st.ctr_dns,
                network_dns: st.network_dns,
                network_internal: st.network_internal,
                listen4: st.listen4,
                listen6: st.listen6,
            },
        ),
    }
}

/// The search domain with a trailing dot appended when missing.
pub open spec fn spec_with_dot(sd: Seq<u8>) -> Seq<u8> {
    if sd.len() > 0 && sd.last() != 46 {
        sd.push(46u8)
    } else {
        sd
    }
}

fn apply_file(st: &mut ParseState, net: &[u8], internal: bool, cfg: &ParsedNetworkConfig)
    ensures
        final(st).deep_view() == spec_apply_file(old(st).deep_view(), net@, internal, cfg.deep_view()),
{
    let ghost st0 = st.deep_view();
    let ghost cfgv = cfg.deep_view();

    if internal {
        let empty_servers: Vec<IpAddr> = Vec::new();
        set_network_dns(&mut st.network_dns, net, &empty_servers);
        proof {
            assert(empty_servers@ =~= Seq::<IpAddr>::empty());
        }
    } else if cfg.network_dnsservers.len() > 0 {
        set_network_dns(&mut st.network_dns, net, &cfg.network_dnsservers);
    }

    let ghost binds = cfgv.network_bind_ip;
    let mut k: usize = 0;
    proof {
        assert(binds.skip(0) =~= binds);
    }
    while k < cfg.network_bind_ip.len()
        invariant
            0 <= k <= cfg.network_bind_ip@.len(),
            cfg.network_bind_ip@ == binds,
            cfgv == cfg.deep_view(),
            spec_add_binds(st.listen4.deep_view(), st.listen6.deep_view(), net@, binds.skip(k as int))
                == spec_add_binds(st0.listen4, st0.listen6, net@, binds),
            st.membership.deep_view() == st0.membership,
            st.container_ips.deep_view() == st0.container_ips,
            st.reverse.deep_view() == st0.reverse,
            st.network_names.deep_view() == st0.network_names,
            st.ctr_dns.deep_view() == st0.ctr_dns,
            st.network_dns.deep_view() == (if internal { spec_set_network_dns(st0.network_dns, net@, Seq::empty()) } else if cfgv.network_dnsservers.len() > 0 { spec_set_network_dns(st0.network_dns, net@, cfgv.network_dnsservers) } else { st0.network_dns }),
            st.network_internal.deep_view() == st0.network_internal,
        decreases cfg.network_bind_ip@.len() - k,
    {
        proof {
            assert(binds.skip(k as int).drop_first() =~= binds.skip(k + 1));
            assert(binds.skip(k as int)[0] == binds[k as int]);
        }
        match cfg.network_bind_ip[k] {
            IpAddr::V4(a) => {
                add_listen4(&mut st.listen4, net, a);
            },
            IpAddr::V6(a) => {
                add_listen6(&mut st.listen6, net, a);
            },
        }
        k = k + 1;
    }
    proof {
        assert(binds.skip(cfg.network_bind_ip@.len() as int) =~= Seq::<IpAddr>::empty());
    }

    let ghost st1 = st.deep_view();
    let ghost ctrs = cfgv.container_entry;
    let mut j: usize = 0;
    proof {
        assert(ctrs.skip(0) =~= ctrs);
    }
    while j < cfg.container_entry.len()
        invariant
            0 <= j <= cfg.container_entry@.len(),
            cfg.container_entry.deep_view() == ctrs,
            cfgv == cfg.deep_view(),
            spec_apply_ctrs(st.deep_view(), net@, internal, ctrs.skip(j as int))
                == spec_apply_ctrs(st1, net@, internal, ctrs),
        decreases cfg.container_entry@.len() - j,
    {
        proof {
            assert(ctrs.skip(j as int).drop_first() =~= ctrs.skip(j + 1));
            assert(ctrs.skip(j as int)[0] == ctrs[j as int]);
            assert(ctrs[j as int] == cfg.container_entry@[j as int].deep_view());
        }
        apply_ctr(st, net, internal, &cfg.container_entry[j]);
        j = j + 1;
    }
    proof {
        assert(ctrs.skip(cfg.container_entry@.len() as int) =~= Seq::<CtrEntryView>::empty());
    }
}

fn id_nets_index(m: &Vec<IdNets>, id: &[u8]) -> (r: Option<usize>)
    ensures
        r matches Some(i) ==> i < m@.len() && spec_idx_id_nets(m.deep_view(), id@) == Some(i as int),
        r is None ==> spec_idx_id_nets(m.deep_view(), id@) is None,
{
    let mut i: usize = 0;
    while i < m.len()
        invariant
            0 <= i <= m@.len(),
            idx_id_nets_at(m.deep_view(), id@, 0) == idx_id_nets_at(m.deep_view(), id@, i as int),
        decreases m@.len() - i,
    {
        proof {
            assert(m.deep_view()[i as int] == m@[i as int].deep_view());
        }
        if crate::bytes::bytes_eq(m[i].id.as_slice(), id) {
            return Some(i);
        }
        i = i + 1;
    }
    None
}

/// Parse configuration files into a backend snapshot plus the IPv4 and
/// IPv6 listen plans.
///
/// A file named like the PID file is skipped; so is a file whose content
/// does not parse, mirroring the tolerance for files that change while
/// the directory is being read.  The call fails only on the structural
/// error of a container with addresses but no network membership.
pub fn parse_configs(files: &Vec<ConfigFile>, filter_search_domain: &[u8]) -> (r: AardvarkResult<
    (crate::backend::DNSBackend, Vec<ListenEntry4>, Vec<ListenEntry6>),
>)
    ensures
        r is Ok <==> spec_parse_configs(files.deep_view()) is Some,
        r matches Ok(t) ==> spec_parse_configs(files.deep_view()) matches Some(d)
            && t.0.ip_mappings.deep_view() == d.ip_mappings
            && t.0.name_mappings.deep_view() == d.network_names
            && t.0.reverse_mappings.deep_view() == d.reverse
            && t.0.ctr_dns_server.deep_view() == d.ctr_dns
            && t.0.network_dns_server.deep_view() == d.network_dns
            && t.0.network_is_internal.deep_view() == d.network_internal
            && t.0.search_domain@ == spec_with_dot(filter_search_domain@)
            && t.1.deep_view() == d.listen4
            && t.2.deep_view() == d.listen6,
{
    let ghost fv = files.deep_view();
    let mut st = ParseState::new();
    let pid_name = pid_file_name();
    let suffix = internal_suffix();
    let mut k: usize = 0;
    while k < files.len()
        invariant
            0 <= k <= files@.len(),
            fv == files.deep_view(),
            pid_name@ == spec_pid_file_name(),
            suffix@ == spec_internal_suffix(),
            spec_fold_files(fv, k as int, st.deep_view()) == spec_fold_files(fv, 0, spec_empty_state()),
        decreases files@.len() - k,
    {
        proof {
            assert(fv[k as int] == files@[k as int].deep_view());
        }
        if crate::bytes::bytes_eq(files[k].name.as_slice(), pid_name.as_slice()) {
            k = k + 1;
            continue;
        }
        match parse_config(files[k].content.as_slice()) {
            Err(_) => {
                // a file that does not parse is logged and skipped
            },
            Ok(cfg) => {
                let name = files[k].name.as_slice();
                let internal = ends_with(name, suffix.as_slice());
                let net = if internal {
                    crate::bytes::sub_bytes(name, 0, name.len() - 4)
                } else {
                    crate::bytes::sub_bytes(name, 0, name.len())
                };
                proof {
                    if internal {
                        assert(net@ =~= spec_file_net(fv[k as int].name));
                    } else {
                        assert(net@ =~= spec_file_net(fv[k as int].name));
                    }
                }
                apply_file(&mut st, net.as_slice(), internal, &cfg);
            },
        }
        k = k + 1;
    }

    // build the requester membership table from what was gathered
    let ghost stv = st.deep_view();
    let mut ip_mappings: Vec<IpNets> = Vec::new();
    let mut c: usize = 0;
    proof {
        assert(ip_mappings.deep_view() =~= Seq::<IpNetsView>::empty());
    }
    while c < st.container_ips.len()
        invariant
            0 <= c <= st.container_ips@.len(),
            stv == st.deep_view(),
            fv == files.deep_view(),
            stv == spec_fold_files(fv, 0, spec_empty_state()),
            spec_build_ip_map_at(stv.container_ips, stv.membership, c as int, ip_mappings.deep_view())
                == spec_build_ip_map_at(stv.container_ips, stv.membership, 0, Seq::empty()),
        decreases st.container_ips@.len() - c,
    {
        proof {
            assert(stv.container_ips[c as int] == st.container_ips@[c as int].deep_view());
        }
        let i = match id_nets_index(&st.membership, st.container_ips[c].id.as_slice()) {
            Some(i) => i,
            None => {
                return Err(
                    AardvarkError::msg(
                        String::from_str(
                            "container has an entry in the IPs table but none in the network membership table",
                        ),
                    ),
                );
            },
        };
        proof {
            assert(stv.membership[i as int] == st.membership@[i as int].deep_view());
        }
        let entry_ips = vstd::slice::slice_to_vec(st.container_ips[c].ips.as_slice());
        let nets = crate::backend::copy_names(&st.membership[i].networks);
        let ghost eips = entry_ips@;
        let ghost enets = nets.deep_view();
        let ghost acc0 = ip_mappings.deep_view();
        let mut t: usize = 0;
        proof {
            assert(eips.skip(0) =~= eips);
        }
        while t < entry_ips.len()
            invariant
                0 <= t <= entry_ips@.len(),
                entry_ips@ == eips,
                nets.deep_view() == enets,
                spec_add_ips_networks(ip_mappings.deep_view(), eips.skip(t as int), enets)
                    == spec_add_ips_networks(acc0, eips, enets),
            decreases entry_ips@.len() - t,
        {
            proof {
                assert(eips.skip(t as int).drop_first() =~= eips.skip(t + 1));
                assert(eips.skip(t as int)[0] == eips[t as int]);
            }
            add_ip_nets(&mut ip_mappings, entry_ips[t], &nets);
            t = t + 1;
        }
        proof {
            assert(eips.skip(entry_ips@.len() as int) =~= Seq::<IpAddr>::empty());
        }
        c = c + 1;
    }

    let sd = vstd::slice::slice_to_vec(filter_search_domain);
    let backend = crate::backend::DNSBackend::new(
        ip_mappings,
        st.network_names,
        st.reverse,
        st.ctr_dns,
        st.network_dns,
        st.network_internal,
        sd,
    );
    Ok((backend, st.listen4, st.listen6))
}


// --- what recording a container means for reverse lookups ---------------

/// The names a reverse table records for `ip` on `net`.
pub open spec fn spec_rev_names(rev: Seq<NetworkReverseView>, net: Seq<u8>, ip: IpAddr) -> Option<
    Seq<Seq<u8>>,
> {
    match crate::backend::spec_reverse_entries_of(rev, net) {
        Some(entries) => crate::backend::spec_names_of_ip(entries, ip),
        None => None,
    }
}

proof fn lemma_idx_find_reverse(m: Seq<NetworkReverseView>, net: Seq<u8>, k: int)
    requires
        0 <= k,
    ensures
        idx_reverse_at(m, net, k) is None ==> crate::backend::find_reverse_entries_at(m, net, k)
            is None && (forall|j: int| k <= j < m.len() ==> (#[trigger] m[j]).network != net),
        idx_reverse_at(m, net, k) matches Some(i) ==> k <= i < m.len() && m[i].network == net
            && crate::backend::find_reverse_entries_at(m, net, k) == Some(m[i].entries) && (
        forall|j: int| k <= j < i ==> (#[trigger] m[j]).network != net),
    decreases m.len() - k,
{
    if 0 <= k < m.len() && m[k].network != net {
        lemma_idx_find_reverse(m, net, k + 1);
    }
}

proof fn lemma_idx_find_rev_ip(entries: Seq<ReverseEntryView>, ip: IpAddr, k: int)
    requires
        0 <= k,
    ensures
        idx_rev_ip_at(entries, ip, k) is None ==> crate::backend::find_reverse_names_at(
            entries,
            ip,
            k,
        ) is None && (forall|j: int| k <= j < entries.len() ==> (#[trigger] entries[j]).ip != ip),
        idx_rev_ip_at(entries, ip, k) matches Some(i) ==> k <= i < entries.len() && entries[i].ip
            == ip && crate::backend::find_reverse_names_at(entries, ip, k) == Some(
            entries[i].names,
        ) && (forall|j: int| k <= j < i ==> (#[trigger] entries[j]).ip != ip),
    decreases entries.len() - k,
{
    if 0 <= k < entries.len() && entries[k].ip != ip {
        lemma_idx_find_rev_ip(entries, ip, k + 1);
    }
}

proof fn lemma_find_reverse_skips_mismatch(m: Seq<NetworkReverseView>, net: Seq<u8>, k: int, i: int)
    requires
        0 <= k <= i <= m.len(),
        forall|j: int| k <= j < i ==> (#[trigger] m[j]).network != net,
    ensures
        crate::backend::find_reverse_entries_at(m, net, k)
            == crate::backend::find_reverse_entries_at(m, net, i),
    decreases i - k,
{
    if k < i {
        lemma_find_reverse_skips_mismatch(m, net, k + 1, i);
    }
}

proof fn lemma_find_rev_ip_skips_mismatch(entries: Seq<ReverseEntryView>, ip: IpAddr, k: int, i: int)
    requires
        0 <= k <= i <= entries.len(),
        forall|j: int| k <= j < i ==> (#[trigger] entries[j]).ip != ip,
    ensures
        crate::backend::find_reverse_names_at(entries, ip, k)
            == crate::backend::find_reverse_names_at(entries, ip, i),
    decreases i - k,
{
    if k < i {
        lemma_find_rev_ip_skips_mismatch(entries, ip, k + 1, i);
    }
}

/// Recording a container's names under an address the network's reverse
/// table does not yet know makes the reverse names of that address
/// exactly the container's names list, container name first: one
/// recording step of the reverse-round-trip law.
pub proof fn lemma_reverse_records_names(
    rev: Seq<NetworkReverseView>,
    net: Seq<u8>,
    ip: IpAddr,
    names: Seq<Seq<u8>>,
)
    requires
        spec_rev_names(rev, net, ip) is None,
    ensures
        spec_rev_names(spec_add_reverse(rev, net, ip, names), net, ip) == Some(names),
{
    let rev2 = spec_add_reverse(rev, net, ip, names);
    lemma_idx_find_reverse(rev, net, 0);
    match spec_idx_reverse(rev, net) {
        None => {
            // the network is new: the table grows a fresh entry at the end
            let e = NetworkReverseView {
                network: net,
                entries: seq![ReverseEntryView { ip: ip, names: names }],
            };
            assert(rev2 == rev.push(e));
            assert(forall|j: int| 0 <= j < rev.len() ==> (#[trigger] rev2[j]) == rev[j]);
            lemma_find_reverse_skips_mismatch(rev2, net, 0, rev.len() as int);
            assert(rev2[rev.len() as int] == e);
            assert(crate::backend::find_reverse_entries_at(rev2, net, rev.len() as int) == Some(
                e.entries,
            ));
            assert(crate::backend::find_reverse_names_at(e.entries, ip, 0) == Some(names));
        },
        Some(i) => {
            let entries = rev[i].entries;
            lemma_idx_find_rev_ip(entries, ip, 0);
            match spec_idx_rev_ip(entries, ip) {
                Some(_) => {
                    // the address would already be known, contradicting
                    // the premise
                    assert(false);
                },
                None => {
                    let e2 = NetworkReverseView {
                        network: rev[i].network,
                        entries: entries.push(ReverseEntryView { ip: ip, names: names }),
                    };
                    assert(rev2 == rev.update(i, e2));
                    assert(forall|j: int| 0 <= j < i ==> (#[trigger] rev2[j]) == rev[j]);
                    lemma_find_reverse_skips_mismatch(rev2, net, 0, i);
                    assert(rev2[i] == e2);
                    assert(crate::backend::find_reverse_entries_at(rev2, net, i) == Some(
                        e2.entries,
                    ));
                    assert(forall|j: int|
                        0 <= j < entries.len() ==> (#[trigger] e2.entries[j]) == entries[j]);
                    lemma_find_rev_ip_skips_mismatch(e2.entries, ip, 0, entries.len() as int);
                    assert(e2.entries[entries.len() as int].ip == ip);
                    assert(crate::backend::find_reverse_names_at(
                        e2.entries,
                        ip,
                        entries.len() as int,
                    ) == Some(names));
                },
            }
        },
    }
}


/// Recording names under one address leaves every other (network,
/// address) reverse entry unchanged.
pub proof fn lemma_reverse_preserves_others(
    rev: Seq<NetworkReverseView>,
    net2: Seq<u8>,
    ip2: IpAddr,
    names: Seq<Seq<u8>>,
    net: Seq<u8>,
    ip: IpAddr,
)
    requires
        net2 != net || ip2 != ip,
    ensures
        spec_rev_names(spec_add_reverse(rev, net2, ip2, names), net, ip) == spec_rev_names(
            rev,
            net,
            ip,
        ),
{
    let rev2 = spec_add_reverse(rev, net2, ip2, names);
    lemma_idx_find_reverse(rev, net2, 0);
    lemma_idx_find_reverse(rev, net, 0);
    match spec_idx_reverse(rev, net2) {
        None => {
            let e = NetworkReverseView {
                network: net2,
                entries: seq![ReverseEntryView { ip: ip2, names: names }],
            };
            assert(rev2 == rev.push(e));
            assert(forall|j: int| 0 <= j < rev.len() ==> (#[trigger] rev2[j]) == rev[j]);
            if net == net2 {
                // the table for net was absent and is created now, but
                // its one inner entry is for the other address
                lemma_find_reverse_skips_mismatch(rev2, net, 0, rev.len() as int);
                assert(crate::backend::find_reverse_entries_at(rev2, net, rev.len() as int)
                    == Some(e.entries));
                assert(e.entries[0].ip != ip);
                assert(crate::backend::find_reverse_names_at(e.entries, ip, 1) is None);
                assert(crate::backend::find_reverse_names_at(e.entries, ip, 0) is None);
            } else {
                // the appended table belongs to the other network
                match spec_idx_reverse(rev, net) {
                    None => {
                        lemma_idx_find_reverse(rev2, net, 0);
                        match idx_reverse_at(rev2, net, 0) {
                            None => {
                            },
                            Some(t) => {
                                assert(rev2[t].network == net);
                                if t < rev.len() {
                                    assert(rev[t].network != net);
                                } else {
                                    assert(rev2[t] == e);
                                }
                                assert(false);
                            },
                        }
                    },
                    Some(i) => {
                        assert(forall|j: int|
                            0 <= j < i ==> (#[trigger] rev2[j]).network != net);
                        lemma_find_reverse_skips_mismatch(rev2, net, 0, i);
                        assert(rev2[i] == rev[i]);
                    },
                }
            }
        },
        Some(i2) => {
            let entries = rev[i2].entries;
            lemma_idx_find_rev_ip(entries, ip2, 0);
            lemma_idx_find_rev_ip(entries, ip, 0);
            let e2 = match spec_idx_rev_ip(entries, ip2) {
                None => NetworkReverseView {
                    network: rev[i2].network,
                    entries: entries.push(ReverseEntryView { ip: ip2, names: names }),
                },
                Some(j2) => NetworkReverseView {
                    network: rev[i2].network,
                    entries: entries.update(
                        j2,
                        ReverseEntryView { ip: entries[j2].ip, names: entries[j2].names + names },
                    ),
                },
            };
            assert(rev2 == rev.update(i2, e2));
            assert(forall|j: int| 0 <= j < rev.len() && j != i2 ==> (#[trigger] rev2[j]) == rev[j]);
            // the changed table keeps every inner entry for `ip`:
            // appending or updating the other address's entry does not
            // touch it
            assert(forall|t: int|
                0 <= t < entries.len() ==> (#[trigger] e2.entries[t]).ip == entries[t].ip);
            assert(forall|t: int|
                0 <= t < entries.len() && entries[t].ip != ip2 ==> (#[trigger] e2.entries[t])
                    == entries[t]);
            if net == net2 {
                assert(ip2 != ip);
                assert(spec_idx_reverse(rev, net) == Some(i2));
                lemma_find_reverse_skips_mismatch(rev2, net, 0, i2);
                assert(crate::backend::find_reverse_entries_at(rev2, net, i2) == Some(e2.entries));
                match spec_idx_rev_ip(entries, ip) {
                    None => {
                        lemma_idx_find_rev_ip(e2.entries, ip, 0);
                        match idx_rev_ip_at(e2.entries, ip, 0) {
                            None => {
                            },
                            Some(t) => {
                                assert(e2.entries[t].ip == ip);
                                if t < entries.len() {
                                    assert(entries[t].ip != ip);
                                } else {
                                    assert(e2.entries[t].ip == ip2);
                                }
                                assert(false);
                            },
                        }
                    },
                    Some(j) => {
                        assert(entries[j].ip == ip);
                        assert(forall|t: int| 0 <= t < j ==> (#[trigger] e2.entries[t]).ip != ip);
                        lemma_find_rev_ip_skips_mismatch(e2.entries, ip, 0, j);
                        assert(e2.entries[j] == entries[j]);
                        assert(crate::backend::find_reverse_names_at(e2.entries, ip, j) == Some(
                            entries[j].names,
                        ));
                    },
                }
            } else {
                match spec_idx_reverse(rev, net) {
                    None => {
                        lemma_idx_find_reverse(rev2, net, 0);
                        match idx_reverse_at(rev2, net, 0) {
                            None => {
                            },
                            Some(t) => {
                                assert(rev2[t].network == net);
                                if t == i2 {
                                    assert(e2.network == net2);
                                } else {
                                    assert(rev[t].network != net);
                                }
                                assert(false);
                            },
                        }
                    },
                    Some(i) => {
                        assert(i != i2);
                        assert(forall|j: int|
                            0 <= j < i ==> (#[trigger] rev2[j]).network != net);
                        lemma_find_reverse_skips_mismatch(rev2, net, 0, i);
                        assert(rev2[i] == rev[i]);
                    },
                }
            }
        },
    }
}

/// Folding a list of addresses that avoids `ip` leaves `ip`'s reverse
/// entry unchanged.
proof fn lemma_reverse_ips_preserve(
    rev: Seq<NetworkReverseView>,
    net2: Seq<u8>,
    ips: Seq<IpAddr>,
    names: Seq<Seq<u8>>,
    net: Seq<u8>,
    ip: IpAddr,
)
    requires
        forall|t: int| 0 <= t < ips.len() ==> (net2 != net || #[trigger] ips[t] != ip),
    ensures
        spec_rev_names(spec_add_reverse_ips(rev, net2, ips, names), net, ip) == spec_rev_names(
            rev,
            net,
            ip,
        ),
    decreases ips.len(),
{
    if ips.len() > 0 {
        lemma_reverse_preserves_others(rev, net2, ips[0], names, net, ip);
        assert(forall|t: int|
            0 <= t < ips.drop_first().len() ==> (net2 != net || #[trigger] ips.drop_first()[t]
                != ip));
        lemma_reverse_ips_preserve(
            spec_add_reverse(rev, net2, ips[0], names),
            net2,
            ips.drop_first(),
            names,
            net,
            ip,
        );
    }
}

/// The reverse-round-trip law at the container level: folding one
/// container into the state records, for each address the container
/// holds once and the network's reverse table did not know, exactly the
/// container's names list, container name first.  Together with the
/// reverse-lookup ordering law of the backend, a reverse lookup of such
/// an address from a requester whose first matching network is this one
/// returns a list starting with the container's primary name.
pub proof fn lemma_ctr_reverse_round_trip(
    st: ParseStateView,
    net: Seq<u8>,
    internal: bool,
    ctr: CtrEntryView,
    t: int,
)
    requires
        0 <= t < spec_ips_of_ctr(ctr).len(),
        forall|u: int|
            0 <= u < spec_ips_of_ctr(ctr).len() && u != t ==> #[trigger] spec_ips_of_ctr(ctr)[u]
                != spec_ips_of_ctr(ctr)[t],
        spec_rev_names(st.reverse, net, spec_ips_of_ctr(ctr)[t]) is None,
    ensures
        spec_rev_names(spec_apply_ctr(st, net, internal, ctr).reverse, net, spec_ips_of_ctr(ctr)[t])
            == Some(ctr.aliases),
{
    let ips = spec_ips_of_ctr(ctr);
    let ip = ips[t];
    lemma_reverse_fold_records(st.reverse, net, ips, ctr.aliases, t);
}

/// The reverse-round-trip law, end to end: when the backend's reverse
/// tables are those of a state that just recorded a container under a
/// network that did not yet know the address, and that network is the
/// first of the requester's whose reverse table has the address, a
/// reverse lookup of the address returns the container's names list —
/// the container name first, then its aliases, in declared order.
pub proof fn lemma_reverse_round_trip(
    st: ParseStateView,
    net: Seq<u8>,
    internal: bool,
    ctr: CtrEntryView,
    t: int,
    m: crate::backend::DNSBackendView,
    requester: IpAddr,
    k: int,
)
    requires
        0 <= t < spec_ips_of_ctr(ctr).len(),
        forall|u: int|
            0 <= u < spec_ips_of_ctr(ctr).len() && u != t ==> #[trigger] spec_ips_of_ctr(ctr)[u]
                != spec_ips_of_ctr(ctr)[t],
        spec_rev_names(st.reverse, net, spec_ips_of_ctr(ctr)[t]) is None,
        m.reverse_mappings == spec_apply_ctr(st, net, internal, ctr).reverse,
        crate::backend::spec_networks_of(m.ip_mappings, requester) is Some,
        0 <= k < crate::backend::spec_networks_of(m.ip_mappings, requester)->0.len(),
        crate::backend::spec_networks_of(m.ip_mappings, requester)->0[k] == net,
        forall|j: int|
            0 <= j < k ==> crate::backend::spec_reverse_names_for(
                m,
                #[trigger] crate::backend::spec_networks_of(m.ip_mappings, requester)->0[j],
                spec_ips_of_ctr(ctr)[t],
            ) is None,
    ensures
        crate::backend::spec_reverse_lookup(m, requester, spec_ips_of_ctr(ctr)[t]) == Some(
            ctr.aliases,
        ),
{
    let ip = spec_ips_of_ctr(ctr)[t];
    lemma_ctr_reverse_round_trip(st, net, internal, ctr, t);
    assert(crate::backend::spec_reverse_names_for(m, net, ip) == Some(ctr.aliases));
    crate::backend::lemma_reverse_lookup_first(m, requester, ip, k);
}

/// Folding a list of addresses records the names under the address at
/// `t`, provided it occurs nowhere else in the list and was unknown.
proof fn lemma_reverse_fold_records(
    rev: Seq<NetworkReverseView>,
    net: Seq<u8>,
    ips: Seq<IpAddr>,
    names: Seq<Seq<u8>>,
    t: int,
)
    requires
        0 <= t < ips.len(),
        forall|u: int| 0 <= u < ips.len() && u != t ==> #[trigger] ips[u] != ips[t],
        spec_rev_names(rev, net, ips[t]) is None,
    ensures
        spec_rev_names(spec_add_reverse_ips(rev, net, ips, names), net, ips[t]) == Some(names),
    decreases ips.len(),
{
    let ip = ips[t];
    if t == 0 {
        lemma_reverse_records_names(rev, net, ip, names);
        let rev1 = spec_add_reverse(rev, net, ip, names);
        assert(forall|u: int|
            0 <= u < ips.drop_first().len() ==> (net != net || #[trigger] ips.drop_first()[u]
                != ip));
        lemma_reverse_ips_preserve(rev1, net, ips.drop_first(), names, net, ip);
    } else {
        lemma_reverse_preserves_others(rev, net, ips[0], names, net, ip);
        let rev1 = spec_add_reverse(rev, net, ips[0], names);
        assert(forall|u: int|
            0 <= u < ips.drop_first().len() && u != t - 1 ==> #[trigger] ips.drop_first()[u]
                != ips.drop_first()[t - 1]) by {
            assert(forall|u: int|
                0 <= u < ips.drop_first().len() ==> #[trigger] ips.drop_first()[u] == ips[u + 1]);
        }
        assert(ips.drop_first()[t - 1] == ip);
        lemma_reverse_fold_records(rev1, net, ips.drop_first(), names, t - 1);
    }
}

} // verus!
