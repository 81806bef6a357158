//! The in-memory backing store for the DNS server.
//!
//! A backend snapshot is immutable once constructed; the supervisor
//! replaces it wholesale on reload.  Every table is an ordered
//! association list: lookups take the first entry whose key matches,
//! and the parser constructs each key at most once.

use vstd::prelude::*;
use crate::bytes::{bytes_eq, spec_ends_with, spec_lower, ends_with, lower_bytes};
use crate::ip::IpAddr;

verus! {

broadcast use crate::bytes::lemma_vec_u8_deep_view;

/// Membership of one requester IP: the networks it belongs to, in order.
pub struct IpNets {
    pub ip: IpAddr,
    pub networks: Vec<Vec<u8>>,
}

pub struct IpNetsView {
    pub ip: IpAddr,
    pub networks: Seq<Seq<u8>>,
}

impl DeepView for IpNets {
    type V = IpNetsView;

    open spec fn deep_view(&self) -> IpNetsView {
        IpNetsView { ip: self.ip, networks: self.networks.deep_view() }
    }
}

/// One name (or alias, or container id) and the addresses it resolves to.
pub struct NameEntry {
    pub name: Vec<u8>,
    pub ips: Vec<IpAddr>,
}

pub struct NameEntryView {
    pub name: Seq<u8>,
    pub ips: Seq<IpAddr>,
}

impl DeepView for NameEntry {
    type V = NameEntryView;

    open spec fn deep_view(&self) -> NameEntryView {
        NameEntryView { name: self.name.deep_view(), ips: self.ips@ }
    }
}

/// The forward table of one network.
pub struct NetworkNames {
    pub network: Vec<u8>,
    pub entries: Vec<NameEntry>,
}

pub struct NetworkNamesView {
    pub network: Seq<u8>,
    pub entries: Seq<NameEntryView>,
}

impl DeepView for NetworkNames {
    type V = NetworkNamesView;

    open spec fn deep_view(&self) -> NetworkNamesView {
        NetworkNamesView { network: self.network.deep_view(), entries: self.entries.deep_view() }
    }
}

/// One address and the names it reverses to, container name first.
pub struct ReverseEntry {
    pub ip: IpAddr,
    pub names: Vec<Vec<u8>>,
}

pub struct ReverseEntryView {
    pub ip: IpAddr,
    pub names: Seq<Seq<u8>>,
}

impl DeepView for ReverseEntry {
    type V = ReverseEntryView;

    open spec fn deep_view(&self) -> ReverseEntryView {
        ReverseEntryView { ip: self.ip, names: self.names.deep_view() }
    }
}

/// The reverse table of one network.
pub struct NetworkReverse {
    pub network: Vec<u8>,
    pub entries: Vec<ReverseEntry>,
}

pub struct NetworkReverseView {
    pub network: Seq<u8>,
    pub entries: Seq<ReverseEntryView>,
}

impl DeepView for NetworkReverse {
    type V = NetworkReverseView;

    open spec fn deep_view(&self) -> NetworkReverseView {
        NetworkReverseView { network: self.network.deep_view(), entries: self.entries.deep_view() }
    }
}

/// The upstream resolvers one container declared, if any.
pub struct CtrDnsEntry {
    pub ip: IpAddr,
    pub servers: Option<Vec<IpAddr>>,
}

pub struct CtrDnsEntryView {
    pub ip: IpAddr,
    pub servers: Option<Seq<IpAddr>>,
}

impl DeepView for CtrDnsEntry {
    type V = CtrDnsEntryView;

    open spec fn deep_view(&self) -> CtrDnsEntryView {
        CtrDnsEntryView {
            ip: self.ip,
            servers: match self.servers {
                Some(v) => Some(v@),
                None => None,
            },
        }
    }
}

/// The upstream resolvers one network declared.
pub struct NetworkDns {
    pub network: Vec<u8>,
    pub servers: Vec<IpAddr>,
}

pub struct NetworkDnsView {
    pub network: Seq<u8>,
    pub servers: Seq<IpAddr>,
}

impl DeepView for NetworkDns {
    type V = NetworkDnsView;

    open spec fn deep_view(&self) -> NetworkDnsView {
        NetworkDnsView { network: self.network.deep_view(), servers: self.servers@ }
    }
}

/// Whether one network is internal.
pub struct NetworkFlag {
    pub network: Vec<u8>,
    pub internal: bool,
}

pub struct NetworkFlagView {
    pub network: Seq<u8>,
    pub internal: bool,
}

impl DeepView for NetworkFlag {
    type V = NetworkFlagView;

    open spec fn deep_view(&self) -> NetworkFlagView {
        NetworkFlagView { network: self.network.deep_view(), internal: self.internal }
    }
}

/// The core structure of the in-memory backing store for the DNS server.
pub struct DNSBackend {
    /// Map of IP to network membership.
    pub ip_mappings: Vec<IpNets>,
    /// Map of network name to names-to-addresses entries.
    pub name_mappings: Vec<NetworkNames>,
    /// Map of network name to address-to-names entries.
    pub reverse_mappings: Vec<NetworkReverse>,
    /// Map of container IP to the container's own upstream resolvers.
    pub ctr_dns_server: Vec<CtrDnsEntry>,
    /// Map of network name to the network's upstream resolvers.
    pub network_dns_server: Vec<NetworkDns>,
    /// Map of network name to the internal flag.
    pub network_is_internal: Vec<NetworkFlag>,
    /// Search domain; always ends with a dot once constructed.
    pub search_domain: Vec<u8>,
}

pub struct DNSBackendView {
    pub ip_mappings: Seq<IpNetsView>,
    pub name_mappings: Seq<NetworkNamesView>,
    pub reverse_mappings: Seq<NetworkReverseView>,
    pub ctr_dns_server: Seq<CtrDnsEntryView>,
    pub network_dns_server: Seq<NetworkDnsView>,
    pub network_is_internal: Seq<NetworkFlagView>,
    pub search_domain: Seq<u8>,
}

impl DeepView for DNSBackend {
    type V = DNSBackendView;

    open spec fn deep_view(&self) -> DNSBackendView {
        DNSBackendView {
            ip_mappings: self.ip_mappings.deep_view(),
            name_mappings: self.name_mappings.deep_view(),
            reverse_mappings: self.reverse_mappings.deep_view(),
            ctr_dns_server: self.ctr_dns_server.deep_view(),
            network_dns_server: self.network_dns_server.deep_view(),
            network_is_internal: self.network_is_internal.deep_view(),
            search_domain: self.search_domain.deep_view(),
        }
    }
}

// --- first-match association lookups over the model -------------------

pub open spec fn find_networks_at(m: Seq<IpNetsView>, ip: IpAddr, k: int) -> Option<Seq<Seq<u8>>>
    decreases m.len() - k,
{
    if k < 0 || k >= m.len() {
        None
    } else if m[k].ip == ip {
        Some(m[k].networks)
    } else {
        find_networks_at(m, ip, k + 1)
    }
}

/// The network membership of `ip`, if the backend knows it.
pub open spec fn spec_networks_of(m: Seq<IpNetsView>, ip: IpAddr) -> Option<Seq<Seq<u8>>> {
    find_networks_at(m, ip, 0)
}

pub open spec fn find_name_entries_at(m: Seq<NetworkNamesView>, net: Seq<u8>, k: int) -> Option<
    Seq<NameEntryView>,
>
    decreases m.len() - k,
{
    if k < 0 || k >= m.len() {
        None
    } else if m[k].network == net {
        Some(m[k].entries)
    } else {
        find_name_entries_at(m, net, k + 1)
    }
}

/// The forward table of the network named `net`.
pub open spec fn spec_name_entries_of(m: Seq<NetworkNamesView>, net: Seq<u8>) -> Option<
    Seq<NameEntryView>,
> {
    find_name_entries_at(m, net, 0)
}

pub open spec fn find_ips_at(entries: Seq<NameEntryView>, name: Seq<u8>, k: int) -> Option<
    Seq<IpAddr>,
>
    decreases entries.len() - k,
{
    if k < 0 || k >= entries.len() {
        None
    } else if entries[k].name == name {
        Some(entries[k].ips)
    } else {
        find_ips_at(entries, name, k + 1)
    }
}

/// The addresses recorded for `name` in one network's forward table.
pub open spec fn spec_ips_of_name(entries: Seq<NameEntryView>, name: Seq<u8>) -> Option<
    Seq<IpAddr>,
> {
    find_ips_at(entries, name, 0)
}

pub open spec fn find_reverse_entries_at(m: Seq<NetworkReverseView>, net: Seq<u8>, k: int) -> Option<
    Seq<ReverseEntryView>,
>
    decreases m.len() - k,
{
    if k < 0 || k >= m.len() {
        None
    } else if m[k].network == net {
        Some(m[k].entries)
    } else {
        find_reverse_entries_at(m, net, k + 1)
    }
}

/// The reverse table of the network named `net`.
pub open spec fn spec_reverse_entries_of(m: Seq<NetworkReverseView>, net: Seq<u8>) -> Option<
    Seq<ReverseEntryView>,
> {
    find_reverse_entries_at(m, net, 0)
}

pub open spec fn find_reverse_names_at(entries: Seq<ReverseEntryView>, ip: IpAddr, k: int) -> Option<
    Seq<Seq<u8>>,
>
    decreases entries.len() - k,
{
    if k < 0 || k >= entries.len() {
        None
    } else if entries[k].ip == ip {
        Some(entries[k].names)
    } else {
        find_reverse_names_at(entries, ip, k + 1)
    }
}

/// The names recorded for `ip` in one network's reverse table.
pub open spec fn spec_names_of_ip(entries: Seq<ReverseEntryView>, ip: IpAddr) -> Option<
    Seq<Seq<u8>>,
> {
    find_reverse_names_at(entries, ip, 0)
}

pub open spec fn find_ctr_dns_at(m: Seq<CtrDnsEntryView>, ip: IpAddr, k: int) -> Option<
    Option<Seq<IpAddr>>,
>
    decreases m.len() - k,
{
    if k < 0 || k >= m.len() {
        None
    } else if m[k].ip == ip {
        Some(m[k].servers)
    } else {
        find_ctr_dns_at(m, ip, k + 1)
    }
}

/// The container-scoped resolver entry for `ip`.
pub open spec fn spec_ctr_dns_of(m: Seq<CtrDnsEntryView>, ip: IpAddr) -> Option<
    Option<Seq<IpAddr>>,
> {
    find_ctr_dns_at(m, ip, 0)
}

pub open spec fn find_network_dns_at(m: Seq<NetworkDnsView>, net: Seq<u8>, k: int) -> Option<
    Seq<IpAddr>,
>
    decreases m.len() - k,
{
    if k < 0 || k >= m.len() {
        None
    } else if m[k].network == net {
        Some(m[k].servers)
    } else {
        find_network_dns_at(m, net, k + 1)
    }
}

/// The network-scoped resolvers of the network named `net`.
pub open spec fn spec_network_dns_of(m: Seq<NetworkDnsView>, net: Seq<u8>) -> Option<Seq<IpAddr>> {
    find_network_dns_at(m, net, 0)
}

pub open spec fn find_internal_at(m: Seq<NetworkFlagView>, net: Seq<u8>, k: int) -> Option<bool>
    decreases m.len() - k,
{
    if k < 0 || k >= m.len() {
        None
    } else if m[k].network == net {
        Some(m[k].internal)
    } else {
        find_internal_at(m, net, k + 1)
    }
}

/// The internal flag of the network named `net`.
pub open spec fn spec_internal_of(m: Seq<NetworkFlagView>, net: Seq<u8>) -> Option<bool> {
    find_internal_at(m, net, 0)
}

// --- query normalization and the forward lookup -----------------------

/// Lowercases a query, strips one trailing occurrence of the search
/// domain, then strips one trailing dot.
pub open spec fn spec_normalize(entry: Seq<u8>, sd: Seq<u8>) -> Seq<u8> {
    let lowered = spec_lower(entry);
    let stripped = if spec_ends_with(lowered, sd) {
        lowered.take(lowered.len() - sd.len())
    } else {
        lowered
    };
    if spec_ends_with(stripped, seq![46u8]) {
        stripped.take(stripped.len() - 1)
    } else {
        stripped
    }
}

/// All addresses found for `name` over the given networks, in network
/// order; a network missing from the forward table contributes nothing.
pub open spec fn spec_lookup_nets(m: DNSBackendView, nets: Seq<Seq<u8>>, name: Seq<u8>) -> Seq<
    IpAddr,
>
    decreases nets.len(),
{
    if nets.len() == 0 {
        Seq::empty()
    } else {
        let head = match spec_name_entries_of(m.name_mappings, nets[0]) {
            Some(entries) => match spec_ips_of_name(entries, name) {
                Some(ips) => ips,
                None => Seq::empty(),
            },
            None => Seq::empty(),
        };
        head + spec_lookup_nets(m, nets.drop_first(), name)
    }
}

/// The networks a lookup from `requester` searches: its own membership,
/// or the caller-supplied fallback network when the requester is unknown.
pub open spec fn spec_search_nets(m: DNSBackendView, requester: IpAddr, fallback: Seq<u8>) -> Seq<
    Seq<u8>,
> {
    match spec_networks_of(m.ip_mappings, requester) {
        Some(nets) => nets,
        None => seq![fallback],
    }
}

/// The forward lookup: the accumulated addresses if any, else absence.
pub open spec fn spec_lookup(
    m: DNSBackendView,
    requester: IpAddr,
    fallback: Seq<u8>,
    entry: Seq<u8>,
) -> Option<Seq<IpAddr>> {
    let name = spec_normalize(entry, m.search_domain);
    let res = spec_lookup_nets(m, spec_search_nets(m, requester, fallback), name);
    if res.len() == 0 {
        None
    } else {
        Some(res)
    }
}

// --- the remaining three query operations ------------------------------

/// Concatenation of the network-scoped resolvers over `nets`.
pub open spec fn spec_network_resolvers(m: DNSBackendView, nets: Seq<Seq<u8>>) -> Seq<IpAddr>
    decreases nets.len(),
{
    if nets.len() == 0 {
        Seq::empty()
    } else {
        let head = match spec_network_dns_of(m.network_dns_server, nets[0]) {
            Some(servers) => servers,
            None => Seq::empty(),
        };
        head + spec_network_resolvers(m, nets.drop_first(), )
    }
}

pub open spec fn spec_network_scoped_resolvers(m: DNSBackendView, requester: IpAddr) -> Option<
    Seq<IpAddr>,
> {
    match spec_networks_of(m.ip_mappings, requester) {
        Some(nets) => Some(spec_network_resolvers(m, nets)),
        None => None,
    }
}

/// A known requester is internal when no network it belongs to is
/// recorded as non-internal; an unknown requester is not internal.
pub open spec fn spec_is_internal(m: DNSBackendView, requester: IpAddr) -> bool {
    match spec_networks_of(m.ip_mappings, requester) {
        Some(nets) => forall|k: int|
            0 <= k < nets.len() ==> spec_internal_of(m.network_is_internal, #[trigger] nets[k])
                != Some(false),
        None => false,
    }
}

/// The names of the first network in `nets` whose reverse table has `ip`.
pub open spec fn spec_reverse_nets(m: DNSBackendView, nets: Seq<Seq<u8>>, ip: IpAddr) -> Option<
    Seq<Seq<u8>>,
>
    decreases nets.len(),
{
    if nets.len() == 0 {
        None
    } else {
        match spec_reverse_entries_of(m.reverse_mappings, nets[0]) {
            Some(entries) => match spec_names_of_ip(entries, ip) {
                Some(names) => Some(names),
                None => spec_reverse_nets(m, nets.drop_first(), ip),
            },
            None => spec_reverse_nets(m, nets.drop_first(), ip),
        }
    }
}

pub open spec fn spec_reverse_lookup(m: DNSBackendView, requester: IpAddr, ip: IpAddr) -> Option<
    Seq<Seq<u8>>,
> {
    match spec_networks_of(m.ip_mappings, requester) {
        Some(nets) => spec_reverse_nets(m, nets, ip),
        None => None,
    }
}

// --- executable operations ---------------------------------------------

fn find_ip_index(m: &Vec<IpNets>, ip: &IpAddr) -> (r: Option<usize>)
    ensures
        r is Some <==> spec_networks_of(m.deep_view(), *ip) is Some,
        r is Some ==> r->0 < m@.len() && m@[r->0 as int].ip == *ip && spec_networks_of(
            m.deep_view(),
            *ip,
        ) == Some(m.deep_view()[r->0 as int].networks),
{
    let mut i: usize = 0;
    while i < m.len()
        invariant
            0 <= i <= m@.len(),
            find_networks_at(m.deep_view(), *ip, 0) == find_networks_at(m.deep_view(), *ip, i as int),
        decreases m@.len() - i,
    {
        proof {
            assert(m.deep_view()[i as int] == m@[i as int].deep_view());
        }
        if m[i].ip == *ip {
            return Some(i);
        }
        i = i + 1;
    }
    None
}

fn find_name_table<'a>(m: &'a Vec<NetworkNames>, net: &[u8]) -> (r: Option<&'a NetworkNames>)
    ensures
        r is Some <==> spec_name_entries_of(m.deep_view(), net@) is Some,
        r is Some ==> spec_name_entries_of(m.deep_view(), net@) == Some(r->0.entries.deep_view()),
{
    let mut i: usize = 0;
    while i < m.len()
        invariant
            0 <= i <= m@.len(),
            find_name_entries_at(m.deep_view(), net@, 0) == find_name_entries_at(m.deep_view(), net@, i as int),
        decreases m@.len() - i,
    {
        proof {
            assert(m.deep_view()[i as int] == m@[i as int].deep_view());
        }
        if bytes_eq(m[i].network.as_slice(), net) {
            return Some(&m[i]);
        }
        i = i + 1;
    }
    None
}

fn find_name_ips<'a>(entries: &'a Vec<NameEntry>, name: &[u8]) -> (r: Option<&'a Vec<IpAddr>>)
    ensures
        r is Some <==> spec_ips_of_name(entries.deep_view(), name@) is Some,
        r is Some ==> spec_ips_of_name(entries.deep_view(), name@) == Some(r->0@),
{
    let mut i: usize = 0;
    while i < entries.len()
        invariant
            0 <= i <= entries@.len(),
            find_ips_at(entries.deep_view(), name@, 0) == find_ips_at(entries.deep_view(), name@, i as int),
        decreases entries@.len() - i,
    {
        proof {
            assert(entries.deep_view()[i as int] == entries@[i as int].deep_view());
        }
        if bytes_eq(entries[i].name.as_slice(), name) {
            return Some(&entries[i].ips);
        }
        i = i + 1;
    }
    None
}

fn find_reverse_table<'a>(m: &'a Vec<NetworkReverse>, net: &[u8]) -> (r: Option<
    &'a NetworkReverse,
>)
    ensures
        r is Some <==> spec_reverse_entries_of(m.deep_view(), net@) is Some,
        r is Some ==> spec_reverse_entries_of(m.deep_view(), net@) == Some(
            r->0.entries.deep_view(),
        ),
{
    let mut i: usize = 0;
    while i < m.len()
        invariant
            0 <= i <= m@.len(),
            find_reverse_entries_at(m.deep_view(), net@, 0) == find_reverse_entries_at(
                m.deep_view(),
                net@,
                i as int,
            ),
        decreases m@.len() - i,
    {
        proof {
            assert(m.deep_view()[i as int] == m@[i as int].deep_view());
        }
        if bytes_eq(m[i].network.as_slice(), net) {
            return Some(&m[i]);
        }
        i = i + 1;
    }
    None
}

fn find_reverse_names<'a>(entries: &'a Vec<ReverseEntry>, ip: &IpAddr) -> (r: Option<
    &'a Vec<Vec<u8>>,
>)
    ensures
        r is Some <==> spec_names_of_ip(entries.deep_view(), *ip) is Some,
        r is Some ==> spec_names_of_ip(entries.deep_view(), *ip) == Some(r->0.deep_view()),
{
    let mut i: usize = 0;
    while i < entries.len()
        invariant
            0 <= i <= entries@.len(),
            find_reverse_names_at(entries.deep_view(), *ip, 0) == find_reverse_names_at(
                entries.deep_view(),
                *ip,
                i as int,
            ),
        decreases entries@.len() - i,
    {
        proof {
            assert(entries.deep_view()[i as int] == entries@[i as int].deep_view());
        }
        if entries[i].ip == *ip {
            return Some(&entries[i].names);
        }
        i = i + 1;
    }
    None
}

fn find_network_dns<'a>(m: &'a Vec<NetworkDns>, net: &[u8]) -> (r: Option<&'a Vec<IpAddr>>)
    ensures
        r is Some <==> spec_network_dns_of(m.deep_view(), net@) is Some,
        r is Some ==> spec_network_dns_of(m.deep_view(), net@) == Some(r->0@),
{
    let mut i: usize = 0;
    while i < m.len()
        invariant
            0 <= i <= m@.len(),
            find_network_dns_at(m.deep_view(), net@, 0) == find_network_dns_at(
                m.deep_view(),
                net@,
                i as int,
            ),
        decreases m@.len() - i,
    {
        proof {
            assert(m.deep_view()[i as int] == m@[i as int].deep_view());
        }
        if bytes_eq(m[i].network.as_slice(), net) {
            return Some(&m[i].servers);
        }
        i = i + 1;
    }
    None
}

fn find_internal_flag(m: &Vec<NetworkFlag>, net: &[u8]) -> (r: Option<bool>)
    ensures
        r == spec_internal_of(m.deep_view(), net@),
{
    let mut i: usize = 0;
    while i < m.len()
        invariant
            0 <= i <= m@.len(),
            find_internal_at(m.deep_view(), net@, 0) == find_internal_at(
                m.deep_view(),
                net@,
                i as int,
            ),
        decreases m@.len() - i,
    {
        proof {
            assert(m.deep_view()[i as int] == m@[i as int].deep_view());
        }
        if bytes_eq(m[i].network.as_slice(), net) {
            return Some(m[i].internal);
        }
        i = i + 1;
    }
    None
}

fn find_ctr_dns_index(m: &Vec<CtrDnsEntry>, ip: &IpAddr) -> (r: Option<usize>)
    ensures
        r is Some <==> spec_ctr_dns_of(m.deep_view(), *ip) is Some,
        r is Some ==> r->0 < m@.len() && spec_ctr_dns_of(m.deep_view(), *ip) == Some(
            m.deep_view()[r->0 as int].servers,
        ),
{
    let mut i: usize = 0;
    while i < m.len()
        invariant
            0 <= i <= m@.len(),
            find_ctr_dns_at(m.deep_view(), *ip, 0) == find_ctr_dns_at(m.deep_view(), *ip, i as int),
        decreases m@.len() - i,
    {
        proof {
            assert(m.deep_view()[i as int] == m@[i as int].deep_view());
        }
        if m[i].ip == *ip {
            return Some(i);
        }
        i = i + 1;
    }
    None
}

/// A copy of a list of addresses appended to `dst`.
pub(crate) fn append_ips(dst: &mut Vec<IpAddr>, src: &Vec<IpAddr>)
    ensures
        final(dst)@ == old(dst)@ + src@,
{
    let mut j: usize = 0;
    while j < src.len()
        invariant
            0 <= j <= src@.len(),
            dst@ == old(dst)@ + src@.take(j as int),
        decreases src@.len() - j,
    {
        dst.push(src[j]);
        proof {
            assert(old(dst)@ + src@.take(j + 1) =~= (old(dst)@ + src@.take(j as int)).push(
                src@[j as int],
            ));
        }
        j = j + 1;
    }
    proof {
        assert(src@.take(src@.len() as int) =~= src@);
    }
}

/// A copy of a list of names.
pub(crate) fn copy_names(src: &Vec<Vec<u8>>) -> (r: Vec<Vec<u8>>)
    ensures
        r.deep_view() == src.deep_view(),
{
    let mut r: Vec<Vec<u8>> = Vec::new();
    let mut j: usize = 0;
    while j < src.len()
        invariant
            0 <= j <= src@.len(),
            r@.len() == j,
            forall|t: int| 0 <= t < j ==> #[trigger] r@[t]@ == src@[t]@,
        decreases src@.len() - j,
    {
        let v = vstd::slice::slice_to_vec(src[j].as_slice());
        r.push(v);
        j = j + 1;
    }
    proof {
        assert forall|t: int| 0 <= t < src@.len() implies r.deep_view()[t] == src.deep_view()[t] by {
            assert(r.deep_view()[t] == r@[t].deep_view());
            assert(src.deep_view()[t] == src@[t].deep_view());
            assert(r@[t]@ == src@[t]@);
        }
        assert(r.deep_view() =~~= src.deep_view());
    }
    r
}

impl DNSBackend {
    /// Create a new backend from the given set of network mappings; a
    /// missing trailing dot is appended to the search domain so later
    /// comparisons against absolute query names line up.
    pub fn new(
        containers: Vec<IpNets>,
        networks: Vec<NetworkNames>,
        reverse: Vec<NetworkReverse>,
        ctr_dns_server: Vec<CtrDnsEntry>,
        network_dns_server: Vec<NetworkDns>,
        network_is_internal: Vec<NetworkFlag>,
        search_domain: Vec<u8>,
    ) -> (r: DNSBackend)
        ensures
            r.ip_mappings == containers,
            r.name_mappings == networks,
            r.reverse_mappings == reverse,
            r.ctr_dns_server == ctr_dns_server,
            r.network_dns_server == network_dns_server,
            r.network_is_internal == network_is_internal,
            r.search_domain@ == if search_domain@.len() > 0 && search_domain@.last() != 46 {
                search_domain@.push(46u8)
            } else {
                search_domain@
            },
    {
        let mut sd = search_domain;
        if sd.len() > 0 && sd[sd.len() - 1] != 46 {
            sd.push(46);
        }
        DNSBackend {
            ip_mappings: containers,
            name_mappings: networks,
            reverse_mappings: reverse,
            ctr_dns_server,
            network_dns_server,
            network_is_internal,
            search_domain: sd,
        }
    }

    /// Handle a single DNS lookup made by a given IP: all addresses the
    /// normalized name resolves to over the requester's networks, or over
    /// the fallback network when the requester is unknown.
    pub fn lookup(&self, requester: &IpAddr, network_name: &[u8], entry: &[u8]) -> (r: Option<
        Vec<IpAddr>,
    >)
        ensures
            r is Some <==> spec_lookup(self.deep_view(), *requester, network_name@, entry@) is Some,
            r is Some ==> Some(r->0@) == spec_lookup(
                self.deep_view(),
                *requester,
                network_name@,
                entry@,
            ),
    {
        let ghost m = self.deep_view();
        let lowered = lower_bytes(entry);
        let mut name = lowered;
        if ends_with(name.as_slice(), self.search_domain.as_slice()) {
            let newlen = name.len() - self.search_domain.len();
            name.truncate(newlen);
        }
        proof {
            crate::bytes::lemma_ends_with_single(name@, 46u8);
        }
        if name.len() >= 1 && name[name.len() - 1] == 46 {
            let newlen = name.len() - 1;
            name.truncate(newlen);
        }
        proof {
            assert(name@ =~= spec_normalize(entry@, m.search_domain));
        }

        let mut fallback_nets: Vec<Vec<u8>> = Vec::new();
        let nets: &Vec<Vec<u8>> = match find_ip_index(&self.ip_mappings, requester) {
            Some(i) => {
                proof {
                    assert(self.ip_mappings.deep_view()[i as int] == self.ip_mappings@[
                        i as int
                    ].deep_view());
                }
                &self.ip_mappings[i].networks
            },
            None => {
                fallback_nets.push(crate::bytes::sub_bytes(network_name, 0, network_name.len()));
                proof {
                    assert(network_name@.subrange(0, network_name@.len() as int) =~= network_name@);
                    assert(fallback_nets.deep_view() =~~= seq![network_name@]);
                }
                &fallback_nets
            },
        };
        let ghost snets = spec_search_nets(m, *requester, network_name@);
        proof {
            assert(nets.deep_view() == snets);
            assert(snets.skip(0) =~= snets);
        }

        let mut results: Vec<IpAddr> = Vec::new();
        let mut k: usize = 0;
        while k < nets.len()
            invariant
                0 <= k <= nets@.len(),
                nets.deep_view() == snets,
                results@ + spec_lookup_nets(m, snets.skip(k as int), name@) == spec_lookup_nets(
                    m,
                    snets,
                    name@,
                ),
                m == self.deep_view(),
            decreases nets@.len() - k,
        {
            let ghost pre = results@;
            let ghost cur = snets[k as int];
            proof {
                assert(nets.deep_view()[k as int] == nets@[k as int].deep_view());
                assert(snets.skip(k as int).drop_first() =~= snets.skip(k + 1));
                assert(snets.skip(k as int)[0] == cur);
            }
            match find_name_table(&self.name_mappings, nets[k].as_slice()) {
                Some(table) => {
                    match find_name_ips(&table.entries, name.as_slice()) {
                        Some(addrs) => {
                            let mut j: usize = 0;
                            while j < addrs.len()
                                invariant
                                    0 <= j <= addrs@.len(),
                                    results@ == pre + addrs@.take(j as int),
                                decreases addrs@.len() - j,
                            {
                                results.push(addrs[j]);
                                proof {
                                    assert(pre + addrs@.take(j + 1) =~= (pre + addrs@.take(
                                        j as int,
                                    )).push(addrs@[j as int]));
                                }
                                j = j + 1;
                            }
                            proof {
                                assert(addrs@.take(addrs@.len() as int) =~= addrs@);
                            }
                        },
                        None => {
                            proof {
                                assert(results@ =~= pre + Seq::<IpAddr>::empty());
                            }
                        },
                    }
                },
                None => {
                    proof {
                        assert(results@ =~= pre + Seq::<IpAddr>::empty());
                    }
                },
            }
            proof {
                let head = match spec_name_entries_of(m.name_mappings, cur) {
                    Some(entries) => match spec_ips_of_name(entries, name@) {
                        Some(ips) => ips,
                        None => Seq::<IpAddr>::empty(),
                    },
                    None => Seq::<IpAddr>::empty(),
                };
                assert(results@ == pre + head);
                assert(spec_lookup_nets(m, snets.skip(k as int), name@) == head + spec_lookup_nets(
                    m,
                    snets.skip(k + 1),
                    name@,
                ));
                assert(results@ + spec_lookup_nets(m, snets.skip(k + 1), name@) =~= pre + (head
                    + spec_lookup_nets(m, snets.skip(k + 1), name@)));
            }
            k = k + 1;
        }
        proof {
            assert(snets.skip(nets@.len() as int) =~= Seq::<Seq<u8>>::empty());
            assert(results@ + Seq::<IpAddr>::empty() =~= results@);
        }

        if results.len() == 0 {
            return None;
        }
        Some(results)
    }

    /// Returns the concatenated network-scoped resolvers over the
    /// requester's networks, or absence when the requester is unknown.
    pub fn get_network_scoped_resolvers(&self, requester: &IpAddr) -> (r: Option<Vec<IpAddr>>)
        ensures
            r is Some <==> spec_network_scoped_resolvers(self.deep_view(), *requester) is Some,
            r is Some ==> Some(r->0@) == spec_network_scoped_resolvers(
                self.deep_view(),
                *requester,
            ),
    {
        let ghost m = self.deep_view();
        let i = match find_ip_index(&self.ip_mappings, requester) {
            Some(i) => i,
            None => {
                return None;
            },
        };
        proof {
            assert(self.ip_mappings.deep_view()[i as int] == self.ip_mappings@[
                i as int
            ].deep_view());
        }
        let nets = &self.ip_mappings[i].networks;
        let ghost snets = m.ip_mappings[i as int].networks;
        proof {
            assert(snets.skip(0) =~= snets);
        }
        let mut results: Vec<IpAddr> = Vec::new();
        let mut k: usize = 0;
        while k < nets.len()
            invariant
                0 <= k <= nets@.len(),
                nets.deep_view() == snets,
                m == self.deep_view(),
                results@ + spec_network_resolvers(m, snets.skip(k as int)) == spec_network_resolvers(
                    m,
                    snets,
                ),
            decreases nets@.len() - k,
        {
            let ghost pre = results@;
            let ghost cur = snets[k as int];
            proof {
                assert(nets.deep_view()[k as int] == nets@[k as int].deep_view());
                assert(snets.skip(k as int).drop_first() =~= snets.skip(k + 1));
                assert(snets.skip(k as int)[0] == cur);
            }
            match find_network_dns(&self.network_dns_server, nets[k].as_slice()) {
                Some(servers) => {
                    append_ips(&mut results, servers);
                },
                None => {
                    proof {
                        assert(results@ =~= pre + Seq::<IpAddr>::empty());
                    }
                },
            }
            proof {
                let head = match spec_network_dns_of(m.network_dns_server, cur) {
                    Some(servers) => servers,
                    None => Seq::<IpAddr>::empty(),
                };
                assert(results@ == pre + head);
                assert(spec_network_resolvers(m, snets.skip(k as int)) == head
                    + spec_network_resolvers(m, snets.skip(k + 1)));
                assert(results@ + spec_network_resolvers(m, snets.skip(k + 1)) =~= pre + (head
                    + spec_network_resolvers(m, snets.skip(k + 1))));
            }
            k = k + 1;
        }
        proof {
            assert(snets.skip(nets@.len() as int) =~= Seq::<Seq<u8>>::empty());
            assert(results@ + Seq::<IpAddr>::empty() =~= results@);
        }
        Some(results)
    }

    /// Checks if a requester is associated with only internal networks;
    /// an unknown requester is treated as external.
    pub fn ctr_is_internal(&self, requester: &IpAddr) -> (r: bool)
        ensures
            r == spec_is_internal(self.deep_view(), *requester),
    {
        let ghost m = self.deep_view();
        let i = match find_ip_index(&self.ip_mappings, requester) {
            Some(i) => i,
            None => {
                return false;
            },
        };
        proof {
            assert(self.ip_mappings.deep_view()[i as int] == self.ip_mappings@[
                i as int
            ].deep_view());
        }
        let nets = &self.ip_mappings[i].networks;
        let ghost snets = m.ip_mappings[i as int].networks;
        let mut k: usize = 0;
        while k < nets.len()
            invariant
                0 <= k <= nets@.len(),
                nets.deep_view() == snets,
                m == self.deep_view(),
                spec_networks_of(m.ip_mappings, *requester) == Some(snets),
                forall|j: int|
                    0 <= j < k ==> spec_internal_of(m.network_is_internal, #[trigger] snets[j])
                        != Some(false),
            decreases nets@.len() - k,
        {
            proof {
                assert(nets.deep_view()[k as int] == nets@[k as int].deep_view());
            }
            match find_internal_flag(&self.network_is_internal, nets[k].as_slice()) {
                Some(internal) => {
                    if !internal {
                        proof {
                            assert(spec_internal_of(m.network_is_internal, snets[k as int])
                                == Some(false));
                        }
                        return false;
                    }
                },
                None => {
                },
            }
            k = k + 1;
        }
        true
    }

    /// The network membership recorded for an address.
    pub fn networks_for_ip(&self, ip: &IpAddr) -> (r: Option<Vec<Vec<u8>>>)
        ensures
            r is Some <==> spec_networks_of(self.deep_view().ip_mappings, *ip) is Some,
            r matches Some(v) ==> Some(v.deep_view()) == spec_networks_of(
                self.deep_view().ip_mappings,
                *ip,
            ),
    {
        match find_ip_index(&self.ip_mappings, ip) {
            Some(i) => {
                proof {
                    assert(self.ip_mappings.deep_view()[i as int] == self.ip_mappings@[
                        i as int
                    ].deep_view());
                }
                Some(copy_names(&self.ip_mappings[i].networks))
            },
            None => None,
        }
    }

    /// The container-scoped resolver entry recorded for an address.
    pub fn ctr_dns_entry(&self, ip: &IpAddr) -> (r: Option<Option<Vec<IpAddr>>>)
        ensures
            r is Some <==> spec_ctr_dns_of(self.deep_view().ctr_dns_server, *ip) is Some,
            r matches Some(v) ==> Some(
                match v {
                    Some(l) => Some(l@),
                    None => None,
                },
            ) == spec_ctr_dns_of(self.deep_view().ctr_dns_server, *ip),
    {
        match find_ctr_dns_index(&self.ctr_dns_server, ip) {
            Some(i) => {
                proof {
                    assert(self.ctr_dns_server.deep_view()[i as int] == self.ctr_dns_server@[
                        i as int
                    ].deep_view());
                }
                match &self.ctr_dns_server[i].servers {
                    Some(l) => Some(Some(vstd::slice::slice_to_vec(l.as_slice()))),
                    None => Some(None),
                }
            },
            None => None,
        }
    }

    /// The addresses recorded for one name in one network's forward
    /// table.
    pub fn network_name_ips(&self, network: &[u8], name: &[u8]) -> (r: Option<Vec<IpAddr>>)
        ensures
            ({
                let entry = match spec_name_entries_of(self.deep_view().name_mappings, network@) {
                    Some(entries) => spec_ips_of_name(entries, name@),
                    None => None,
                };
                &&& (r is Some <==> entry is Some)
                &&& (r matches Some(v) ==> Some(v@) == entry)
            }),
    {
        match find_name_table(&self.name_mappings, network) {
            Some(table) => match find_name_ips(&table.entries, name) {
                Some(ips) => Some(vstd::slice::slice_to_vec(ips.as_slice())),
                None => None,
            },
            None => None,
        }
    }

    /// The names recorded for one address in one network's reverse
    /// table.
    pub fn network_reverse_names(&self, network: &[u8], ip: &IpAddr) -> (r: Option<Vec<Vec<u8>>>)
        ensures
            ({
                let entry = match spec_reverse_entries_of(self.deep_view().reverse_mappings, network@) {
                    Some(entries) => spec_names_of_ip(entries, *ip),
                    None => None,
                };
                &&& (r is Some <==> entry is Some)
                &&& (r matches Some(v) ==> Some(v.deep_view()) == entry)
            }),
    {
        match find_reverse_table(&self.reverse_mappings, network) {
            Some(table) => match find_reverse_names(&table.entries, ip) {
                Some(names) => Some(copy_names(names)),
                None => None,
            },
            None => None,
        }
    }

    /// Return the names resolved via the reverse mapping of the first
    /// network in the requester's membership order that has the address.
    pub fn reverse_lookup(&self, requester: &IpAddr, lookup_ip: &IpAddr) -> (r: Option<
        Vec<Vec<u8>>,
    >)
        ensures
            r is Some <==> spec_reverse_lookup(self.deep_view(), *requester, *lookup_ip) is Some,
            r is Some ==> Some(r->0.deep_view()) == spec_reverse_lookup(
                self.deep_view(),
                *requester,
                *lookup_ip,
            ),
    {
        let ghost m = self.deep_view();
        let i = match find_ip_index(&self.ip_mappings, requester) {
            Some(i) => i,
            None => {
                return None;
            },
        };
        proof {
            assert(self.ip_mappings.deep_view()[i as int] == self.ip_mappings@[
                i as int
            ].deep_view());
        }
        let nets = &self.ip_mappings[i].networks;
        let ghost snets = m.ip_mappings[i as int].networks;
        proof {
            assert(snets.skip(0) =~= snets);
        }
        let mut k: usize = 0;
        while k < nets.len()
            invariant
                0 <= k <= nets@.len(),
                nets.deep_view() == snets,
                m == self.deep_view(),
                spec_networks_of(m.ip_mappings, *requester) == Some(snets),
                spec_reverse_nets(m, snets, *lookup_ip) == spec_reverse_nets(
                    m,
                    snets.skip(k as int),
                    *lookup_ip,
                ),
            decreases nets@.len() - k,
        {
            proof {
                assert(nets.deep_view()[k as int] == nets@[k as int].deep_view());
                assert(snets.skip(k as int).drop_first() =~= snets.skip(k + 1));
                assert(snets.skip(k as int)[0] == snets[k as int]);
            }
            match find_reverse_table(&self.reverse_mappings, nets[k].as_slice()) {
                Some(table) => {
                    match find_reverse_names(&table.entries, lookup_ip) {
                        Some(names) => {
                            proof {
                                assert(spec_reverse_nets(m, snets.skip(k as int), *lookup_ip)
                                    == Some(names.deep_view()));
                            }
                            return Some(copy_names(names));
                        },
                        None => {
                        },
                    }
                },
                None => {
                },
            }
            k = k + 1;
        }
        proof {
            assert(snets.skip(nets@.len() as int) =~= Seq::<Seq<u8>>::empty());
        }
        None
    }
}


// --- laws of the queries -------------------------------------------------

/// Whether `a` is one of the addresses recorded under some name of the
/// network's forward table.
pub open spec fn spec_ip_in_network(m: DNSBackendView, net: Seq<u8>, a: IpAddr) -> bool {
    match spec_name_entries_of(m.name_mappings, net) {
        Some(entries) => exists|e: int|
            0 <= e < entries.len() && (#[trigger] entries[e]).ips.contains(a),
        None => false,
    }
}

proof fn lemma_find_ips_witness(entries: Seq<NameEntryView>, name: Seq<u8>, k: int)
    requires
        find_ips_at(entries, name, k) is Some,
    ensures
        exists|e: int|
            k <= e < entries.len() && (#[trigger] entries[e]).ips == find_ips_at(
                entries,
                name,
                k,
            )->0,
    decreases entries.len() - k,
{
    if 0 <= k < entries.len() {
        if entries[k].name == name {
            assert(entries[k].ips == find_ips_at(entries, name, k)->0);
        } else {
            lemma_find_ips_witness(entries, name, k + 1);
        }
    }
}

proof fn lemma_lookup_nets_membership(m: DNSBackendView, nets: Seq<Seq<u8>>, name: Seq<u8>)
    ensures
        forall|j: int|
            0 <= j < spec_lookup_nets(m, nets, name).len() ==> exists|k: int|
                0 <= k < nets.len() && spec_ip_in_network(
                    m,
                    #[trigger] nets[k],
                    #[trigger] spec_lookup_nets(m, nets, name)[j],
                ),
    decreases nets.len(),
{
    if nets.len() > 0 {
        lemma_lookup_nets_membership(m, nets.drop_first(), name);
        let res = spec_lookup_nets(m, nets, name);
        let head = match spec_name_entries_of(m.name_mappings, nets[0]) {
            Some(entries) => match spec_ips_of_name(entries, name) {
                Some(ips) => ips,
                None => Seq::<IpAddr>::empty(),
            },
            None => Seq::<IpAddr>::empty(),
        };
        let rest = spec_lookup_nets(m, nets.drop_first(), name);
        assert forall|j: int| 0 <= j < res.len() implies exists|k: int|
            0 <= k < nets.len() && spec_ip_in_network(m, #[trigger] nets[k], #[trigger] res[j]) by {
            if j < head.len() {
                match spec_name_entries_of(m.name_mappings, nets[0]) {
                    Some(entries) => {
                        lemma_find_ips_witness(entries, name, 0);
                        let e = choose|e: int|
                            0 <= e < entries.len() && (#[trigger] entries[e]).ips == head;
                        assert(entries[e].ips.contains(head[j]));
                        assert(spec_ip_in_network(m, nets[0], res[j]));
                    },
                    None => {
                        assert(false);
                    },
                }
            } else {
                let t = choose|t: int|
                    0 <= t < nets.drop_first().len() && spec_ip_in_network(
                        m,
                        #[trigger] nets.drop_first()[t],
                        rest[j - head.len()],
                    );
                assert(nets[t + 1] == nets.drop_first()[t]);
                assert(spec_ip_in_network(m, nets[t + 1], res[j]));
            }
        }
    }
}

/// A forward lookup returns only addresses that appear under some
/// network it searched: the requester's networks, or the fallback
/// network when the requester is unknown.
pub proof fn lemma_lookup_membership(
    m: DNSBackendView,
    requester: IpAddr,
    fallback: Seq<u8>,
    entry: Seq<u8>,
)
    requires
        spec_lookup(m, requester, fallback, entry) is Some,
    ensures
        forall|j: int|
            0 <= j < spec_lookup(m, requester, fallback, entry)->0.len() ==> exists|k: int|
                0 <= k < spec_search_nets(m, requester, fallback).len() && spec_ip_in_network(
                    m,
                    #[trigger] spec_search_nets(m, requester, fallback)[k],
                    #[trigger] spec_lookup(m, requester, fallback, entry)->0[j],
                ),
{
    let name = spec_normalize(entry, m.search_domain);
    lemma_lookup_nets_membership(m, spec_search_nets(m, requester, fallback), name);
}

/// The names a network's reverse table records for an address, when the
/// network has a reverse table at all.
pub open spec fn spec_reverse_names_for(m: DNSBackendView, net: Seq<u8>, ip: IpAddr) -> Option<
    Seq<Seq<u8>>,
> {
    match spec_reverse_entries_of(m.reverse_mappings, net) {
        Some(entries) => spec_names_of_ip(entries, ip),
        None => None,
    }
}

proof fn lemma_reverse_nets_first(m: DNSBackendView, nets: Seq<Seq<u8>>, ip: IpAddr, k: int)
    requires
        0 <= k < nets.len(),
        forall|j: int| 0 <= j < k ==> spec_reverse_names_for(m, #[trigger] nets[j], ip) is None,
        spec_reverse_names_for(m, nets[k], ip) is Some,
    ensures
        spec_reverse_nets(m, nets, ip) == spec_reverse_names_for(m, nets[k], ip),
    decreases k,
{
    if k == 0 {
    } else {
        assert(spec_reverse_names_for(m, nets[0], ip) is None);
        assert forall|j: int| 0 <= j < k - 1 implies spec_reverse_names_for(
            m,
            #[trigger] nets.drop_first()[j],
            ip,
        ) is None by {
            assert(nets.drop_first()[j] == nets[j + 1]);
        }
        assert(nets.drop_first()[k - 1] == nets[k as int]);
        lemma_reverse_nets_first(m, nets.drop_first(), ip, k - 1);
    }
}

/// A reverse lookup returns the names list of the first network in the
/// requester's membership order whose reverse table has the address.
pub proof fn lemma_reverse_lookup_first(
    m: DNSBackendView,
    requester: IpAddr,
    ip: IpAddr,
    k: int,
)
    requires
        spec_networks_of(m.ip_mappings, requester) is Some,
        0 <= k < spec_networks_of(m.ip_mappings, requester)->0.len(),
        forall|j: int|
            0 <= j < k ==> spec_reverse_names_for(
                m,
                #[trigger] spec_networks_of(m.ip_mappings, requester)->0[j],
                ip,
            ) is None,
        spec_reverse_names_for(m, spec_networks_of(m.ip_mappings, requester)->0[k], ip) is Some,
    ensures
        spec_reverse_lookup(m, requester, ip) == spec_reverse_names_for(
            m,
            spec_networks_of(m.ip_mappings, requester)->0[k],
            ip,
        ),
{
    lemma_reverse_nets_first(m, spec_networks_of(m.ip_mappings, requester)->0, ip, k);
}

/// Lowercasing is idempotent byte for byte.
pub proof fn lemma_lower_idempotent(s: Seq<u8>)
    ensures
        spec_lower(spec_lower(s)) == spec_lower(s),
{
    assert(spec_lower(spec_lower(s)) =~= spec_lower(s));
}

/// Case-insensitivity: a forward lookup of a name equals the lookup of
/// its lowercase form.
pub proof fn lemma_lookup_case_insensitive(
    m: DNSBackendView,
    requester: IpAddr,
    fallback: Seq<u8>,
    entry: Seq<u8>,
)
    ensures
        spec_lookup(m, requester, fallback, entry) == spec_lookup(
            m,
            requester,
            fallback,
            spec_lower(entry),
        ),
{
    lemma_lower_idempotent(entry);
}

/// Lowercasing distributes over concatenation.
pub proof fn lemma_lower_concat(a: Seq<u8>, b: Seq<u8>)
    ensures
        spec_lower(a + b) == spec_lower(a) + spec_lower(b),
{
    assert(spec_lower(a + b) =~= spec_lower(a) + spec_lower(b));
}

/// Search-domain idempotence: appending the search domain to a name
/// does not change its forward lookup, as long as the name itself does
/// not already lie under the (lowercase) search domain.
pub proof fn lemma_lookup_search_domain(
    m: DNSBackendView,
    requester: IpAddr,
    fallback: Seq<u8>,
    entry: Seq<u8>,
)
    requires
        spec_lower(m.search_domain) == m.search_domain,
        !spec_ends_with(spec_lower(entry), m.search_domain),
    ensures
        spec_lookup(m, requester, fallback, entry + m.search_domain) == spec_lookup(
            m,
            requester,
            fallback,
            entry,
        ),
{
    let sd = m.search_domain;
    lemma_lower_concat(entry, sd);
    let lowered = spec_lower(entry) + sd;
    assert(spec_ends_with(lowered, sd)) by {
        assert(lowered.skip(lowered.len() - sd.len()) =~= sd);
    }
    assert(lowered.take(lowered.len() - sd.len()) =~= spec_lower(entry));
    assert(spec_normalize(entry + sd, sd) == spec_normalize(entry, sd));
}

/// Trailing-dot idempotence: appending a single dot to a name does not
/// change its forward lookup, as long as neither form lies under the
/// search domain and the name does not already end with a dot.
pub proof fn lemma_lookup_trailing_dot(
    m: DNSBackendView,
    requester: IpAddr,
    fallback: Seq<u8>,
    entry: Seq<u8>,
)
    requires
        !spec_ends_with(spec_lower(entry), m.search_domain),
        !spec_ends_with(spec_lower(entry).push(46u8), m.search_domain),
        !spec_ends_with(spec_lower(entry), seq![46u8]),
    ensures
        spec_lookup(m, requester, fallback, entry + seq![46u8]) == spec_lookup(
            m,
            requester,
            fallback,
            entry,
        ),
{
    let sd = m.search_domain;
    lemma_lower_concat(entry, seq![46u8]);
    assert(spec_lower(seq![46u8]) =~= seq![46u8]);
    let dotted = spec_lower(entry).push(46u8);
    assert(spec_lower(entry) + seq![46u8] =~= dotted);
    assert(spec_ends_with(dotted, seq![46u8])) by {
        crate::bytes::lemma_ends_with_single(dotted, 46u8);
    }
    assert(dotted.take(dotted.len() - 1) =~= spec_lower(entry));
    assert(spec_normalize(entry + seq![46u8], sd) == spec_normalize(entry, sd));
}

} // verus!
