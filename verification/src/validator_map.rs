//! The nodes of the validator map: where each validator is, and how long one that can
//! no longer be placed stays.

use vstd::prelude::*;
use vstd::seq_lib::*;
use vstd::string::*;
use vstd::utf8::*;

use crate::collect::FullValidator;
use crate::config::AppConfig;
use crate::geo::{Coordinate, GeoRecord, GeoRecordView};
use crate::keyed::TextMap;
use crate::ordering;
use crate::ordering::{stable_sort, Ranked};
use crate::report;
use crate::resolution::{AddressView, ResolvedAddress};
use crate::text;
use crate::text::{lowercase, rank_text, Rank};

verus! {

/// A validator on the map.
pub struct MapNode {
    pub peer: String,
    pub ip: String,
    pub city: String,
    pub country: String,
    pub isp: String,
    pub lat: Coordinate,
    pub lon: Coordinate,
}

pub struct MapNodeView {
    pub peer: Seq<char>,
    pub ip: Seq<char>,
    pub city: Seq<char>,
    pub country: Seq<char>,
    pub isp: Seq<char>,
    pub lat: Coordinate,
    pub lon: Coordinate,
}

impl View for MapNode {
    type V = MapNodeView;

    open spec fn view(&self) -> MapNodeView {
        MapNodeView {
            peer: self.peer@,
            ip: self.ip@,
            city: self.city@,
            country: self.country@,
            isp: self.isp@,
            lat: self.lat,
            lon: self.lon,
        }
    }
}

impl MapNode {
    /// A copy of the node.
    pub fn copy(&self) -> (r: MapNode)
        ensures
            r == *self,
    {
        MapNode {
            peer: self.peer.clone(),
            ip: self.ip.clone(),
            city: self.city.clone(),
            country: self.country.clone(),
            isp: self.isp.clone(),
            lat: self.lat,
            lon: self.lon,
        }
    }
}

/// A node as it was last placed.
pub struct CachedMapNode {
    pub observed_at: u64,
    pub node: MapNode,
}

pub struct CachedMapNodeView {
    pub observed_at: u64,
    pub node: MapNodeView,
}

impl View for CachedMapNode {
    type V = CachedMapNodeView;

    open spec fn view(&self) -> CachedMapNodeView {
        CachedMapNodeView { observed_at: self.observed_at, node: self.node@ }
    }
}

/// The order of the map: by country, city, ip and peer.
pub open spec fn node_before(a: MapNodeView, b: MapNodeView) -> bool {
    ||| text::text_before(a.country, b.country)
    ||| a.country == b.country && text::text_before(a.city, b.city)
    ||| a.country == b.country && a.city == b.city && text::text_before(a.ip, b.ip)
    ||| a.country == b.country && a.city == b.city && a.ip == b.ip && text::text_before(
        a.peer,
        b.peer,
    )
}

impl Ranked for MapNode {
    open spec fn before(a: MapNodeView, b: MapNodeView) -> bool {
        node_before(a, b)
    }

    proof fn before_is_irreflexive(a: MapNodeView) {
        text::lemma_text_before_irreflexive(a.country);
        text::lemma_text_before_irreflexive(a.city);
        text::lemma_text_before_irreflexive(a.ip);
        text::lemma_text_before_irreflexive(a.peer);
    }

    proof fn before_is_transitive(a: MapNodeView, b: MapNodeView, c: MapNodeView) {
        if text::text_before(a.country, b.country) && text::text_before(b.country, c.country) {
            text::lemma_text_before_transitive(a.country, b.country, c.country);
        }
        if text::text_before(a.city, b.city) && text::text_before(b.city, c.city) {
            text::lemma_text_before_transitive(a.city, b.city, c.city);
        }
        if text::text_before(a.ip, b.ip) && text::text_before(b.ip, c.ip) {
            text::lemma_text_before_transitive(a.ip, b.ip, c.ip);
        }
        if text::text_before(a.peer, b.peer) && text::text_before(b.peer, c.peer) {
            text::lemma_text_before_transitive(a.peer, b.peer, c.peer);
        }
    }

    proof fn before_separates(a: MapNodeView, b: MapNodeView, c: MapNodeView) {
        text::lemma_text_before_total(a.country, b.country);
        text::lemma_text_before_total(a.city, b.city);
        text::lemma_text_before_total(a.ip, b.ip);
        text::lemma_text_before_total(a.peer, b.peer);
        if !node_before(a, b) && (a.country != b.country || a.city != b.city || a.ip != b.ip
            || a.peer != b.peer) {
            assert(node_before(b, a));
            Self::before_is_transitive(b, a, c);
        }
    }

    fn comes_before(&self, other: &Self) -> (r: bool) {
        proof {
            text::lemma_text_before_irreflexive(self.country@);
            text::lemma_text_before_irreflexive(self.city@);
            text::lemma_text_before_irreflexive(self.ip@);
        }
        match rank_text(self.country.as_str(), other.country.as_str()) {
            Rank::Before => return true,
            Rank::After => return false,
            Rank::Same => {},
        }
        match rank_text(self.city.as_str(), other.city.as_str()) {
            Rank::Before => return true,
            Rank::After => return false,
            Rank::Same => {},
        }
        match rank_text(self.ip.as_str(), other.ip.as_str()) {
            Rank::Before => return true,
            Rank::After => return false,
            Rank::Same => {},
        }
        match rank_text(self.peer.as_str(), other.peer.as_str()) {
            Rank::Before => true,
            _ => false,
        }
    }
}

/// The geo records of ips.
pub type GeoMap = Map<Seq<char>, GeoRecordView>;

/// The nodes of peers as they were last placed.
pub type NodeMap = Map<Seq<char>, CachedMapNodeView>;

/// The node of a peer at an address: none where the ip has no record or no coordinates.
pub open spec fn node_at(peer: Seq<char>, address: AddressView, geo: GeoMap) -> Option<
    MapNodeView,
> {
    if !geo.contains_key(address.ip) {
        None
    } else {
        let record = geo[address.ip];
        match (record.lat, record.lon) {
            (Some(lat), Some(lon)) => Some(
                MapNodeView {
                    peer,
                    ip: address.ip,
                    city: text::text_or_empty(record.city),
                    country: text::text_or_empty(record.country),
                    isp: text::text_or_empty(record.isp),
                    lat,
                    lon,
                },
            ),
            _ => None,
        }
    }
}

/// The node of a peer at the first of its addresses that has one.
pub open spec fn placed(peer: Seq<char>, addresses: Seq<AddressView>, geo: GeoMap) -> Option<
    MapNodeView,
>
    decreases addresses.len(),
{
    if addresses.len() == 0 {
        None
    } else {
        match node_at(peer, addresses[0], geo) {
            Some(node) => Some(node),
            None => placed(peer, addresses.drop_first(), geo),
        }
    }
}

/// The cached node of a peer, where it is no older than `stale_after` seconds.
pub open spec fn kept_node(cache: NodeMap, peer: Seq<char>, now: u64, stale_after: u64) -> Option<
    MapNodeView,
> {
    if cache.contains_key(peer) && report::elapsed(now, cache[peer].observed_at) <= stale_after {
        Some(cache[peer].node)
    } else {
        None
    }
}

/// What goes into the making of a map.
pub struct MapInput {
    /// The name of each validator on the map.
    pub peers: Seq<Seq<char>>,
    /// The addresses that each validator was resolved to.
    pub addresses: Seq<Seq<AddressView>>,
    pub geo: GeoMap,
    pub now: u64,
    pub stale_after: u64,
}

impl MapInput {
    /// The node of validator `i`, if it can be placed.
    pub open spec fn placed_at(self, i: int) -> Option<MapNodeView> {
        placed(self.peers[i], self.addresses[i], self.geo)
    }

    /// The cache after the first `n` validators: each that can be placed is put in it.
    pub open spec fn cache_after(self, cache: NodeMap, n: nat) -> NodeMap
        decreases n,
    {
        if n == 0 {
            cache
        } else {
            let before = self.cache_after(cache, (n - 1) as nat);
            match self.placed_at(n - 1) {
                Some(node) => before.insert(
                    self.peers[n - 1],
                    CachedMapNodeView { observed_at: self.now, node },
                ),
                None => before,
            }
        }
    }

    /// The node of validator `i` on the map: where it can be placed, or else where it
    /// last was.
    pub open spec fn on_map(self, cache: NodeMap, i: int) -> Option<MapNodeView> {
        match self.placed_at(i) {
            Some(node) => Some(node),
            None => kept_node(
                self.cache_after(cache, i as nat),
                self.peers[i],
                self.now,
                self.stale_after,
            ),
        }
    }

    /// Whether a validator of the name `peer` can be placed.
    pub open spec fn places(self, peer: Seq<char>) -> bool {
        exists|k: int|
            0 <= k < self.peers.len() && (#[trigger] self.peers[k]) == peer && self.placed_at(
                k,
            ) is Some
    }

    /// The nodes of the first `n` validators, in their order.
    pub open spec fn nodes(self, cache: NodeMap, n: nat) -> Seq<MapNodeView> {
        Seq::new(n, |i: int| self.on_map(cache, i)).filter_map(|o: Option<MapNodeView>| o)
    }
}

/// The addresses that each validator was resolved to.
pub open spec fn addresses_of(validators: Seq<FullValidator>) -> Seq<Seq<AddressView>> {
    validators.map_values(|v: FullValidator| v.resolution@.addresses)
}

/// The name of each validator on the map: its public key in lower case.
pub open spec fn peers_of(validators: Seq<FullValidator>) -> Seq<Seq<char>> {
    validators.map_values(|v: FullValidator| text::lowercased(v.validator_public_key@))
}

fn text_or_default(o: &Option<String>) -> (r: String)
    ensures
        r@ == text::text_or_empty(text::opt_text(*o)),
{
    match o {
        Some(s) => s.clone(),
        None => String::new(),
    }
}

/// The node of a peer at an address.
pub fn map_node_for_address(
    peer: &str,
    address: &ResolvedAddress,
    geo_cache: &TextMap<GeoRecord>,
) -> (r: Option<MapNode>)
    ensures
        node_at(peer@, address@, geo_cache@) == (match r {
            Some(node) => Some(node@),
            None => None,
        }),
        r is Some <==> geo_cache@.dom().contains(address.ip@) && geo_cache@[address.ip@].lat is Some
            && geo_cache@[address.ip@].lon is Some,
        r matches Some(node) ==> node.peer@ == peer@ && node.ip@ == address.ip@ && Some(node.lat)
            == geo_cache@[address.ip@].lat && Some(node.lon) == geo_cache@[address.ip@].lon,
{
    match geo_cache.get(address.ip.as_str()) {
        None => None,
        Some(record) => match (record.lat, record.lon) {
            (Some(lat), Some(lon)) => Some(
                MapNode {
                    peer: peer.to_owned(),
                    ip: address.ip.clone(),
                    city: text_or_default(&record.city),
                    country: text_or_default(&record.country),
                    isp: text_or_default(&record.isp),
                    lat,
                    lon,
                },
            ),
            _ => None,
        },
    }
}

fn place(peer: &str, addresses: &Vec<ResolvedAddress>, geo_cache: &TextMap<GeoRecord>) -> (r: Option<
    MapNode,
>)
    ensures
        placed(peer@, addresses@.map_values(|a: ResolvedAddress| a@), geo_cache@) == (match r {
            Some(node) => Some(node@),
            None => None,
        }),
{
    let ghost all = addresses@.map_values(|a: ResolvedAddress| a@);
    let mut j: usize = 0;
    assert(all.skip(0) =~= all);
    while j < addresses.len()
        invariant
            j <= addresses@.len(),
            all == addresses@.map_values(|a: ResolvedAddress| a@),
            placed(peer@, all.skip(j as int), geo_cache@) == placed(peer@, all, geo_cache@),
        decreases addresses@.len() - j,
    {
        assert(all.skip(j as int)[0] == addresses@[j as int]@);
        assert(all.skip(j as int).drop_first() =~= all.skip(j + 1));
        match map_node_for_address(peer, &addresses[j], geo_cache) {
            Some(node) => return Some(node),
            None => {},
        }
        j = j + 1;
    }
    None
}

/// Makes the map of validators under the names `peers`. Each validator that can be
/// placed is put in the cache; one that cannot stays where it last was for the
/// configured time. The nodes come out by country, city, ip and peer.
pub fn map_nodes_of_peers(
    config: &AppConfig,
    peers: &Vec<String>,
    validators: &Vec<FullValidator>,
    geo_cache: &TextMap<GeoRecord>,
    cache: TextMap<CachedMapNode>,
    now: u64,
) -> (r: (Vec<MapNode>, TextMap<CachedMapNode>))
    requires
        peers@.len() == validators@.len(),
    ensures
        ({
            let input = MapInput {
                peers: text::texts(peers@),
                addresses: addresses_of(validators@),
                geo: geo_cache@,
                now,
                stale_after: config.map_stale_after_secs,
            };
            &&& r.1@ == input.cache_after(cache@, validators@.len())
            &&& ordering::stably_sorted::<MapNode>(
                input.nodes(cache@, validators@.len()),
                ordering::shown(r.0@),
            )
        }),
{
    let ghost input = MapInput {
        peers: text::texts(peers@),
        addresses: addresses_of(validators@),
        geo: geo_cache@,
        now,
        stale_after: config.map_stale_after_secs,
    };
    let ghost before = cache@;
    let ghost same = |o: Option<MapNodeView>| o;
    let mut cache: TextMap<CachedMapNode> = cache;
    let mut output: Vec<MapNode> = Vec::new();
    let mut i: usize = 0;
    assert(ordering::shown(output@) =~= input.nodes(before, 0));
    while i < validators.len()
        invariant
            i <= validators@.len(),
            peers@.len() == validators@.len(),
            same == (|o: Option<MapNodeView>| o),
            input == (MapInput {
                peers: text::texts(peers@),
                addresses: addresses_of(validators@),
                geo: geo_cache@,
                now,
                stale_after: config.map_stale_after_secs,
            }),
            cache@ == input.cache_after(before, i as nat),
            ordering::shown(output@) == input.nodes(before, i as nat),
        decreases validators@.len() - i,
    {
        let peer: &String = &peers[i];
        let ghost listed = output@;
        let ghost longer = Seq::new((i + 1) as nat, |k: int| input.on_map(before, k));
        proof {
            longer.lemma_filter_map_take_succ(same, i as int);
            assert(longer.take(i + 1) =~= longer);
            assert(longer.take(i as int) =~= Seq::new(i as nat, |k: int| input.on_map(before, k)));
            assert(input.peers[i as int] == peer@);
            assert(input.addresses[i as int] == validators@[i as int].resolution@.addresses);
        }
        match place(peer.as_str(), &validators[i].resolution.addresses, geo_cache) {
            Some(node) => {
                let cached = CachedMapNode { observed_at: now, node: node.copy() };
                cache.insert(peer.clone(), cached);
                output.push(node);
                assert(ordering::shown(output@) =~= ordering::shown(listed).push(node@));
            },
            None => match cache.get(peer.as_str()) {
                Some(cached) => if now.saturating_sub(cached.observed_at)
                    <= config.map_stale_after_secs {
                    let node: MapNode = cached.node.copy();
                    output.push(node);
                    assert(ordering::shown(output@) =~= ordering::shown(listed).push(node@));
                },
                None => {},
            },
        }
        assert(ordering::shown(output@) =~= input.nodes(before, (i + 1) as nat));
        i = i + 1;
    }
    (stable_sort(output), cache)
}

/// Makes the map of validators, each under its public key in lower case.
pub fn build_map_nodes(
    config: &AppConfig,
    validators: &Vec<FullValidator>,
    geo_cache: &TextMap<GeoRecord>,
    cache: TextMap<CachedMapNode>,
    now: u64,
) -> (r: (Vec<MapNode>, TextMap<CachedMapNode>))
    ensures
        ({
            let input = MapInput {
                peers: peers_of(validators@),
                addresses: addresses_of(validators@),
                geo: geo_cache@,
                now,
                stale_after: config.map_stale_after_secs,
            };
            &&& r.1@ == input.cache_after(cache@, validators@.len())
            &&& ordering::stably_sorted::<MapNode>(
                input.nodes(cache@, validators@.len()),
                ordering::shown(r.0@),
            )
        }),
        forall|i: int|
            0 <= i < validators@.len() && is_ascii_chars(
                (#[trigger] validators@[i]).validator_public_key@,
            ) ==> peers_of(validators@)[i] == validators@[i].validator_public_key@.map_values(
                |c: char| text::ascii_lower(c),
            ),
{
    let mut peers: Vec<String> = Vec::new();
    let mut i: usize = 0;
    while i < validators.len()
        invariant
            i <= validators@.len(),
            peers@.len() == i,
            forall|k: int|
                0 <= k < i ==> (#[trigger] peers@[k])@ == text::lowercased(
                    validators@[k].validator_public_key@,
                ),
            forall|k: int|
                0 <= k < i && is_ascii_chars((#[trigger] validators@[k]).validator_public_key@)
                    ==> text::lowercased(validators@[k].validator_public_key@)
                    == validators@[k].validator_public_key@.map_values(
                    |c: char| text::ascii_lower(c),
                ),
        decreases validators@.len() - i,
    {
        peers.push(lowercase(validators[i].validator_public_key.as_str()));
        i = i + 1;
    }
    assert(text::texts(peers@) =~= peers_of(validators@));
    map_nodes_of_peers(config, &peers, validators, geo_cache, cache, now)
}

/// What the cache holds of a peer whose validators among the first `n` cannot be placed
/// is what it held before.
proof fn lemma_cache_of_unplaced_peer(input: MapInput, cache: NodeMap, n: nat, peer: Seq<char>)
    requires
        forall|k: int|
            0 <= k < n && (#[trigger] input.peers[k]) == peer ==> input.placed_at(k) is None,
    ensures
        input.cache_after(cache, n).contains_key(peer) == cache.contains_key(peer),
        cache.contains_key(peer) ==> input.cache_after(cache, n)[peer] == cache[peer],
    decreases n,
{
    if n > 0 {
        lemma_cache_of_unplaced_peer(input, cache, (n - 1) as nat, peer);
        assert(input.peers[n - 1] == peer ==> input.placed_at(n - 1) is None);
    }
}

/// A validator that cannot be placed is on the map, where it was last placed, as long as
/// that was no more than the grace period ago, and is gone from it afterwards; unless one
/// of the same name in front of it was placed.
pub proof fn law_unplaced_validator_stays_for_grace_period(
    input: MapInput,
    cache: NodeMap,
    i: int,
)
    requires
        0 <= i < input.peers.len(),
        input.placed_at(i) is None,
        forall|k: int|
            0 <= k < i && (#[trigger] input.peers[k]) == input.peers[i] ==> input.placed_at(
                k,
            ) is None,
    ensures
        input.on_map(cache, i) == kept_node(cache, input.peers[i], input.now, input.stale_after),
{
    lemma_cache_of_unplaced_peer(input, cache, i as nat, input.peers[i]);
}

/// After a map was made, the cache holds each validator that was placed, at the time of
/// that map, unless one of the same name behind it was placed elsewhere.
pub proof fn law_placed_validator_is_cached(input: MapInput, cache: NodeMap, i: int, n: nat)
    requires
        0 <= i < n <= input.peers.len(),
        input.placed_at(i) is Some,
        forall|k: int|
            i < k < n && (#[trigger] input.peers[k]) == input.peers[i] ==> input.placed_at(k) is None
                || input.placed_at(k) == input.placed_at(i),
    ensures
        input.cache_after(cache, n).contains_key(input.peers[i]),
        input.cache_after(cache, n)[input.peers[i]] == (CachedMapNodeView {
            observed_at: input.now,
            node: input.placed_at(i)->0,
        }),
    decreases n,
{
    if i < n - 1 {
        law_placed_validator_is_cached(input, cache, i, (n - 1) as nat);
        assert(input.peers[n - 1] == input.peers[i] ==> input.placed_at(n - 1) is None
            || input.placed_at(n - 1) == input.placed_at(i));
    }
}

/// The cache after a number of maps.
pub open spec fn cache_after_maps(maps: Seq<MapInput>, cache: NodeMap) -> NodeMap
    decreases maps.len(),
{
    if maps.len() == 0 {
        cache
    } else {
        let last = maps.last();
        last.cache_after(cache_after_maps(maps.drop_last(), cache), last.peers.len())
    }
}

/// Whether each node in the cache bears the name that it is kept under.
pub open spec fn is_keyed(cache: NodeMap) -> bool {
    forall|peer: Seq<char>| #[trigger]
        cache.contains_key(peer) ==> cache[peer].node.peer == peer
}

proof fn lemma_placed_under_name(peer: Seq<char>, addresses: Seq<AddressView>, geo: GeoMap)
    ensures
        placed(peer, addresses, geo) matches Some(node) ==> node.peer == peer,
    decreases addresses.len(),
{
    if addresses.len() > 0 {
        lemma_placed_under_name(peer, addresses.drop_first(), geo);
    }
}

/// Making a map leaves each node in the cache under its name.
pub proof fn law_cached_nodes_bear_their_names(input: MapInput, cache: NodeMap, n: nat)
    requires
        is_keyed(cache),
    ensures
        is_keyed(input.cache_after(cache, n)),
    decreases n,
{
    if n > 0 {
        law_cached_nodes_bear_their_names(input, cache, (n - 1) as nat);
        lemma_placed_under_name(input.peers[n - 1], input.addresses[n - 1], input.geo);
    }
}

/// What a validator contributes to the map bears its name.
pub proof fn law_nodes_bear_the_names_of_validators(input: MapInput, cache: NodeMap, i: int)
    requires
        is_keyed(cache),
        0 <= i,
    ensures
        input.on_map(cache, i) matches Some(node) ==> node.peer == input.peers[i],
{
    lemma_placed_under_name(input.peers[i], input.addresses[i], input.geo);
    law_cached_nodes_bear_their_names(input, cache, i as nat);
}

/// Maps on which a peer is not placed leave what the cache holds of it.
proof fn lemma_cache_through_maps(maps: Seq<MapInput>, cache: NodeMap, peer: Seq<char>)
    requires
        forall|t: int| 0 <= t < maps.len() ==> !(#[trigger] maps[t]).places(peer),
        cache.contains_key(peer),
    ensures
        cache_after_maps(maps, cache).contains_key(peer),
        cache_after_maps(maps, cache)[peer] == cache[peer],
    decreases maps.len(),
{
    if maps.len() > 0 {
        let last = maps[maps.len() - 1];
        let shorter = maps.drop_last();
        assert forall|t: int| 0 <= t < shorter.len() implies !(#[trigger] shorter[t]).places(
            peer,
        ) by {
            assert(shorter[t] == maps[t]);
        }
        lemma_cache_through_maps(shorter, cache, peer);
        assert(!last.places(peer));
        lemma_cache_of_unplaced_peer(
            last,
            cache_after_maps(shorter, cache),
            last.peers.len(),
            peer,
        );
    }
}

proof fn lemma_maps_keep_names(maps: Seq<MapInput>, cache: NodeMap)
    requires
        is_keyed(cache),
    ensures
        is_keyed(cache_after_maps(maps, cache)),
    decreases maps.len(),
{
    if maps.len() > 0 {
        lemma_maps_keep_names(maps.drop_last(), cache);
        law_cached_nodes_bear_their_names(
            maps.last(),
            cache_after_maps(maps.drop_last(), cache),
            maps.last().peers.len(),
        );
    }
}

/// A validator that was placed on a first map and can be placed neither on the maps made
/// since nor on the present one is on the present map, `shown`, at its old place, as long
/// as no more than the grace period has passed since the first map. Once it has, no node
/// of the map bears the validator's name.
pub proof fn law_validator_survives_until_grace_period_ends(
    cache: NodeMap,
    first: MapInput,
    i: int,
    since: Seq<MapInput>,
    present: MapInput,
    j: int,
    shown: Seq<MapNodeView>,
)
    requires
        0 <= i < first.peers.len(),
        first.placed_at(i) is Some,
        forall|k: int|
            i < k < first.peers.len() && (#[trigger] first.peers[k]) == first.peers[i]
                ==> first.placed_at(k) is None || first.placed_at(k) == first.placed_at(i),
        forall|t: int| 0 <= t < since.len() ==> !(#[trigger] since[t]).places(first.peers[i]),
        !present.places(first.peers[i]),
        0 <= j < present.peers.len(),
        present.peers[j] == first.peers[i],
        ordering::stably_sorted::<MapNode>(
            present.nodes(
                cache_after_maps(since, first.cache_after(cache, first.peers.len())),
                present.peers.len(),
            ),
            shown,
        ),
    ensures
        report::elapsed(present.now, first.now) <= present.stale_after ==> shown.contains(
            first.placed_at(i)->0,
        ),
        report::elapsed(present.now, first.now) > present.stale_after && is_keyed(cache)
            ==> forall|k: int|
            0 <= k < shown.len() ==> (#[trigger] shown[k]).peer != first.peers[i],
{
    let peer = first.peers[i];
    let n = present.peers.len();
    let after_first = first.cache_after(cache, first.peers.len());
    let before = cache_after_maps(since, after_first);
    let nodes = present.nodes(before, n);
    law_placed_validator_is_cached(first, cache, i, first.peers.len());
    lemma_cache_through_maps(since, after_first, peer);
    law_map_holds_the_nodes_of_validators(present, before, n);
    if report::elapsed(present.now, first.now) <= present.stale_after {
        law_unplaced_validator_stays_for_grace_period(present, before, j);
        let node = first.placed_at(i)->0;
        assert(present.on_map(before, j) == Some(node));
        to_multiset_contains(nodes, node);
        to_multiset_contains(shown, node);
    } else if is_keyed(cache) {
        law_cached_nodes_bear_their_names(first, cache, first.peers.len());
        lemma_maps_keep_names(since, after_first);
        assert forall|k: int| 0 <= k < shown.len() implies (#[trigger] shown[k]).peer != peer by {
            let node = shown[k];
            assert(shown.contains(node));
            to_multiset_contains(nodes, node);
            to_multiset_contains(shown, node);
            assert(nodes.contains(node));
            let m = choose|m: int|
                0 <= m < n && #[trigger] present.on_map(before, m) == Some(node);
            law_nodes_bear_the_names_of_validators(present, before, m);
            if present.peers[m] == peer {
                law_unplaced_validator_stays_for_grace_period(present, before, m);
            }
        }
    }
}

/// Making a map drops no peer from the cache.
pub proof fn law_cache_keeps_its_peers(
    input: MapInput,
    cache: NodeMap,
    n: nat,
    peer: Seq<char>,
)
    requires
        cache.contains_key(peer),
    ensures
        input.cache_after(cache, n).contains_key(peer),
    decreases n,
{
    if n > 0 {
        law_cache_keeps_its_peers(input, cache, (n - 1) as nat, peer);
    }
}

/// The map holds what each validator contributes and nothing else, so at most one node
/// for each.
pub proof fn law_map_holds_the_nodes_of_validators(input: MapInput, cache: NodeMap, n: nat)
    ensures
        input.nodes(cache, n).len() <= n,
        forall|i: int|
            0 <= i < n ==> (#[trigger] input.on_map(cache, i) matches Some(node) ==> input.nodes(
                cache,
                n,
            ).contains(node)),
        forall|node: MapNodeView| #[trigger]
            input.nodes(cache, n).contains(node) ==> exists|i: int|
                0 <= i < n && #[trigger] input.on_map(cache, i) == Some(node),
    decreases n,
{
    if n > 0 {
        let m = (n - 1) as nat;
        law_map_holds_the_nodes_of_validators(input, cache, m);
        let same = |o: Option<MapNodeView>| o;
        let all = Seq::new(n, |i: int| input.on_map(cache, i));
        all.lemma_filter_map_take_succ(same, m as int);
        assert(all.take(n as int) =~= all);
        assert(all.take(m as int) =~= Seq::new(m, |i: int| input.on_map(cache, i)));
        let fewer = input.nodes(cache, m);
        let nodes = input.nodes(cache, n);
        let last = input.on_map(cache, m as int);
        assert(nodes == fewer + (match last {
            Some(node) => seq![node],
            None => Seq::empty(),
        }));
        assert forall|i: int| 0 <= i < n implies (#[trigger] input.on_map(cache, i) matches Some(
            node,
        ) ==> nodes.contains(node)) by {
            if let Some(node) = input.on_map(cache, i) {
                if i < m {
                    assert(fewer.contains(node));
                    let k = choose|k: int| 0 <= k < fewer.len() && fewer[k] == node;
                    assert(nodes[k] == node);
                } else {
                    assert(nodes[fewer.len() as int] == node);
                }
            }
        }
        assert forall|node: MapNodeView| #[trigger] nodes.contains(node) implies exists|i: int|
            0 <= i < n && #[trigger] input.on_map(cache, i) == Some(node) by {
            let k = choose|k: int| 0 <= k < nodes.len() && nodes[k] == node;
            if k < fewer.len() {
                assert(fewer[k] == node);
                assert(fewer.contains(node));
                let i = choose|i: int| 0 <= i < m && #[trigger] input.on_map(cache, i) == Some(node);
                assert(input.on_map(cache, i) == Some(node));
            } else {
                assert(last == Some(node));
            }
        }
    }
}

/// The map is sorted by country, in a country by city, in a city by ip, at an ip by peer,
/// each in the order of texts.
pub proof fn law_map_is_sorted(nodes: Seq<MapNodeView>, shown: Seq<MapNodeView>, i: int, j: int)
    requires
        ordering::stably_sorted::<MapNode>(nodes, shown),
        0 <= i < j < shown.len(),
    ensures
        ({
            let a = shown[i];
            let b = shown[j];
            &&& a.country == b.country || text::text_before(a.country, b.country)
            &&& a.country == b.country ==> a.city == b.city || text::text_before(a.city, b.city)
            &&& a.country == b.country && a.city == b.city ==> a.ip == b.ip || text::text_before(
                a.ip,
                b.ip,
            )
            &&& a.country == b.country && a.city == b.city && a.ip == b.ip ==> a.peer == b.peer
                || text::text_before(a.peer, b.peer)
        }),
        shown.len() == nodes.len(),
        shown.to_multiset() == nodes.to_multiset(),
{
    let a = shown[i];
    let b = shown[j];
    ordering::law_sorting_keeps_and_orders::<MapNode>(nodes, shown, a);
    assert(!<MapNode as Ranked>::before(b, a));
    text::lemma_text_before_total(a.country, b.country);
    text::lemma_text_before_total(a.city, b.city);
    text::lemma_text_before_total(a.ip, b.ip);
    text::lemma_text_before_total(a.peer, b.peer);
}

/// The node of a peer at an ip with a record that has both coordinates bears the peer's
/// name, the ip, the coordinates, and the city, country and provider of the record, or
/// nothing for those that it lacks. At any other ip there is none.
pub proof fn law_node_tells_the_record_of_its_ip(
    peer: Seq<char>,
    address: AddressView,
    geo: GeoMap,
)
    ensures
        !geo.dom().contains(address.ip) ==> node_at(peer, address, geo) is None,
        geo.dom().contains(address.ip) && (geo[address.ip].lat is None
            || geo[address.ip].lon is None) ==> node_at(peer, address, geo) is None,
        geo.dom().contains(address.ip) && geo[address.ip].lat is Some
            && geo[address.ip].lon is Some ==> (node_at(peer, address, geo) matches Some(node) && {
            let record = geo[address.ip];
            &&& node.peer == peer
            &&& node.ip == address.ip
            &&& Some(node.lat) == record.lat
            &&& Some(node.lon) == record.lon
            &&& record.city matches Some(city) ==> node.city == city
            &&& record.city is None ==> node.city.len() == 0
            &&& record.country matches Some(country) ==> node.country == country
            &&& record.country is None ==> node.country.len() == 0
            &&& record.isp matches Some(isp) ==> node.isp == isp
            &&& record.isp is None ==> node.isp.len() == 0
        }),
{
}

proof fn lemma_placed_at_first(
    peer: Seq<char>,
    addresses: Seq<AddressView>,
    geo: GeoMap,
    j: int,
)
    requires
        0 <= j <= addresses.len(),
        forall|h: int| 0 <= h < j ==> node_at(peer, #[trigger] addresses[h], geo) is None,
        j < addresses.len() ==> node_at(peer, addresses[j], geo) is Some,
    ensures
        j < addresses.len() ==> placed(peer, addresses, geo) == node_at(peer, addresses[j], geo),
        j == addresses.len() ==> placed(peer, addresses, geo) is None,
    decreases j,
{
    if j > 0 {
        let rest = addresses.drop_first();
        assert(node_at(peer, addresses[0], geo) is None);
        assert forall|h: int| 0 <= h < j - 1 implies node_at(
            peer,
            #[trigger] rest[h],
            geo,
        ) is None by {
            assert(rest[h] == addresses[h + 1]);
        }
        lemma_placed_at_first(peer, rest, geo, j - 1);
    }
}

/// A validator is placed at the first of its addresses whose ip has a record with both
/// coordinates, under its public key in lower case, and cannot be placed where there is no
/// such address.
pub proof fn law_validator_is_placed_at_its_first_known_address(
    validators: Seq<FullValidator>,
    geo: GeoMap,
    now: u64,
    stale_after: u64,
    i: int,
    j: int,
)
    requires
        0 <= i < validators.len(),
        0 <= j <= validators[i].resolution.addresses@.len(),
        forall|h: int|
            0 <= h < j ==> ({
                let ip = (#[trigger] validators[i].resolution.addresses@[h]).ip@;
                !geo.dom().contains(ip) || geo[ip].lat is None || geo[ip].lon is None
            }),
        j < validators[i].resolution.addresses@.len() ==> ({
            let ip = validators[i].resolution.addresses@[j].ip@;
            geo.dom().contains(ip) && geo[ip].lat is Some && geo[ip].lon is Some
        }),
    ensures
        ({
            let input = MapInput {
                peers: peers_of(validators),
                addresses: addresses_of(validators),
                geo,
                now,
                stale_after,
            };
            &&& input.peers.len() == validators.len()
            &&& input.peers[i] == text::lowercased(validators[i].validator_public_key@)
            &&& j == validators[i].resolution.addresses@.len() ==> input.placed_at(i) is None
            &&& j < validators[i].resolution.addresses@.len() ==> (input.placed_at(
                i,
            ) matches Some(node) && {
                let ip = validators[i].resolution.addresses@[j].ip@;
                &&& node.peer == text::lowercased(validators[i].validator_public_key@)
                &&& node.ip == ip
                &&& Some(node.lat) == geo[ip].lat
                &&& Some(node.lon) == geo[ip].lon
            })
        }),
{
    let peer = text::lowercased(validators[i].validator_public_key@);
    let list = validators[i].resolution.addresses@;
    let views = validators[i].resolution@.addresses;
    assert forall|h: int| 0 <= h < j implies node_at(peer, #[trigger] views[h], geo) is None by {
        assert(views[h].ip == list[h].ip@);
    }
    if j < list.len() {
        assert(views[j].ip == list[j].ip@);
    }
    lemma_placed_at_first(peer, views, geo, j);
}

/// A validator that can be placed is on the map at the place found now, whatever the cache
/// holds of it.
pub proof fn law_placed_validator_is_shown_at_its_present_place(
    input: MapInput,
    cache: NodeMap,
    i: int,
    shown: Seq<MapNodeView>,
)
    requires
        0 <= i < input.peers.len(),
        input.placed_at(i) is Some,
        ordering::stably_sorted::<MapNode>(input.nodes(cache, input.peers.len()), shown),
    ensures
        input.on_map(cache, i) == input.placed_at(i),
        shown.contains(input.placed_at(i)->0),
{
    let n = input.peers.len();
    let node = input.placed_at(i)->0;
    law_map_holds_the_nodes_of_validators(input, cache, n);
    assert(input.on_map(cache, i) == Some(node));
    to_multiset_contains(input.nodes(cache, n), node);
    to_multiset_contains(shown, node);
}

/// Where a validator is placed does not rest on the cache: on two maps made from the same
/// validators and records it has the same node, whatever was remembered.
pub proof fn law_present_place_does_not_rest_on_the_cache(
    input: MapInput,
    one: NodeMap,
    other: NodeMap,
    i: int,
)
    requires
        0 <= i < input.peers.len(),
        input.placed_at(i) is Some,
    ensures
        input.on_map(one, i) == input.on_map(other, i),
        input.on_map(one, i) is Some,
{
}

/// A validator that cannot be placed, as none of its name in front of it can, is on the map
/// as the cache holds it while its age is no more than the grace period, and is not on it
/// where it is older or was never placed.
pub proof fn law_cached_node_is_shown_while_young(input: MapInput, cache: NodeMap, i: int)
    requires
        0 <= i < input.peers.len(),
        input.placed_at(i) is None,
        forall|k: int|
            0 <= k < i && (#[trigger] input.peers[k]) == input.peers[i] ==> input.placed_at(
                k,
            ) is None,
    ensures
        !cache.dom().contains(input.peers[i]) ==> input.on_map(cache, i) is None,
        cache.dom().contains(input.peers[i]) && input.now
            <= cache[input.peers[i]].observed_at + input.stale_after ==> input.on_map(cache, i)
            == Some(cache[input.peers[i]].node),
        cache.dom().contains(input.peers[i]) && input.now
            > cache[input.peers[i]].observed_at + input.stale_after ==> input.on_map(
            cache,
            i,
        ) is None,
{
    law_unplaced_validator_stays_for_grace_period(input, cache, i);
}

/// What the cache holds of a peer that no validator of the map bears, or none that can be
/// placed, is what it held before.
pub proof fn law_unplaced_peer_keeps_its_entry(input: MapInput, cache: NodeMap, peer: Seq<char>)
    requires
        forall|k: int|
            0 <= k < input.peers.len() && (#[trigger] input.peers[k]) == peer ==> input.placed_at(
                k,
            ) is None,
    ensures
        input.cache_after(cache, input.peers.len()).dom().contains(peer) <==> cache.dom().contains(
            peer,
        ),
        cache.dom().contains(peer) ==> input.cache_after(cache, input.peers.len())[peer]
            == cache[peer],
{
    lemma_cache_of_unplaced_peer(input, cache, input.peers.len(), peer);
}

/// The nodes of the map, before they are sorted, follow their validators: behind as many
/// nodes as validators in front of it have one stands the node of a validator that has one.
pub proof fn law_nodes_follow_their_validators(input: MapInput, cache: NodeMap, n: nat, i: int)
    requires
        0 <= i < n,
        input.on_map(cache, i) is Some,
    ensures
        ({
            let nodes = input.nodes(cache, n);
            let in_front = Seq::new(i as nat, |k: int| input.on_map(cache, k)).filter(
                |o: Option<MapNodeView>| o is Some,
            ).len();
            &&& in_front < nodes.len()
            &&& nodes[in_front as int] == input.on_map(cache, i)->0
            &&& nodes.len() == Seq::new(n, |k: int| input.on_map(cache, k)).filter(
                |o: Option<MapNodeView>| o is Some,
            ).len()
        }),
    decreases n,
{
    lemma_nodes_counted(input, cache, n);
    let same = |o: Option<MapNodeView>| o;
    let m = (n - 1) as nat;
    let all = Seq::new(n, |k: int| input.on_map(cache, k));
    all.lemma_filter_map_take_succ(same, m as int);
    assert(all.take(n as int) =~= all);
    assert(all.take(m as int) =~= Seq::new(m, |k: int| input.on_map(cache, k)));
    lemma_nodes_counted(input, cache, m);
    if i < m {
        law_nodes_follow_their_validators(input, cache, m, i);
    }
}

proof fn lemma_nodes_counted(input: MapInput, cache: NodeMap, n: nat)
    ensures
        input.nodes(cache, n).len() == Seq::new(n, |k: int| input.on_map(cache, k)).filter(
            |o: Option<MapNodeView>| o is Some,
        ).len(),
    decreases n,
{
    reveal(Seq::filter);
    let same = |o: Option<MapNodeView>| o;
    let all = Seq::new(n, |k: int| input.on_map(cache, k));
    if n == 0 {
        assert(all =~= Seq::<Option<MapNodeView>>::empty());
        assert(all.filter_map(same) =~= Seq::<MapNodeView>::empty());
    } else {
        let m = (n - 1) as nat;
        lemma_nodes_counted(input, cache, m);
        all.lemma_filter_map_take_succ(same, m as int);
        assert(all.take(n as int) =~= all);
        assert(all.take(m as int) =~= Seq::new(m, |k: int| input.on_map(cache, k)));
        assert(all.drop_last() =~= Seq::new(m, |k: int| input.on_map(cache, k)));
    }
}

/// A node is seen with all that it holds, and a cached one with its time.
pub proof fn law_node_is_seen_whole(node: MapNode, cached: CachedMapNode)
    ensures
        node@.peer == node.peer@,
        node@.ip == node.ip@,
        node@.city == node.city@,
        node@.country == node.country@,
        node@.isp == node.isp@,
        node@.lat == node.lat,
        node@.lon == node.lon,
        cached@.observed_at == cached.observed_at,
        cached@.node == cached.node@,
{
}

/// The validators of a map are seen under their public keys in lower case, each with every
/// address that it was resolved to.
pub proof fn law_validators_are_seen_with_their_addresses(
    validators: Seq<FullValidator>,
    i: int,
    j: int,
)
    requires
        0 <= i < validators.len(),
        0 <= j < validators[i].resolution.addresses@.len(),
    ensures
        peers_of(validators).len() == validators.len(),
        peers_of(validators)[i] == text::lowercased(validators[i].validator_public_key@),
        addresses_of(validators).len() == validators.len(),
        addresses_of(validators)[i].len() == validators[i].resolution.addresses@.len(),
        addresses_of(validators)[i][j].ip == validators[i].resolution.addresses@[j].ip@,
{
}

/// A validator that cannot be placed is shown where the last one of its name in front of it
/// was placed on the same map.
pub proof fn law_unplaced_namesake_shares_the_place(
    input: MapInput,
    cache: NodeMap,
    k: int,
    i: int,
)
    requires
        0 <= k < i < input.peers.len(),
        input.peers[k] == input.peers[i],
        input.placed_at(k) is Some,
        input.placed_at(i) is None,
        forall|h: int|
            k < h < i && (#[trigger] input.peers[h]) == input.peers[k] ==> input.placed_at(h) is None
                || input.placed_at(h) == input.placed_at(k),
    ensures
        input.on_map(cache, i) == input.placed_at(k),
{
    law_placed_validator_is_cached(input, cache, k, i as nat);
}

} // verus!
