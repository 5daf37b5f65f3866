//! Reading the static DHT nodes of a global configuration, and the state of the
//! network before the lookups.

use vstd::prelude::*;
use vstd::string::*;

use crate::text;
use crate::text::same_text;

verus! {

/// A base64 field of the configuration: its bytes, or why it could not be decoded.
pub enum Base64Field {
    Bytes(Vec<u8>),
    Malformed(String),
}

pub enum Base64View {
    Bytes(Seq<u8>),
    Malformed(Seq<char>),
}

impl View for Base64Field {
    type V = Base64View;

    open spec fn view(&self) -> Base64View {
        match self {
            Base64Field::Bytes(bytes) => Base64View::Bytes(bytes@),
            Base64Field::Malformed(error) => Base64View::Malformed(error@),
        }
    }
}

/// The identity of a configured node.
pub struct ConfigDhtNodeId {
    pub type_node: Option<String>,
    pub key: Option<Base64Field>,
}

pub struct NodeIdView {
    pub type_node: Option<Seq<char>>,
    pub key: Option<Base64View>,
}

impl View for ConfigDhtNodeId {
    type V = NodeIdView;

    open spec fn view(&self) -> NodeIdView {
        NodeIdView {
            type_node: text::opt_text(self.type_node),
            key: match self.key {
                Some(field) => Some(field@),
                None => None,
            },
        }
    }
}

/// An address of a configured node.
#[derive(Clone, Copy, PartialEq, Eq, Structural, Debug)]
pub struct ConfigAddress {
    pub ip: Option<i64>,
    pub port: Option<u16>,
}

/// The addresses of a configured node.
pub struct ConfigAddressList {
    pub addrs: Vec<ConfigAddress>,
    pub version: Option<i32>,
    pub reinit_date: Option<i32>,
    pub priority: Option<i32>,
    pub expire_at: Option<i32>,
}

/// A configured node.
pub struct ConfigDhtNode {
    pub id: ConfigDhtNodeId,
    pub addr_list: ConfigAddressList,
    pub version: Option<i32>,
    pub signature: Option<Base64Field>,
}

pub struct ConfigNodeView {
    pub id: NodeIdView,
    pub addrs: Seq<ConfigAddress>,
    pub list_version: Option<i32>,
    pub reinit_date: Option<i32>,
    pub priority: Option<i32>,
    pub expire_at: Option<i32>,
    pub version: Option<i32>,
    pub signature: Option<Base64View>,
}

impl View for ConfigDhtNode {
    type V = ConfigNodeView;

    open spec fn view(&self) -> ConfigNodeView {
        ConfigNodeView {
            id: self.id@,
            addrs: self.addr_list.addrs@,
            list_version: self.addr_list.version,
            reinit_date: self.addr_list.reinit_date,
            priority: self.addr_list.priority,
            expire_at: self.addr_list.expire_at,
            version: self.version,
            signature: match self.signature {
                Some(field) => Some(field@),
                None => None,
            },
        }
    }
}

/// The part of a global configuration that holds the static DHT nodes.
pub struct TonNodeGlobalConfigJson {
    pub nodes: Vec<ConfigDhtNode>,
}

impl View for TonNodeGlobalConfigJson {
    type V = Seq<ConfigNodeView>;

    open spec fn view(&self) -> Seq<ConfigNodeView> {
        self.nodes@.map_values(|node: ConfigDhtNode| node@)
    }
}

/// A UDP address as a DHT node carries it.
#[derive(Clone, Copy, PartialEq, Eq, Structural, Debug)]
pub struct UdpAddress {
    pub ip: i32,
    pub port: i32,
}

/// A node to bootstrap from.
pub struct DhtNodeConfig {
    pub key: Vec<u8>,
    pub addrs: Vec<UdpAddress>,
    pub list_version: i32,
    pub reinit_date: i32,
    pub priority: i32,
    pub expire_at: i32,
    pub version: i32,
    pub signature: Vec<u8>,
}

pub struct DhtNodeView {
    pub key: Seq<u8>,
    pub addrs: Seq<UdpAddress>,
    pub list_version: i32,
    pub reinit_date: i32,
    pub priority: i32,
    pub expire_at: i32,
    pub version: i32,
    pub signature: Seq<u8>,
}

impl View for DhtNodeConfig {
    type V = DhtNodeView;

    open spec fn view(&self) -> DhtNodeView {
        DhtNodeView {
            key: self.key@,
            addrs: self.addrs@,
            list_version: self.list_version,
            reinit_date: self.reinit_date,
            priority: self.priority,
            expire_at: self.expire_at,
            version: self.version,
            signature: self.signature@,
        }
    }
}

/// Why a configuration gives no nodes to bootstrap from.
pub enum BootstrapError {
    MissingType,
    UnsupportedType(String),
    MissingKey,
    Malformed(String),
    ShortKey,
    NoNodes,
}

pub enum BootstrapErrorView {
    MissingType,
    UnsupportedType(Seq<char>),
    MissingKey,
    Malformed(Seq<char>),
    ShortKey,
    NoNodes,
}

impl View for BootstrapError {
    type V = BootstrapErrorView;

    open spec fn view(&self) -> BootstrapErrorView {
        match self {
            BootstrapError::MissingType => BootstrapErrorView::MissingType,
            BootstrapError::UnsupportedType(t) => BootstrapErrorView::UnsupportedType(t@),
            BootstrapError::MissingKey => BootstrapErrorView::MissingKey,
            BootstrapError::Malformed(error) => BootstrapErrorView::Malformed(error@),
            BootstrapError::ShortKey => BootstrapErrorView::ShortKey,
            BootstrapError::NoNodes => BootstrapErrorView::NoNodes,
        }
    }
}

impl BootstrapErrorView {
    pub open spec fn text(self) -> Seq<char> {
        match self {
            BootstrapErrorView::MissingType => "DHT node key type is missing"@,
            BootstrapErrorView::UnsupportedType(t) => "unsupported DHT node key type "@ + t,
            BootstrapErrorView::MissingKey => "DHT node public key is missing"@,
            BootstrapErrorView::Malformed(error) => error,
            BootstrapErrorView::ShortKey => "DHT node public key is shorter than 32 bytes"@,
            BootstrapErrorView::NoNodes => "bootstrap config has no valid DHT static nodes"@,
        }
    }
}

impl BootstrapError {
    /// The message of the error.
    pub fn message(&self) -> (r: String)
        ensures
            r@ == self@.text(),
    {
        match self {
            BootstrapError::MissingType => "DHT node key type is missing".to_owned(),
            BootstrapError::UnsupportedType(t) => {
                let mut r: String = "unsupported DHT node key type ".to_owned();
                r.append(t.as_str());
                r
            },
            BootstrapError::MissingKey => "DHT node public key is missing".to_owned(),
            BootstrapError::Malformed(error) => error.clone(),
            BootstrapError::ShortKey => "DHT node public key is shorter than 32 bytes".to_owned(),
            BootstrapError::NoNodes => "bootstrap config has no valid DHT static nodes".to_owned(),
        }
    }
}

/// The public key of a node: the first 32 bytes of its key field. Only Ed25519 keys
/// are taken.
pub open spec fn public_key(id: NodeIdView) -> Result<Seq<u8>, BootstrapErrorView> {
    match id.type_node {
        None => Err(BootstrapErrorView::MissingType),
        Some(type_node) => if type_node != "pub.ed25519"@ {
            Err(BootstrapErrorView::UnsupportedType(type_node))
        } else {
            match id.key {
                None => Err(BootstrapErrorView::MissingKey),
                Some(Base64View::Malformed(error)) => Err(BootstrapErrorView::Malformed(error)),
                Some(Base64View::Bytes(bytes)) => if bytes.len() < 32 {
                    Err(BootstrapErrorView::ShortKey)
                } else {
                    Ok(bytes.take(32))
                },
            }
        },
    }
}

/// The 32-bit integer with the same low 32 bits.
pub open spec fn low_32_bits(n: int) -> int {
    let low = n % 0x1_0000_0000;
    if low < 0x8000_0000 {
        low
    } else {
        low - 0x1_0000_0000
    }
}

/// The UDP address of a configured one that has both an ip and a port.
pub open spec fn udp_address(address: ConfigAddress) -> Option<UdpAddress> {
    match (address.ip, address.port) {
        (Some(ip), Some(port)) => Some(
            UdpAddress { ip: low_32_bits(ip as int) as i32, port: port as i32 },
        ),
        _ => None,
    }
}

/// The node to bootstrap from that a configured one with a readable key gives: none
/// where one of its numbers or its signature is left out.
pub open spec fn bootstrap_node(
    node: ConfigNodeView,
    key: Seq<u8>,
) -> Result<Option<DhtNodeView>, BootstrapErrorView> {
    match (
        node.list_version,
        node.reinit_date,
        node.priority,
        node.expire_at,
        node.version,
        node.signature,
    ) {
        (
            Some(list_version),
            Some(reinit_date),
            Some(priority),
            Some(expire_at),
            Some(version),
            Some(signature),
        ) => match signature {
            Base64View::Malformed(error) => Err(BootstrapErrorView::Malformed(error)),
            Base64View::Bytes(signature) => Ok(
                Some(
                    DhtNodeView {
                        key,
                        addrs: node.addrs.filter_map(|a: ConfigAddress| udp_address(a)),
                        list_version,
                        reinit_date,
                        priority,
                        expire_at,
                        version,
                        signature,
                    },
                ),
            ),
        },
        _ => Ok(None),
    }
}

/// What a configured node gives: its key is read first, whatever else is left out.
pub open spec fn node_reading(node: ConfigNodeView) -> Result<
    Option<DhtNodeView>,
    BootstrapErrorView,
> {
    match public_key(node.id) {
        Err(error) => Err(error),
        Ok(key) => bootstrap_node(node, key),
    }
}

/// The nodes to bootstrap from, in order; the first node that cannot be read is an
/// error.
pub open spec fn bootstrap_nodes(nodes: Seq<ConfigNodeView>) -> Result<
    Seq<DhtNodeView>,
    BootstrapErrorView,
>
    decreases nodes.len(),
{
    if nodes.len() == 0 {
        Ok(Seq::empty())
    } else {
        match bootstrap_nodes(nodes.drop_last()) {
            Err(error) => Err(error),
            Ok(read) => match node_reading(nodes.last()) {
                Err(error) => Err(error),
                Ok(None) => Ok(read),
                Ok(Some(node)) => Ok(read.push(node)),
            },
        }
    }
}

fn copy_bytes(bytes: &Vec<u8>, len: usize) -> (r: Vec<u8>)
    requires
        len <= bytes@.len(),
    ensures
        r@ == bytes@.take(len as int),
{
    let mut r: Vec<u8> = bytes.clone();
    r.truncate(len);
    assert(r@ =~= bytes@.take(len as int));
    r
}

impl ConfigDhtNodeId {
    /// Reads the public key of the node.
    pub fn convert_key(&self) -> (r: Result<Vec<u8>, BootstrapError>)
        ensures
            public_key(self@) == (match r {
                Ok(key) => Ok(key@),
                Err(error) => Err(error@),
            }),
    {
        match &self.type_node {
            None => return Err(BootstrapError::MissingType),
            Some(type_node) => if !same_text(type_node.as_str(), "pub.ed25519") {
                return Err(BootstrapError::UnsupportedType(type_node.clone()));
            },
        }
        match &self.key {
            None => Err(BootstrapError::MissingKey),
            Some(Base64Field::Malformed(error)) => Err(BootstrapError::Malformed(error.clone())),
            Some(Base64Field::Bytes(bytes)) => if bytes.len() < 32 {
                Err(BootstrapError::ShortKey)
            } else {
                Ok(copy_bytes(bytes, 32))
            },
        }
    }
}

proof fn lemma_low_32_bits(n: i64)
    ensures
        (n as i32) as int == low_32_bits(n as int),
{
    assert(n % 0x1_0000_0000 < 0x8000_0000 ==> (n as i32) as i64 == n % 0x1_0000_0000)
        by (bit_vector);
    assert(n % 0x1_0000_0000 >= 0x8000_0000 ==> (n as i32) as i64 == n % 0x1_0000_0000
        - 0x1_0000_0000) by (bit_vector);
}

/// The UDP addresses of a node: those with both an ip and a port, in order.
fn udp_addresses(addrs: &Vec<ConfigAddress>) -> (r: Vec<UdpAddress>)
    ensures
        r@ == addrs@.filter_map(|a: ConfigAddress| udp_address(a)),
{
    let ghost reading = |a: ConfigAddress| udp_address(a);
    let mut r: Vec<UdpAddress> = Vec::new();
    let mut i: usize = 0;
    assert(addrs@.take(0).filter_map(reading) =~= Seq::<UdpAddress>::empty());
    while i < addrs.len()
        invariant
            i <= addrs@.len(),
            reading == (|a: ConfigAddress| udp_address(a)),
            r@ == addrs@.take(i as int).filter_map(reading),
        decreases addrs@.len() - i,
    {
        proof {
            addrs@.lemma_filter_map_take_succ(reading, i as int);
        }
        let address: ConfigAddress = addrs[i];
        match (address.ip, address.port) {
            (Some(ip), Some(port)) => {
                proof {
                    lemma_low_32_bits(ip);
                }
                r.push(UdpAddress { ip: #[verifier::truncate] (ip as i32), port: port as i32 });
            },
            _ => {},
        }
        i = i + 1;
    }
    assert(addrs@.take(i as int) =~= addrs@);
    r
}

impl ConfigDhtNode {
    /// Reads a configured node.
    fn read(&self) -> (r: Result<Option<DhtNodeConfig>, BootstrapError>)
        ensures
            node_reading(self@) == (match r {
                Ok(Some(node)) => Ok(Some(node@)),
                Ok(None) => Ok(None),
                Err(error) => Err(error@),
            }),
    {
        let key: Vec<u8> = match self.id.convert_key() {
            Ok(key) => key,
            Err(error) => return Err(error),
        };
        let list = &self.addr_list;
        match (list.version, list.reinit_date, list.priority, list.expire_at, self.version) {
            (
                Some(list_version),
                Some(reinit_date),
                Some(priority),
                Some(expire_at),
                Some(version),
            ) => match &self.signature {
                None => Ok(None),
                Some(Base64Field::Malformed(error)) => Err(
                    BootstrapError::Malformed(error.clone()),
                ),
                Some(Base64Field::Bytes(bytes)) => {
                    let signature: Vec<u8> = copy_bytes(bytes, bytes.len());
                    assert(signature@ =~= bytes@);
                    Ok(
                        Some(
                            DhtNodeConfig {
                                key,
                                addrs: udp_addresses(&list.addrs),
                                list_version,
                                reinit_date,
                                priority,
                                expire_at,
                                version,
                                signature,
                            },
                        ),
                    )
                },
            },
            _ => Ok(None),
        }
    }
}

/// A configuration whose first nodes cannot be read cannot be read.
proof fn lemma_error_stays(nodes: Seq<ConfigNodeView>, k: int)
    requires
        0 <= k <= nodes.len(),
        bootstrap_nodes(nodes.take(k)) is Err,
    ensures
        bootstrap_nodes(nodes) == bootstrap_nodes(nodes.take(k)),
    decreases nodes.len(),
{
    if k == nodes.len() {
        assert(nodes.take(k) =~= nodes);
    } else {
        assert(nodes.drop_last().take(k) =~= nodes.take(k));
        lemma_error_stays(nodes.drop_last(), k);
    }
}

impl TonNodeGlobalConfigJson {
    /// Reads the nodes to bootstrap from.
    pub fn get_dht_nodes_configs(&self) -> (r: Result<Vec<DhtNodeConfig>, BootstrapError>)
        ensures
            bootstrap_nodes(self@) == (match r {
                Ok(nodes) => Ok(nodes@.map_values(|node: DhtNodeConfig| node@)),
                Err(error) => Err(error@),
            }),
    {
        let mut result: Vec<DhtNodeConfig> = Vec::new();
        let ghost shown = |node: DhtNodeConfig| node@;
        let mut i: usize = 0;
        assert(result@.map_values(shown) =~= Seq::<DhtNodeView>::empty());
        while i < self.nodes.len()
            invariant
                i <= self.nodes@.len(),
                shown == (|node: DhtNodeConfig| node@),
                bootstrap_nodes(self@.take(i as int)) == Ok::<
                    Seq<DhtNodeView>,
                    BootstrapErrorView,
                >(result@.map_values(shown)),
            decreases self.nodes@.len() - i,
        {
            proof {
                let longer = self@.take(i + 1);
                assert(longer.drop_last() =~= self@.take(i as int));
                assert(longer.last() == self.nodes@[i as int]@);
            }
            match self.nodes[i].read() {
                Err(error) => {
                    proof {
                        lemma_error_stays(self@, i + 1);
                    }
                    return Err(error);
                },
                Ok(None) => {},
                Ok(Some(node)) => {
                    let ghost before = result@;
                    result.push(node);
                    assert(result@.map_values(shown) =~= before.map_values(shown).push(node@));
                },
            }
            i = i + 1;
        }
        assert(self@.take(i as int) =~= self@);
        Ok(result)
    }
}

/// The indices at which a list holds `true`, in order.
pub open spec fn true_indices(flags: Seq<bool>) -> Seq<nat>
    decreases flags.len(),
{
    if flags.len() == 0 {
        Seq::empty()
    } else {
        let rest = true_indices(flags.drop_last());
        if flags.last() {
            rest.push((flags.len() - 1) as nat)
        } else {
            rest
        }
    }
}

/// Picks the bootstrap nodes that were taken as peers, by their indices; a network
/// without any is an error. `added` tells of each node whether it was taken.
pub fn preset_nodes(added: &Vec<bool>) -> (r: Result<Vec<usize>, BootstrapError>)
    ensures
        match r {
            Ok(picked) => {
                &&& picked@.len() > 0
                &&& picked@.map_values(|i: usize| i as nat) == true_indices(added@)
            },
            Err(error) => error@ is NoNodes && true_indices(added@).len() == 0,
        },
{
    let mut picked: Vec<usize> = Vec::new();
    let ghost shown = |i: usize| i as nat;
    let mut i: usize = 0;
    assert(picked@.map_values(shown) =~= Seq::<nat>::empty());
    while i < added.len()
        invariant
            i <= added@.len(),
            shown == (|i: usize| i as nat),
            picked@.map_values(shown) == true_indices(added@.take(i as int)),
        decreases added@.len() - i,
    {
        assert(added@.take(i + 1).drop_last() =~= added@.take(i as int));
        if added[i] {
            let ghost before = picked@;
            picked.push(i);
            assert(picked@.map_values(shown) =~= before.map_values(shown).push(i as nat));
        }
        i = i + 1;
    }
    assert(added@.take(i as int) =~= added@);
    if picked.is_empty() {
        Err(BootstrapError::NoNodes)
    } else {
        Ok(picked)
    }
}

/// What asking every bootstrap peer once before the lookups showed.
#[derive(Clone, Copy, PartialEq, Eq, Structural, Debug)]
pub struct NetworkWarmupStats {
    pub checked: usize,
    pub responsive: usize,
    pub errors: usize,
    pub known_nodes: usize,
}

/// Counts the answers of the bootstrap peers: `responded` tells of each peer whether
/// it responded, `known_nodes` how many nodes are known, if that could be read.
pub fn warmup_stats(responded: &Vec<bool>, known_nodes: Option<usize>) -> (r: NetworkWarmupStats)
    ensures
        r.checked == responded@.len(),
        r.responsive == responded@.filter(|b: bool| b).len(),
        r.errors == responded@.filter(|b: bool| !b).len(),
        r.responsive + r.errors == r.checked,
        r.known_nodes == (match known_nodes {
            Some(count) => count,
            None => 0,
        }),
{
    let ghost yes = |b: bool| b;
    let ghost no = |b: bool| !b;
    let mut responsive: usize = 0;
    let mut errors: usize = 0;
    let mut i: usize = 0;
    proof {
        reveal(Seq::filter);
        assert(responded@.take(0).len() == 0);
    }
    while i < responded.len()
        invariant
            i <= responded@.len(),
            yes == (|b: bool| b),
            no == (|b: bool| !b),
            responsive == responded@.take(i as int).filter(yes).len(),
            errors == responded@.take(i as int).filter(no).len(),
            responsive + errors == i,
        decreases responded@.len() - i,
    {
        proof {
            reveal(Seq::filter);
            assert(responded@.take(i + 1).drop_last() =~= responded@.take(i as int));
        }
        if responded[i] {
            responsive = responsive + 1;
        } else {
            errors = errors + 1;
        }
        i = i + 1;
    }
    assert(responded@.take(i as int) =~= responded@);
    NetworkWarmupStats {
        checked: responded.len(),
        responsive,
        errors,
        known_nodes: match known_nodes {
            Some(count) => count,
            None => 0,
        },
    }
}

/// The nodes to bootstrap from are some of the configured ones, each with a key of 32
/// bytes.
pub proof fn law_bootstrap_keys_have_32_bytes(nodes: Seq<ConfigNodeView>)
    ensures
        bootstrap_nodes(nodes) matches Ok(read) ==> {
            &&& read.len() <= nodes.len()
            &&& forall|i: int| 0 <= i < read.len() ==> (#[trigger] read[i]).key.len() == 32
        },
    decreases nodes.len(),
{
    if nodes.len() > 0 {
        law_bootstrap_keys_have_32_bytes(nodes.drop_last());
    }
}

/// A configuration can be read if and only if each of its nodes can.
pub proof fn law_every_node_must_be_readable(nodes: Seq<ConfigNodeView>)
    ensures
        bootstrap_nodes(nodes) is Ok <==> forall|i: int|
            0 <= i < nodes.len() ==> node_reading(#[trigger] nodes[i]) is Ok,
    decreases nodes.len(),
{
    if nodes.len() > 0 {
        let shorter = nodes.drop_last();
        law_every_node_must_be_readable(shorter);
        if bootstrap_nodes(nodes) is Ok {
            assert forall|i: int| 0 <= i < nodes.len() implies node_reading(
                #[trigger] nodes[i],
            ) is Ok by {
                if i < nodes.len() - 1 {
                    assert(shorter[i] == nodes[i]);
                }
            }
        }
        if forall|i: int| 0 <= i < nodes.len() ==> node_reading(#[trigger] nodes[i]) is Ok {
            assert forall|i: int| 0 <= i < shorter.len() implies node_reading(
                #[trigger] shorter[i],
            ) is Ok by {
                assert(shorter[i] == nodes[i]);
            }
            assert(node_reading(nodes[nodes.len() - 1]) is Ok);
        }
    }
}

/// A readable configuration gives one node to bootstrap from for each configured node that
/// reads as one, in order, and no other.
pub proof fn law_every_complete_node_is_taken(nodes: Seq<ConfigNodeView>)
    requires
        forall|i: int| 0 <= i < nodes.len() ==> node_reading(#[trigger] nodes[i]) is Ok,
    ensures
        bootstrap_nodes(nodes) == Ok::<Seq<DhtNodeView>, BootstrapErrorView>(
            nodes.filter_map(|node: ConfigNodeView| node_reading(node)->Ok_0),
        ),
        forall|i: int|
            0 <= i < nodes.len() ==> (node_reading(#[trigger] nodes[i]) matches Ok(Some(node))
                ==> bootstrap_nodes(nodes)->Ok_0.contains(node)),
    decreases nodes.len(),
{
    let reading = |node: ConfigNodeView| node_reading(node)->Ok_0;
    if nodes.len() == 0 {
        assert(nodes.filter_map(reading) =~= Seq::<DhtNodeView>::empty());
    } else {
        let shorter = nodes.drop_last();
        let last = nodes.len() - 1;
        assert forall|i: int| 0 <= i < shorter.len() implies node_reading(
            #[trigger] shorter[i],
        ) is Ok by {
            assert(shorter[i] == nodes[i]);
        }
        law_every_complete_node_is_taken(shorter);
        nodes.lemma_filter_map_take_succ(reading, last);
        assert(nodes.take(last) =~= shorter);
        assert(nodes.take(last + 1) =~= nodes);
        assert(node_reading(nodes[last]) is Ok);
        let before = bootstrap_nodes(shorter)->Ok_0;
        let read = bootstrap_nodes(nodes)->Ok_0;
        assert(read =~= nodes.filter_map(reading));
        assert forall|i: int| 0 <= i < nodes.len() implies (node_reading(
            #[trigger] nodes[i],
        ) matches Ok(Some(node)) ==> read.contains(node)) by {
            if let Ok(Some(node)) = node_reading(nodes[i]) {
                if i < last {
                    assert(shorter[i] == nodes[i]);
                    let k = choose|k: int| 0 <= k < before.len() && before[k] == node;
                    assert(read[k] == node);
                } else {
                    assert(read[before.len() as int] == node);
                }
            }
        }
    }
}

/// The error of a configuration is that of its first node that cannot be read.
pub proof fn law_first_unreadable_node_is_the_error(nodes: Seq<ConfigNodeView>, k: int)
    requires
        0 <= k < nodes.len(),
        node_reading(nodes[k]) is Err,
        forall|i: int| 0 <= i < k ==> node_reading(#[trigger] nodes[i]) is Ok,
    ensures
        bootstrap_nodes(nodes) == Err::<Seq<DhtNodeView>, BootstrapErrorView>(
            node_reading(nodes[k])->Err_0,
        ),
{
    let front = nodes.take(k + 1);
    let before = nodes.take(k);
    assert(front.drop_last() =~= before);
    assert forall|i: int| 0 <= i < before.len() implies node_reading(#[trigger] before[i]) is Ok by {
        assert(before[i] == nodes[i]);
    }
    law_every_node_must_be_readable(before);
    assert(front.last() == nodes[k]);
    lemma_error_stays(nodes, k + 1);
}

/// A node with an Ed25519 key of at least 32 bytes, all its numbers and a signature is read
/// as the first 32 bytes of the key, the same numbers, the same signature and, in order,
/// its addresses that have both an ip and a port.
pub proof fn law_complete_node_keeps_its_fields(
    node: ConfigNodeView,
    key: Seq<u8>,
    signature: Seq<u8>,
)
    requires
        node.id.type_node == Some("pub.ed25519"@),
        node.id.key == Some(Base64View::Bytes(key)),
        key.len() >= 32,
        node.list_version is Some,
        node.reinit_date is Some,
        node.priority is Some,
        node.expire_at is Some,
        node.version is Some,
        node.signature == Some(Base64View::Bytes(signature)),
    ensures
        node_reading(node) matches Ok(Some(read)) && {
            &&& read.key == key.take(32)
            &&& read.addrs == node.addrs.filter_map(|a: ConfigAddress| udp_address(a))
            &&& Some(read.list_version) == node.list_version
            &&& Some(read.reinit_date) == node.reinit_date
            &&& Some(read.priority) == node.priority
            &&& Some(read.expire_at) == node.expire_at
            &&& Some(read.version) == node.version
            &&& read.signature == signature
        },
{
}

/// A node with a readable key that lacks a number or the signature is left out.
pub proof fn law_incomplete_node_is_left_out(node: ConfigNodeView, key: Seq<u8>)
    requires
        node.id.type_node == Some("pub.ed25519"@),
        node.id.key == Some(Base64View::Bytes(key)),
        key.len() >= 32,
        node.list_version is None || node.reinit_date is None || node.priority is None
            || node.expire_at is None || node.version is None || node.signature is None,
    ensures
        node_reading(node) == Ok::<Option<DhtNodeView>, BootstrapErrorView>(None),
{
}

/// A node whose key or signature cannot be read is an error that says why. The key is
/// looked at first, and also where something is left out; the signature only where nothing
/// is.
pub proof fn law_unreadable_node_says_why(node: ConfigNodeView)
    ensures
        node.id.type_node is None ==> node_reading(node) == Err::<
            Option<DhtNodeView>,
            BootstrapErrorView,
        >(BootstrapErrorView::MissingType),
        node.id.type_node matches Some(t) ==> t != "pub.ed25519"@ ==> node_reading(node) == Err::<
            Option<DhtNodeView>,
            BootstrapErrorView,
        >(BootstrapErrorView::UnsupportedType(t)),
        node.id.type_node == Some("pub.ed25519"@) ==> {
            &&& node.id.key is None ==> node_reading(node) == Err::<
                Option<DhtNodeView>,
                BootstrapErrorView,
            >(BootstrapErrorView::MissingKey)
            &&& node.id.key matches Some(Base64View::Malformed(error)) ==> node_reading(node)
                == Err::<Option<DhtNodeView>, BootstrapErrorView>(
                BootstrapErrorView::Malformed(error),
            )
            &&& node.id.key matches Some(Base64View::Bytes(key)) ==> key.len() < 32
                ==> node_reading(node) == Err::<Option<DhtNodeView>, BootstrapErrorView>(
                BootstrapErrorView::ShortKey,
            )
            &&& node.id.key matches Some(Base64View::Bytes(key)) ==> (node.signature matches Some(
                Base64View::Malformed(error),
            ) ==> (key.len() >= 32 && node.list_version is Some && node.reinit_date is Some
                && node.priority is Some && node.expire_at is Some && node.version is Some
                ==> node_reading(node) == Err::<Option<DhtNodeView>, BootstrapErrorView>(
                BootstrapErrorView::Malformed(error),
            )))
        },
{
}

/// The key of a node's identity alone is read as the key of the node is.
pub proof fn law_key_is_read_from_identity(node: ConfigNodeView)
    ensures
        public_key(node.id) is Err ==> node_reading(node) == Err::<
            Option<DhtNodeView>,
            BootstrapErrorView,
        >(public_key(node.id)->Err_0),
        public_key(node.id) matches Ok(key) ==> {
            &&& node.id.type_node == Some("pub.ed25519"@)
            &&& node.id.key matches Some(Base64View::Bytes(bytes)) && bytes.len() >= 32 && key
                == bytes.take(32)
        },
{
}

/// Each error has its message.
pub proof fn law_bootstrap_errors_have_messages(t: Seq<char>)
    ensures
        BootstrapErrorView::MissingType.text() == "DHT node key type is missing"@,
        BootstrapErrorView::UnsupportedType(t).text() == "unsupported DHT node key type "@ + t,
        BootstrapErrorView::MissingKey.text() == "DHT node public key is missing"@,
        BootstrapErrorView::Malformed(t).text() == t,
        BootstrapErrorView::ShortKey.text() == "DHT node public key is shorter than 32 bytes"@,
        BootstrapErrorView::NoNodes.text() == "bootstrap config has no valid DHT static nodes"@,
{
}

/// An address with both an ip and a port is taken with that port and with the ip modulo
/// two to the 32nd as a signed number; any other is not taken.
pub proof fn law_address_needs_ip_and_port(address: ConfigAddress)
    ensures
        address.ip is None || address.port is None ==> udp_address(address) is None,
        address.ip matches Some(ip) ==> (address.port matches Some(port) ==> (udp_address(
            address,
        ) matches Some(udp) && udp.port == port && (udp.ip - ip) % 0x1_0000_0000 == 0)),
{
    if let Some(ip) = address.ip {
        let low = low_32_bits(ip as int);
        assert(-0x8000_0000 <= low < 0x8000_0000);
        assert((low - ip) % 0x1_0000_0000 == 0) by {
            let q = ip as int / 0x1_0000_0000;
            assert(ip == 0x1_0000_0000 * q + ip as int % 0x1_0000_0000);
        }
    }
}

/// The indices of the peers that were taken are those at which the list says so, rising.
pub proof fn law_taken_peers_are_the_true_ones(flags: Seq<bool>)
    ensures
        forall|a: int, b: int|
            0 <= a < b < true_indices(flags).len() ==> #[trigger] true_indices(flags)[a]
                < #[trigger] true_indices(flags)[b],
        forall|i: nat| #[trigger]
            true_indices(flags).contains(i) <==> i < flags.len() && flags[i as int],
    decreases flags.len(),
{
    if flags.len() > 0 {
        let shorter = flags.drop_last();
        let last = (flags.len() - 1) as nat;
        let before = true_indices(shorter);
        let all = true_indices(flags);
        law_taken_peers_are_the_true_ones(shorter);
        assert forall|a: int, b: int| 0 <= a < b < all.len() implies #[trigger] all[a]
            < #[trigger] all[b] by {
            assert(before.contains(before[a]));
            if b < before.len() {
                assert(before[a] < before[b]);
            }
        }
        assert forall|i: nat| #[trigger] all.contains(i) <==> i < flags.len()
            && flags[i as int] by {
            assert(before.contains(i) <==> i < last && shorter[i as int]);
            if all.contains(i) {
                let k = choose|k: int| 0 <= k < all.len() && all[k] == i;
                if k < before.len() {
                    assert(before[k] == i);
                }
            }
            if before.contains(i) {
                let k = choose|k: int| 0 <= k < before.len() && before[k] == i;
                assert(all[k] == i);
            }
            if i == last && flags[last as int] {
                assert(all[before.len() as int] == last);
            }
        }
    }
}

/// A configuration is seen with every node that it holds, and a node with its identity, all
/// its addresses, its numbers and its signature.
pub proof fn law_configuration_is_seen_whole(config: TonNodeGlobalConfigJson, i: int)
    requires
        0 <= i < config.nodes@.len(),
    ensures
        config@.len() == config.nodes@.len(),
        ({
            let node = config.nodes@[i];
            let view = config@[i];
            &&& view.addrs == node.addr_list.addrs@
            &&& view.list_version == node.addr_list.version
            &&& view.reinit_date == node.addr_list.reinit_date
            &&& view.priority == node.addr_list.priority
            &&& view.expire_at == node.addr_list.expire_at
            &&& view.version == node.version
            &&& node.id.type_node matches Some(t) ==> view.id.type_node == Some(t@)
            &&& node.id.type_node is None ==> view.id.type_node is None
            &&& node.id.key matches Some(Base64Field::Bytes(bytes)) ==> view.id.key == Some(
                Base64View::Bytes(bytes@),
            )
            &&& node.id.key matches Some(Base64Field::Malformed(error)) ==> view.id.key == Some(
                Base64View::Malformed(error@),
            )
            &&& node.id.key is None ==> view.id.key is None
            &&& node.signature matches Some(Base64Field::Bytes(bytes)) ==> view.signature == Some(
                Base64View::Bytes(bytes@),
            )
            &&& node.signature matches Some(Base64Field::Malformed(error)) ==> view.signature
                == Some(Base64View::Malformed(error@))
            &&& node.signature is None ==> view.signature is None
        }),
{
}

/// A node to bootstrap from is seen with all that it holds, and an error with its reason.
pub proof fn law_bootstrap_node_is_seen_whole(node: DhtNodeConfig, error: BootstrapError)
    ensures
        node@.key == node.key@,
        node@.addrs == node.addrs@,
        node@.list_version == node.list_version,
        node@.reinit_date == node.reinit_date,
        node@.priority == node.priority,
        node@.expire_at == node.expire_at,
        node@.version == node.version,
        node@.signature == node.signature@,
        error is MissingType <==> error@ is MissingType,
        error is MissingKey <==> error@ is MissingKey,
        error is ShortKey <==> error@ is ShortKey,
        error is NoNodes <==> error@ is NoNodes,
        error matches BootstrapError::UnsupportedType(t) ==> error@
            == BootstrapErrorView::UnsupportedType(t@),
        error matches BootstrapError::Malformed(t) ==> error@ == BootstrapErrorView::Malformed(t@),
{
}

} // verus!
