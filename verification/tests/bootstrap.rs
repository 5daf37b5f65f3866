use everscale_address_resolver::bootstrap::{
    Base64Field, ConfigAddress, ConfigAddressList, ConfigDhtNode, ConfigDhtNodeId,
    TonNodeGlobalConfigJson,
};

fn id(type_node: Option<&str>, key: Option<Base64Field>) -> ConfigDhtNodeId {
    ConfigDhtNodeId { type_node: type_node.map(|t| t.to_owned()), key }
}

fn good_id() -> ConfigDhtNodeId {
    id(Some("pub.ed25519"), Some(Base64Field::Bytes((0..40).collect())))
}

fn node(id: ConfigDhtNodeId) -> ConfigDhtNode {
    ConfigDhtNode {
        id,
        addr_list: ConfigAddressList {
            addrs: vec![
                ConfigAddress { ip: Some(16909060), port: Some(30303) },
                ConfigAddress { ip: None, port: Some(1) },
                ConfigAddress { ip: Some(1), port: None },
                ConfigAddress { ip: Some(-2018135749), port: Some(65535) },
                ConfigAddress { ip: Some(3232235777), port: Some(0) },
            ],
            version: Some(1),
            reinit_date: Some(2),
            priority: Some(3),
            expire_at: Some(4),
        },
        version: Some(5),
        signature: Some(Base64Field::Bytes(vec![7, 8, 9])),
    }
}

fn error(nodes: Vec<ConfigDhtNode>) -> String {
    TonNodeGlobalConfigJson { nodes }.get_dht_nodes_configs().err().unwrap().message()
}

#[test]
fn a_complete_node_is_read() {
    let config = TonNodeGlobalConfigJson { nodes: vec![node(good_id())] };
    let nodes = config.get_dht_nodes_configs().ok().unwrap();
    assert_eq!(nodes.len(), 1);
    let read = &nodes[0];
    assert_eq!(read.key, (0..32).collect::<Vec<u8>>());
    let addrs: Vec<(i32, i32)> = read.addrs.iter().map(|a| (a.ip, a.port)).collect();
    assert_eq!(
        addrs,
        vec![(16909060, 30303), (-2018135749, 65535), (3232235777i64 as i32, 0)]
    );
    assert_eq!(
        (read.list_version, read.reinit_date, read.priority, read.expire_at, read.version),
        (1, 2, 3, 4, 5)
    );
    assert_eq!(read.signature, vec![7, 8, 9]);
}

#[test]
fn ips_keep_their_low_32_bits() {
    for ip in [0i64, 1, -1, 2147483647, 2147483648, 4294967295, 4294967296, i64::MIN, i64::MAX] {
        let mut one = node(good_id());
        one.addr_list.addrs = vec![ConfigAddress { ip: Some(ip), port: Some(1) }];
        let nodes =
            TonNodeGlobalConfigJson { nodes: vec![one] }.get_dht_nodes_configs().ok().unwrap();
        assert_eq!(nodes[0].addrs[0].ip, ip as i32);
    }
}

#[test]
fn incomplete_nodes_are_left_out() {
    let mut without: Vec<ConfigDhtNode> = (0..6).map(|_| node(good_id())).collect();
    without[0].addr_list.version = None;
    without[1].addr_list.reinit_date = None;
    without[2].addr_list.priority = None;
    without[3].addr_list.expire_at = None;
    without[4].version = None;
    without[5].signature = None;
    without.push(node(good_id()));
    let nodes = TonNodeGlobalConfigJson { nodes: without }.get_dht_nodes_configs().ok().unwrap();
    assert_eq!(nodes.len(), 1);
    let none = TonNodeGlobalConfigJson { nodes: vec![] }.get_dht_nodes_configs().ok().unwrap();
    assert!(none.is_empty());
}

#[test]
fn unreadable_keys_are_errors() {
    assert_eq!(error(vec![node(id(None, None))]), "DHT node key type is missing");
    assert_eq!(
        error(vec![node(id(Some("pub.aes"), None))]),
        "unsupported DHT node key type pub.aes"
    );
    assert_eq!(
        error(vec![node(id(Some("pub.ed25519"), None))]),
        "DHT node public key is missing"
    );
    assert_eq!(
        error(vec![node(id(
            Some("pub.ed25519"),
            Some(Base64Field::Malformed("Invalid byte 33, offset 0.".to_owned()))
        ))]),
        "Invalid byte 33, offset 0."
    );
    assert_eq!(
        error(vec![node(id(Some("pub.ed25519"), Some(Base64Field::Bytes(vec![0; 31]))))]),
        "DHT node public key is shorter than 32 bytes"
    );
}

#[test]
fn a_key_is_read_before_a_node_is_left_out() {
    let mut incomplete = node(id(None, None));
    incomplete.version = None;
    assert_eq!(error(vec![node(good_id()), incomplete]), "DHT node key type is missing");
}

#[test]
fn unreadable_signature_is_an_error() {
    let mut one = node(good_id());
    one.signature = Some(Base64Field::Malformed("bad".to_owned()));
    assert_eq!(error(vec![one]), "bad");
    let mut left_out = node(good_id());
    left_out.version = None;
    left_out.signature = Some(Base64Field::Malformed("bad".to_owned()));
    assert!(TonNodeGlobalConfigJson { nodes: vec![left_out] }.get_dht_nodes_configs().is_ok());
}
