use everscale_address_resolver::config::{
    default_base_url, default_chain, default_full_geo_refresh_secs, default_geo_batch_size,
    default_geo_endpoint, default_global_config_path, default_interval_secs, default_local_adnl_addr,
    default_lookup_timeout_secs, default_map_stale_after_secs, default_workers, resolver_kind,
};
use everscale_address_resolver::clock::{seconds_or_zero, unix_now};
use everscale_address_resolver::keyed::TextMap;
use everscale_address_resolver::keys::{adnl_key, is_hex_32, AdnlKeyError};
use everscale_address_resolver::text::{chars_of, decimal_text, rank_text, same_text, Rank};

const SAMPLES: [&str; 14] = [
    "",
    "a",
    "b",
    "ab",
    "aa",
    "B",
    "Zürich",
    "Zug",
    "\u{e9}",
    "\u{ffff}",
    "\u{10000}",
    "\u{7f}",
    "\u{80}",
    "1.2.3.4",
];

#[test]
fn text_order_agrees_with_std() {
    for a in SAMPLES {
        for b in SAMPLES {
            let expected = if a < b {
                Rank::Before
            } else if a == b {
                Rank::Same
            } else {
                Rank::After
            };
            assert_eq!(rank_text(a, b), expected, "{a:?} and {b:?}");
            assert_eq!(same_text(a, b), a == b);
        }
    }
}

#[test]
fn decimal_agrees_with_std() {
    for n in [0u64, 1, 9, 10, 11, 99, 100, 300, 3600, 1_234_567_890, u64::MAX] {
        assert_eq!(decimal_text(n), n.to_string());
    }
}

#[test]
fn characters_of_a_text() {
    assert_eq!(chars_of("a\u{e9}:"), vec!['a', '\u{e9}', ':']);
    assert_eq!(chars_of(""), vec![]);
}

#[test]
fn hex_keys_have_64_digits() {
    let key = "0123456789abcdefABCDEF0123456789abcdefABCDEF0123456789abcdefABCD";
    assert_eq!(key.len(), 64);
    assert!(is_hex_32(key));
    assert!(!is_hex_32(&key[1..]));
    assert!(!is_hex_32(&format!("{key}0")));
    assert!(!is_hex_32(""));
    assert!(!is_hex_32(&key.replace('0', "g")));
    assert!(!is_hex_32(&format!("{}\u{e9}", &key[..62])));
    assert!(!is_hex_32(&format!("{}\u{e9}", &key[..63])));
}

#[test]
fn adnl_key_is_read_from_hex() {
    let text = "00ff10Ab".repeat(8);
    let key = adnl_key(&text).unwrap();
    assert_eq!(key, [0x00, 0xff, 0x10, 0xab].repeat(8));
    assert_eq!(key.len(), 32);
}

#[test]
fn adnl_key_errors() {
    assert_eq!(adnl_key("zz").unwrap_err(), AdnlKeyError::InvalidHex);
    assert_eq!(adnl_key("123").unwrap_err(), AdnlKeyError::InvalidHex);
    assert_eq!(adnl_key(&"a".repeat(63)).unwrap_err(), AdnlKeyError::InvalidHex);
    assert_eq!(adnl_key(&"\u{e9}".repeat(32)).unwrap_err(), AdnlKeyError::InvalidHex);
    assert_eq!(adnl_key("").unwrap_err(), AdnlKeyError::WrongLength);
    assert_eq!(adnl_key("1234").unwrap_err(), AdnlKeyError::WrongLength);
    assert_eq!(adnl_key(&"ab".repeat(33)).unwrap_err(), AdnlKeyError::WrongLength);
    assert_eq!(AdnlKeyError::InvalidHex.message(), "invalid adnl hex");
    assert_eq!(AdnlKeyError::WrongLength.message(), "adnl key must be 32 bytes");
}

#[test]
fn checked_addresses_can_be_read() {
    for text in ["ab".repeat(32), "AB".repeat(32), "ab".repeat(31), "xy".repeat(32)] {
        assert_eq!(is_hex_32(&text), adnl_key(&text).is_ok());
    }
}

#[test]
fn text_map_agrees_with_std() {
    let mut map: TextMap<()> = TextMap::new();
    let mut expected = std::collections::BTreeSet::new();
    for key in ["b", "a", "c", "b", "\u{e9}", "", "aa"] {
        map.insert(key.to_owned(), ());
        expected.insert(key.to_owned());
    }
    for key in SAMPLES {
        assert_eq!(map.contains_key(key), expected.contains(key));
        assert_eq!(map.get(key).is_some(), expected.contains(key));
    }
    let keys: Vec<String> = map.into_entries().into_iter().map(|(key, _)| key).collect();
    assert_eq!(keys, expected.into_iter().collect::<Vec<String>>());
}

#[test]
fn defaults() {
    assert_eq!(default_base_url(), "https://validatorsclock.xyz");
    assert_eq!(default_chain(), "everscale");
    assert_eq!(
        default_global_config_path().display(),
        "/home/admin/everscale_dht_bootstrap/everscale-bootstrap-global-config.json"
    );
    assert_eq!(default_local_adnl_addr(), "0.0.0.0:4191");
    assert_eq!(default_interval_secs(), 300);
    assert_eq!(default_full_geo_refresh_secs(), 3600);
    assert_eq!(default_lookup_timeout_secs(), 30);
    assert_eq!(default_workers(), 16);
    assert_eq!(default_map_stale_after_secs(), 3600);
    assert_eq!(
        default_geo_endpoint(),
        "http://ip-api.com/batch?fields=status,message,country,countryCode,regionName,city,lat,lon,isp,org,as,query"
    );
    assert_eq!(default_geo_batch_size(), 100);
}

#[test]
fn resolver_kinds() {
    assert_eq!(resolver_kind("everscale"), "ever-dht");
    assert_eq!(resolver_kind("ton"), "ton-dht");
    assert_eq!(resolver_kind("TON"), "adnl-dht");
    assert_eq!(resolver_kind(""), "adnl-dht");
}

#[test]
fn clock_tells_seconds() {
    assert!(unix_now() > 1_600_000_000);
    assert_eq!(seconds_or_zero(Some(7)), 7);
    assert_eq!(seconds_or_zero(None), 0);
}
