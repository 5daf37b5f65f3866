use std::path::{Path, PathBuf};

use everscale_address_resolver::config::{AppConfig, GeoConfig, ResolverConfig};
use everscale_address_resolver::paths::{
    config_base_dir, resolve_config_path, temp_path, write_plan, FilePath,
};

const SAMPLES: [&str; 34] = [
    "",
    "/",
    "//",
    "///",
    ".",
    "..",
    "./",
    "./.",
    "/.",
    "/./",
    "a",
    "a/",
    "a/.",
    "a/./",
    "a/..",
    "../a",
    "./a",
    "./a/b",
    "././a",
    ".//a",
    "/a",
    "//a",
    "///a",
    "/a/",
    "/a/b",
    "/a//b",
    "/a/./b",
    "/a/b/.",
    "/a/b//",
    "a/b/c.json",
    ".hidden",
    ".hidden/x",
    "..a/b",
    "/home/admin/.validators_clock/everscale_map/everscale_nodes.json",
];

fn path(text: &str) -> FilePath {
    FilePath { bytes: text.as_bytes().to_vec() }
}

fn text(path: &FilePath) -> String {
    String::from_utf8(path.bytes.clone()).unwrap()
}

#[test]
fn parent_agrees_with_std() {
    for sample in SAMPLES {
        let expected = Path::new(sample).parent().map(|p| p.to_str().unwrap().to_owned());
        let got = path(sample).parent().map(|p| text(&p));
        assert_eq!(got, expected, "parent of {sample:?}");
    }
}

#[test]
fn parent_agrees_with_std_on_all_short_paths() {
    let letters = ['/', '.', 'a'];
    let mut samples: Vec<String> = vec![String::new()];
    let mut from = 0;
    for _ in 0..7 {
        let to = samples.len();
        for i in from..to {
            for letter in letters {
                let mut longer = samples[i].clone();
                longer.push(letter);
                samples.push(longer);
            }
        }
        from = to;
    }
    assert_eq!(samples.len(), 3280);
    for sample in &samples {
        let expected = Path::new(sample).parent().map(|p| p.to_str().unwrap().to_owned());
        let got = path(sample).parent().map(|p| text(&p));
        assert_eq!(got, expected, "parent of {sample:?}");
    }
}

#[test]
fn join_agrees_with_std() {
    for base in SAMPLES {
        for sample in SAMPLES {
            let expected = Path::new(base).join(sample);
            let got = path(base).join(&path(sample));
            assert_eq!(text(&got), expected.to_str().unwrap(), "{base:?} with {sample:?}");
            assert_eq!(text(&resolve_config_path(&path(base), &path(sample))), text(&got));
        }
    }
}

#[test]
fn absolute_agrees_with_std() {
    for sample in SAMPLES {
        assert_eq!(path(sample).is_absolute(), Path::new(sample).is_absolute());
    }
}

#[test]
fn base_dir_agrees_with_std() {
    for sample in SAMPLES {
        let expected: PathBuf = Path::new(sample)
            .parent()
            .filter(|parent| !parent.as_os_str().is_empty())
            .unwrap_or_else(|| Path::new("."))
            .to_path_buf();
        assert_eq!(text(&config_base_dir(&path(sample))), expected.to_str().unwrap());
    }
}

#[test]
fn base_dir_of_a_bare_name_is_the_current_directory() {
    assert_eq!(text(&config_base_dir(&path("everscale_address_resolver.json"))), ".");
    assert_eq!(text(&config_base_dir(&path("/etc/resolver/config.json"))), "/etc/resolver");
    assert_eq!(text(&config_base_dir(&path("/config.json"))), "/");
}

#[test]
fn bytes_that_are_not_text_are_kept() {
    let base = FilePath { bytes: vec![b'/', 0xff, 0xfe] };
    let joined = resolve_config_path(&base, &path("x"));
    assert_eq!(joined.bytes, vec![b'/', 0xff, 0xfe, b'/', b'x']);
    assert_eq!(base.display(), "/\u{fffd}\u{fffd}");
    assert_eq!(path("/\u{e9}").display(), "/\u{e9}");
}

#[test]
fn temp_path_lies_beside_the_file() {
    assert_eq!(text(&temp_path(&path("/a/b.json"))), "/a/b.json.tmp");
    assert_eq!(text(&temp_path(&path("b.json")).parent().unwrap()), "");
    assert_eq!(text(&temp_path(&path("/a/b.json")).parent().unwrap()), "/a");
}

#[test]
fn write_plan_names_directory_and_files() {
    let plan = write_plan(&path("/out/map/nodes.json"));
    assert_eq!(text(&plan.create_dir.unwrap()), "/out/map");
    assert_eq!(text(&plan.temp), "/out/map/nodes.json.tmp");
    assert_eq!(text(&plan.target), "/out/map/nodes.json");
    assert!(write_plan(&path("/")).create_dir.is_none());
}

fn config() -> AppConfig {
    AppConfig {
        base_url: "https://clock".to_owned(),
        chain: "ton".to_owned(),
        interval_secs: 1,
        full_geo_refresh_secs: 2,
        state: path("state.json"),
        output: path("/abs/full.json"),
        map_output: path("out/nodes.json"),
        map_cache: path("../cache.json"),
        map_stale_after_secs: 3,
        compact: true,
        resolver: ResolverConfig {
            global_config_path: path("global.json"),
            local_adnl_addr: "0.0.0.0:4194".to_owned(),
            lookup_timeout_secs: 4,
            workers: 5,
        },
        geo: GeoConfig {
            endpoint: "http://geo".to_owned(),
            batch_size: 6,
            cache: path("geo.json"),
        },
    }
}

#[test]
fn resolve_paths_takes_relative_paths_from_the_base() {
    let config = config().resolve_paths(&path("/etc/resolver"));
    assert_eq!(text(&config.state), "/etc/resolver/state.json");
    assert_eq!(text(&config.output), "/abs/full.json");
    assert_eq!(text(&config.map_output), "/etc/resolver/out/nodes.json");
    assert_eq!(text(&config.map_cache), "/etc/resolver/../cache.json");
    assert_eq!(text(&config.resolver.global_config_path), "/etc/resolver/global.json");
    assert_eq!(text(&config.geo.cache), "/etc/resolver/geo.json");
    assert_eq!(config.base_url, "https://clock");
    assert_eq!(config.chain, "ton");
    assert_eq!(config.interval_secs, 1);
    assert_eq!(config.full_geo_refresh_secs, 2);
    assert_eq!(config.map_stale_after_secs, 3);
    assert!(config.compact);
    assert_eq!(config.resolver.local_adnl_addr, "0.0.0.0:4194");
    assert_eq!(config.resolver.lookup_timeout_secs, 4);
    assert_eq!(config.resolver.workers, 5);
    assert_eq!(config.geo.endpoint, "http://geo");
    assert_eq!(config.geo.batch_size, 6);
}

#[test]
fn resolving_twice_changes_nothing() {
    let once = config().resolve_paths(&path("/etc/resolver"));
    let state = text(&once.state);
    let twice = once.resolve_paths(&path("/elsewhere"));
    assert_eq!(text(&twice.state), state);
}

#[test]
fn name_lies_in_its_directory() {
    for dir in ["/", ".", "a", "/etc", "a/b", "./a", "..", "a//b", ".a"] {
        let inside = path(dir).join(&path("name"));
        assert_eq!(text(&config_base_dir(&inside)), dir);
    }
}

#[test]
fn parent_drops_the_last_component() {
    for (sample, dir) in [
        ("/a//b/./c/.", Some("/a//b")),
        ("./a/", Some(".")),
        ("./.", Some("")),
        ("a", Some("")),
        ("//a", Some("/")),
        ("//", None),
        ("", None),
    ] {
        let parent = path(sample).parent().map(|p| text(&p));
        assert_eq!(parent.as_deref(), dir, "parent of {sample:?}");
        if let Some(parent) = parent {
            assert!(sample.starts_with(&parent));
            let mut expected: Vec<_> = Path::new(sample).components().collect();
            expected.pop();
            assert_eq!(Path::new(&parent).components().collect::<Vec<_>>(), expected);
        }
    }
}
