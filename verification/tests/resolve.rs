use rnodejs::resolve::{node_modules_paths, normalize};
use rnodejs::{resolve, FileSystem, MapFileSystem, ResolveError};

#[test]
fn normalize_collapses_dot_and_dotdot() {
    assert_eq!(normalize("/a/b/../c"), "/a/c");
    assert_eq!(normalize("/a/./b/"), "/a/b");
    assert_eq!(normalize("/a//b"), "/a/b");
    assert_eq!(normalize("/a/b/../../.."), "/");
    assert_eq!(normalize("a/b/../c"), "a/c");
}

#[test]
fn resolve_relative_exact_file() {
    let fs = MapFileSystem::new().with_file("/app/lib/util.js");
    let got = resolve("./lib/util.js", "/app", &fs).unwrap();
    assert_eq!(got, "/app/lib/util.js");
}

#[test]
fn resolve_relative_extension_completion_js() {
    let fs = MapFileSystem::new().with_file("/app/lib/util.js");
    let got = resolve("./lib/util", "/app", &fs).unwrap();
    assert_eq!(got, "/app/lib/util.js");
}

#[test]
fn resolve_extension_prefers_js_over_json() {
    let fs = MapFileSystem::new()
        .with_file("/app/data.js")
        .with_file("/app/data.json");
    let got = resolve("./data", "/app", &fs).unwrap();
    assert_eq!(got, "/app/data.js", ".js is preferred over .json");
}

#[test]
fn resolve_json_when_only_json_exists() {
    let fs = MapFileSystem::new().with_file("/app/config.json");
    let got = resolve("./config", "/app", &fs).unwrap();
    assert_eq!(got, "/app/config.json");
}

#[test]
fn resolve_directory_index() {
    let fs = MapFileSystem::new().with_file("/app/widgets/index.js");
    let got = resolve("./widgets", "/app", &fs).unwrap();
    assert_eq!(got, "/app/widgets/index.js");
}

#[test]
fn resolve_directory_package_main() {
    let fs = MapFileSystem::new()
        .with_package_main("/app/mylib", "./src/entry.js")
        .with_file("/app/mylib/src/entry.js");
    let got = resolve("./mylib", "/app", &fs).unwrap();
    assert_eq!(got, "/app/mylib/src/entry.js");
}

#[test]
fn resolve_package_main_falls_back_to_index() {
    let fs = MapFileSystem::new()
        .with_package_main("/app/mylib", "./does-not-exist.js")
        .with_file("/app/mylib/index.js");
    let got = resolve("./mylib", "/app", &fs).unwrap();
    assert_eq!(got, "/app/mylib/index.js");
}

#[test]
fn resolve_parent_relative() {
    let fs = MapFileSystem::new().with_file("/app/shared/const.js");
    let got = resolve("../shared/const", "/app/pages", &fs).unwrap();
    assert_eq!(got, "/app/shared/const.js");
}

#[test]
fn resolve_absolute_request() {
    let fs = MapFileSystem::new().with_file("/etc/app/boot.js");
    let got = resolve("/etc/app/boot", "/anywhere", &fs).unwrap();
    assert_eq!(got, "/etc/app/boot.js");
}

#[test]
fn resolve_bare_from_node_modules() {
    let fs = MapFileSystem::new().with_file("/app/node_modules/lodash/index.js");
    let got = resolve("lodash", "/app/src", &fs).unwrap();
    assert_eq!(got, "/app/node_modules/lodash/index.js");
}

#[test]
fn resolve_bare_prefers_nearest_node_modules() {
    let fs = MapFileSystem::new()
        .with_file("/app/node_modules/dep/index.js")
        .with_file("/app/src/node_modules/dep/index.js");
    let got = resolve("dep", "/app/src", &fs).unwrap();
    assert_eq!(got, "/app/src/node_modules/dep/index.js");
}

#[test]
fn resolve_bare_walks_up_to_ancestor() {
    let fs = MapFileSystem::new().with_file("/node_modules/glob/index.js");
    let got = resolve("glob", "/app/src/deep", &fs).unwrap();
    assert_eq!(got, "/node_modules/glob/index.js");
}

#[test]
fn resolve_bare_with_subpath() {
    let fs = MapFileSystem::new().with_file("/app/node_modules/lodash/fp/map.js");
    let got = resolve("lodash/fp/map", "/app", &fs).unwrap();
    assert_eq!(got, "/app/node_modules/lodash/fp/map.js");
}

#[test]
fn resolve_not_found_errors() {
    let fs = MapFileSystem::new().with_file("/app/other.js");
    let err = resolve("./missing", "/app", &fs).unwrap_err();
    assert!(matches!(err, ResolveError::NotFound { .. }));
}

#[test]
fn node_modules_paths_skips_existing_node_modules() {
    let paths = node_modules_paths("/app/node_modules/pkg");
    assert!(paths.contains(&"/app/node_modules/pkg/node_modules".to_string()));
    assert!(paths.contains(&"/app/node_modules".to_string()));
    assert!(paths.contains(&"/node_modules".to_string()));
    assert!(!paths.iter().any(|p| p.ends_with("node_modules/node_modules")));
}

#[test]
fn node_modules_paths_exact_order() {
    assert_eq!(
        node_modules_paths("/app/node_modules/pkg"),
        vec!["/app/node_modules/pkg/node_modules", "/app/node_modules", "/node_modules"]
    );
    assert_eq!(
        node_modules_paths("/a/b/"),
        vec!["/a/b/node_modules", "/a/node_modules", "/node_modules"]
    );
    assert_eq!(node_modules_paths("/"), vec!["/node_modules"]);
}

#[test]
fn normalize_edge_cases() {
    assert_eq!(normalize(""), ".");
    assert_eq!(normalize("."), ".");
    assert_eq!(normalize("/"), "/");
    assert_eq!(normalize("../a/../.."), "../..");
    assert_eq!(normalize("/.."), "/");
    assert_eq!(normalize("a/./b//c/"), "a/b/c");
    assert_eq!(normalize("日本/語/../x"), "日本/x");
}

#[test]
fn normalize_is_idempotent_on_examples() {
    for p in ["/a/b/../c", "a/../../b", "", "/", "./x/./y/", "../..", "/x//y/.."] {
        let once = normalize(p);
        assert_eq!(normalize(&once), once);
    }
}

#[test]
fn not_found_error_carries_request_and_directory() {
    let fs = MapFileSystem::new();
    let err = resolve("left-pad", "/srv/app", &fs).unwrap_err();
    assert_eq!(
        err,
        ResolveError::NotFound { request: "left-pad".to_string(), from_dir: "/srv/app".to_string() }
    );
    assert_eq!(err.message(), "Cannot find module 'left-pad' from '/srv/app'");
}

#[test]
fn map_file_system_answers_for_any_spelling() {
    let fs = MapFileSystem::new()
        .with_file("/app/lib/util.js")
        .with_package_main("/app/pkg/", "main.js");
    assert!(fs.is_file("/app/lib/util.js"));
    assert!(fs.is_file("/app//lib/./util.js"));
    assert!(fs.is_file("/app/x/../lib/util.js"));
    assert!(!fs.is_file("/app/lib"));
    assert!(fs.is_dir("/app/lib"));
    assert!(fs.is_dir("/app"));
    assert!(fs.is_dir("/"));
    assert!(fs.is_dir("/app/pkg"));
    assert_eq!(fs.package_main("/app/pkg"), Some("main.js".to_string()));
    assert_eq!(fs.package_main("/app/lib"), None);
}

#[test]
fn package_main_is_replaced_by_later_registration() {
    let fs = MapFileSystem::new()
        .with_package_main("/app/m", "a.js")
        .with_package_main("/app/m", "b.js")
        .with_file("/app/m/a.js")
        .with_file("/app/m/b.js");
    assert_eq!(fs.package_main("/app/m"), Some("b.js".to_string()));
    assert_eq!(resolve("./m", "/app", &fs).unwrap(), "/app/m/b.js");
}

#[test]
fn package_main_pointing_to_directory_uses_its_index() {
    let fs = MapFileSystem::new()
        .with_package_main("/app/lib", "dist")
        .with_file("/app/lib/dist/index.json");
    assert_eq!(resolve("./lib", "/app", &fs).unwrap(), "/app/lib/dist/index.json");
}

#[test]
fn absolute_package_main_is_used_as_is() {
    let fs = MapFileSystem::new()
        .with_package_main("/app/lib", "/opt/shared/entry")
        .with_file("/opt/shared/entry.js");
    assert_eq!(resolve("./lib", "/app", &fs).unwrap(), "/opt/shared/entry.js");
}

#[test]
fn bare_request_does_not_match_relative_files() {
    let fs = MapFileSystem::new().with_file("/app/util.js");
    assert!(resolve("util", "/app", &fs).is_err());
    assert_eq!(resolve("./util", "/app/", &fs).unwrap(), "/app/util.js");
}

#[test]
fn resolve_through_a_trait_object() {
    let map = MapFileSystem::new().with_file("/app/a.json");
    let fs: &dyn FileSystem = &map;
    assert_eq!(resolve("./a", "/app", fs).unwrap(), "/app/a.json");
}

#[test]
fn default_map_file_system_is_empty() {
    let fs = MapFileSystem::default();
    assert!(!fs.is_dir("/"));
    assert!(resolve("./a", "/", &fs).is_err());
}

#[test]
fn load_index_prefers_js_then_json() {
    let fs = MapFileSystem::new().with_file("/app/w/index.json");
    assert_eq!(rnodejs::resolve::load_index("/app/w", &fs), Some("/app/w/index.json".to_string()));
    let fs = fs.with_file("/app/w/index.js");
    assert_eq!(rnodejs::resolve::load_index("/app/w/", &fs), Some("/app/w/index.js".to_string()));
    assert_eq!(rnodejs::resolve::load_index("/app", &fs), None);
}

#[test]
fn load_as_file_tries_exact_then_extensions() {
    let fs = MapFileSystem::new().with_file("/a/x.json").with_file("/a/y");
    assert_eq!(rnodejs::resolve::load_as_file("/a/x", &fs), Some("/a/x.json".to_string()));
    assert_eq!(rnodejs::resolve::load_as_file("/a/y", &fs), Some("/a/y".to_string()));
    assert_eq!(rnodejs::resolve::load_as_file("/a/z", &fs), None);
}

#[test]
fn load_as_directory_needs_a_directory() {
    let fs = MapFileSystem::new()
        .with_package_main("/p", "lib/main.js")
        .with_file("/p/lib/main.js")
        .with_file("/q/index.js");
    assert_eq!(rnodejs::resolve::load_as_directory("/p", &fs), Some("/p/lib/main.js".to_string()));
    assert_eq!(rnodejs::resolve::load_as_directory("/q", &fs), Some("/q/index.js".to_string()));
    assert_eq!(rnodejs::resolve::load_as_directory("/q/index.js", &fs), None);
}

#[test]
fn normal_forms_have_no_empty_or_dot_segments() {
    for p in ["//a//b//", "./.././x/", "/../a/./", "a/b/../../..", "x/..", "/"] {
        let r = normalize(p);
        assert!(!r.is_empty());
        assert_eq!(r.starts_with('/'), p.starts_with('/'));
        assert!(!r.contains("//"));
        assert!(r == "/" || !r.ends_with('/'));
    }
}
