//! Finding, describing and caching plugin bundles.

use std::collections::HashMap;
use std::sync::atomic::{AtomicUsize, Ordering};

use stardust::paths::{
    native_form, parent_of, path_has_extension, same_path, slash_form, Platform,
};
use stardust::plugin::bundle::{
    load_bundle, ClapError, PluginDescriptor, Probe, RawDescriptor, ScannedBundle,
};
use stardust::plugin::cache::{
    scan_paths_cached, CacheFile, CachedScanOutcome, CACHE_SCHEMA_VERSION,
};
use stardust::plugin::discover::{
    dedupe_paths, default_clap_search_paths, discover_dir, discover_paths, scan_dir, scan_paths,
    DirEntry, Places, ScanResult,
};
use stardust::plugin::times::{bundle_mtime, FileStat};
use stardust::plugin::listing::{choice_line, plugin_choices, scan_lines, PluginChoice};

/// A tree of files: directories with their entries, and the times of files.
#[derive(Default)]
struct Disk {
    dirs: HashMap<String, Vec<(String, bool)>>,
    times: HashMap<String, (u64, u32)>,
}

impl Disk {
    fn dir(mut self, path: &str, entries: &[(&str, bool)]) -> Disk {
        let all = entries.iter().map(|(n, d)| (format!("{path}/{n}"), *d)).collect();
        self.dirs.insert(path.to_string(), all);
        self
    }

    fn time(mut self, path: &str, time: (u64, u32)) -> Disk {
        self.times.insert(path.to_string(), time);
        self
    }

    fn list(&self, dir: String) -> Vec<DirEntry> {
        match self.dirs.get(&dir) {
            Some(entries) => entries
                .iter()
                .map(|(path, is_dir)| DirEntry { path: path.clone(), is_dir: *is_dir })
                .collect(),
            None => vec![],
        }
    }

    fn stat(&self, path: String) -> Option<FileStat> {
        let entries = self.dirs.get(&path);
        let modified = self.times.get(&path).copied();
        if entries.is_none() && modified.is_none() {
            return None;
        }
        Some(FileStat {
            modified,
            entries: entries.map(|all| all.iter().map(|e| e.0.clone()).collect()).unwrap_or_default(),
            identity: None,
        })
    }
}

fn descriptor(name: &str) -> PluginDescriptor {
    PluginDescriptor {
        id: format!("test.{name}"),
        name: name.to_string(),
        vendor: "Test".to_string(),
        version: "1.0".to_string(),
        description: String::new(),
        features: vec!["instrument".to_string()],
    }
}

fn fake_load(counter: &AtomicUsize, path: String) -> Result<ScannedBundle, ClapError> {
    counter.fetch_add(1, Ordering::SeqCst);
    let name = path.rsplit('/').next().unwrap_or("plugin").trim_end_matches(".clap").to_string();
    Ok(ScannedBundle { descriptors: vec![descriptor(&name)], path })
}

fn scan(
    disk: &Disk,
    cache: Option<CacheFile>,
    loads: &AtomicUsize,
) -> (CachedScanOutcome, CacheFile) {
    scan_paths_cached(
        &vec!["/d".to_string()],
        cache,
        |d| disk.list(d),
        |p| disk.stat(p),
        |p| fake_load(loads, p),
    )
}

fn two_bundles() -> Disk {
    Disk::default()
        .dir("/d", &[("A.clap", false), ("B.clap", false)])
        .time("/d/A.clap", (10, 0))
        .time("/d/B.clap", (20, 5))
}

#[test]
fn second_scan_is_all_cache_hits() {
    let disk = two_bundles();
    let loads = AtomicUsize::new(0);

    let (first, cache) = scan(&disk, None, &loads);
    assert_eq!(first.loaded, 2);
    assert_eq!(first.cache_hits, 0);
    assert_eq!(first.result.bundles.len(), 2);

    let (second, _) = scan(&disk, Some(cache), &loads);
    assert_eq!(second.loaded, 0);
    assert_eq!(second.cache_hits, 2);
    assert_eq!(second.result.bundles.len(), 2);
    assert_eq!(second.result.bundles[1].descriptors, vec![descriptor("B")]);
    assert_eq!(loads.load(Ordering::SeqCst), 2);
}

#[test]
fn mtime_change_reloads_only_that_bundle() {
    let disk = two_bundles();
    let loads = AtomicUsize::new(0);

    let (_, cache) = scan(&disk, None, &loads);
    assert_eq!(loads.load(Ordering::SeqCst), 2);

    let disk = disk.time("/d/A.clap", (20, 0));
    let (rescan, cache) = scan(&disk, Some(cache), &loads);
    assert_eq!(rescan.loaded, 1);
    assert_eq!(rescan.cache_hits, 1);

    // A change of nanoseconds, or to an earlier time, is a change too.
    let disk = disk.time("/d/B.clap", (20, 4));
    let (rescan, _) = scan(&disk, Some(cache), &loads);
    assert_eq!((rescan.loaded, rescan.cache_hits), (1, 1));
}

#[test]
fn removed_bundle_drops_out_and_new_bundle_is_picked_up() {
    let loads = AtomicUsize::new(0);
    let disk = Disk::default().dir("/d", &[("A.clap", false)]).time("/d/A.clap", (1, 0));
    let (_, cache) = scan(&disk, None, &loads);

    let disk = Disk::default().dir("/d", &[("C.clap", false)]).time("/d/C.clap", (2, 0));
    let (rescan, cache) = scan(&disk, Some(cache), &loads);
    assert_eq!(rescan.result.bundles.len(), 1);
    assert!(rescan.result.bundles[0].path.ends_with("C.clap"));
    assert_eq!(rescan.loaded, 1);
    assert_eq!(cache.entries.len(), 1);
}

#[test]
fn schema_mismatch_forces_full_rescan() {
    let disk = Disk::default().dir("/d", &[("A.clap", false)]).time("/d/A.clap", (1, 0));
    let loads = AtomicUsize::new(0);

    let (_, mut cache) = scan(&disk, None, &loads);
    assert_eq!(loads.load(Ordering::SeqCst), 1);
    assert_eq!(cache.schema_version, CACHE_SCHEMA_VERSION);

    cache.schema_version = CACHE_SCHEMA_VERSION + 1;
    let (rescan, cache) = scan(&disk, Some(cache), &loads);
    assert_eq!(rescan.loaded, 1, "schema mismatch must rescan");
    assert_eq!(rescan.cache_hits, 0);
    assert_eq!(cache.schema_version, CACHE_SCHEMA_VERSION);
}

#[test]
fn load_failures_are_cached_until_mtime_changes() {
    let disk = Disk::default().dir("/d", &[("BAD.clap", false)]).time("/d/BAD.clap", (1, 0));
    let loads = AtomicUsize::new(0);
    let run = |disk: &Disk, cache: Option<CacheFile>| {
        scan_paths_cached(
            &vec!["/d".to_string()],
            cache,
            |d| disk.list(d),
            |p| disk.stat(p),
            |p| {
                loads.fetch_add(1, Ordering::SeqCst);
                Err(ClapError::PathNotAccessible(p))
            },
        )
    };

    let (first, cache) = run(&disk, None);
    assert_eq!(first.result.errors.len(), 1);

    let (second, cache) = run(&disk, Some(cache));
    assert_eq!(second.result.errors.len(), 1);
    assert_eq!(
        second.result.errors[0],
        ("/d/BAD.clap".to_string(), "CLAP path not accessible: /d/BAD.clap".to_string())
    );
    assert_eq!(second.loaded, 0, "failure record must be served from cache");
    assert_eq!(loads.load(Ordering::SeqCst), 1);

    let disk = disk.time("/d/BAD.clap", (2, 0));
    let (third, _) = run(&disk, Some(cache));
    assert_eq!(third.loaded, 1);
}

#[test]
fn symlinked_bundle_keys_on_target_mtime() {
    // The link itself keeps its time; what the system says of it is what it
    // says of the target.
    let target = "/t/Real.clap";
    let disk = Disk::default().dir("/d", &[("Linked.clap", true)]).time(target, (10, 0));
    let loads = AtomicUsize::new(0);
    let run = |disk: &Disk, cache: Option<CacheFile>| {
        scan_paths_cached(
            &vec!["/d".to_string()],
            cache,
            |d| disk.list(d),
            |p| disk.stat(if p == "/d/Linked.clap" { target.to_string() } else { p }),
            |p| fake_load(&loads, p),
        )
    };

    let (_, cache) = run(&disk, None);
    assert_eq!(loads.load(Ordering::SeqCst), 1);

    let disk = disk.time(target, (20, 0));
    let (rescan, _) = run(&disk, Some(cache));
    assert_eq!(rescan.loaded, 1, "target mtime change must invalidate");
}

#[test]
fn bundle_directory_keys_on_nested_file_mtime() {
    let disk = Disk::default()
        .dir("/d", &[("Mac.clap", true)])
        .dir("/d/Mac.clap", &[("Contents", true)])
        .dir("/d/Mac.clap/Contents", &[("MacOS", true)])
        .dir("/d/Mac.clap/Contents/MacOS", &[("Mac", false)])
        .time("/d/Mac.clap", (50, 0))
        .time("/d/Mac.clap/Contents/MacOS/Mac", (40, 0));
    let loads = AtomicUsize::new(0);
    assert_eq!(bundle_mtime("/d/Mac.clap", &|p| disk.stat(p)), (50, 0));

    let (_, cache) = scan(&disk, None, &loads);
    assert_eq!(loads.load(Ordering::SeqCst), 1);

    let disk = disk.time("/d/Mac.clap/Contents/MacOS/Mac", (60, 0));
    assert_eq!(bundle_mtime("/d/Mac.clap", &|p| disk.stat(p)), (60, 0));
    let (rescan, _) = scan(&disk, Some(cache), &loads);
    assert_eq!(rescan.loaded, 1, "nested binary mtime change must invalidate the bundle");
}

#[test]
fn a_file_counts_however_deep_it_is() {
    let mut disk = Disk::default();
    let mut path = "/b".to_string();
    for i in 0..40u64 {
        disk = disk.dir(&path, &[("x", true)]).time(&path, (i, 0));
        path = format!("{path}/x");
    }
    assert_eq!(bundle_mtime("/b", &|p| disk.stat(p)), (39, 0));
    let disk = disk.time(&path, (100, 7));
    assert_eq!(bundle_mtime("/b", &|p| disk.stat(p)), (100, 7));
    assert_eq!(bundle_mtime("/nothing", &|p| disk.stat(p)), (0, 0));
}

#[test]
fn a_change_deep_in_a_bundle_is_noticed() {
    let deep = "/d/A.clap/1/2/3/4/5/6/7/8/9";
    let mut disk = Disk::default().dir("/d", &[("A.clap", true)]).time(deep, (1, 0));
    let mut path = "/d/A.clap".to_string();
    for i in 1..10 {
        let name = i.to_string();
        disk = disk.dir(&path, &[(name.as_str(), true)]);
        path = format!("{path}/{name}");
    }
    let loads = AtomicUsize::new(0);
    let (_, cache) = scan(&disk, None, &loads);
    let (same, cache) = scan(&disk, Some(cache), &loads);
    assert_eq!((same.cache_hits, same.loaded), (1, 0));
    let (changed, _) = scan(&disk.time(deep, (2, 0)), Some(cache), &loads);
    assert_eq!((changed.cache_hits, changed.loaded), (0, 1));
}

#[test]
fn a_link_that_leads_back_is_followed_once() {
    // `/b/in/back` and whatever lies below it is `/b` again.
    let stat = |p: String| -> Option<FileStat> {
        let mut real = p;
        while let Some(at) = real.find("/in/back") {
            real = format!("{}{}", &real[..at], &real[at + "/in/back".len()..]);
        }
        let (secs, names): (u64, &[&str]) = match real.as_str() {
            "/b" => (3, &["in", "file"]),
            "/b/in" => (4, &["back", "last"]),
            "/b/file" => (5, &[]),
            "/b/in/last" => (9, &[]),
            _ => return None,
        };
        Some(FileStat {
            modified: Some((secs, 0)),
            entries: names.iter().map(|n| format!("{real}/{n}")).collect(),
            identity: if names.is_empty() { None } else { Some(real) },
        })
    };
    assert_eq!(bundle_mtime("/b", &stat), (9, 0));
    // Without an identity a directory is known by the path to it.
    let round = |p: String| -> Option<FileStat> {
        Some(FileStat { modified: Some((1, 2)), entries: vec![p], identity: None })
    };
    assert_eq!(bundle_mtime("/round", &round), (1, 2));
    // The same directory in two places is no loop.
    let twice = |p: String| -> Option<FileStat> {
        let (secs, names): (u64, &[&str]) = match p.as_str() {
            "/b" => (1, &["one", "two"]),
            "/b/one" | "/b/two" => (2, &["file"]),
            "/b/two/file" => (8, &[]),
            "/b/one/file" => (7, &[]),
            _ => return None,
        };
        Some(FileStat {
            modified: Some((secs, 0)),
            entries: names.iter().map(|n| format!("{p}/{n}")).collect(),
            identity: if p.len() == 6 { Some("same".to_string()) } else { None },
        })
    };
    assert_eq!(bundle_mtime("/b", &twice), (8, 0));
}

#[test]
fn bundles_are_found_below_a_directory() {
    let disk = Disk::default()
        .dir("/d", &[("vendor", true), ("A.CLAP", true), ("readme.txt", false), (".clap", true), ("z.clap", false)])
        .dir("/d/vendor", &[("B.clap", false)])
        .dir("/d/A.CLAP", &[("inner.clap", false)])
        .dir("/d/.clap", &[("C.clap", false)]);
    assert_eq!(
        discover_dir("/d", |d| disk.list(d)),
        vec!["/d/vendor/B.clap", "/d/A.CLAP", "/d/.clap/C.clap", "/d/z.clap"]
    );
    assert!(discover_dir("/missing", |d| disk.list(d)).is_empty());
}

#[test]
fn the_search_goes_only_so_deep() {
    let mut disk = Disk::default();
    let mut path = "/d".to_string();
    for i in 0..7 {
        let name = format!("{i}.clap");
        disk = disk.dir(&path, &[(&name, false), ("x", true)]);
        path = format!("{path}/x");
    }
    assert_eq!(
        discover_dir("/d", |d| disk.list(d)),
        vec![
            "/d/0.clap",
            "/d/x/1.clap",
            "/d/x/x/2.clap",
            "/d/x/x/x/3.clap",
            "/d/x/x/x/x/4.clap"
        ]
    );
}

#[test]
fn bundles_found_twice_count_once() {
    let disk = Disk::default()
        .dir("/d", &[("A.clap", false), ("e", true)])
        .dir("/d/e", &[("B.clap", false)])
        .dir("/d//e", &[("B.clap", false), ("C.clap", false)]);
    let dirs = vec!["/d".to_string(), "/d/e".to_string(), "/d//e".to_string()];
    assert_eq!(
        discover_paths(&dirs, |d| disk.list(d)),
        vec!["/d/A.clap", "/d/e/B.clap", "/d//e/C.clap"]
    );
    let loads = AtomicUsize::new(0);
    let result = scan_paths(
        &dirs,
        |d| disk.list(d),
        |p| {
            if p.contains("C") {
                Err(ClapError::NoFactory)
            } else {
                fake_load(&loads, p)
            }
        },
    );
    let paths: Vec<&str> = result.bundles.iter().map(|b| b.path.as_str()).collect();
    assert_eq!(paths, vec!["/d/A.clap", "/d/e/B.clap"]);
    assert_eq!(
        result.errors,
        vec![("/d//e/C.clap".to_string(), "CLAP bundle exposed no plugin factory".to_string())]
    );
}

#[test]
fn a_scan_tells_what_did_not_load() {
    let disk = Disk::default().dir("/d", &[("A.clap", false), ("B.clap", false)]);
    let loads = AtomicUsize::new(0);
    let result = scan_dir("/d", &|d| disk.list(d), &|p: String| {
        if p.contains("A") {
            Err(ClapError::Load("bad magic".to_string()))
        } else {
            fake_load(&loads, p)
        }
    });
    assert_eq!(result.bundles.len(), 1);
    assert_eq!(
        result.errors,
        vec![("/d/A.clap".to_string(), "failed to load CLAP entry: bad magic".to_string())]
    );
}

/// Loads a bundle: those with an `N` in their name describe no plugin, those
/// with an `X` do not load.
fn mixed_load(path: String) -> Result<ScannedBundle, ClapError> {
    if path.contains('X') {
        Err(ClapError::Load(format!("no {path}")))
    } else if path.contains('N') {
        Ok(ScannedBundle { path, descriptors: vec![] })
    } else {
        fake_load(&AtomicUsize::new(0), path)
    }
}

fn mixed_disk() -> (Disk, Vec<String>) {
    let disk = Disk::default()
        .dir("/d", &[("A.clap", false), ("N.clap", false), ("X.clap", false), ("e", true)])
        .dir("/d/e", &[("B.clap", false), ("X.clap", false)])
        .dir("/d//e", &[("B.clap", false), ("C.clap", false), ("N.clap", false), ("X.clap", false)]);
    (disk, vec!["/d".to_string(), "/d/e".to_string(), "/d//e".to_string()])
}

#[test]
fn bundles_without_plugins_are_left_out() {
    let (disk, dirs) = mixed_disk();
    let one = scan_dir("/d", &|d| disk.list(d), &mixed_load);
    let paths: Vec<&str> = one.bundles.iter().map(|b| b.path.as_str()).collect();
    assert_eq!(paths, vec!["/d/A.clap", "/d/e/B.clap"]);
    assert_eq!(one.errors.len(), 2);
    let all = scan_paths(&dirs, |d| disk.list(d), mixed_load);
    let paths: Vec<&str> = all.bundles.iter().map(|b| b.path.as_str()).collect();
    assert_eq!(paths, vec!["/d/A.clap", "/d/e/B.clap", "/d//e/C.clap"]);
    assert!(all.bundles.iter().all(|b| !b.descriptors.is_empty()));
    let (cached, file) = scan_paths_cached(&dirs, None, |d| disk.list(d), |p| disk.stat(p), mixed_load);
    let paths: Vec<&str> = cached.result.bundles.iter().map(|b| b.path.as_str()).collect();
    assert_eq!(paths, vec!["/d/A.clap", "/d/e/B.clap", "/d//e/C.clap"]);
    // The cache still holds what the bundle said, so that it is not loaded again.
    assert!(file.entries.iter().any(|e| e.path == "/d/N.clap" && e.descriptors.is_empty()));
}

#[test]
fn a_scan_with_an_empty_cache_gives_what_a_plain_scan_gives() {
    let (disk, dirs) = mixed_disk();
    let plain = scan_paths(&dirs, |d| disk.list(d), mixed_load);
    let found = discover_paths(&dirs, |d| disk.list(d));
    let other = CacheFile { schema_version: CACHE_SCHEMA_VERSION + 1, entries: vec![] };
    for cache in [None, Some(other)] {
        let (cold, _) = scan_paths_cached(&dirs, cache, |d| disk.list(d), |p| disk.stat(p), mixed_load);
        assert_eq!(cold.cache_hits, 0);
        assert_eq!(cold.loaded, found.len());
        let says = |r: &ScanResult| -> Vec<(String, Vec<String>)> {
            r.bundles
                .iter()
                .map(|b| (b.path.clone(), b.descriptors.iter().map(|d| d.id.clone()).collect()))
                .collect()
        };
        assert_eq!(says(&cold.result), says(&plain));
        assert_eq!(cold.result.errors, plain.errors);
        assert_eq!(plain.errors.len(), 2);
    }
}

#[test]
fn a_path_keeps_the_outcome_of_its_first_directory() {
    let disk = Disk::default()
        .dir("/d", &[("e", true), ("N.clap", false)])
        .dir("/d/e", &[("A.clap", false), ("B.clap", false), ("N.clap", false)]);
    let dirs = vec!["/d".to_string(), "/d/e".to_string()];
    // The second time round nothing loads, or what had not loaded does.
    let asked = std::cell::RefCell::new(HashMap::<String, usize>::new());
    let load = |path: String| -> Result<ScannedBundle, ClapError> {
        let mut asked = asked.borrow_mut();
        let times = asked.entry(path.clone()).or_insert(0);
        *times += 1;
        let name = path.rsplit('/').next().unwrap_or("").to_string();
        match (name.as_str(), *times) {
            ("N.clap", 1) => Ok(ScannedBundle { path, descriptors: vec![] }),
            ("A.clap", 1) | ("B.clap", 2) => {
                Ok(ScannedBundle { path, descriptors: vec![descriptor("x")] })
            }
            _ => Err(ClapError::NoFactory),
        }
    };
    let result = scan_paths(&dirs, |d| disk.list(d), load);
    let paths: Vec<&str> = result.bundles.iter().map(|b| b.path.as_str()).collect();
    assert_eq!(paths, vec!["/d/e/A.clap"]);
    let failed: Vec<&str> = result.errors.iter().map(|e| e.0.as_str()).collect();
    assert_eq!(failed, vec!["/d/e/B.clap"]);
    assert_eq!(asked.borrow().get("/d/e/N.clap"), Some(&2));
}

#[test]
fn paths_are_compared_part_by_part() {
    assert!(same_path("/a/b", "/a//b/"));
    assert!(same_path("/a/b", "/a/./b"));
    assert!(!same_path("a/b", "/a/b"));
    assert!(!same_path("./a", "a"));
    assert!(!same_path("/a/b", "/a/../a/b"));
    assert_eq!(
        dedupe_paths(vec!["/a".to_string(), "/b".to_string(), "/a/".to_string()]),
        vec!["/a", "/b"]
    );
    assert_eq!(parent_of("/a/b/c").as_deref(), Some("/a/b"));
    assert_eq!(parent_of("/a").as_deref(), Some("/"));
    assert_eq!(parent_of("a").as_deref(), Some(""));
    assert_eq!(parent_of("a//b/").as_deref(), Some("a"));
    assert_eq!(parent_of("/"), None);
    assert_eq!(parent_of(""), None);
    assert!(path_has_extension("/x/Y.Clap", "clap"));
    assert!(path_has_extension("/x/Y.clap/", "clap"));
    assert!(!path_has_extension("/x/.clap", "clap"));
    assert!(!path_has_extension("/x/clap", "clap"));
    assert!(!path_has_extension("/x.clap/y", "clap"));
    assert!(!path_has_extension("/x.clap/..", "clap"));
}

#[test]
fn search_paths_of_each_platform() {
    let places = |clap_path: &[&str]| Places {
        home: Some("/home/me".to_string()),
        common_program_files: Some("C:\\Common".to_string()),
        local_app_data: None,
        clap_path: clap_path.iter().map(|p| p.to_string()).collect(),
    };
    assert_eq!(
        default_clap_search_paths(Platform::Unix, places(&["/usr/lib/clap/", "/opt"])),
        vec!["/home/me/.clap", "/usr/lib/clap", "/usr/local/lib/clap", "/opt"]
    );
    assert_eq!(
        default_clap_search_paths(Platform::MacOs, places(&[])),
        vec!["/home/me/Library/Audio/Plug-Ins/CLAP", "/Library/Audio/Plug-Ins/CLAP"]
    );
    assert_eq!(
        default_clap_search_paths(Platform::Windows, places(&[])),
        vec!["C:/Common/CLAP"]
    );
}

#[test]
fn a_backslash_separates_only_on_windows() {
    assert_eq!(slash_form("C:\\a\\b/c", Platform::Windows), "C:/a/b/c");
    assert_eq!(slash_form("a\\b", Platform::Unix), "a\\b");
    assert_eq!(slash_form("a\\b", Platform::MacOs), "a\\b");
    let places = |home: &str, clap_path: &[&str]| Places {
        home: Some(home.to_string()),
        common_program_files: Some("C:\\Common\\".to_string()),
        local_app_data: Some("D:\\Local".to_string()),
        clap_path: clap_path.iter().map(|p| p.to_string()).collect(),
    };
    assert_eq!(
        default_clap_search_paths(Platform::Unix, places("/home/me\\", &[]))[0],
        "/home/me\\/.clap"
    );
    assert_eq!(default_clap_search_paths(Platform::Unix, places("/home/me/", &[]))[0], "/home/me/.clap");
    assert_eq!(
        default_clap_search_paths(Platform::Windows, places("", &["C:/Common/CLAP", "E:\\x"])),
        vec!["C:/Common/CLAP", "D:/Local/Programs/Common/CLAP", "E:/x"]
    );
}

#[test]
fn on_windows_a_path_starts_anew_at_a_drive() {
    assert_eq!(native_form("D:/inst/C:/x.wav", Platform::Windows), "C:/x.wav");
    assert_eq!(native_form("D:/inst/x.wav", Platform::Windows), "D:/inst/x.wav");
    assert_eq!(native_form("inst/c:", Platform::Windows), "c:");
    assert_eq!(native_form("inst/cc:/x", Platform::Windows), "inst/cc:/x");
    assert_eq!(native_form("inst/c:x", Platform::Windows), "inst/c:x");
    assert_eq!(native_form("", Platform::Windows), "");
    assert_eq!(native_form("/inst/C:/x.wav", Platform::Unix), "/inst/C:/x.wav");
}

fn raw(id: Option<&str>, name: Option<&str>) -> RawDescriptor {
    RawDescriptor {
        id: id.map(str::to_string),
        name: name.map(str::to_string),
        vendor: Some(String::new()),
        version: None,
        description: Some("d".to_string()),
        features: vec![Some("a".to_string()), None, Some(String::new()), Some("b".to_string())],
    }
}

#[test]
fn plugins_without_id_or_name_are_left_out() {
    let bundle = load_bundle(
        "/x.clap",
        Probe::Plugins(vec![
            raw(Some("i"), Some("n")),
            raw(None, Some("n")),
            raw(Some("i"), None),
            raw(Some(""), Some("n")),
        ]),
    )
    .unwrap();
    assert_eq!(bundle.path, "/x.clap");
    assert_eq!(
        bundle.descriptors,
        vec![PluginDescriptor {
            id: "i".to_string(),
            name: "n".to_string(),
            vendor: String::new(),
            version: String::new(),
            description: "d".to_string(),
            features: vec!["a".to_string(), "b".to_string()],
        }]
    );
    assert_eq!(
        load_bundle("/x.clap", Probe::Missing).unwrap_err(),
        ClapError::PathNotAccessible("/x.clap".to_string())
    );
    assert_eq!(
        load_bundle("/x.clap", Probe::Unloadable("why".to_string())).unwrap_err(),
        ClapError::Load("why".to_string())
    );
    assert_eq!(load_bundle("/x.clap", Probe::NoFactory).unwrap_err(), ClapError::NoFactory);
}

#[test]
fn a_scan_is_shown_line_by_line() {
    assert_eq!(scan_lines(&ScanResult::default())[0], "No .clap bundles found.");
    let mut plain = descriptor("Plain");
    plain.vendor = String::new();
    plain.features = vec![];
    let mut full = descriptor("Full");
    full.description = "All of it".to_string();
    full.features.push("stereo".to_string());
    let scan = ScanResult {
        bundles: vec![
            ScannedBundle { path: "/a.clap".to_string(), descriptors: vec![plain, full] },
            ScannedBundle { path: "/b.clap".to_string(), descriptors: vec![] },
        ],
        errors: vec![("/c.clap".to_string(), "why".to_string())],
    };
    assert_eq!(
        scan_lines(&scan),
        vec![
            "📦  /a.clap",
            "    • Plain  (test.Plain)",
            "         vendor: —   version: 1.0",
            "    • Full  (test.Full)",
            "         vendor: Test   version: 1.0",
            "         All of it",
            "         features: instrument, stereo",
            "📦  /b.clap",
            "    (bundle loaded but advertised no descriptors)",
            "",
            "⚠  1 bundle(s) failed to load:",
            "    /c.clap",
            "        why",
            "",
            "Summary: 2 bundle(s), 2 plugin(s), 1 failed",
        ]
    );
    assert_eq!(
        plugin_choices(&scan),
        vec![
            PluginChoice { bundle: 0, descriptor: 0 },
            PluginChoice { bundle: 0, descriptor: 1 }
        ]
    );
    assert_eq!(
        choice_line(1, "/x/a.clap", &scan.bundles[0].descriptors[1]),
        "  [1] Full — Test  (a.clap)"
    );
    assert_eq!(choice_line(0, "/", &descriptor("P")), "  [0] P — Test  (/)");
}
