use plugpm::context::Context;
use plugpm::error::InstallError;
use plugpm::fsmodel::FsModel;
use plugpm::installer::ArchiveEntry;
use plugpm::installer::WebModel;
use plugpm::installer::WebResource;
use plugpm::manifest::CopyAction;
use plugpm::manifest::DistributionMethod;
use plugpm::manifest::DownloadAndCopyFile;
use plugpm::manifest::ExtractMethod;
use plugpm::manifest::Instance;
use plugpm::manifest::Plugin;
use plugpm::paths::InstallDirs;
use plugpm::paths::process_path;
use plugpm::paths::slugify;

fn dirs() -> InstallDirs {
    InstallDirs {
        clap: "/plugs/clap".to_string(),
        vst2: "/plugs/vst2".to_string(),
        vst3: "/plugs/vst3".to_string(),
    }
}

fn plugin_with(instances: Vec<Instance>) -> Plugin {
    Plugin {
        name: "synthy".to_string(),
        version: "1.0".to_string(),
        revision: 3,
        website: "https://example.com".to_string(),
        vendor: "acme".to_string(),
        licence: "MIT".to_string(),
        categories: vec!["SYNTH".to_string()],
        description: None,
        instances,
    }
}

fn simple_instance(format: &str, platform: &str, downloads: Vec<DownloadAndCopyFile>) -> Instance {
    Instance {
        method: DistributionMethod::SimpleDownloadAndCopy { downloads },
        format: format.to_string(),
        platform: platform.to_string(),
        arch: "X86_64".to_string(),
    }
}

fn zip_resource(url: &str, entries: Vec<(&str, &[u8])>) -> WebResource {
    WebResource {
        url: url.to_string(),
        status_ok: true,
        body: vec![0x50, 0x4b],
        archive: Some(
            entries
                .into_iter()
                .map(|(p, d)| ArchiveEntry { path: p.to_string(), data: d.to_vec() })
                .collect(),
        ),
    }
}

#[test]
fn slugify_keeps_lowercased_letters_only() {
    assert_eq!(slugify("https://Example.com/File-1.zip"), "httpsexamplecomfilezip");
    assert_eq!(slugify(""), "");
    assert_eq!(slugify("123-_!"), "");
    assert_eq!(slugify("ABC"), "abc");
}

#[test]
fn process_path_substitutes_both_placeholders() {
    let d = dirs();
    assert_eq!(
        process_path("%dl%/plugin.clap", "stage", "CLAP", &d).unwrap(),
        "stage/plugin.clap"
    );
    assert_eq!(
        process_path("%plugs%/plugin.clap", "stage", "CLAP", &d).unwrap(),
        "/plugs/clap/plugin.clap"
    );
    assert_eq!(
        process_path("%plugs%/x", "stage", "VST2", &d).unwrap(),
        "/plugs/vst2/x"
    );
    assert_eq!(
        process_path("%plugs%/x", "stage", "VST3", &d).unwrap(),
        "/plugs/vst3/x"
    );
}

#[test]
fn process_path_rejects_unknown_format() {
    let r = process_path("%dl%/a", "stage", "AAX", &dirs());
    assert_eq!(r, Err(InstallError::UnsupportedFormat));
}

#[test]
fn process_path_passes_an_empty_template_through() {
    let r = process_path("", "stage", "CLAP", &dirs());
    assert_eq!(r, Ok("".to_string()));
}

#[test]
fn process_path_is_identity_without_placeholders() {
    let d = dirs();
    assert_eq!(
        process_path("/literal/path.clap", "stage", "CLAP", &d).unwrap(),
        "/literal/path.clap"
    );
}

#[test]
fn context_caches_urls() {
    let mut ctx = Context::new();
    assert_eq!(ctx.get("http://a"), None);
    ctx.insert("http://a", "httpa");
    assert_eq!(ctx.get("http://a"), Some("httpa".to_string()));
    assert_eq!(ctx.get("http://b"), None);
}

#[test]
fn copy_dir_preserves_structure_and_bytes() {
    let mut fs = FsModel::new();
    fs.add_dir("a");
    fs.add_dir("a/c");
    fs.set_file("a/b.txt", b"hello".to_vec());
    fs.set_file("a/c/d.txt", b"world".to_vec());
    fs.copy_dir("a", "X");
    assert_eq!(fs.file_bytes("X/b.txt"), Some(b"hello".to_vec()));
    assert_eq!(fs.file_bytes("X/c/d.txt"), Some(b"world".to_vec()));
    assert!(fs.is_dir("X"));
    assert!(fs.is_dir("X/c"));
    // the source tree is untouched
    assert_eq!(fs.file_bytes("a/b.txt"), Some(b"hello".to_vec()));
}

#[test]
fn copy_dir_creates_missing_destination_ancestors() {
    let mut fs = FsModel::new();
    fs.add_dir("a");
    fs.set_file("a/b.txt", b"hello".to_vec());
    fs.copy_dir("a", "X/Y/Z");
    assert!(fs.is_dir("X"));
    assert!(fs.is_dir("X/Y"));
    assert!(fs.is_dir("X/Y/Z"));
    assert_eq!(fs.file_bytes("X/Y/Z/b.txt"), Some(b"hello".to_vec()));
}

#[test]
fn copy_dir_merges_into_the_destination() {
    let mut fs = FsModel::new();
    fs.add_dir("a");
    fs.set_file("a/b.txt", b"new".to_vec());
    fs.add_dir("X");
    fs.set_file("X/keep.txt", b"old".to_vec());
    fs.copy_dir("a", "X");
    // a pre-existing file under the destination that is no copy target stays
    assert_eq!(fs.file_bytes("X/keep.txt"), Some(b"old".to_vec()));
    assert_eq!(fs.file_bytes("X/b.txt"), Some(b"new".to_vec()));
}

#[test]
fn copy_file_fails_on_missing_source() {
    let mut fs = FsModel::new();
    let r = fs.copy_file("nowhere", "dst");
    assert_eq!(r, Err(InstallError::CopyError("nowhere".to_string())));
    assert_eq!(fs.file_bytes("dst"), None);
}

#[test]
fn remove_tree_removes_everything_below() {
    let mut fs = FsModel::new();
    fs.add_dir("s");
    fs.set_file("s/a", b"1".to_vec());
    fs.set_file("s/b/c", b"2".to_vec());
    fs.set_file("other", b"3".to_vec());
    fs.remove_tree("s");
    assert_eq!(fs.file_bytes("s/a"), None);
    assert_eq!(fs.file_bytes("s/b/c"), None);
    assert!(!fs.is_dir("s"));
    assert_eq!(fs.file_bytes("other"), Some(b"3".to_vec()));
}

// One instance for the current platform, format CLAP, one zip download
// holding plugin.clap, one copy action into the CLAP root: the archive is
// fetched once, extracted, the file copied, and the staging removed.
#[test]
fn end_to_end_zip_install() {
    let url = "https://example.com/Plug.zip";
    let plug = plugin_with(vec![simple_instance(
        "CLAP",
        "LINUX",
        vec![DownloadAndCopyFile {
            url: url.to_string(),
            extract: ExtractMethod::Zip,
            copy_actions: vec![CopyAction(
                "%dl%/plugin.clap".to_string(),
                "%plugs%/plugin.clap".to_string(),
            )],
        }],
    )]);
    let web = WebModel { resources: vec![zip_resource(url, vec![("plugin.clap", b"CLAPDATA")])] };
    let mut fs = FsModel::new();
    let report = plug.install("LINUX", &dirs(), &mut fs, &web);
    assert_eq!(report.fetches.len(), 1);
    assert_eq!(report.fetches[0].url, url);
    assert!(report.fetches[0].failure.is_none());
    assert_eq!(report.units.len(), 1);
    assert!(report.units[0].failure.is_none());
    assert!(!report.no_matching_instances);
    assert_eq!(
        fs.file_bytes("/plugs/clap/plugin.clap"),
        Some(b"CLAPDATA".to_vec())
    );
    // the copy executor created the destination's parent directory
    assert!(fs.is_dir("/plugs/clap"));
    // the staging directory is gone
    let staging = slugify(url);
    assert!(!fs.exists_path(&staging));
    assert_eq!(fs.file_bytes(&format!("{}/plugin.clap", staging)), None);
}

// Two instances, only one matching the current platform: only the
// matching one triggers any fetch or copy.
#[test]
fn end_to_end_only_matching_platform_acts() {
    let url_linux = "https://example.com/linux.zip";
    let url_win = "https://example.com/windows.zip";
    let mk = |url: &str| DownloadAndCopyFile {
        url: url.to_string(),
        extract: ExtractMethod::Zip,
        copy_actions: vec![CopyAction(
            "%dl%/p.clap".to_string(),
            "%plugs%/p.clap".to_string(),
        )],
    };
    let plug = plugin_with(vec![
        simple_instance("CLAP", "LINUX", vec![mk(url_linux)]),
        simple_instance("CLAP", "WINDOWS", vec![mk(url_win)]),
    ]);
    // only the matching URL exists in the model network: if the other
    // instance were fetched, its result would appear in the report
    let web = WebModel { resources: vec![zip_resource(url_linux, vec![("p.clap", b"L")])] };
    let mut fs = FsModel::new();
    let report = plug.install("LINUX", &dirs(), &mut fs, &web);
    assert_eq!(report.fetches.len(), 1);
    assert_eq!(report.fetches[0].url, url_linux);
    assert_eq!(report.units.len(), 1);
    assert!(report.units[0].failure.is_none());
    assert_eq!(fs.file_bytes("/plugs/clap/p.clap"), Some(b"L".to_vec()));
}

// A download with extraction mode "none": the response body is written
// verbatim as a single file at the staging path, then copied.
#[test]
fn end_to_end_verbatim_download() {
    let url = "https://example.com/raw.clap";
    let plug = plugin_with(vec![simple_instance(
        "CLAP",
        "LINUX",
        vec![DownloadAndCopyFile {
            url: url.to_string(),
            extract: ExtractMethod::Verbatim,
            copy_actions: vec![CopyAction(
                "%dl%".to_string(),
                "%plugs%/raw.clap".to_string(),
            )],
        }],
    )]);
    let web = WebModel {
        resources: vec![WebResource {
            url: url.to_string(),
            status_ok: true,
            body: b"RAWBYTES".to_vec(),
            archive: None,
        }],
    };
    let mut fs = FsModel::new();
    let report = plug.install("LINUX", &dirs(), &mut fs, &web);
    assert_eq!(report.fetches.len(), 1);
    assert!(report.fetches[0].failure.is_none());
    assert!(report.units[0].failure.is_none());
    assert_eq!(
        fs.file_bytes("/plugs/clap/raw.clap"),
        Some(b"RAWBYTES".to_vec())
    );
}

// A newsletter-gated instance surfaces a manual-action signal carrying
// its URL and produces no fetch, while a sibling instance still installs.
#[test]
fn end_to_end_gated_instance_is_manual_sibling_installs() {
    let url = "https://example.com/free.zip";
    let plug = plugin_with(vec![
        Instance {
            method: DistributionMethod::BehindNewsletter {
                url: "https://example.com/newsletter".to_string(),
            },
            format: "VST3".to_string(),
            platform: "LINUX".to_string(),
            arch: "X86_64".to_string(),
        },
        simple_instance(
            "CLAP",
            "LINUX",
            vec![DownloadAndCopyFile {
                url: url.to_string(),
                extract: ExtractMethod::Zip,
                copy_actions: vec![CopyAction(
                    "%dl%/p.clap".to_string(),
                    "%plugs%/p.clap".to_string(),
                )],
            }],
        ),
    ]);
    let web = WebModel { resources: vec![zip_resource(url, vec![("p.clap", b"OK")])] };
    let mut fs = FsModel::new();
    let report = plug.install("LINUX", &dirs(), &mut fs, &web);
    assert_eq!(report.manual.len(), 1);
    assert_eq!(report.manual[0].format, "VST3");
    assert_eq!(report.manual[0].url, "https://example.com/newsletter");
    assert_eq!(report.fetches.len(), 1);
    assert_eq!(report.fetches[0].url, url);
    assert_eq!(fs.file_bytes("/plugs/clap/p.clap"), Some(b"OK".to_vec()));
}

// One URL referenced by two downloads in one run is fetched exactly once.
#[test]
fn repeated_url_is_fetched_once() {
    let url = "https://example.com/shared.zip";
    let mk = |action: (&str, &str)| DownloadAndCopyFile {
        url: url.to_string(),
        extract: ExtractMethod::Zip,
        copy_actions: vec![CopyAction(action.0.to_string(), action.1.to_string())],
    };
    let plug = plugin_with(vec![simple_instance(
        "CLAP",
        "LINUX",
        vec![
            mk(("%dl%/a.clap", "%plugs%/a.clap")),
            mk(("%dl%/b.clap", "%plugs%/b.clap")),
        ],
    )]);
    let web = WebModel {
        resources: vec![zip_resource(url, vec![("a.clap", b"A"), ("b.clap", b"B")])],
    };
    let mut fs = FsModel::new();
    let report = plug.install("LINUX", &dirs(), &mut fs, &web);
    assert_eq!(report.fetches.len(), 1);
    assert_eq!(report.units.len(), 2);
    assert!(report.units[0].failure.is_none());
    assert!(report.units[1].failure.is_none());
    assert_eq!(fs.file_bytes("/plugs/clap/a.clap"), Some(b"A".to_vec()));
    assert_eq!(fs.file_bytes("/plugs/clap/b.clap"), Some(b"B".to_vec()));
}

#[test]
fn no_matching_instances_is_a_warning_and_a_no_op() {
    let plug = plugin_with(vec![simple_instance("CLAP", "WINDOWS", vec![])]);
    let web = WebModel { resources: vec![] };
    let mut fs = FsModel::new();
    fs.set_file("keep", b"k".to_vec());
    let report = plug.install("LINUX", &dirs(), &mut fs, &web);
    assert!(report.no_matching_instances);
    assert_eq!(report.fetches.len(), 0);
    assert_eq!(report.units.len(), 0);
    assert_eq!(fs.file_bytes("keep"), Some(b"k".to_vec()));
}

// A failing copy action stops that unit's remaining copies and is
// reported with the unit's format tag, while a sibling unit in the same
// run still installs and cleanup still runs.
#[test]
fn failing_copy_stops_its_unit_but_not_siblings() {
    let url = "https://example.com/two.zip";
    let plug = plugin_with(vec![simple_instance(
        "CLAP",
        "LINUX",
        vec![
            DownloadAndCopyFile {
                url: url.to_string(),
                extract: ExtractMethod::Zip,
                copy_actions: vec![
                    CopyAction("%dl%/missing.bin".to_string(), "%plugs%/a".to_string()),
                    CopyAction("%dl%/p.clap".to_string(), "%plugs%/b".to_string()),
                ],
            },
            DownloadAndCopyFile {
                url: url.to_string(),
                extract: ExtractMethod::Zip,
                copy_actions: vec![CopyAction(
                    "%dl%/p.clap".to_string(),
                    "%plugs%/p.clap".to_string(),
                )],
            },
        ],
    )]);
    let web = WebModel { resources: vec![zip_resource(url, vec![("p.clap", b"OK")])] };
    let mut fs = FsModel::new();
    let report = plug.install("LINUX", &dirs(), &mut fs, &web);
    assert_eq!(report.fetches.len(), 1);
    assert_eq!(report.units.len(), 2);
    // the first unit fails at its first copy and runs nothing further
    let staging = slugify(url);
    assert_eq!(
        report.units[0].failure,
        Some(InstallError::CopyError(format!("{}/missing.bin", staging)))
    );
    assert_eq!(report.units[0].format, "CLAP");
    assert_eq!(fs.file_bytes("/plugs/b"), None);
    // the sibling unit still installs, and cleanup still ran
    assert!(report.units[1].failure.is_none());
    assert_eq!(fs.file_bytes("/plugs/clap/p.clap"), Some(b"OK".to_vec()));
    assert!(!fs.exists_path(&staging));
}
