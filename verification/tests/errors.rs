use plugpm::error::InstallError;
use plugpm::fsmodel::FsModel;
use plugpm::installer::stage_download;
use plugpm::installer::WebModel;
use plugpm::installer::WebResource;
use plugpm::manifest::ExtractMethod;
use plugpm::paths::slugify;

fn plain(url: &str, status_ok: bool, body: &[u8]) -> WebResource {
    WebResource { url: url.to_string(), status_ok, body: body.to_vec(), archive: None }
}

#[test]
fn network_error_for_unknown_url() {
    let web = WebModel { resources: vec![] };
    let mut fs = FsModel::new();
    let r = stage_download(&mut fs, &web, "http://a", ExtractMethod::Verbatim, "httpa");
    assert_eq!(r, Err(InstallError::NetworkError));
    assert_eq!(fs.file_bytes("httpa"), None);
}

#[test]
fn http_status_error_for_failed_response() {
    let web = WebModel { resources: vec![plain("http://a", false, b"nope")] };
    let mut fs = FsModel::new();
    let r = stage_download(&mut fs, &web, "http://a", ExtractMethod::Verbatim, "httpa");
    assert_eq!(r, Err(InstallError::HttpStatusError));
}

#[test]
fn archive_error_for_malformed_zip() {
    let web = WebModel { resources: vec![plain("http://a", true, b"not a zip")] };
    let mut fs = FsModel::new();
    let r = stage_download(&mut fs, &web, "http://a", ExtractMethod::Zip, "httpa");
    assert_eq!(r, Err(InstallError::ArchiveError));
    assert_eq!(fs.file_bytes("httpa"), None);
}

#[test]
fn staging_collision_is_refused() {
    let web = WebModel { resources: vec![plain("http://a", true, b"data")] };
    let mut fs = FsModel::new();
    let r1 = stage_download(&mut fs, &web, "http://a", ExtractMethod::Verbatim, "httpa");
    assert_eq!(r1, Ok(()));
    assert_eq!(fs.file_bytes("httpa"), Some(b"data".to_vec()));
    // the staging path exists now; it is never overwritten
    let r2 = stage_download(&mut fs, &web, "http://a", ExtractMethod::Verbatim, "httpa");
    assert_eq!(r2, Err(InstallError::StagingCollision));
}

#[test]
fn distinct_urls_may_slug_to_the_same_staging() {
    // an accepted limitation: both URLs slug to "httpax"
    assert_eq!(slugify("http://a/x"), slugify("http://A/X!"));
}

#[test]
fn messages_describe_each_error() {
    assert_eq!(
        InstallError::UnsupportedFormat.message(),
        "no install path known for this format"
    );
    assert_eq!(
        InstallError::CopyError("a/b".to_string()).message(),
        "copy failed at a/b"
    );
    assert_eq!(
        InstallError::ManifestParseError("bad toml".to_string()).message(),
        "cannot parse manifest: bad toml"
    );
    assert_eq!(InstallError::NetworkError.message(), "network request failed");
    assert_eq!(InstallError::StagingCollision.message(), "staging location already exists");
    assert_eq!(
        InstallError::HttpStatusError.message(),
        "server answered with a non-success status"
    );
    assert_eq!(InstallError::ArchiveError.message(), "malformed archive");
    assert_eq!(InstallError::InvalidPath.message(), "templated path is malformed");
    assert_eq!(
        InstallError::NotImplemented.message(),
        "this distribution method requires manual action"
    );
}

#[test]
fn duplicate_preserves_the_error() {
    let e = InstallError::CopyError("p".to_string());
    assert_eq!(e.duplicate(), e);
    assert_eq!(InstallError::NetworkError.duplicate(), InstallError::NetworkError);
}
