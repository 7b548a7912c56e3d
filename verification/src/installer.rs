//! Resolving a plugin into an install plan, and executing plans.
//!
//! A plan holds one fetch per distinct referenced URL, one resolved
//! download unit per declared download of a matching instance, and one
//! manual-action step per gated instance. Plans are executed here against
//! the model filesystem and a model of the network; an unverified front
//! end executes the same plans with real requests and file copies.
use vstd::prelude::*;

use crate::context::Context;
use crate::context::ctx_lookup;
use crate::context::lemma_ctx_lookup_push;
use crate::error::InstallError;
use crate::error::same_error;
use crate::manifest::CopyAction;
use crate::manifest::DistributionMethod;
use crate::manifest::DownloadAndCopyFile;
use crate::manifest::ExtractMethod;
use crate::manifest::Plugin;
use crate::manifest::downloads_of;
use crate::manifest::instance_matches;
use crate::manifest::manual_of;
use crate::manifest::matching_downloads;
use crate::manifest::references_url;
use crate::manifest::tag_downloads;
use crate::fsmodel::FsModel;
use crate::fsmodel::joined;
use crate::fsmodel::lemma_last_slash_lt;
use crate::fsmodel::parent_of;
use crate::fsmodel::parent_seq;
use crate::fsmodel::rel_of;
use crate::fsmodel::remove_rel;
use crate::fsmodel::under;
use crate::fsmodel::under_or_eq;
use crate::paths::InstallDirs;
use crate::paths::process_path;
use crate::paths::slug_of;
use crate::paths::slugify;
use crate::paths::spec_process_path;
use crate::paths::str_eq;

verus! {

/// One entry of an unpacked archive: a relative path and its bytes.
pub struct ArchiveEntry {
    pub path: String,
    pub data: Vec<u8>,
}

/// What the network holds for one URL: the response status, the raw body,
/// and, where the body is a well-formed zip archive, its entries.
pub struct WebResource {
    pub url: String,
    pub status_ok: bool,
    pub body: Vec<u8>,
    pub archive: Option<Vec<ArchiveEntry>>,
}

/// The reachable network, as a model: a URL not listed cannot be fetched.
pub struct WebModel {
    pub resources: Vec<WebResource>,
}

/// The resource a URL resolves to: the first listed one, if any.
pub open spec fn resource_for(rs: Seq<WebResource>, url: Seq<char>) -> Option<WebResource>
    decreases rs.len(),
{
    if rs.len() == 0 {
        None
    } else if rs[0].url@ == url {
        Some(rs[0])
    } else {
        resource_for(rs.skip(1), url)
    }
}

impl WebModel {
    /// The index of the resource serving `url`, if any.
    pub fn find_resource(&self, url: &str) -> (r: Option<usize>)
        ensures
            match r {
                Some(i) => i < self.resources@.len() && resource_for(self.resources@, url@)
                    == Some(self.resources@[i as int]),
                None => resource_for(self.resources@, url@) is None,
            },
    {
        let n = self.resources.len();
        let mut i: usize = 0;
        proof {
            assert(self.resources@.skip(0) =~= self.resources@);
        }
        while i < n
            invariant
                i <= n,
                n == self.resources@.len(),
                resource_for(self.resources@, url@) == resource_for(
                    self.resources@.skip(i as int),
                    url@,
                ),
            decreases n - i,
        {
            proof {
                assert(self.resources@.skip(i as int)[0] == self.resources@[i as int]);
                assert(self.resources@.skip(i as int).skip(1) =~= self.resources@.skip(
                    i as int + 1,
                ));
            }
            if str_eq(self.resources[i].url.as_str(), url) {
                return Some(i);
            }
            i = i + 1;
        }
        proof {
            assert(self.resources@.skip(n as int) =~= Seq::<WebResource>::empty());
        }
        None
    }
}

/// One planned fetch: a distinct URL, the staging path chosen for it, and
/// how the response body is materialized.
pub struct FetchStep {
    pub url: String,
    pub staging: String,
    pub extract: ExtractMethod,
}

/// One resolved copy action: concrete source and destination paths.
pub struct CopyStep {
    pub src: String,
    pub dst: String,
}

/// One declared download of a matching instance, resolved: the templated
/// copy actions up to the first failure, and that failure, if any.
pub struct DownloadPlan {
    pub format: String,
    pub url: String,
    pub staging: String,
    pub copies: Vec<CopyStep>,
    pub failure: Option<InstallError>,
}

/// A gated instance surfaced for manual follow-up.
pub struct ManualStep {
    pub format: String,
    pub url: String,
}

/// Everything one install run will do.
pub struct InstallPlan {
    pub fetches: Vec<FetchStep>,
    pub units: Vec<DownloadPlan>,
    pub manual: Vec<ManualStep>,
    pub no_matching_instances: bool,
    /// The planned fetch URLs, mirrored for specification purposes.
    pub fetch_urls: Ghost<Seq<Seq<char>>>,
}

/// How many leading copy actions template successfully on both sides.
pub open spec fn copies_good_len(
    actions: Seq<CopyAction>,
    dl: Seq<char>,
    fmt: Seq<char>,
    dirs: InstallDirs,
) -> int
    decreases actions.len(),
{
    if actions.len() == 0 {
        0
    } else if spec_process_path(actions[0].0@, dl, fmt, dirs) is Ok && spec_process_path(
        actions[0].1@,
        dl,
        fmt,
        dirs,
    ) is Ok {
        1 + copies_good_len(actions.skip(1), dl, fmt, dirs)
    } else {
        0
    }
}

/// The first templating failure among the copy actions, if any.
pub open spec fn copies_failure(
    actions: Seq<CopyAction>,
    dl: Seq<char>,
    fmt: Seq<char>,
    dirs: InstallDirs,
) -> Option<InstallError>
    decreases actions.len(),
{
    if actions.len() == 0 {
        None
    } else {
        match spec_process_path(actions[0].0@, dl, fmt, dirs) {
            Result::Err(e) => Some(e),
            Result::Ok(_) => match spec_process_path(actions[0].1@, dl, fmt, dirs) {
                Result::Err(e) => Some(e),
                Result::Ok(_) => copies_failure(actions.skip(1), dl, fmt, dirs),
            },
        }
    }
}

/// Whether a planned unit faithfully resolves one declared download.
#[verifier::opaque]
pub open spec fn unit_matches(
    u: DownloadPlan,
    fmt: Seq<char>,
    d: DownloadAndCopyFile,
    dirs: InstallDirs,
) -> bool {
    let dl = u.staging@;
    &&& u.format@ == fmt
    &&& u.url@ == d.url@
    &&& u.staging@ == slug_of(d.url@)
    &&& u.copies@.len() == copies_good_len(d.copy_actions@, dl, fmt, dirs)
    &&& forall|k: int|
        0 <= k < u.copies@.len() ==> spec_process_path(
            (#[trigger] d.copy_actions@[k]).0@,
            dl,
            fmt,
            dirs,
        ) == Result::<Seq<char>, InstallError>::Ok(u.copies@[k].src@) && spec_process_path(
            d.copy_actions@[k].1@,
            dl,
            fmt,
            dirs,
        ) == Result::<Seq<char>, InstallError>::Ok(u.copies@[k].dst@)
    &&& match (u.failure, copies_failure(d.copy_actions@, dl, fmt, dirs)) {
        (Option::None, Option::None) => true,
        (Option::Some(a), Option::Some(b)) => same_error(a, b),
        _ => false,
    }
}

impl DownloadAndCopyFile {
    /// Resolves this download against its staging path: templates every
    /// copy action in order and stops at the first failure.
    pub fn plan_unit(&self, fmt: &str, staging: &str, dirs: &InstallDirs) -> (u: DownloadPlan)
        requires
            staging@ == slug_of(self.url@),
        ensures
            unit_matches(u, fmt@, *self, *dirs),
    {
        proof {
            reveal(unit_matches);
        }
        let ghost acts = self.copy_actions@;
        let ghost dl = staging@;
        let n = self.copy_actions.len();
        let mut copies: Vec<CopyStep> = Vec::new();
        let mut failure: Option<InstallError> = Option::None;
        let mut i: usize = 0;
        proof {
            assert(acts.skip(0) =~= acts);
        }
        while i < n && failure.is_none()
            invariant
                i <= n,
                n == acts.len(),
                acts == self.copy_actions@,
                dl == staging@,
                failure is Some ==> i == n,
                failure is None ==> {
                    &&& copies@.len() == i
                    &&& copies_good_len(acts, dl, fmt@, *dirs) == i + copies_good_len(
                        acts.skip(i as int),
                        dl,
                        fmt@,
                        *dirs,
                    )
                    &&& copies_failure(acts, dl, fmt@, *dirs) == copies_failure(
                        acts.skip(i as int),
                        dl,
                        fmt@,
                        *dirs,
                    )
                },
                failure matches Some(e) ==> {
                    &&& copies@.len() == copies_good_len(acts, dl, fmt@, *dirs)
                    &&& copies_failure(acts, dl, fmt@, *dirs) matches Some(e2) && same_error(e, e2)
                },
                forall|k: int|
                    0 <= k < copies@.len() ==> spec_process_path(
                        (#[trigger] acts[k]).0@,
                        dl,
                        fmt@,
                        *dirs,
                    ) == Result::<Seq<char>, InstallError>::Ok(copies@[k].src@)
                        && spec_process_path(acts[k].1@, dl, fmt@, *dirs) == Result::<
                        Seq<char>,
                        InstallError,
                    >::Ok(copies@[k].dst@),
            decreases n - i,
        {
            proof {
                assert(acts.skip(i as int)[0] == acts[i as int]);
                assert(acts.skip(i as int).skip(1) =~= acts.skip(i as int + 1));
            }
            let action = &self.copy_actions[i];
            match process_path(action.0.as_str(), staging, fmt, dirs) {
                Result::Err(e) => {
                    failure = Option::Some(e);
                    i = n;
                },
                Result::Ok(src) => {
                    match process_path(action.1.as_str(), staging, fmt, dirs) {
                        Result::Err(e) => {
                            failure = Option::Some(e);
                            i = n;
                        },
                        Result::Ok(dst) => {
                            copies.push(CopyStep { src, dst });
                            i = i + 1;
                        },
                    }
                },
            }
        }
        proof {
            if failure is None {
                assert(acts.skip(n as int) =~= Seq::<CopyAction>::empty());
            }
        }
        DownloadPlan {
            format: fmt.to_owned(),
            url: self.url.clone(),
            staging: staging.to_owned(),
            copies,
            failure,
        }
    }
}

/// Whether an archive lists each entry path once, as zip archives do.
pub open spec fn archive_wf(r: WebResource) -> bool {
    match r.archive {
        Some(entries) => forall|k1: int, k2: int|
            0 <= k1 < k2 < entries@.len() ==> (#[trigger] entries@[k1]).path@ != (
            #[trigger] entries@[k2]).path@,
        None => true,
    }
}

/// Whether every listed resource carries a well-formed archive.
pub open spec fn web_wf(w: WebModel) -> bool {
    forall|i: int| 0 <= i < w.resources@.len() ==> archive_wf(#[trigger] w.resources@[i])
}

/// Fetches one URL from the model network and materializes it at the
/// staging path: the raw body as a single file for a plain download, the
/// archive entries below the staging directory for a zip download. An
/// existing staging path is never overwritten.
pub fn stage_download(
    fs: &mut FsModel,
    web: &WebModel,
    url: &str,
    extract: ExtractMethod,
    staging: &str,
) -> (r: Result<(), InstallError>)
    requires
        web_wf(*web),
    ensures
        r is Err ==> final(fs).files@ == old(fs).files@ && final(fs).dirs@ == old(fs).dirs@,
        old(fs).exists_at(staging@) <==> (r matches Err(InstallError::StagingCollision)),
        !old(fs).exists_at(staging@) && resource_for(web.resources@, url@) is None <==> (r matches
            Err(InstallError::NetworkError)),
        (r matches Err(InstallError::HttpStatusError)) <==> (resource_for(web.resources@, url@)
            matches Some(res) && !res.status_ok && !old(fs).exists_at(staging@)),
        (r matches Err(InstallError::ArchiveError)) <==> (resource_for(web.resources@, url@)
            matches Some(res) && res.status_ok && (extract matches ExtractMethod::Zip)
            && res.archive is None && !old(fs).exists_at(staging@)),
        // success is owed whenever nothing above stands in the way
        (resource_for(web.resources@, url@) matches Some(res) && res.status_ok && ((
        extract matches ExtractMethod::Zip) ==> res.archive is Some) && !old(fs).exists_at(
            staging@,
        )) ==> r is Ok,
        stage_rel(url@, extract, staging@, *web, *old(fs), *final(fs), if r is Ok {
            Option::None
        } else {
            Option::Some(r->Err_0)
        }),
        r is Ok ==> (resource_for(web.resources@, url@) matches Some(res) && res.status_ok && {
            match extract {
                ExtractMethod::Verbatim => final(fs).dirs@ == old(fs).dirs@ && forall|
                    q: Seq<char>,
                |
                    final(fs).file_at(q) == if q == staging@ {
                        Some(res.body@)
                    } else {
                        old(fs).file_at(q)
                    },
                ExtractMethod::Zip => res.archive matches Some(entries) && final(fs).has_dir(
                    staging@,
                ) && (forall|k: int|
                    0 <= k < entries@.len() ==> final(fs).file_at(
                        joined(staging@, (#[trigger] entries@[k]).path@),
                    ) == Some(entries@[k].data@)) && (forall|q: Seq<char>|
                    !under_or_eq(q, staging@) ==> final(fs).file_at(q) == old(fs).file_at(q))
                    && (forall|q: Seq<char>| old(fs).has_dir(q) ==> final(fs).has_dir(q)),
            }
        }),
{
    if fs.exists_path(staging) {
        return Result::Err(InstallError::StagingCollision);
    }
    let ri = match web.find_resource(url) {
        Some(i) => i,
        None => {
            return Result::Err(InstallError::NetworkError);
        },
    };
    if !web.resources[ri].status_ok {
        return Result::Err(InstallError::HttpStatusError);
    }
    match extract {
        ExtractMethod::Verbatim => {
            let body = crate::fsmodel::clone_bytes(&web.resources[ri].body);
            fs.set_file(staging, body);
            Result::Ok(())
        },
        ExtractMethod::Zip => {
            match &web.resources[ri].archive {
                Option::None => Result::Err(InstallError::ArchiveError),
                Option::Some(entries) => {
                    let ghost ents = entries@;
                    let ghost fs0 = *fs;
                    fs.add_dir(staging);
                    let ne = entries.len();
                    let mut k: usize = 0;
                    while k < ne
                        invariant
                            k <= ne,
                            ne == ents.len(),
                            ents == entries@,
                            forall|k1: int, k2: int|
                                0 <= k1 < k2 < ents.len() ==> (#[trigger] ents[k1]).path@ != (
                                #[trigger] ents[k2]).path@,
                            fs.has_dir(staging@),
                            forall|x: int|
                                0 <= x < k ==> fs.file_at(
                                    joined(staging@, (#[trigger] ents[x]).path@),
                                ) == Some(ents[x].data@),
                            forall|q: Seq<char>|
                                !under_or_eq(q, staging@) ==> fs.file_at(q) == fs0.file_at(q),
                            forall|q: Seq<char>| fs0.has_dir(q) ==> fs.has_dir(q),
                        decreases ne - k,
                    {
                        let target = crate::fsmodel::join(staging, entries[k].path.as_str());
                        let data = crate::fsmodel::clone_bytes(&entries[k].data);
                        fs.set_file(target.as_str(), data);
                        proof {
                            crate::fsmodel::lemma_joined_under(staging@, ents[k as int].path@);
                            assert forall|x: int|
                                0 <= x < k + 1 implies fs.file_at(
                                joined(staging@, (#[trigger] ents[x]).path@),
                            ) == Some(ents[x].data@) by {
                                crate::fsmodel::lemma_joined_under(staging@, ents[x].path@);
                                if x < k {
                                    assert(ents[x].path@ != ents[k as int].path@);
                                    assert(joined(staging@, ents[x].path@) != joined(
                                        staging@,
                                        ents[k as int].path@,
                                    )) by {
                                        crate::fsmodel::lemma_joined_under(staging@, ents[x].path@);
                                        crate::fsmodel::lemma_joined_under(
                                            staging@,
                                            ents[k as int].path@,
                                        );
                                    }
                                }
                            }
                        }
                        k = k + 1;
                    }
                    Result::Ok(())
                },
            }
        },
    }
}

/// Executes one resolved copy action: creates the destination's missing
/// parent directory, then copies a file or a directory tree. After it
/// runs, the destination's parent directory exists, whether or not it did
/// before.
pub fn run_copy_step(fs: &mut FsModel, step: &CopyStep) -> (r: Result<(), InstallError>)
    ensures
        parent_seq(step.dst@).len() > 0 ==> final(fs).has_dir(parent_seq(step.dst@)),
        r is Ok <==> old(fs).file_at(step.src@) is Some || old(fs).has_dir(step.src@),
        r matches Err(e) ==> e matches InstallError::CopyError(s) && s@ == step.src@,
        r is Err ==> final(fs).files@ == old(fs).files@,
        // a source file is copied byte-identically to the destination
        !old(fs).has_dir(step.src@) && old(fs).file_at(step.src@) is Some ==> forall|
            q: Seq<char>,
        |
            final(fs).file_at(q) == if q == step.dst@ {
                old(fs).file_at(step.src@)
            } else {
                old(fs).file_at(q)
            },
        // a source directory is copied recursively, structure preserved
        old(fs).has_dir(step.src@) ==> {
            &&& forall|q: Seq<char>|
                under(q, step.src@) && old(fs).file_at(q) is Some ==> final(fs).file_at(
                    joined(step.dst@, rel_of(q, step.src@)),
                ) == old(fs).file_at(q)
            &&& forall|q: Seq<char>|
                under(q, step.src@) && old(fs).has_dir(q) ==> final(fs).has_dir(
                    joined(step.dst@, rel_of(q, step.src@)),
                )
            &&& final(fs).has_dir(step.dst@)
            &&& forall|q: Seq<char>|
                under(q, step.dst@) && old(fs).file_at(joined(step.src@, rel_of(q, step.dst@)))
                    is None ==> final(fs).file_at(q) == old(fs).file_at(q)
        },
        // files outside the destination are untouched, directories only grow
        forall|q: Seq<char>|
            !under_or_eq(q, step.dst@) ==> final(fs).file_at(q) == old(fs).file_at(q),
        forall|q: Seq<char>| old(fs).has_dir(q) ==> final(fs).has_dir(q),
        copy_step_rel(step.src@, step.dst@, *old(fs), *final(fs), r),
{
    let src_is_dir = fs.is_dir(step.src.as_str());
    proof {
        lemma_last_slash_lt(step.dst@);
    }
    let par = parent_of(step.dst.as_str());
    if par.as_str().unicode_len() != 0 && !fs.is_dir(par.as_str()) {
        fs.create_dir_all(par.as_str());
    }
    if src_is_dir {
        fs.copy_dir(step.src.as_str(), step.dst.as_str());
        Result::Ok(())
    } else {
        fs.copy_file(step.src.as_str(), step.dst.as_str())
    }
}

/// How one fetch changes the model filesystem: exactly what
/// `stage_download` does, with its outcome.
pub open spec fn stage_rel(
    url: Seq<char>,
    extract: ExtractMethod,
    staging: Seq<char>,
    web: WebModel,
    pre: FsModel,
    post: FsModel,
    failure: Option<InstallError>,
) -> bool {
    &&& failure is Some ==> post.files@ == pre.files@ && post.dirs@ == pre.dirs@
    &&& (pre.exists_at(staging) <==> failure == Some(InstallError::StagingCollision))
    &&& ((!pre.exists_at(staging) && resource_for(web.resources@, url) is None) <==> failure
        == Some(InstallError::NetworkError))
    &&& (failure == Some(InstallError::HttpStatusError) <==> (resource_for(web.resources@, url)
        matches Some(res) && !res.status_ok && !pre.exists_at(staging)))
    &&& (failure == Some(InstallError::ArchiveError) <==> (resource_for(web.resources@, url)
        matches Some(res) && res.status_ok && (extract matches ExtractMethod::Zip)
        && res.archive is None && !pre.exists_at(staging)))
    &&& ((resource_for(web.resources@, url) matches Some(res) && res.status_ok && ((
    extract matches ExtractMethod::Zip) ==> res.archive is Some) && !pre.exists_at(staging))
        ==> failure is None)
    &&& failure is None ==> (resource_for(web.resources@, url) matches Some(res)
        && res.status_ok && {
        match extract {
            ExtractMethod::Verbatim => post.dirs@ == pre.dirs@ && forall|q: Seq<char>|
                post.file_at(q) == if q == staging {
                    Some(res.body@)
                } else {
                    pre.file_at(q)
                },
            ExtractMethod::Zip => res.archive matches Some(entries) && post.has_dir(staging) && (
            forall|k: int|
                0 <= k < entries@.len() ==> post.file_at(
                    joined(staging, (#[trigger] entries@[k]).path@),
                ) == Some(entries@[k].data@)) && (forall|q: Seq<char>|
                !under_or_eq(q, staging) ==> post.file_at(q) == pre.file_at(q)) && (forall|
                q: Seq<char>,
            | pre.has_dir(q) ==> post.has_dir(q)),
        }
    })
}

/// How one copy action changes the model filesystem: exactly what
/// `run_copy_step` does, with its result.
pub open spec fn copy_step_rel(
    src: Seq<char>,
    dst: Seq<char>,
    pre: FsModel,
    post: FsModel,
    r: Result<(), InstallError>,
) -> bool {
    &&& parent_seq(dst).len() > 0 ==> post.has_dir(parent_seq(dst))
    &&& (r is Ok <==> pre.file_at(src) is Some || pre.has_dir(src))
    &&& (r matches Err(e) ==> e matches InstallError::CopyError(s) && s@ == src)
    &&& r is Err ==> post.files@ == pre.files@
    &&& (!pre.has_dir(src) && pre.file_at(src) is Some ==> forall|q: Seq<char>|
        post.file_at(q) == if q == dst {
            pre.file_at(src)
        } else {
            pre.file_at(q)
        })
    &&& (pre.has_dir(src) ==> {
        &&& forall|q: Seq<char>|
            under(q, src) && pre.file_at(q) is Some ==> post.file_at(joined(dst, rel_of(q, src)))
                == pre.file_at(q)
        &&& forall|q: Seq<char>|
            under(q, src) && pre.has_dir(q) ==> post.has_dir(joined(dst, rel_of(q, src)))
        &&& post.has_dir(dst)
        &&& forall|q: Seq<char>|
            under(q, dst) && pre.file_at(joined(src, rel_of(q, dst))) is None ==> post.file_at(q)
                == pre.file_at(q)
    })
    &&& forall|q: Seq<char>| !under_or_eq(q, dst) ==> post.file_at(q) == pre.file_at(q)
    &&& forall|q: Seq<char>| pre.has_dir(q) ==> post.has_dir(q)
}

/// The fetch outcome recorded for a URL: that of the first fetch result
/// naming it, if any.
pub open spec fn fetch_failure_for(frs: Seq<FetchResult>, url: Seq<char>) -> Option<
    Option<InstallError>,
>
    decreases frs.len(),
{
    if frs.len() == 0 {
        None
    } else if frs[0].url@ == url {
        Some(frs[0].failure)
    } else {
        fetch_failure_for(frs.skip(1), url)
    }
}

/// A state trace threading the planned fetches: each step transforms the
/// model filesystem as `stage_rel` says, its outcome recorded.
pub open spec fn fetch_trace_ok(
    fetches: Seq<FetchStep>,
    frs: Seq<FetchResult>,
    web: WebModel,
    tr: Seq<FsModel>,
) -> bool {
    &&& tr.len() == fetches.len() + 1
    &&& frs.len() == fetches.len()
    &&& forall|i: int|
        0 <= i < fetches.len() ==> stage_rel(
            (#[trigger] fetches[i]).url@,
            fetches[i].extract,
            fetches[i].staging@,
            web,
            tr[i],
            tr[i + 1],
            frs[i].failure,
        )
}

/// Executing the planned fetches in order from `pre`, ending at `post`.
pub open spec fn fetches_run(
    fetches: Seq<FetchStep>,
    frs: Seq<FetchResult>,
    web: WebModel,
    pre: FsModel,
    post: FsModel,
) -> bool {
    exists|tr: Seq<FsModel>|
        #[trigger] fetch_trace_ok(fetches, frs, web, tr) && tr[0] == pre && tr[fetches.len() as int]
            == post
}

/// A state trace threading a unit's copies, each succeeding.
pub open spec fn copies_trace_ok(copies: Seq<CopyStep>, tr: Seq<FsModel>) -> bool {
    &&& tr.len() == copies.len() + 1
    &&& forall|i: int|
        0 <= i < copies.len() ==> copy_step_rel(
            (#[trigger] copies[i]).src@,
            copies[i].dst@,
            tr[i],
            tr[i + 1],
            Result::<(), InstallError>::Ok(()),
        )
}

/// Running a unit's copies cleanly, in declared order.
pub open spec fn copies_clean(copies: Seq<CopyStep>, pre: FsModel, post: FsModel) -> bool {
    exists|tr: Seq<FsModel>|
        #[trigger] copies_trace_ok(copies, tr) && tr[0] == pre && tr[copies.len() as int] == post
}

/// Running a unit's copies in declared order, stopping at the first
/// failing copy; later copies do not run.
pub open spec fn copies_run(
    copies: Seq<CopyStep>,
    pre: FsModel,
    post: FsModel,
    failure: Option<InstallError>,
) -> bool {
    match failure {
        Option::None => copies_clean(copies, pre, post),
        Option::Some(e) => exists|c: int, mid: FsModel|
            0 <= c < copies.len() && #[trigger] copies_clean(copies.subrange(0, c), pre, mid)
                && copy_step_rel(
                copies[c].src@,
                copies[c].dst@,
                mid,
                post,
                Result::<(), InstallError>::Err(e),
            ),
    }
}

/// Executing one unit: skipped (reporting the fetch's failure) when its
/// fetch failed, else its copies run and the unit's failure is the first
/// copy failure or, failing none, the unit's templating failure.
pub open spec fn unit_run(
    u: DownloadPlan,
    frs: Seq<FetchResult>,
    pre: FsModel,
    post: FsModel,
    failure: Option<InstallError>,
) -> bool {
    match fetch_failure_for(frs, u.url@) {
        Option::None => post == pre && failure == Some(InstallError::NetworkError),
        Option::Some(ff) => match ff {
            Option::Some(e) => post == pre && (failure matches Some(e2) && same_error(e2, e)),
            Option::None => exists|cf: Option<InstallError>|
                #[trigger] copies_run(u.copies@, pre, post, cf) && match cf {
                    Option::Some(e) => failure == Some(e),
                    Option::None => match (failure, u.failure) {
                        (Option::None, Option::None) => true,
                        (Option::Some(a), Option::Some(b)) => same_error(a, b),
                        _ => false,
                    },
                },
        },
    }
}

/// A state trace threading the planned units.
pub open spec fn unit_trace_ok(
    units: Seq<DownloadPlan>,
    frs: Seq<FetchResult>,
    urs: Seq<UnitResult>,
    tr: Seq<FsModel>,
) -> bool {
    &&& tr.len() == units.len() + 1
    &&& urs.len() == units.len()
    &&& forall|i: int|
        0 <= i < units.len() ==> unit_run(
            #[trigger] units[i],
            frs,
            tr[i],
            tr[i + 1],
            urs[i].failure,
        )
}

/// Executing the planned units in order; a unit's failure never stops its
/// siblings.
pub open spec fn units_run(
    units: Seq<DownloadPlan>,
    frs: Seq<FetchResult>,
    urs: Seq<UnitResult>,
    pre: FsModel,
    post: FsModel,
) -> bool {
    exists|tr: Seq<FsModel>|
        #[trigger] unit_trace_ok(units, frs, urs, tr) && tr[0] == pre && tr[units.len() as int]
            == post
}

/// A state trace threading cleanup: each successfully staged download is
/// removed, failed fetches leave the filesystem alone.
pub open spec fn cleanup_trace_ok(frs: Seq<FetchResult>, tr: Seq<FsModel>) -> bool {
    &&& tr.len() == frs.len() + 1
    &&& forall|i: int|
        0 <= i < frs.len() ==> if (#[trigger] frs[i]).failure is None {
            remove_rel(frs[i].staging@, tr[i], tr[i + 1])
        } else {
            tr[i + 1] == tr[i]
        }
}

/// Cleanup: every successfully staged download is removed, in order.
pub open spec fn cleanup_run(frs: Seq<FetchResult>, pre: FsModel, post: FsModel) -> bool {
    exists|tr: Seq<FsModel>|
        #[trigger] cleanup_trace_ok(frs, tr) && tr[0] == pre && tr[frs.len() as int] == post
}

/// An empty list of fetches leaves the filesystem unchanged.
proof fn lemma_fetches_run_empty(
    fetches: Seq<FetchStep>,
    frs: Seq<FetchResult>,
    web: WebModel,
    pre: FsModel,
)
    requires
        fetches.len() == 0,
        frs.len() == 0,
    ensures
        fetches_run(fetches, frs, web, pre, pre),
{
    assert(fetch_trace_ok(fetches, frs, web, seq![pre]));
}

/// Appending one executed fetch extends the run.
proof fn lemma_fetches_run_snoc(
    fetches: Seq<FetchStep>,
    frs: Seq<FetchResult>,
    web: WebModel,
    pre: FsModel,
    mid: FsModel,
    post: FsModel,
)
    requires
        fetches.len() > 0,
        frs.len() == fetches.len(),
        fetches_run(fetches.drop_last(), frs.drop_last(), web, pre, mid),
        stage_rel(
            fetches.last().url@,
            fetches.last().extract,
            fetches.last().staging@,
            web,
            mid,
            post,
            frs.last().failure,
        ),
    ensures
        fetches_run(fetches, frs, web, pre, post),
{
    let tr0 = choose|tr: Seq<FsModel>|
        #[trigger] fetch_trace_ok(fetches.drop_last(), frs.drop_last(), web, tr) && tr[0] == pre
            && tr[fetches.drop_last().len() as int] == mid;
    let tr = tr0.push(post);
    assert(fetch_trace_ok(fetches, frs, web, tr)) by {
        assert forall|i: int|
            0 <= i < fetches.len() implies stage_rel(
            (#[trigger] fetches[i]).url@,
            fetches[i].extract,
            fetches[i].staging@,
            web,
            tr[i],
            tr[i + 1],
            frs[i].failure,
        ) by {
            if i < fetches.len() - 1 {
                assert(fetches[i] == fetches.drop_last()[i]);
                assert(frs[i] == frs.drop_last()[i]);
                assert(tr[i] == tr0[i]);
                assert(tr[i + 1] == tr0[i + 1]);
            } else {
                assert(fetches[i] == fetches.last());
                assert(frs[i] == frs.last());
                assert(tr[i] == tr0[i]);
                assert(tr0[i] == mid);
                assert(tr[i + 1] == post);
            }
        }
    }
    assert(tr[0] == pre && tr[fetches.len() as int] == post);
}

/// An empty list of copies leaves the filesystem unchanged.
proof fn lemma_copies_clean_empty(copies: Seq<CopyStep>, pre: FsModel)
    requires
        copies.len() == 0,
    ensures
        copies_clean(copies, pre, pre),
{
    assert(copies_trace_ok(copies, seq![pre]));
}

/// Appending one clean copy to a clean run keeps it clean.
proof fn lemma_copies_clean_snoc(copies: Seq<CopyStep>, pre: FsModel, mid: FsModel, post: FsModel)
    requires
        copies.len() > 0,
        copies_clean(copies.drop_last(), pre, mid),
        copy_step_rel(
            copies.last().src@,
            copies.last().dst@,
            mid,
            post,
            Result::<(), InstallError>::Ok(()),
        ),
    ensures
        copies_clean(copies, pre, post),
{
    let tr0 = choose|tr: Seq<FsModel>|
        #[trigger] copies_trace_ok(copies.drop_last(), tr) && tr[0] == pre && tr[copies.drop_last(
        ).len() as int] == mid;
    let tr = tr0.push(post);
    assert(copies_trace_ok(copies, tr)) by {
        assert forall|i: int|
            0 <= i < copies.len() implies copy_step_rel(
            (#[trigger] copies[i]).src@,
            copies[i].dst@,
            tr[i],
            tr[i + 1],
            Result::<(), InstallError>::Ok(()),
        ) by {
            if i < copies.len() - 1 {
                assert(copies[i] == copies.drop_last()[i]);
                assert(tr[i] == tr0[i]);
                assert(tr[i + 1] == tr0[i + 1]);
            } else {
                assert(copies[i] == copies.last());
                assert(tr[i] == tr0[i]);
                assert(tr0[i] == mid);
                assert(tr[i + 1] == post);
            }
        }
    }
    assert(tr[0] == pre && tr[copies.len() as int] == post);
}

/// A clean prefix followed by one failing copy is a stopped run.
proof fn lemma_copies_run_fail(
    copies: Seq<CopyStep>,
    pre: FsModel,
    mid: FsModel,
    post: FsModel,
    c: int,
    e: InstallError,
)
    requires
        0 <= c < copies.len(),
        copies_clean(copies.subrange(0, c), pre, mid),
        copy_step_rel(
            copies[c].src@,
            copies[c].dst@,
            mid,
            post,
            Result::<(), InstallError>::Err(e),
        ),
    ensures
        copies_run(copies, pre, post, Some(e)),
{
}

/// A unit whose fetch succeeded runs exactly its copies.
proof fn lemma_unit_run_copies(
    u: DownloadPlan,
    frs: Seq<FetchResult>,
    pre: FsModel,
    post: FsModel,
    cf: Option<InstallError>,
    failure: Option<InstallError>,
)
    requires
        fetch_failure_for(frs, u.url@) == Some(Option::<InstallError>::None),
        copies_run(u.copies@, pre, post, cf),
        match cf {
            Option::Some(e) => failure == Some(e),
            Option::None => match (failure, u.failure) {
                (Option::None, Option::None) => true,
                (Option::Some(a), Option::Some(b)) => same_error(a, b),
                _ => false,
            },
        },
    ensures
        unit_run(u, frs, pre, post, failure),
{
}

/// An empty list of units leaves the filesystem unchanged.
proof fn lemma_units_run_empty(
    units: Seq<DownloadPlan>,
    frs: Seq<FetchResult>,
    urs: Seq<UnitResult>,
    pre: FsModel,
)
    requires
        units.len() == 0,
        urs.len() == 0,
    ensures
        units_run(units, frs, urs, pre, pre),
{
    assert(unit_trace_ok(units, frs, urs, seq![pre]));
}

/// Appending one executed unit extends the run.
proof fn lemma_units_run_snoc(
    units: Seq<DownloadPlan>,
    frs: Seq<FetchResult>,
    urs: Seq<UnitResult>,
    pre: FsModel,
    mid: FsModel,
    post: FsModel,
)
    requires
        units.len() > 0,
        urs.len() == units.len(),
        units_run(units.drop_last(), frs, urs.drop_last(), pre, mid),
        unit_run(units.last(), frs, mid, post, urs.last().failure),
    ensures
        units_run(units, frs, urs, pre, post),
{
    let tr0 = choose|tr: Seq<FsModel>|
        #[trigger] unit_trace_ok(units.drop_last(), frs, urs.drop_last(), tr) && tr[0] == pre
            && tr[units.drop_last().len() as int] == mid;
    let tr = tr0.push(post);
    assert(unit_trace_ok(units, frs, urs, tr)) by {
        assert forall|i: int|
            0 <= i < units.len() implies unit_run(
            #[trigger] units[i],
            frs,
            tr[i],
            tr[i + 1],
            urs[i].failure,
        ) by {
            if i < units.len() - 1 {
                assert(units[i] == units.drop_last()[i]);
                assert(urs[i] == urs.drop_last()[i]);
                assert(tr[i] == tr0[i]);
                assert(tr[i + 1] == tr0[i + 1]);
            } else {
                assert(units[i] == units.last());
                assert(urs[i] == urs.last());
                assert(tr[i] == tr0[i]);
                assert(tr0[i] == mid);
                assert(tr[i + 1] == post);
            }
        }
    }
    assert(tr[0] == pre && tr[units.len() as int] == post);
}

/// Cleanup over no fetch results leaves the filesystem unchanged.
proof fn lemma_cleanup_run_empty(frs: Seq<FetchResult>, pre: FsModel)
    requires
        frs.len() == 0,
    ensures
        cleanup_run(frs, pre, pre),
{
    assert(cleanup_trace_ok(frs, seq![pre]));
}

/// Appending one cleanup step extends the cleanup.
proof fn lemma_cleanup_run_snoc(frs: Seq<FetchResult>, pre: FsModel, mid: FsModel, post: FsModel)
    requires
        frs.len() > 0,
        cleanup_run(frs.drop_last(), pre, mid),
        if frs.last().failure is None {
            remove_rel(frs.last().staging@, mid, post)
        } else {
            post == mid
        },
    ensures
        cleanup_run(frs, pre, post),
{
    let tr0 = choose|tr: Seq<FsModel>|
        #[trigger] cleanup_trace_ok(frs.drop_last(), tr) && tr[0] == pre && tr[frs.drop_last(
        ).len() as int] == mid;
    let tr = tr0.push(post);
    assert(cleanup_trace_ok(frs, tr)) by {
        assert forall|i: int|
            0 <= i < frs.len() implies if (#[trigger] frs[i]).failure is None {
            remove_rel(frs[i].staging@, tr[i], tr[i + 1])
        } else {
            tr[i + 1] == tr[i]
        } by {
            if i < frs.len() - 1 {
                assert(frs[i] == frs.drop_last()[i]);
                assert(tr[i] == tr0[i]);
                assert(tr[i + 1] == tr0[i + 1]);
            } else {
                assert(frs[i] == frs.last());
                assert(tr[i] == tr0[i]);
                assert(tr0[i] == mid);
                assert(tr[i + 1] == post);
            }
        }
    }
    assert(tr[0] == pre && tr[frs.len() as int] == post);
}

/// The full execution of a plan: fetches, then units, then cleanup.
pub open spec fn plan_run(
    plan: InstallPlan,
    report: InstallReport,
    web: WebModel,
    pre: FsModel,
    post: FsModel,
) -> bool {
    exists|fs1: FsModel, fs2: FsModel|
        fetches_run(plan.fetches@, report.fetches@, web, pre, fs1) && #[trigger] units_run(
            plan.units@,
            report.fetches@,
            report.units@,
            fs1,
            fs2,
        ) && cleanup_run(report.fetches@, fs2, post)
}

/// The outcome of one planned fetch.
pub struct FetchResult {
    pub url: String,
    pub staging: String,
    pub failure: Option<InstallError>,
}

/// The outcome of one download unit, tagged with its instance's format.
pub struct UnitResult {
    pub format: String,
    pub url: String,
    pub failure: Option<InstallError>,
}

/// What one install run came to: per-fetch and per-unit outcomes, the
/// surfaced manual actions, and the no-matching-instances warning.
pub struct InstallReport {
    pub no_matching_instances: bool,
    pub fetches: Vec<FetchResult>,
    pub units: Vec<UnitResult>,
    pub manual: Vec<ManualStep>,
    /// The attempted fetch URLs, mirrored for specification purposes.
    pub fetch_urls: Ghost<Seq<Seq<char>>>,
    /// The executed plan, kept for specification purposes.
    pub plan: Ghost<InstallPlan>,
}

/// The three phases in sequence execute the plan.
proof fn lemma_plan_run(
    plan: InstallPlan,
    report: InstallReport,
    web: WebModel,
    pre: FsModel,
    fs1: FsModel,
    fs2: FsModel,
    post: FsModel,
)
    requires
        fetches_run(plan.fetches@, report.fetches@, web, pre, fs1),
        units_run(plan.units@, report.fetches@, report.units@, fs1, fs2),
        cleanup_run(report.fetches@, fs2, post),
    ensures
        plan_run(plan, report, web, pre, post),
{
}

/// Executes a plan against the model filesystem and network: every fetch
/// once, then each unit's copies in order, stopping at its first failing
/// copy (skipped entirely when its fetch failed), then removal of every
/// successfully staged download. A unit's failure never stops its
/// siblings, and cleanup always runs; `plan_run` ties the report and the
/// final filesystem to this execution.
pub fn apply_plan(plan: &InstallPlan, fs: &mut FsModel, web: &WebModel) -> (report: InstallReport)
    requires
        plan_wf(*plan),
        web_wf(*web),
    ensures
        plan_run(*plan, report, *web, *old(fs), *final(fs)),
        report.plan@ == *plan,
        report.no_matching_instances == plan.no_matching_instances,
        report.fetch_urls@ == plan.fetch_urls@,
        report.fetches@.len() == plan.fetches@.len(),
        forall|fi: int|
            0 <= fi < report.fetches@.len() ==> report.fetches@[fi].url@ == (
            #[trigger] plan.fetch_urls@[fi]) && report.fetches@[fi].staging@
                == plan.fetches@[fi].staging@,
        report.units@.len() == plan.units@.len(),
        forall|k: int|
            0 <= k < report.units@.len() ==> report.units@[k].format@ == (
            #[trigger] plan.units@[k]).format@ && report.units@[k].url@ == plan.units@[k].url@,
        report.manual@.len() == plan.manual@.len(),
        forall|k: int|
            0 <= k < report.manual@.len() ==> report.manual@[k].format@ == (
            #[trigger] plan.manual@[k]).format@ && report.manual@[k].url@ == plan.manual@[k].url@,
        plan.fetches@.len() == 0 && plan.units@.len() == 0 ==> *final(fs) == *old(fs),
{
    let nf = plan.fetches.len();
    let mut fetches: Vec<FetchResult> = Vec::new();
    let mut fi: usize = 0;
    proof {
        assert(plan.fetches@.subrange(0, 0) =~= Seq::<FetchStep>::empty());
        lemma_fetches_run_empty(plan.fetches@.subrange(0, 0), fetches@, *web, *old(fs));
    }
    while fi < nf
        invariant
            fi <= nf,
            nf == plan.fetches@.len(),
            plan_wf(*plan),
            web_wf(*web),
            fetches@.len() == fi,
            forall|x: int|
                0 <= x < fi ==> fetches@[x].url@ == (#[trigger] plan.fetch_urls@[x])
                    && fetches@[x].staging@ == plan.fetches@[x].staging@,
            fetches_run(plan.fetches@.subrange(0, fi as int), fetches@, *web, *old(fs), *fs),
            nf == 0 ==> *fs == *old(fs),
        decreases nf - fi,
    {
        let ghost prestep = *fs;
        let ghost fpre = fetches@;
        let f = &plan.fetches[fi];
        let failure = match stage_download(fs, web, f.url.as_str(), f.extract, f.staging.as_str()) {
            Result::Ok(()) => Option::None,
            Result::Err(e) => Option::Some(e),
        };
        fetches.push(FetchResult { url: f.url.clone(), staging: f.staging.clone(), failure });
        proof {
            assert(plan.fetches@.subrange(0, fi as int + 1).drop_last() =~= plan.fetches@.subrange(
                0,
                fi as int,
            ));
            assert(fetches@.drop_last() =~= fpre);
            assert(plan.fetches@.subrange(0, fi as int + 1).last() == plan.fetches@[fi as int]);
            assert(fetches_run(
                plan.fetches@.subrange(0, fi as int),
                fpre,
                *web,
                *old(fs),
                prestep,
            ));
            assert(stage_rel(
                plan.fetches@[fi as int].url@,
                plan.fetches@[fi as int].extract,
                plan.fetches@[fi as int].staging@,
                *web,
                prestep,
                *fs,
                fetches@.last().failure,
            ));
            lemma_fetches_run_snoc(
                plan.fetches@.subrange(0, fi as int + 1),
                fetches@,
                *web,
                *old(fs),
                prestep,
                *fs,
            );
        }
        fi = fi + 1;
    }
    let ghost fs1 = *fs;
    proof {
        assert(plan.fetches@.subrange(0, nf as int) =~= plan.fetches@);
    }
    let nu = plan.units.len();
    let mut units: Vec<UnitResult> = Vec::new();
    let mut k: usize = 0;
    proof {
        assert(plan.units@.subrange(0, 0) =~= Seq::<DownloadPlan>::empty());
        lemma_units_run_empty(plan.units@.subrange(0, 0), fetches@, units@, fs1);
    }
    while k < nu
        invariant
            k <= nu,
            nu == plan.units@.len(),
            nf == plan.fetches@.len(),
            fetches@.len() == nf,
            units@.len() == k,
            forall|x: int|
                0 <= x < k ==> units@[x].format@ == (#[trigger] plan.units@[x]).format@
                    && units@[x].url@ == plan.units@[x].url@,
            units_run(plan.units@.subrange(0, k as int), fetches@, units@, fs1, *fs),
            nf == 0 && nu == 0 ==> *fs == *old(fs),
        decreases nu - k,
    {
        let ghost upre = *fs;
        let ghost upres = units@;
        let unit = &plan.units[k];
        let mut fr: Option<usize> = Option::None;
        let mut x: usize = 0;
        proof {
            assert(fetches@.skip(0) =~= fetches@);
        }
        while x < nf
            invariant
                x <= nf,
                nf == fetches@.len(),
                fr is Some ==> x == nf,
                fr matches Some(i) ==> i < nf && fetch_failure_for(fetches@, unit.url@) == Some(
                    fetches@[i as int].failure,
                ),
                fr is None ==> fetch_failure_for(fetches@, unit.url@) == fetch_failure_for(
                    fetches@.skip(x as int),
                    unit.url@,
                ),
            decreases nf - x,
        {
            proof {
                assert(fetches@.skip(x as int)[0] == fetches@[x as int]);
                assert(fetches@.skip(x as int).skip(1) =~= fetches@.skip(x as int + 1));
            }
            if str_eq(fetches[x].url.as_str(), unit.url.as_str()) {
                proof {
                    assert(fetch_failure_for(fetches@.skip(x as int), unit.url@) == Some(
                        fetches@[x as int].failure,
                    ));
                }
                fr = Option::Some(x);
                x = nf;
            } else {
                x = x + 1;
            }
        }
        proof {
            if fr is None {
                assert(fetches@.skip(nf as int) =~= Seq::<FetchResult>::empty());
            }
        }
        let failure: Option<InstallError> = match fr {
            Option::None => Option::Some(InstallError::NetworkError),
            Option::Some(i) => {
                match &fetches[i].failure {
                    Option::Some(e) => Option::Some(e.duplicate()),
                    Option::None => {
                        let nc = unit.copies.len();
                        let mut cfail: Option<InstallError> = Option::None;
                        let mut c: usize = 0;
                        proof {
                            assert(unit.copies@.subrange(0, 0) =~= Seq::<CopyStep>::empty());
                            lemma_copies_clean_empty(unit.copies@.subrange(0, 0), upre);
                        }
                        while c < nc && cfail.is_none()
                            invariant
                                c <= nc,
                                nc == unit.copies@.len(),
                                cfail is None ==> copies_clean(
                                    unit.copies@.subrange(0, c as int),
                                    upre,
                                    *fs,
                                ),
                                cfail matches Some(e) ==> copies_run(
                                    unit.copies@,
                                    upre,
                                    *fs,
                                    Some(e),
                                ),
                            decreases nc - c,
                        {
                            let ghost cpre = *fs;
                            match run_copy_step(fs, &unit.copies[c]) {
                                Result::Ok(()) => {
                                    proof {
                                        assert(unit.copies@.subrange(0, c as int + 1).drop_last()
                                            =~= unit.copies@.subrange(0, c as int));
                                        assert(unit.copies@.subrange(0, c as int + 1).last()
                                            == unit.copies@[c as int]);
                                        assert(copies_clean(
                                            unit.copies@.subrange(0, c as int),
                                            upre,
                                            cpre,
                                        ));
                                        assert(copy_step_rel(
                                            unit.copies@[c as int].src@,
                                            unit.copies@[c as int].dst@,
                                            cpre,
                                            *fs,
                                            Result::<(), InstallError>::Ok(()),
                                        ));
                                        lemma_copies_clean_snoc(
                                            unit.copies@.subrange(0, c as int + 1),
                                            upre,
                                            cpre,
                                            *fs,
                                        );
                                    }
                                    c = c + 1;
                                },
                                Result::Err(e) => {
                                    proof {
                                        assert(copies_clean(
                                            unit.copies@.subrange(0, c as int),
                                            upre,
                                            cpre,
                                        ));
                                        assert(copy_step_rel(
                                            unit.copies@[c as int].src@,
                                            unit.copies@[c as int].dst@,
                                            cpre,
                                            *fs,
                                            Result::<(), InstallError>::Err(e),
                                        ));
                                        lemma_copies_run_fail(
                                            unit.copies@,
                                            upre,
                                            cpre,
                                            *fs,
                                            c as int,
                                            e,
                                        );
                                    }
                                    cfail = Option::Some(e);
                                    c = nc;
                                },
                            }
                        }
                        proof {
                            if cfail is None {
                                assert(unit.copies@.subrange(0, nc as int) =~= unit.copies@);
                            }
                        }
                        let uf: Option<InstallError> = match (cfail, &unit.failure) {
                            (Option::Some(e), _) => Option::Some(e),
                            (Option::None, Option::Some(e)) => Option::Some(e.duplicate()),
                            (Option::None, Option::None) => Option::None,
                        };
                        proof {
                            lemma_unit_run_copies(
                                plan.units@[k as int],
                                fetches@,
                                upre,
                                *fs,
                                cfail,
                                uf,
                            );
                        }
                        uf
                    },
                }
            },
        };
        units.push(UnitResult { format: unit.format.clone(), url: unit.url.clone(), failure });
        proof {
            assert(plan.units@.subrange(0, k as int + 1).drop_last() =~= plan.units@.subrange(
                0,
                k as int,
            ));
            assert(units@.drop_last() =~= upres);
            assert(plan.units@.subrange(0, k as int + 1).last() == plan.units@[k as int]);
            assert(units_run(plan.units@.subrange(0, k as int), fetches@, upres, fs1, upre));
            assert(unit_run(plan.units@[k as int], fetches@, upre, *fs, units@.last().failure));
            lemma_units_run_snoc(
                plan.units@.subrange(0, k as int + 1),
                fetches@,
                units@,
                fs1,
                upre,
                *fs,
            );
        }
        k = k + 1;
    }
    let ghost fs2 = *fs;
    proof {
        assert(plan.units@.subrange(0, nu as int) =~= plan.units@);
        assert(fetches@.subrange(0, 0) =~= Seq::<FetchResult>::empty());
        lemma_cleanup_run_empty(fetches@.subrange(0, 0), fs2);
    }
    // cleanup always runs: every successfully staged download is removed
    let mut ci: usize = 0;
    while ci < nf
        invariant
            ci <= nf,
            nf == fetches@.len(),
            cleanup_run(fetches@.subrange(0, ci as int), fs2, *fs),
            nf == 0 && nu == 0 ==> *fs == *old(fs),
        decreases nf - ci,
    {
        let ghost cpre = *fs;
        if fetches[ci].failure.is_none() {
            fs.remove_tree(fetches[ci].staging.as_str());
        }
        proof {
            assert(fetches@.subrange(0, ci as int + 1).drop_last() =~= fetches@.subrange(
                0,
                ci as int,
            ));
            assert(fetches@.subrange(0, ci as int + 1).last() == fetches@[ci as int]);
            assert(cleanup_run(fetches@.subrange(0, ci as int), fs2, cpre));
            if fetches@[ci as int].failure is None {
                assert(remove_rel(fetches@[ci as int].staging@, cpre, *fs));
            } else {
                assert(*fs == cpre);
            }
            lemma_cleanup_run_snoc(fetches@.subrange(0, ci as int + 1), fs2, cpre, *fs);
        }
        ci = ci + 1;
    }
    proof {
        assert(fetches@.subrange(0, nf as int) =~= fetches@);
    }
    let nm = plan.manual.len();
    let mut manual: Vec<ManualStep> = Vec::new();
    let mut mi: usize = 0;
    while mi < nm
        invariant
            mi <= nm,
            nm == plan.manual@.len(),
            manual@.len() == mi,
            forall|x: int|
                0 <= x < mi ==> manual@[x].format@ == (#[trigger] plan.manual@[x]).format@
                    && manual@[x].url@ == plan.manual@[x].url@,
        decreases nm - mi,
    {
        let m = &plan.manual[mi];
        manual.push(ManualStep { format: m.format.clone(), url: m.url.clone() });
        mi = mi + 1;
    }
    let report = InstallReport {
        no_matching_instances: plan.no_matching_instances,
        fetches,
        units,
        manual,
        fetch_urls: Ghost(plan.fetch_urls@),
        plan: Ghost(*plan),
    };
    proof {
        assert(fetches_run(plan.fetches@, report.fetches@, *web, *old(fs), fs1));
        assert(units_run(plan.units@, report.fetches@, report.units@, fs1, fs2));
        assert(cleanup_run(report.fetches@, fs2, *fs));
        lemma_plan_run(*plan, report, *web, *old(fs), fs1, fs2, *fs);
    }
    report
}

/// Whether one of the planned fetch URLs is `u`.
pub open spec fn url_is_fetched(furls: Seq<Seq<char>>, u: Seq<char>) -> bool {
    exists|fi: int| 0 <= fi < furls.len() && #[trigger] furls[fi] == u
}

/// Whether a fetch with the given extraction mode answers the first
/// tagged download naming `u`: some download has that URL and that mode,
/// and no earlier one has the URL.
#[verifier::opaque]
pub open spec fn extract_of_first(
    md: Seq<(Seq<char>, DownloadAndCopyFile)>,
    u: Seq<char>,
    extract: ExtractMethod,
) -> bool {
    exists|k: int|
        0 <= k < md.len() && (#[trigger] md[k]).1.url@ == u && md[k].1.extract == extract && (
        forall|k2: int| 0 <= k2 < k ==> (#[trigger] md[k2]).1.url@ != u)
}

/// Whether one of the tagged downloads names the URL `u`.
pub open spec fn some_download_has_url(
    md: Seq<(Seq<char>, DownloadAndCopyFile)>,
    u: Seq<char>,
) -> bool {
    exists|k: int| 0 <= k < md.len() && (#[trigger] md[k]).1.url@ == u
}

/// What executing a plan relies on: the ghost URL mirror matches the fetch
/// steps, fetch URLs are pairwise distinct, staging names are slugs, and
/// every unit's URL has a fetch step.
pub open spec fn plan_wf(plan: InstallPlan) -> bool {
    &&& plan.fetch_urls@.len() == plan.fetches@.len()
    &&& forall|fi: int|
        0 <= fi < plan.fetches@.len() ==> (#[trigger] plan.fetch_urls@[fi])
            == plan.fetches@[fi].url@ && plan.fetches@[fi].staging@ == slug_of(
            plan.fetch_urls@[fi],
        )
    &&& forall|i1: int, i2: int|
        0 <= i1 < i2 < plan.fetch_urls@.len() ==> plan.fetch_urls@[i1] != plan.fetch_urls@[i2]
    &&& forall|k: int|
        0 <= k < plan.units@.len() ==> url_is_fetched(
            plan.fetch_urls@,
            (#[trigger] plan.units@[k]).url@,
        ) && plan.units@[k].staging@ == slug_of(plan.units@[k].url@)
}

impl Plugin {
    /// Resolves this plugin for the given running platform: selects the
    /// matching instances, deduplicates their download URLs into one fetch
    /// per distinct URL, templates every copy action, and surfaces gated
    /// instances as manual steps. Instances for other platforms contribute
    /// nothing to the plan.
    #[verifier::rlimit(100)]
    #[verifier::loop_isolation(true)]
    pub fn install_plan(&self, platform: &str, dirs: &InstallDirs) -> (plan: InstallPlan)
        ensures
            plan_wf(plan),
            forall|fi: int|
                0 <= fi < plan.fetch_urls@.len() ==> references_url(
                    self.instances@,
                    platform@,
                    #[trigger] plan.fetch_urls@[fi],
                ),
            forall|fi: int|
                0 <= fi < plan.fetch_urls@.len() ==> extract_of_first(
                    matching_downloads(self.instances@, platform@),
                    #[trigger] plan.fetch_urls@[fi],
                    plan.fetches@[fi].extract,
                ),
            forall|u: Seq<char>|
                #[trigger] references_url(self.instances@, platform@, u) ==> url_is_fetched(
                    plan.fetch_urls@,
                    u,
                ),
            plan.units@.len() == matching_downloads(self.instances@, platform@).len(),
            forall|k: int|
                0 <= k < plan.units@.len() ==> unit_matches(
                    plan.units@[k],
                    (#[trigger] matching_downloads(self.instances@, platform@)[k]).0,
                    matching_downloads(self.instances@, platform@)[k].1,
                    *dirs,
                ),
            plan.manual@.len() == manual_of(self.instances@, platform@).len(),
            forall|k: int|
                0 <= k < plan.manual@.len() ==> plan.manual@[k].format@ == (
                #[trigger] manual_of(self.instances@, platform@)[k]).0 && plan.manual@[k].url@
                    == manual_of(self.instances@, platform@)[k].1,
            plan.no_matching_instances <==> (forall|j: int|
                0 <= j < self.instances@.len() ==> !instance_matches(
                    #[trigger] self.instances@[j],
                    platform@,
                )),
    {
        let ghost insts = self.instances@;
        let mut fetches: Vec<FetchStep> = Vec::new();
        let mut units: Vec<DownloadPlan> = Vec::new();
        let mut manual: Vec<ManualStep> = Vec::new();
        let mut ctx = Context::new();
        let mut any_match = false;
        let ghost mut furls: Seq<Seq<char>> = Seq::empty();
        let ghost mut fidx: Seq<int> = Seq::empty();
        let ghost mut md_done: Seq<(Seq<char>, DownloadAndCopyFile)> = Seq::empty();
        let ghost mut man_done: Seq<(Seq<char>, Seq<char>)> = Seq::empty();
        let ni = self.instances.len();
        let mut i: usize = 0;
        proof {
            assert(insts.skip(0) =~= insts);
        }
        while i < ni
            invariant
                i <= ni,
                ni == insts.len(),
                insts == self.instances@,
                matching_downloads(insts, platform@) == md_done + matching_downloads(
                    insts.skip(i as int),
                    platform@,
                ),
                manual_of(insts, platform@) == man_done + manual_of(
                    insts.skip(i as int),
                    platform@,
                ),
                units@.len() == md_done.len(),
                forall|k: int|
                    0 <= k < md_done.len() ==> unit_matches(
                        units@[k],
                        (#[trigger] md_done[k]).0,
                        md_done[k].1,
                        *dirs,
                    ),
                manual@.len() == man_done.len(),
                forall|k: int|
                    0 <= k < man_done.len() ==> manual@[k].format@ == (#[trigger] man_done[k]).0
                        && manual@[k].url@ == man_done[k].1,
                any_match <==> (exists|j: int|
                    0 <= j < i && instance_matches(#[trigger] insts[j], platform@)),
                furls.len() == fetches@.len(),
                forall|fi: int|
                    0 <= fi < furls.len() ==> (#[trigger] furls[fi]) == fetches@[fi].url@
                        && fetches@[fi].staging@ == slug_of(furls[fi]),
                forall|i1: int, i2: int| 0 <= i1 < i2 < furls.len() ==> furls[i1] != furls[i2],
                forall|fi: int|
                    0 <= fi < furls.len() ==> some_download_has_url(md_done, #[trigger] furls[fi]),
                fidx.len() == furls.len(),
                forall|fi: int|
                    0 <= fi < furls.len() ==> 0 <= #[trigger] fidx[fi] < md_done.len()
                        && md_done[fidx[fi]].1.url@ == furls[fi] && md_done[fidx[fi]].1.extract
                        == fetches@[fi].extract,
                forall|fi: int, k2: int|
                    0 <= fi < furls.len() && 0 <= k2 < fidx[fi] ==> (
                    #[trigger] md_done[k2]).1.url@ != #[trigger] furls[fi],
                forall|u: Seq<char>|
                    #[trigger] ctx_lookup(ctx.downloaded@, u) is Some <==> url_is_fetched(furls, u),
                forall|u: Seq<char>|
                    #[trigger] ctx_lookup(ctx.downloaded@, u) matches Some(p) ==> p == slug_of(u),
                forall|k: int|
                    0 <= k < md_done.len() ==> url_is_fetched(furls, (#[trigger] md_done[k]).1.url@),
            decreases ni - i,
        {
            proof {
                assert(insts.skip(i as int)[0] == insts[i as int]);
                assert(insts.skip(i as int).skip(1) =~= insts.skip(i as int + 1));
            }
            let inst = &self.instances[i];
            if str_eq(inst.platform.as_str(), platform) {
                any_match = true;
                match &inst.method {
                    DistributionMethod::SimpleDownloadAndCopy { downloads } => {
                        let ghost dls = downloads@;
                        let ghost fmtv = insts[i as int].format@;
                        proof {
                            assert(downloads_of(insts[i as int]) == dls);
                            assert(manual_of(insts.skip(i as int), platform@) == manual_of(
                                insts.skip(i as int + 1),
                                platform@,
                            ));
                            assert(dls.skip(0) =~= dls);
                            assert(matching_downloads(insts.skip(i as int), platform@)
                                == tag_downloads(dls, fmtv) + matching_downloads(
                                insts.skip(i as int + 1),
                                platform@,
                            ));
                        }
                        let nd = downloads.len();
                        let mut j: usize = 0;
                        while j < nd
                            invariant
                                j <= nd,
                                nd == dls.len(),
                                dls == downloads@,
                                insts == self.instances@,
                                i < insts.len(),
                                fmtv == insts[i as int].format@,
                                fmtv == inst.format@,
                                matching_downloads(insts, platform@) == md_done + tag_downloads(
                                    dls.skip(j as int),
                                    fmtv,
                                ) + matching_downloads(insts.skip(i as int + 1), platform@),
                                manual_of(insts, platform@) == man_done + manual_of(
                                    insts.skip(i as int + 1),
                                    platform@,
                                ),
                                units@.len() == md_done.len(),
                                forall|k: int|
                                    0 <= k < md_done.len() ==> unit_matches(
                                        units@[k],
                                        (#[trigger] md_done[k]).0,
                                        md_done[k].1,
                                        *dirs,
                                    ),
                                manual@.len() == man_done.len(),
                                forall|k: int|
                                    0 <= k < man_done.len() ==> manual@[k].format@ == (
                                    #[trigger] man_done[k]).0 && manual@[k].url@ == man_done[k].1,
                                furls.len() == fetches@.len(),
                                forall|fi: int|
                                    0 <= fi < furls.len() ==> (#[trigger] furls[fi])
                                        == fetches@[fi].url@ && fetches@[fi].staging@ == slug_of(
                                        furls[fi],
                                    ),
                                forall|i1: int, i2: int|
                                    0 <= i1 < i2 < furls.len() ==> furls[i1] != furls[i2],
                                forall|fi: int|
                    0 <= fi < furls.len() ==> some_download_has_url(md_done, #[trigger] furls[fi]),
                fidx.len() == furls.len(),
                forall|fi: int|
                    0 <= fi < furls.len() ==> 0 <= #[trigger] fidx[fi] < md_done.len()
                        && md_done[fidx[fi]].1.url@ == furls[fi] && md_done[fidx[fi]].1.extract
                        == fetches@[fi].extract,
                forall|fi: int, k2: int|
                    0 <= fi < furls.len() && 0 <= k2 < fidx[fi] ==> (
                    #[trigger] md_done[k2]).1.url@ != #[trigger] furls[fi],
                                forall|u: Seq<char>|
                                    #[trigger] ctx_lookup(ctx.downloaded@, u) is Some <==> url_is_fetched(furls, u),
                                forall|u: Seq<char>|
                                    #[trigger] ctx_lookup(ctx.downloaded@, u) matches Some(p) ==> p
                                        == slug_of(u),
                                forall|k: int|
                    0 <= k < md_done.len() ==> url_is_fetched(furls, (#[trigger] md_done[k]).1.url@),
                            decreases nd - j,
                        {
                            proof {
                                assert(tag_downloads(dls.skip(j as int), fmtv) =~= seq![
                                    (fmtv, dls[j as int]),
                                ] + tag_downloads(dls.skip(j as int + 1), fmtv));
                            }
                            let ghost fhead = furls;
                            let ghost fidxhead = fidx;
                            let ghost chead = ctx.downloaded@;
                            let ghost mdhead = md_done;
                            let d = &downloads[j];
                            let staging: String = match ctx.get(d.url.as_str()) {
                                Some(p) => p,
                                None => {
                                    let sl = slugify(d.url.as_str());
                                    let ghost fpre = furls;
                                    fetches.push(
                                        FetchStep {
                                            url: d.url.clone(),
                                            staging: sl.clone(),
                                            extract: d.extract,
                                        },
                                    );
                                    let ghost cpre = ctx.downloaded@;
                                    ctx.insert(d.url.as_str(), sl.as_str());
                                    proof {
                                        furls = furls.push(d.url@);
                                        fidx = fidx.push(mdhead.len() as int);
                                        assert(ctx.downloaded@ == cpre.push(
                                            (ctx.downloaded@.last().0, ctx.downloaded@.last().1),
                                        ));
                                        assert forall|u: Seq<char>|
                                            #[trigger] ctx_lookup(ctx.downloaded@, u) is Some
                                                <==> exists|fi: int|
                                                0 <= fi < furls.len() && furls[fi] == u by {
                                            lemma_ctx_lookup_push(
                                                cpre,
                                                (
                                                    ctx.downloaded@.last().0,
                                                    ctx.downloaded@.last().1,
                                                ),
                                                u,
                                            );
                                            if ctx_lookup(ctx.downloaded@, u) is Some {
                                                if ctx_lookup(cpre, u) is Some {
                                                    let fi = choose|fi: int|
                                                        0 <= fi < fpre.len() && fpre[fi] == u;
                                                    assert(furls[fi] == u);
                                                } else {
                                                    assert(furls[furls.len() - 1] == u);
                                                }
                                            }
                                            if exists|fi: int|
                                                0 <= fi < furls.len() && furls[fi] == u {
                                                let fi = choose|fi: int|
                                                    0 <= fi < furls.len() && furls[fi] == u;
                                                if fi < fpre.len() {
                                                    assert(fpre[fi] == u);
                                                }
                                            }
                                        }
                                        assert forall|u: Seq<char>|
                                            ctx_lookup(ctx.downloaded@, u) is Some
                                                implies ctx_lookup(ctx.downloaded@, u)->Some_0
                                                == slug_of(u) by {
                                            lemma_ctx_lookup_push(
                                                cpre,
                                                (
                                                    ctx.downloaded@.last().0,
                                                    ctx.downloaded@.last().1,
                                                ),
                                                u,
                                            );
                                        }
                                    }
                                    sl
                                },
                            };
                            let u = d.plan_unit(inst.format.as_str(), staging.as_str(), dirs);
                            units.push(u);
                            proof {
                                assert forall|i1: int, i2: int|
                                    0 <= i1 < i2 < furls.len() implies furls[i1] != furls[i2] by {
                                    if i2 < fhead.len() {
                                        assert(furls[i1] == fhead[i1]);
                                        assert(furls[i2] == fhead[i2]);
                                    } else {
                                        assert(furls[i1] == fhead[i1]);
                                        if fhead[i1] == d.url@ {
                                            assert(url_is_fetched(fhead, d.url@));
                                            assert(ctx_lookup(chead, d.url@) is Some);
                                        }
                                    }
                                }
                                md_done = md_done.push((fmtv, dls[j as int]));
                                assert forall|k: int|
                                    0 <= k < md_done.len() implies url_is_fetched(
                                    furls,
                                    (#[trigger] md_done[k]).1.url@,
                                ) by {
                                    if k < md_done.len() - 1 {
                                        assert(md_done[k] == md_done.drop_last()[k]);
                                        assert(url_is_fetched(fhead, md_done[k].1.url@));
                                        let fi = choose|fi: int|
                                            0 <= fi < fhead.len() && #[trigger] fhead[fi]
                                                == md_done[k].1.url@;
                                        assert(furls[fi] == md_done[k].1.url@);
                                    } else {
                                        assert(md_done[k].1.url@ == dls[j as int].url@);
                                        if furls == fhead {
                                            assert(ctx_lookup(chead, d.url@) is Some);
                                            assert(url_is_fetched(fhead, d.url@));
                                        } else {
                                            assert(furls[furls.len() - 1] == d.url@);
                                        }
                                    }
                                }
                                assert forall|fi: int|
                                    0 <= fi < furls.len() implies some_download_has_url(
                                    md_done,
                                    #[trigger] furls[fi],
                                ) by {
                                    if fi < fhead.len() {
                                        assert(furls[fi] == fhead[fi]);
                                        assert(some_download_has_url(mdhead, fhead[fi]));
                                        let k = choose|k: int|
                                            0 <= k < mdhead.len() && (#[trigger] mdhead[k]).1.url@
                                                == fhead[fi];
                                        assert(md_done[k].1.url@ == furls[fi]);
                                    } else {
                                        assert(furls[fi] == d.url@);
                                        assert(md_done[md_done.len() - 1].1.url@ == d.url@);
                                    }
                                }
                                assert forall|fi: int|
                                    0 <= fi < furls.len() implies 0 <= #[trigger] fidx[fi]
                                    < md_done.len() && md_done[fidx[fi]].1.url@ == furls[fi]
                                    && md_done[fidx[fi]].1.extract == fetches@[fi].extract by {
                                    if fi < fhead.len() {
                                        assert(fidx[fi] == fidxhead[fi]);
                                        assert(furls[fi] == fhead[fi]);
                                        assert(md_done[fidx[fi]] == mdhead[fidx[fi]]);
                                    } else {
                                        assert(fidx[fi] == mdhead.len());
                                        assert(furls[fi] == d.url@);
                                        assert(fetches@[fi].extract == d.extract);
                                    }
                                }
                                assert forall|fi: int, k2: int|
                                    0 <= fi < furls.len() && 0 <= k2 < fidx[fi] implies (
                                #[trigger] md_done[k2]).1.url@ != #[trigger] furls[fi] by {
                                    assert(md_done[k2] == mdhead[k2]);
                                    if fi < fhead.len() {
                                        assert(fidx[fi] == fidxhead[fi]);
                                        assert(furls[fi] == fhead[fi]);
                                    } else {
                                        assert(furls[fi] == d.url@);
                                        assert(url_is_fetched(fhead, mdhead[k2].1.url@));
                                        if mdhead[k2].1.url@ == d.url@ {
                                            assert(ctx_lookup(chead, d.url@) is Some);
                                        }
                                    }
                                }
                                assert(matching_downloads(insts, platform@) =~= md_done
                                    + tag_downloads(dls.skip(j as int + 1), fmtv)
                                    + matching_downloads(insts.skip(i as int + 1), platform@));
                                assert forall|k: int|
                                    0 <= k < md_done.len() implies unit_matches(
                                    units@[k],
                                    (#[trigger] md_done[k]).0,
                                    md_done[k].1,
                                    *dirs,
                                ) by {
                                    if k < md_done.len() - 1 {
                                        assert(md_done[k] == md_done.drop_last()[k]);
                                        assert(units@[k] == units@.drop_last()[k]);
                                    }
                                }
                            }
                            j = j + 1;
                        }
                        proof {
                            assert(dls.skip(nd as int) =~= Seq::<DownloadAndCopyFile>::empty());
                            assert(tag_downloads(dls.skip(nd as int), fmtv) =~= Seq::<
                                (Seq<char>, DownloadAndCopyFile),
                            >::empty());
                            assert(matching_downloads(insts, platform@) =~= md_done
                                + matching_downloads(insts.skip(i as int + 1), platform@));
                        }
                    },
                    DistributionMethod::BehindNewsletter { url } => {
                        manual.push(ManualStep { format: inst.format.clone(), url: url.clone() });
                        proof {
                            man_done = man_done.push((insts[i as int].format@, url@));
                            assert(manual_of(insts.skip(i as int), platform@) =~= seq![
                                (insts[i as int].format@, url@),
                            ] + manual_of(insts.skip(i as int + 1), platform@));
                            assert(matching_downloads(insts.skip(i as int), platform@)
                                =~= tag_downloads(
                                Seq::<DownloadAndCopyFile>::empty(),
                                insts[i as int].format@,
                            ) + matching_downloads(insts.skip(i as int + 1), platform@));
                            assert(tag_downloads(
                                Seq::<DownloadAndCopyFile>::empty(),
                                insts[i as int].format@,
                            ) =~= Seq::<(Seq<char>, DownloadAndCopyFile)>::empty());
                        }
                    },
                    DistributionMethod::BehindPayWhatYouWant { url } => {
                        manual.push(ManualStep { format: inst.format.clone(), url: url.clone() });
                        proof {
                            man_done = man_done.push((insts[i as int].format@, url@));
                            assert(manual_of(insts.skip(i as int), platform@) =~= seq![
                                (insts[i as int].format@, url@),
                            ] + manual_of(insts.skip(i as int + 1), platform@));
                            assert(matching_downloads(insts.skip(i as int), platform@)
                                =~= tag_downloads(
                                Seq::<DownloadAndCopyFile>::empty(),
                                insts[i as int].format@,
                            ) + matching_downloads(insts.skip(i as int + 1), platform@));
                            assert(tag_downloads(
                                Seq::<DownloadAndCopyFile>::empty(),
                                insts[i as int].format@,
                            ) =~= Seq::<(Seq<char>, DownloadAndCopyFile)>::empty());
                        }
                    },
                    DistributionMethod::ProvidedInstaller { url } => {
                        manual.push(ManualStep { format: inst.format.clone(), url: url.clone() });
                        proof {
                            man_done = man_done.push((insts[i as int].format@, url@));
                            assert(manual_of(insts.skip(i as int), platform@) =~= seq![
                                (insts[i as int].format@, url@),
                            ] + manual_of(insts.skip(i as int + 1), platform@));
                            assert(matching_downloads(insts.skip(i as int), platform@)
                                =~= tag_downloads(
                                Seq::<DownloadAndCopyFile>::empty(),
                                insts[i as int].format@,
                            ) + matching_downloads(insts.skip(i as int + 1), platform@));
                            assert(tag_downloads(
                                Seq::<DownloadAndCopyFile>::empty(),
                                insts[i as int].format@,
                            ) =~= Seq::<(Seq<char>, DownloadAndCopyFile)>::empty());
                        }
                    },
                }
            } else {
                proof {
                    assert(matching_downloads(insts.skip(i as int), platform@)
                        == matching_downloads(insts.skip(i as int + 1), platform@));
                    assert(manual_of(insts.skip(i as int), platform@) == manual_of(
                        insts.skip(i as int + 1),
                        platform@,
                    ));
                }
            }
            i = i + 1;
        }
        proof {
            assert(insts.skip(ni as int) =~= Seq::<crate::manifest::Instance>::empty());
            assert(matching_downloads(insts, platform@) =~= md_done);
            assert(manual_of(insts, platform@) =~= man_done);
            assert forall|u: Seq<char>|
                #[trigger] references_url(insts, platform@, u) implies url_is_fetched(
                furls,
                u,
            ) by {
                let k = choose|k: int|
                    0 <= k < matching_downloads(insts, platform@).len()
                        && #[trigger] matching_downloads(insts, platform@)[k].1.url@ == u;
                assert(md_done[k].1.url@ == u);
                assert(url_is_fetched(furls, md_done[k].1.url@));
            }
            assert forall|fi: int|
                0 <= fi < furls.len() implies extract_of_first(
                matching_downloads(insts, platform@),
                #[trigger] furls[fi],
                fetches@[fi].extract,
            ) by {
                reveal(extract_of_first);
                let k = fidx[fi];
                assert(0 <= k < md_done.len() && md_done[k].1.url@ == furls[fi]
                    && md_done[k].1.extract == fetches@[fi].extract);
                assert(forall|k2: int|
                    0 <= k2 < k ==> (#[trigger] md_done[k2]).1.url@ != furls[fi]);
            }
            assert forall|fi: int|
                0 <= fi < furls.len() implies references_url(
                insts,
                platform@,
                #[trigger] furls[fi],
            ) by {
                assert(some_download_has_url(md_done, furls[fi]));
                let k = choose|k: int|
                    0 <= k < md_done.len() && (#[trigger] md_done[k]).1.url@ == furls[fi];
                assert(matching_downloads(insts, platform@)[k].1.url@ == furls[fi]);
            }
            assert forall|k: int|
                0 <= k < units@.len() implies url_is_fetched(
                furls,
                (#[trigger] units@[k]).url@,
            ) && units@[k].staging@ == slug_of(units@[k].url@) by {
                reveal(unit_matches);
                assert(unit_matches(units@[k], md_done[k].0, md_done[k].1, *dirs));
                assert(units@[k].url@ == md_done[k].1.url@);
                assert(url_is_fetched(furls, md_done[k].1.url@));
            }
        }
        InstallPlan {
            fetches,
            units,
            manual,
            no_matching_instances: !any_match,
            fetch_urls: Ghost(furls),
        }
    }

    /// Installs this plugin on the given platform against the model
    /// filesystem and network: plans, fetches each distinct URL once,
    /// copies, surfaces manual actions, and cleans up staged downloads.
    ///
    /// Instances whose platform does not match contribute nothing: with no
    /// matching instance at all, the filesystem is left untouched and the
    /// report only carries the warning.
    pub fn install(
        &self,
        platform: &str,
        dirs: &InstallDirs,
        fs: &mut FsModel,
        web: &WebModel,
    ) -> (report: InstallReport)
        requires
            web_wf(*web),
        ensures
            report.fetches@.len() == report.fetch_urls@.len(),
            forall|fi: int|
                0 <= fi < report.fetches@.len() ==> report.fetches@[fi].url@ == (
                #[trigger] report.fetch_urls@[fi]),
            forall|i1: int, i2: int|
                0 <= i1 < i2 < report.fetch_urls@.len() ==> report.fetch_urls@[i1]
                    != report.fetch_urls@[i2],
            forall|fi: int|
                0 <= fi < report.fetch_urls@.len() ==> references_url(
                    self.instances@,
                    platform@,
                    #[trigger] report.fetch_urls@[fi],
                ),
            forall|u: Seq<char>|
                #[trigger] references_url(self.instances@, platform@, u) ==> url_is_fetched(
                    report.fetch_urls@,
                    u,
                ),
            plan_wf(report.plan@),
            plan_run(report.plan@, report, *web, *old(fs), *final(fs)),
            report.plan@.units@.len() == matching_downloads(self.instances@, platform@).len(),
            forall|k: int|
                0 <= k < report.plan@.units@.len() ==> unit_matches(
                    report.plan@.units@[k],
                    (#[trigger] matching_downloads(self.instances@, platform@)[k]).0,
                    matching_downloads(self.instances@, platform@)[k].1,
                    *dirs,
                ),
            report.units@.len() == matching_downloads(self.instances@, platform@).len(),
            forall|k: int|
                0 <= k < report.units@.len() ==> report.units@[k].format@ == (
                #[trigger] matching_downloads(self.instances@, platform@)[k]).0
                    && report.units@[k].url@ == matching_downloads(
                    self.instances@,
                    platform@,
                )[k].1.url@,
            report.manual@.len() == manual_of(self.instances@, platform@).len(),
            forall|k: int|
                0 <= k < report.manual@.len() ==> report.manual@[k].format@ == (
                #[trigger] manual_of(self.instances@, platform@)[k]).0 && report.manual@[k].url@
                    == manual_of(self.instances@, platform@)[k].1,
            report.no_matching_instances <==> (forall|j: int|
                0 <= j < self.instances@.len() ==> !instance_matches(
                    #[trigger] self.instances@[j],
                    platform@,
                )),
            (forall|j: int|
                0 <= j < self.instances@.len() ==> !instance_matches(
                    #[trigger] self.instances@[j],
                    platform@,
                )) ==> *final(fs) == *old(fs) && report.fetches@.len() == 0 && report.units@.len()
                == 0 && report.manual@.len() == 0,
    {
        let plan = self.install_plan(platform, dirs);
        proof {
            if forall|j: int|
                0 <= j < self.instances@.len() ==> !instance_matches(
                    #[trigger] self.instances@[j],
                    platform@,
                ) {
                crate::manifest::lemma_no_match_nothing_planned(self.instances@, platform@);
                if plan.fetch_urls@.len() > 0 {
                    assert(references_url(self.instances@, platform@, plan.fetch_urls@[0]));
                }
            }
        }
        let report = apply_plan(&plan, fs, web);
        proof {
            assert forall|k: int|
                0 <= k < report.units@.len() implies report.units@[k].format@ == (
            #[trigger] matching_downloads(self.instances@, platform@)[k]).0
                && report.units@[k].url@ == matching_downloads(
                self.instances@,
                platform@,
            )[k].1.url@ by {
                reveal(unit_matches);
                assert(unit_matches(
                    plan.units@[k],
                    matching_downloads(self.instances@, platform@)[k].0,
                    matching_downloads(self.instances@, platform@)[k].1,
                    *dirs,
                ));
            }
        }
        report
    }
}

} // verus!
