//! The parsed manifest data model: a plugin, its per-platform instances,
//! and the distribution method of each instance.
//!
//! Values of these types are built once from a manifest and are read-only
//! for the duration of one install run.
use vstd::prelude::*;

verus! {

/// One plugin as a manifest declares it.
pub struct Plugin {
    pub name: String,
    pub version: String,
    /// A monotonically increasing integer distinguishing manifest edits.
    pub revision: usize,
    pub website: String,
    pub vendor: String,
    pub licence: String,
    pub categories: Vec<String>,
    pub description: Option<String>,
    /// The declared platform/format variants, in manifest order.
    pub instances: Vec<Instance>,
}

/// One platform/architecture/format combination paired with the method by
/// which its files are obtained.
pub struct Instance {
    pub method: DistributionMethod,
    pub format: String,
    pub platform: String,
    pub arch: String,
}

/// How an instance's files are acquired. Only the direct download-and-copy
/// method is automated; the gated and manual variants carry a reference URL
/// and surface as a manual-action signal.
pub enum DistributionMethod {
    SimpleDownloadAndCopy { downloads: Vec<DownloadAndCopyFile> },
    BehindNewsletter { url: String },
    BehindPayWhatYouWant { url: String },
    ProvidedInstaller { url: String },
}

/// One remote artifact: its URL, how it is unpacked, and the copy actions
/// executed, in order, once it is staged.
pub struct DownloadAndCopyFile {
    pub url: String,
    pub extract: ExtractMethod,
    pub copy_actions: Vec<CopyAction>,
}

/// A (source template, destination template) pair. Order matters: actions
/// run sequentially and a later action may depend on a directory created by
/// an earlier one.
pub struct CopyAction(pub String, pub String);

/// How a staged response body is materialized: written verbatim as one
/// file, or treated as a zip archive and extracted into a directory.
#[derive(Clone, Copy, PartialEq, Eq, Structural, Debug)]
pub enum ExtractMethod {
    Verbatim,
    Zip,
}

/// Whether an instance is declared for the given running platform.
pub open spec fn instance_matches(inst: Instance, platform: Seq<char>) -> bool {
    inst.platform@ == platform
}

/// The downloads an instance declares; empty for the gated variants.
pub open spec fn downloads_of(inst: Instance) -> Seq<DownloadAndCopyFile> {
    match inst.method {
        DistributionMethod::SimpleDownloadAndCopy { downloads } => downloads@,
        _ => Seq::empty(),
    }
}

/// The reference URL of a gated or manual distribution method.
pub open spec fn gated_url(m: DistributionMethod) -> Option<Seq<char>> {
    match m {
        DistributionMethod::SimpleDownloadAndCopy { .. } => None,
        DistributionMethod::BehindNewsletter { url } => Some(url@),
        DistributionMethod::BehindPayWhatYouWant { url } => Some(url@),
        DistributionMethod::ProvidedInstaller { url } => Some(url@),
    }
}

/// Downloads tagged with the format of the instance declaring them.
pub open spec fn tag_downloads(dls: Seq<DownloadAndCopyFile>, fmt: Seq<char>) -> Seq<
    (Seq<char>, DownloadAndCopyFile),
> {
    dls.map_values(|d: DownloadAndCopyFile| (fmt, d))
}

/// All downloads of instances matching the platform, flattened in manifest
/// order, each tagged with its instance's format.
pub open spec fn matching_downloads(instances: Seq<Instance>, platform: Seq<char>) -> Seq<
    (Seq<char>, DownloadAndCopyFile),
>
    decreases instances.len(),
{
    if instances.len() == 0 {
        Seq::empty()
    } else {
        let head = if instance_matches(instances[0], platform) {
            tag_downloads(downloads_of(instances[0]), instances[0].format@)
        } else {
            Seq::empty()
        };
        head + matching_downloads(instances.skip(1), platform)
    }
}

/// All gated instances matching the platform, in manifest order, as
/// (format, reference URL) pairs.
pub open spec fn manual_of(instances: Seq<Instance>, platform: Seq<char>) -> Seq<
    (Seq<char>, Seq<char>),
>
    decreases instances.len(),
{
    if instances.len() == 0 {
        Seq::empty()
    } else {
        let head = if instance_matches(instances[0], platform) && gated_url(
            instances[0].method,
        ) is Some {
            seq![(instances[0].format@, gated_url(instances[0].method)->Some_0)]
        } else {
            Seq::empty()
        };
        head + manual_of(instances.skip(1), platform)
    }
}

/// Whether some matching instance references the URL in one of its downloads.
pub open spec fn references_url(
    instances: Seq<Instance>,
    platform: Seq<char>,
    url: Seq<char>,
) -> bool {
    exists|k: int|
        0 <= k < matching_downloads(instances, platform).len() && #[trigger] matching_downloads(
            instances,
            platform,
        )[k].1.url@ == url
}

/// A plugin on which no instance matches contributes no downloads and no
/// manual actions.
pub proof fn lemma_no_match_nothing_planned(instances: Seq<Instance>, platform: Seq<char>)
    requires
        forall|i: int| 0 <= i < instances.len() ==> !instance_matches(instances[i], platform),
    ensures
        matching_downloads(instances, platform) =~= Seq::<(Seq<char>, DownloadAndCopyFile)>::empty(),
        manual_of(instances, platform) =~= Seq::<(Seq<char>, Seq<char>)>::empty(),
    decreases instances.len(),
{
    if instances.len() > 0 {
        assert(forall|i: int|
            0 <= i < instances.skip(1).len() ==> !instance_matches(
                #[trigger] instances.skip(1)[i],
                platform,
            ));
        lemma_no_match_nothing_planned(instances.skip(1), platform);
    }
}

} // verus!
