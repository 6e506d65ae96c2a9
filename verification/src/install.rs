//! How the editor's extension finds, downloads and starts the server.

use crate::model::opt_text;
use crate::text::{concat3, same_text, texts};
use vstd::prelude::*;
use vstd::string::StringExecFns;

verus! {

/// The operating systems that an editor runs on.
#[derive(Clone, Copy, Debug, PartialEq, Eq, Structural)]
pub enum Os {
    Mac,
    Linux,
    Windows,
}

/// The processors that an editor runs on.
#[derive(Clone, Copy, Debug, PartialEq, Eq, Structural)]
pub enum Architecture {
    Aarch64,
    X86,
    X8664,
}

/// A platform: the system and the processor, and what they are called in messages.
#[derive(Debug)]
pub struct Platform {
    pub os: Os,
    pub arch: Architecture,
    pub os_name: String,
    pub arch_name: String,
}

/// The build of the server for a platform; none if there is none.
pub open spec fn build_for(os: Os, arch: Architecture) -> Option<Seq<char>> {
    match (os, arch) {
        (Os::Mac, Architecture::Aarch64) => Some("aarch64-apple-darwin"@),
        (Os::Mac, Architecture::X8664) => Some("x86_64-apple-darwin"@),
        (Os::Linux, Architecture::X8664) => Some("x86_64-unknown-linux-gnu"@),
        _ => None,
    }
}

/// Why there is no build for a platform.
pub open spec fn no_build_message(os: Os, os_name: Seq<char>, arch_name: Seq<char>) -> Seq<char> {
    if os == Os::Windows {
        "Windows is not yet supported"@
    } else {
        "Unsupported platform/architecture combination: "@ + os_name + "/"@ + arch_name
    }
}

/// The build of the server for a platform.
pub fn release_target(platform: &Platform) -> (r: Result<&'static str, String>)
    ensures
        r is Ok == (build_for(platform.os, platform.arch) is Some),
        r is Ok ==> (r->Ok_0)@ == build_for(platform.os, platform.arch)->0,
        r is Err ==> (r->Err_0)@ == no_build_message(
            platform.os,
            platform.os_name@,
            platform.arch_name@,
        ),
{
    match (platform.os, platform.arch) {
        (Os::Mac, Architecture::Aarch64) => Ok("aarch64-apple-darwin"),
        (Os::Mac, Architecture::X8664) => Ok("x86_64-apple-darwin"),
        (Os::Linux, Architecture::X8664) => Ok("x86_64-unknown-linux-gnu"),
        (Os::Windows, _) => Err("Windows is not yet supported".to_owned()),
        _ => {
            let mut message = "Unsupported platform/architecture combination: ".to_owned();
            message.append(platform.os_name.as_str());
            message.append("/");
            message.append(platform.arch_name.as_str());
            Err(message)
        },
    }
}

/// What is to be installed: the asset of a release, and where its content goes.
#[derive(Debug)]
pub struct Plan {
    pub asset: usize,
    pub asset_name: String,
    pub binary_dir: String,
    pub binary_path: String,
}

/// The name of the asset with a build of a version.
pub open spec fn asset_name(version: Seq<char>, target: Seq<char>) -> Seq<char> {
    "css-lens-"@ + version + "-"@ + target + ".tar.gz"@
}

/// The directory of a version.
pub open spec fn binary_dir(version: Seq<char>) -> Seq<char> {
    "css-lens-"@ + version
}

/// The path of the server of a version.
pub open spec fn binary_path(version: Seq<char>) -> Seq<char> {
    binary_dir(version) + "/css-lens"@
}

/// The index of the first text of a list that equals `name`.
pub open spec fn position_of(list: Seq<Seq<char>>, name: Seq<char>) -> Option<int>
    decreases list.len(),
{
    if list.len() == 0 {
        None
    } else if list[0] == name {
        Some(0)
    } else {
        match position_of(list.skip(1), name) {
            Some(i) => Some(i + 1),
            None => None,
        }
    }
}

/// A list of texts as it appears in a message: in brackets, each quoted and escaped.
pub uninterp spec fn debug_list(list: Seq<Seq<char>>) -> Seq<char>;

/// Formats a list of strings with `{:?}`, `std::fmt::Debug` of `Vec<String>`. The result depends on
/// the texts alone.
#[verifier::external_body]
fn show_list(list: &Vec<String>) -> (r: String)
    ensures
        r@ == debug_list(texts(list@)),
{
    format!("{:?}", list)
}

/// Why a release cannot be installed: it lacks the asset.
pub open spec fn no_asset_message(
    name: Seq<char>,
    version: Seq<char>,
    assets: Seq<char>,
) -> Seq<char> {
    "Asset '"@ + name + "' not found in release "@ + version + ". Available assets: "@ + assets
}

/// Where a text stands in a list.
fn find_text(list: &Vec<String>, name: &str) -> (r: Option<usize>)
    ensures
        r is Some == (position_of(texts(list@), name@) is Some),
        r is Some ==> r->0 == position_of(texts(list@), name@)->0 && r->0 < list@.len(),
{
    let n: usize = list.len();
    let ghost all = texts(list@);
    let mut i: usize = 0;
    proof {
        assert(all.skip(0) =~= all);
    }
    while i < n
        invariant
            i <= n,
            n == list@.len(),
            all == texts(list@),
            position_of(all, name@) is Some == (position_of(all.skip(i as int), name@) is Some),
            position_of(all, name@) is Some ==> position_of(all, name@)->0 == i + position_of(
                all.skip(i as int),
                name@,
            )->0,
        decreases n - i,
    {
        proof {
            assert(all.skip(i as int)[0] == list@[i as int]@);
            assert(all.skip(i as int).skip(1) =~= all.skip(i + 1));
        }
        if same_text(list[i].as_str(), name) {
            return Some(i);
        }
        i = i + 1;
    }
    None
}

/// Decides what to install of a release with a version and named assets on a platform.
pub fn plan_installation(platform: &Platform, version: &str, assets: &Vec<String>) -> (r: Result<
    Plan,
    String,
>)
    ensures
        match build_for(platform.os, platform.arch) {
            None => r is Err && (r->Err_0)@ == no_build_message(
                platform.os,
                platform.os_name@,
                platform.arch_name@,
            ),
            Some(target) => match position_of(texts(assets@), asset_name(version@, target)) {
                None => r is Err && (r->Err_0)@ == no_asset_message(
                    asset_name(version@, target),
                    version@,
                    debug_list(texts(assets@)),
                ),
                Some(i) => r is Ok && (r->Ok_0).asset == i && (r->Ok_0).asset < assets@.len() && (
                r->Ok_0).asset_name@ == asset_name(version@, target) && (r->Ok_0).binary_dir@
                    == binary_dir(version@) && (r->Ok_0).binary_path@ == binary_path(version@),
            },
        },
{
    let target = match release_target(platform) {
        Ok(target) => target,
        Err(message) => {
            return Err(message);
        },
    };
    let mut name = "css-lens-".to_owned();
    name.append(version);
    name.append("-");
    name.append(target);
    name.append(".tar.gz");
    match find_text(assets, name.as_str()) {
        Some(asset) => {
            let mut dir = "css-lens-".to_owned();
            dir.append(version);
            let mut path = dir.clone();
            path.append("/css-lens");
            Ok(Plan { asset, asset_name: name, binary_dir: dir, binary_path: path })
        },
        None => {
            let mut message = "Asset '".to_owned();
            message.append(name.as_str());
            message.append("' not found in release ");
            message.append(version);
            message.append(". Available assets: ");
            message.append(show_list(assets).as_str());
            Err(message)
        },
    }
}

/// The repository of the releases.
pub const REPOSITORY: &'static str = "joshuaerney/css-lens";

/// The release that is asked for where the latest cannot be had.
pub const FALLBACK_TAG: &'static str = "v0.9.0";

/// What the extension does next.
#[derive(Debug)]
pub enum Step {
    /// Ask for the latest release.
    FetchLatest,
    /// Ask for the release with the fallback tag.
    FetchFallback,
    /// Decide what to install of the release that was found.
    Choose,
    /// Look whether the server is there already.
    CheckBinary { plan: Plan },
    /// Download and unpack the asset.
    Download { plan: Plan },
    /// Make the server executable.
    MakeExecutable { plan: Plan },
    /// Start the server.
    Start { path: String },
    /// Give up.
    Fail { message: String },
}

/// How the work of a step came out.
#[derive(Debug)]
pub enum Outcome {
    /// It was done; the server is there, a release was found, a plan could be made.
    Done { plan: Option<Plan> },
    /// It failed, or the server is not there.
    Failed { message: String },
}

/// Whether a step follows from another one and how it came out.
pub open spec fn follows(step: Step, outcome: Outcome, next: Step) -> bool {
    match (step, outcome) {
        (Step::FetchLatest, Outcome::Done { .. }) => next is Choose,
        (Step::FetchLatest, Outcome::Failed { .. }) => next is FetchFallback,
        (Step::FetchFallback, Outcome::Done { .. }) => next is Choose,
        (Step::FetchFallback, Outcome::Failed { message }) => next is Fail && next->message@
            == "Failed to fetch any GitHub release from css-lens (tried latest and v0.9.0): "@
            + message@,
        (Step::Choose, Outcome::Done { plan: Some(plan) }) => next == (Step::CheckBinary { plan }),
        (Step::Choose, Outcome::Failed { message }) => next == (Step::Fail { message }),
        (Step::CheckBinary { plan }, Outcome::Done { .. }) => next == (Step::Start {
            path: plan.binary_path,
        }),
        (Step::CheckBinary { plan }, Outcome::Failed { .. }) => next == (Step::Download { plan }),
        (Step::Download { plan }, Outcome::Done { .. }) => next == (Step::MakeExecutable { plan }),
        (Step::Download { plan }, Outcome::Failed { message }) => next is Fail && next->message@
            == "Failed to download '"@ + plan.asset_name@ + "': "@ + message@,
        (Step::MakeExecutable { plan }, Outcome::Done { .. }) => next == (Step::Start {
            path: plan.binary_path,
        }),
        (Step::MakeExecutable { plan }, Outcome::Failed { message }) => next is Fail
            && next->message@ == "Failed to make '"@ + plan.binary_path@ + "' executable: "@
            + message@,
        _ => next == step,
    }
}

/// What to do next, after a step came out in some way.
pub fn next_step(step: Step, outcome: Outcome) -> (r: Step)
    ensures
        follows(step, outcome, r),
{
    match (step, outcome) {
        (Step::FetchLatest, Outcome::Done { .. }) => Step::Choose,
        (Step::FetchLatest, Outcome::Failed { .. }) => Step::FetchFallback,
        (Step::FetchFallback, Outcome::Done { .. }) => Step::Choose,
        (Step::FetchFallback, Outcome::Failed { message }) => {
            let mut m =
                "Failed to fetch any GitHub release from css-lens (tried latest and v0.9.0): ".to_owned();
            m.append(message.as_str());
            Step::Fail { message: m }
        },
        (Step::Choose, Outcome::Done { plan: Some(plan) }) => Step::CheckBinary { plan },
        (Step::Choose, Outcome::Failed { message }) => Step::Fail { message },
        (Step::CheckBinary { plan }, Outcome::Done { .. }) => Step::Start {
            path: plan.binary_path,
        },
        (Step::CheckBinary { plan }, Outcome::Failed { .. }) => Step::Download { plan },
        (Step::Download { plan }, Outcome::Done { .. }) => Step::MakeExecutable { plan },
        (Step::Download { plan }, Outcome::Failed { message }) => {
            let mut m = concat3("Failed to download '", plan.asset_name.as_str(), "': ");
            m.append(message.as_str());
            Step::Fail { message: m }
        },
        (Step::MakeExecutable { plan }, Outcome::Done { .. }) => Step::Start {
            path: plan.binary_path,
        },
        (Step::MakeExecutable { plan }, Outcome::Failed { message }) => {
            let mut m = concat3("Failed to make '", plan.binary_path.as_str(), "' executable: ");
            m.append(message.as_str());
            Step::Fail { message: m }
        },
        (step, _) => step,
    }
}

/// How many steps may still come.
pub open spec fn steps_left(step: Step) -> nat {
    match step {
        Step::FetchLatest => 6,
        Step::FetchFallback => 5,
        Step::Choose => 4,
        Step::CheckBinary { .. } => 3,
        Step::Download { .. } => 2,
        Step::MakeExecutable { .. } => 1,
        Step::Start { .. } => 0,
        Step::Fail { .. } => 0,
    }
}

/// An installation comes to an end: every outcome of a step leads on, if a choice that was made
/// comes with its plan.
pub proof fn law_installation_ends(step: Step, outcome: Outcome, next: Step)
    requires
        follows(step, outcome, next),
        steps_left(step) > 0,
        step is Choose ==> !(outcome matches Outcome::Done { plan: None }),
    ensures
        steps_left(next) < steps_left(step),
{
}

/// How a completion is shown in the list: the label, and the file it comes from if one is given.
pub open spec fn completion_label(label: Seq<char>, detail: Option<Seq<char>>) -> Seq<char> {
    if detail is None || detail->0.len() == 0 {
        label
    } else {
        label + " — "@ + detail->0
    }
}

/// How a completion is shown in the list, and how many bytes of that are the label, by which the
/// list is filtered.
pub fn label_for_completion(label: &str, detail: &Option<String>) -> (r: (String, u32))
    ensures
        r.0@ == completion_label(label@, opt_text(*detail)),
        r.1 == vstd::utf8::encode_utf8(label@).len() as u32,
{
    let filter_end: u32 = label.as_bytes().len() as u32;
    match detail {
        Some(detail) => if detail.as_str().is_empty() {
            (label.to_owned(), filter_end)
        } else {
            (concat3(label, " — ", detail.as_str()), filter_end)
        },
        None => (label.to_owned(), filter_end),
    }
}

} // verus!
