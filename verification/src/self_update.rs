//! The decisions of `itadori self-update`: which repository and asset, whether
//! to install at all, how a downloaded asset yields the executable, and the
//! order of file operations that swaps the running executable.
use crate::text::{
    chars_of, decimal, decimal_string, ends_with, has_suffix, is_blank, is_blank_str, is_ws,
    strip_leading, strip_trailing, strip_trailing_pattern, str_eq, trim, trim_start_char, trim_ws,
    CharSet,
};
use vstd::prelude::*;

verus! {

/// Options of the `self-update` command.
#[derive(Clone, Debug)]
pub struct SelfUpdateOptions {
    pub repo: Option<String>,
    pub asset: Option<String>,
    pub token: Option<String>,
    pub force: bool,
}

/// A downloadable file of a release.
#[derive(Clone, Debug)]
pub struct ReleaseAsset {
    pub name: String,
    pub url: String,
}

/// Why an update cannot go ahead.
#[derive(Clone, Debug)]
pub enum UpdateError {
    /// The repository is not of the form `owner/repo`.
    InvalidRepo(String),
    /// Neither the command line nor the build names a repository.
    MissingRepo,
}

pub open spec fn update_error_message(e: UpdateError) -> Seq<char> {
    match e {
        UpdateError::InvalidRepo(r) => "repository must use owner/repo format: "@ + r@,
        UpdateError::MissingRepo => "missing update repository; pass --repo owner/repo or build with ITADORI_UPDATE_REPO=owner/repo"@,
    }
}

impl UpdateError {
    /// The text that reports this error.
    pub fn message(&self) -> (m: String)
        ensures
            m@ == update_error_message(*self),
    {
        match self {
            UpdateError::InvalidRepo(r) => "repository must use owner/repo format: ".to_owned().concat(
                r.as_str(),
            ),
            UpdateError::MissingRepo => "missing update repository; pass --repo owner/repo or build with ITADORI_UPDATE_REPO=owner/repo".to_owned(),
        }
    }
}

/// `e` refuses the repository `repo`.
pub open spec fn refuses_repo(e: UpdateError, repo: Seq<char>) -> bool {
    e matches UpdateError::InvalidRepo(t) && t@ == repo
}

/// `owner/repo`: exactly one `/`, with text on both sides.
pub open spec fn valid_repo(s: Seq<char>) -> bool {
    exists|k: int|
        0 < k < s.len() - 1 && s[k] == '/' && forall|j: int|
            0 <= j < s.len() && j != k ==> #[trigger] s[j] != '/'
}

/// Checks that `repo` has the form `owner/repo`.
pub fn validate_repo(repo: &str) -> (r: Result<(), UpdateError>)
    ensures
        r is Ok <==> valid_repo(repo@),
        r matches Err(e) ==> refuses_repo(e, repo@),
{
    let v = chars_of(repo);
    let mut slashes: usize = 0;
    let mut at: usize = 0;
    let mut i: usize = 0;
    while i < v.len()
        invariant
            v@ == repo@,
            i <= v.len(),
            slashes <= i,
            slashes == 0 ==> forall|j: int| 0 <= j < i ==> #[trigger] v@[j] != '/',
            slashes >= 1 ==> at < i && v@[at as int] == '/',
            slashes == 1 ==> forall|j: int| 0 <= j < i && j != at ==> #[trigger] v@[j] != '/',
            slashes >= 2 ==> exists|a: int, b: int|
                0 <= a < b < i && #[trigger] v@[a] == '/' && #[trigger] v@[b] == '/',
        decreases v.len() - i,
    {
        if v[i] == '/' {
            if slashes == 1 {
                assert(v@[at as int] == '/' && v@[i as int] == '/');
            }
            if slashes < 2 {
                slashes = slashes + 1;
            }
            at = i;
        }
        i = i + 1;
    }
    if slashes == 1 && at > 0 && at + 1 < v.len() {
        assert(valid_repo(repo@));
        Ok(())
    } else {
        proof {
            if valid_repo(repo@) {
                let k = choose|k: int|
                    0 < k < repo@.len() - 1 && repo@[k] == '/' && forall|j: int|
                        0 <= j < repo@.len() && j != k ==> #[trigger] repo@[j] != '/';
                if slashes >= 2 {
                    let (a, b) = choose|a: int, b: int|
                        0 <= a < b < v@.len() && #[trigger] v@[a] == '/' && #[trigger] v@[b] == '/';
                    assert(a == k || b == k);
                }
                if slashes == 1 {
                    assert(at == k);
                }
            }
        }
        Err(UpdateError::InvalidRepo(repo.to_owned()))
    }
}

/// `owner/name` is accepted for any owner and name that are not empty and
/// hold no `/`.
pub proof fn lemma_owner_slash_name_accepted(owner: Seq<char>, name: Seq<char>)
    requires
        owner.len() > 0,
        name.len() > 0,
        forall|i: int| 0 <= i < owner.len() ==> owner[i] != '/',
        forall|i: int| 0 <= i < name.len() ==> name[i] != '/',
    ensures
        valid_repo(owner + seq!['/'] + name),
{
    let s = owner + seq!['/'] + name;
    let k = owner.len() as int;
    assert(s[k] == '/');
    assert forall|j: int| 0 <= j < s.len() && j != k implies #[trigger] s[j] != '/' by {
        if j < k {
            assert(s[j] == owner[j]);
        } else {
            assert(s[j] == name[j - k - 1]);
        }
    }
}

/// A text without `/`, or with two of them, is refused.
pub proof fn lemma_repo_needs_exactly_one_slash(s: Seq<char>, a: int, b: int)
    ensures
        (forall|i: int| 0 <= i < s.len() ==> s[i] != '/') ==> !valid_repo(s),
        (0 <= a < b < s.len() && s[a] == '/' && s[b] == '/') ==> !valid_repo(s),
{
    if valid_repo(s) {
        let k = choose|k: int|
            0 < k < s.len() - 1 && s[k] == '/' && forall|j: int|
                0 <= j < s.len() && j != k ==> #[trigger] s[j] != '/';
        assert(s[k] == '/');
        if 0 <= a < b < s.len() && s[a] == '/' && s[b] == '/' {
            assert(a == k || s[a] != '/');
            assert(b == k || s[b] != '/');
        }
    }
}

/// The repository to update from: the one given, else the one built in.
pub fn resolve_repo(repo: Option<String>, built_in: Option<&str>) -> (r: Result<String, UpdateError>)
    ensures
        match repo {
            Some(given) => match r {
                Ok(s) => valid_repo(given@) && s@ == given@,
                Err(e) => !valid_repo(given@) && refuses_repo(e, given@),
            },
            None => match built_in {
                Some(d) => match r {
                    Ok(s) => valid_repo(d@) && s@ == d@,
                    Err(e) => !valid_repo(d@) && refuses_repo(e, d@),
                },
                None => r matches Err(UpdateError::MissingRepo),
            },
        },
{
    match repo {
        Some(given) => {
            match validate_repo(given.as_str()) {
                Ok(()) => Ok(given),
                Err(e) => Err(e),
            }
        },
        None => match built_in {
            Some(d) => match validate_repo(d) {
                Ok(()) => Ok(d.to_owned()),
                Err(e) => Err(e),
            },
            None => Err(UpdateError::MissingRepo),
        },
    }
}

/// A version or release tag without surrounding white space and leading `v`s.
pub open spec fn normalized_version(v: Seq<char>) -> Seq<char> {
    strip_leading(trim_ws(v), CharSet::Only('v'))
}

/// `version.trim().trim_start_matches('v')`.
pub fn normalize_version(version: &str) -> (r: &str)
    ensures
        r@ == normalized_version(version@),
{
    trim_start_char(trim(version), 'v')
}

/// A version written with or without one leading `v` (and no surrounding
/// white space) normalizes to the same text, itself without the `v`.
pub proof fn lemma_leading_v_ignored(x: Seq<char>)
    requires
        x.len() == 0 || (x[0] != 'v' && !is_ws(x[0]) && !is_ws(x.last())),
    ensures
        normalized_version(x) == x,
        normalized_version(seq!['v'] + x) == x,
{
    let vx = seq!['v'] + x;
    assert(!is_ws('v'));
    assert(strip_leading(x, CharSet::Whitespace) == x);
    assert(strip_trailing(x, CharSet::Whitespace) == x);
    assert(strip_leading(vx, CharSet::Whitespace) == vx);
    assert(vx.last() == if x.len() == 0 { 'v' } else { x.last() });
    assert(strip_trailing(vx, CharSet::Whitespace) == vx);
    assert(strip_leading(x, CharSet::Only('v')) == x);
    assert(vx.drop_first() =~= x);
    assert(strip_leading(vx, CharSet::Only('v')) == x);
}

/// Whether to install the latest release: when its version differs from the
/// running one, or when forced.
pub fn should_install(latest_tag: &str, current_version: &str, force: bool) -> (r: bool)
    ensures
        r == (force || normalized_version(latest_tag@) != normalized_version(current_version@)),
{
    force || !str_eq(normalize_version(latest_tag), normalize_version(current_version))
}

/// Position of the first asset called `name`.
pub fn find_asset(assets: &Vec<ReleaseAsset>, name: &str) -> (r: Option<usize>)
    ensures
        match r {
            Some(i) => i < assets@.len() && assets@[i as int].name@ == name@ && forall|j: int|
                0 <= j < i ==> (#[trigger] assets@[j]).name@ != name@,
            None => forall|j: int| 0 <= j < assets@.len() ==> (#[trigger] assets@[j]).name@ != name@,
        },
{
    let mut i: usize = 0;
    while i < assets.len()
        invariant
            i <= assets@.len(),
            forall|j: int| 0 <= j < i ==> (#[trigger] assets@[j]).name@ != name@,
        decreases assets.len() - i,
    {
        if str_eq(assets[i].name.as_str(), name) {
            return Some(i);
        }
        i = i + 1;
    }
    None
}

/// `parts` separated by `sep`.
pub open spec fn join_with(parts: Seq<Seq<char>>, sep: Seq<char>) -> Seq<char>
    decreases parts.len(),
{
    if parts.len() == 0 {
        Seq::empty()
    } else if parts.len() == 1 {
        parts[0]
    } else {
        join_with(parts.drop_last(), sep) + sep + parts.last()
    }
}

pub open spec fn asset_names(assets: Seq<ReleaseAsset>) -> Seq<Seq<char>> {
    assets.map_values(|a: ReleaseAsset| a.name@)
}

/// The names of `assets`, separated by `, `.
pub fn join_asset_names(assets: &Vec<ReleaseAsset>) -> (r: String)
    ensures
        r@ == join_with(asset_names(assets@), ", "@),
{
    let mut r = String::new();
    let ghost names = asset_names(assets@);
    let mut i: usize = 0;
    while i < assets.len()
        invariant
            i <= assets@.len(),
            names == asset_names(assets@),
            r@ == join_with(names.take(i as int), ", "@),
        decreases assets.len() - i,
    {
        assert(names.take(i + 1).drop_last() == names.take(i as int));
        if i > 0 {
            r.append(", ");
        }
        r.append(assets[i].name.as_str());
        assert(names.take(i + 1).last() == assets@[i as int].name@);
        if i == 0 {
            assert(r@ == join_with(names.take(1), ", "@));
        }
        i = i + 1;
    }
    assert(names.take(assets@.len() as int) == names);
    r
}

/// Report for a release that lacks the wanted asset.
pub fn missing_asset_message(tag: &str, asset: &str, assets: &Vec<ReleaseAsset>) -> (m: String)
    ensures
        m@ == "release "@ + tag@ + " does not contain asset "@ + asset@ + "; available assets: "@
            + join_with(asset_names(assets@), ", "@),
{
    let available = join_asset_names(assets);
    "release ".to_owned().concat(tag).concat(" does not contain asset ").concat(asset).concat(
        "; available assets: ",
    ).concat(available.as_str())
}

/// `itadori-<os>-<arch>.tar.gz`, the asset that the release workflow builds.
pub fn default_asset_name(os: &str, arch: &str) -> (r: String)
    ensures
        r@ == "itadori-"@ + os@ + "-"@ + arch@ + ".tar.gz"@,
{
    "itadori-".to_owned().concat(os).concat("-").concat(arch).concat(".tar.gz")
}

/// `s.trim_end_matches(p)` for a string pattern.
pub fn trim_end_pattern<'a>(s: &'a str, p: &str) -> (r: &'a str)
    ensures
        r@ == strip_trailing_pattern(s@, p@),
{
    let v = chars_of(s);
    let pv = chars_of(p);
    if pv.len() == 0 {
        return s;
    }
    let mut k: usize = v.len();
    let mut cur: Vec<char> = chars_of(s);
    assert(v@.take(k as int) == v@);
    while has_suffix(&cur, &pv)
        invariant
            k <= v.len(),
            cur@ == v@.take(k as int),
            pv@ == p@,
            pv@.len() > 0,
            strip_trailing_pattern(s@, p@) == strip_trailing_pattern(cur@, p@),
        decreases k,
    {
        k = k - pv.len();
        let mut next: Vec<char> = Vec::new();
        let mut i: usize = 0;
        while i < k
            invariant
                i <= k <= v.len(),
                next@ == v@.take(i as int),
            decreases k - i,
        {
            next.push(v[i]);
            assert(v@.take(i + 1) == v@.take(i as int).push(v@[i as int]));
            i = i + 1;
        }
        assert(cur@.take(cur@.len() - pv@.len()) == v@.take(k as int));
        cur = next;
    }
    s.substring_char(0, k)
}

/// The executable inside the archive `name.tar.gz` is `name`, for any `name`
/// that does not itself end in `.tar.gz`.
pub proof fn lemma_archive_holds_name(name: Seq<char>)
    requires
        !ends_with(name, ".tar.gz"@),
    ensures
        ends_with(name + ".tar.gz"@, ".tar.gz"@),
        strip_trailing_pattern(name + ".tar.gz"@, ".tar.gz"@) == name,
{
    reveal_strlit(".tar.gz");
    let ext = ".tar.gz"@;
    let full = name + ext;
    assert(full.skip(full.len() - ext.len()) =~= ext);
    assert(full.take(full.len() - ext.len()) =~= name);
    assert(ext.len() > 0);
    assert(strip_trailing_pattern(name, ext) == name);
    assert(strip_trailing_pattern(full, ext) == strip_trailing_pattern(name, ext));
}

/// The executable inside a downloaded asset: for a `.tar.gz` archive the
/// file named like the archive without that extension, after extraction;
/// for any other asset, `None` (the asset is the executable itself).
pub fn archived_binary_name<'a>(asset_name: &'a str) -> (r: Option<&'a str>)
    ensures
        match r {
            Some(b) => ends_with(asset_name@, ".tar.gz"@) && b@ == strip_trailing_pattern(
                asset_name@,
                ".tar.gz"@,
            ),
            None => !ends_with(asset_name@, ".tar.gz"@),
        },
{
    let v = chars_of(asset_name);
    let ext = chars_of(".tar.gz");
    if has_suffix(&v, &ext) {
        Some(trim_end_pattern(asset_name, ".tar.gz"))
    } else {
        None
    }
}

/// The `Authorization` header value for a token: `Bearer <token>` when the
/// token holds more than white space.
pub fn authorization_value(token: Option<&str>) -> (r: Option<String>)
    ensures
        match token {
            Some(t) => if is_blank(t@) {
                r is None
            } else {
                r matches Some(v) && v@ == "Bearer "@ + trim_ws(t@)
            },
            None => r is None,
        },
{
    match token {
        Some(t) => {
            if is_blank_str(t) {
                None
            } else {
                Some("Bearer ".to_owned().concat(trim(t)))
            }
        },
        None => None,
    }
}

/// The GitHub API address of a repository's latest release.
pub fn latest_release_url(repo: &str) -> (u: String)
    ensures
        u@ == "https://api.github.com/repos/"@ + repo@ + "/releases/latest"@,
{
    "https://api.github.com/repos/".to_owned().concat(repo).concat("/releases/latest")
}

/// Name of the scratch directory that process `pid` downloads into.
pub fn update_dir_name(pid: u32) -> (d: String)
    ensures
        d@ == ".itadori-update-"@ + decimal(pid as nat),
{
    let n = decimal_string(pid as u64);
    ".itadori-update-".to_owned().concat(n.as_str())
}

/// How an installation ended, once the scratch directory has been removed
/// (or not).
#[derive(Clone, Copy, Debug, PartialEq, Eq, Structural)]
pub enum InstallReport {
    /// Installed; a scratch directory that could not be removed is ignored.
    Installed,
    /// The installation failed; the scratch directory is gone.
    Failed,
    /// The installation failed, and so did removing the scratch directory.
    FailedAndLeftScratch,
}

/// The report for an installation that ended well (`install_ok`) or not,
/// after removing the scratch directory ended well (`cleanup_ok`) or not.
pub fn install_report(install_ok: bool, cleanup_ok: bool) -> (r: InstallReport)
    ensures
        r == if install_ok {
            InstallReport::Installed
        } else if cleanup_ok {
            InstallReport::Failed
        } else {
            InstallReport::FailedAndLeftScratch
        },
{
    if install_ok {
        InstallReport::Installed
    } else if cleanup_ok {
        InstallReport::Failed
    } else {
        InstallReport::FailedAndLeftScratch
    }
}

/// The file operations that swap the running executable, in order.
#[derive(Clone, Copy, Debug, PartialEq, Eq, Structural)]
pub enum SwapStep {
    /// Remove a replacement left over by an earlier run (if present).
    RemoveStaleReplacement,
    /// Remove a backup left over by an earlier run (if present).
    RemoveStaleBackup,
    /// Copy the candidate next to the executable.
    StageReplacement,
    /// Make the staged copy executable.
    MarkExecutable,
    /// Rename the running executable to the backup name.
    MoveCurrentAside,
    /// Rename the staged copy to the executable's name.
    InstallReplacement,
    /// Rename the backup back to the executable's name.
    RollBack,
    /// Remove the backup (its outcome is ignored).
    DiscardBackup,
}

/// Which operation made the swap fail.
#[derive(Clone, Copy, Debug, PartialEq, Eq, Structural)]
pub enum SwapFailure {
    RemoveStaleReplacement,
    RemoveStaleBackup,
    StageReplacement,
    MarkExecutable,
    MoveCurrentAside,
    /// The replacement could not be installed; the old executable is back.
    Install,
    /// The replacement could not be installed, nor the old executable put back.
    InstallAndRollBack,
}

/// Where the swap stands.
#[derive(Clone, Copy, Debug, PartialEq, Eq, Structural)]
pub enum SwapState {
    Next(SwapStep),
    Done,
    Failed(SwapFailure),
}

pub open spec fn swap_transition(step: SwapStep, ok: bool) -> SwapState {
    match step {
        SwapStep::RemoveStaleReplacement => if ok {
            SwapState::Next(SwapStep::RemoveStaleBackup)
        } else {
            SwapState::Failed(SwapFailure::RemoveStaleReplacement)
        },
        SwapStep::RemoveStaleBackup => if ok {
            SwapState::Next(SwapStep::StageReplacement)
        } else {
            SwapState::Failed(SwapFailure::RemoveStaleBackup)
        },
        SwapStep::StageReplacement => if ok {
            SwapState::Next(SwapStep::MarkExecutable)
        } else {
            SwapState::Failed(SwapFailure::StageReplacement)
        },
        SwapStep::MarkExecutable => if ok {
            SwapState::Next(SwapStep::MoveCurrentAside)
        } else {
            SwapState::Failed(SwapFailure::MarkExecutable)
        },
        SwapStep::MoveCurrentAside => if ok {
            SwapState::Next(SwapStep::InstallReplacement)
        } else {
            SwapState::Failed(SwapFailure::MoveCurrentAside)
        },
        SwapStep::InstallReplacement => if ok {
            SwapState::Next(SwapStep::DiscardBackup)
        } else {
            SwapState::Next(SwapStep::RollBack)
        },
        SwapStep::RollBack => if ok {
            SwapState::Failed(SwapFailure::Install)
        } else {
            SwapState::Failed(SwapFailure::InstallAndRollBack)
        },
        SwapStep::DiscardBackup => SwapState::Done,
    }
}

/// The state after `step` ended well (`ok`) or not.
pub fn swap_next(step: SwapStep, ok: bool) -> (s: SwapState)
    ensures
        s == swap_transition(step, ok),
{
    match step {
        SwapStep::RemoveStaleReplacement => if ok {
            SwapState::Next(SwapStep::RemoveStaleBackup)
        } else {
            SwapState::Failed(SwapFailure::RemoveStaleReplacement)
        },
        SwapStep::RemoveStaleBackup => if ok {
            SwapState::Next(SwapStep::StageReplacement)
        } else {
            SwapState::Failed(SwapFailure::RemoveStaleBackup)
        },
        SwapStep::StageReplacement => if ok {
            SwapState::Next(SwapStep::MarkExecutable)
        } else {
            SwapState::Failed(SwapFailure::StageReplacement)
        },
        SwapStep::MarkExecutable => if ok {
            SwapState::Next(SwapStep::MoveCurrentAside)
        } else {
            SwapState::Failed(SwapFailure::MarkExecutable)
        },
        SwapStep::MoveCurrentAside => if ok {
            SwapState::Next(SwapStep::InstallReplacement)
        } else {
            SwapState::Failed(SwapFailure::MoveCurrentAside)
        },
        SwapStep::InstallReplacement => if ok {
            SwapState::Next(SwapStep::DiscardBackup)
        } else {
            SwapState::Next(SwapStep::RollBack)
        },
        SwapStep::RollBack => if ok {
            SwapState::Failed(SwapFailure::Install)
        } else {
            SwapState::Failed(SwapFailure::InstallAndRollBack)
        },
        SwapStep::DiscardBackup => SwapState::Done,
    }
}

/// The state reached from `step` when the operations end as `outcomes` says.
pub open spec fn swap_run(step: SwapStep, outcomes: Seq<bool>) -> SwapState
    decreases outcomes.len(),
{
    if outcomes.len() == 0 {
        SwapState::Next(step)
    } else {
        match swap_transition(step, outcomes[0]) {
            SwapState::Next(s) => swap_run(s, outcomes.drop_first()),
            other => other,
        }
    }
}

/// Running one more operation after `outcomes` continues from where those
/// left the swap.
pub proof fn lemma_swap_run_push(step: SwapStep, outcomes: Seq<bool>, ok: bool)
    ensures
        swap_run(step, outcomes.push(ok)) == match swap_run(step, outcomes) {
            SwapState::Next(s) => swap_transition(s, ok),
            other => other,
        },
    decreases outcomes.len(),
{
    let longer = outcomes.push(ok);
    if outcomes.len() == 0 {
        assert(longer.drop_first() =~= Seq::<bool>::empty());
        reveal_with_fuel(swap_run, 2);
    } else {
        assert(longer[0] == outcomes[0]);
        assert(longer.drop_first() =~= outcomes.drop_first().push(ok));
        if let SwapState::Next(s) = swap_transition(step, outcomes[0]) {
            lemma_swap_run_push(s, outcomes.drop_first(), ok);
        }
    }
}

/// While every operation succeeds, the swap goes through its operations in
/// this order: remove a stale replacement, remove a stale backup, copy the
/// candidate next to the executable, mark the copy executable, move the
/// running executable aside, install the copy, discard the backup; after the
/// last of these it is done.  So the copy exists before it is marked
/// executable, and both happen before the running executable is moved.
pub proof fn lemma_swap_order(outcomes: Seq<bool>, k: int)
    requires
        0 <= k <= outcomes.len(),
        k <= 7,
        forall|i: int| 0 <= i < k ==> #[trigger] outcomes[i],
    ensures
        swap_run(SwapStep::RemoveStaleReplacement, outcomes.take(k)) == seq![
            SwapState::Next(SwapStep::RemoveStaleReplacement),
            SwapState::Next(SwapStep::RemoveStaleBackup),
            SwapState::Next(SwapStep::StageReplacement),
            SwapState::Next(SwapStep::MarkExecutable),
            SwapState::Next(SwapStep::MoveCurrentAside),
            SwapState::Next(SwapStep::InstallReplacement),
            SwapState::Next(SwapStep::DiscardBackup),
            SwapState::Done,
        ][k],
    decreases k,
{
    if k == 0 {
        assert(outcomes.take(0) =~= Seq::<bool>::empty());
    } else {
        lemma_swap_order(outcomes, k - 1);
        assert(outcomes.take(k) =~= outcomes.take(k - 1).push(outcomes[k - 1]));
        lemma_swap_run_push(SwapStep::RemoveStaleReplacement, outcomes.take(k - 1), outcomes[k - 1]);
    }
}

/// When an operation before the installation fails after all earlier ones
/// succeeded, the swap stops there and names that operation.
pub proof fn lemma_swap_failure_names_operation(outcomes: Seq<bool>, k: int)
    requires
        0 <= k < outcomes.len(),
        k <= 4,
        forall|i: int| 0 <= i < k ==> #[trigger] outcomes[i],
        !outcomes[k],
    ensures
        swap_run(SwapStep::RemoveStaleReplacement, outcomes.take(k + 1)) == SwapState::Failed(
            seq![
                SwapFailure::RemoveStaleReplacement,
                SwapFailure::RemoveStaleBackup,
                SwapFailure::StageReplacement,
                SwapFailure::MarkExecutable,
                SwapFailure::MoveCurrentAside,
            ][k],
        ),
{
    lemma_swap_order(outcomes, k);
    assert(outcomes.take(k + 1) =~= outcomes.take(k).push(outcomes[k]));
    lemma_swap_run_push(SwapStep::RemoveStaleReplacement, outcomes.take(k), outcomes[k]);
}

/// Once the running executable has been moved aside, the swap ends in one of
/// three ways only: done, or failed after an attempt to put the old
/// executable back.
pub proof fn lemma_swap_after_move_aside(outcomes: Seq<bool>)
    ensures
        swap_run(SwapStep::InstallReplacement, outcomes) matches SwapState::Failed(f) ==> f
            == SwapFailure::Install || f == SwapFailure::InstallAndRollBack,
{
    reveal_with_fuel(swap_run, 3);
}

/// Every run of the swap finishes within eight operations.
pub proof fn lemma_swap_finishes(outcomes: Seq<bool>)
    requires
        outcomes.len() >= 8,
    ensures
        !(swap_run(SwapStep::RemoveStaleReplacement, outcomes) is Next),
{
    reveal_with_fuel(swap_run, 9);
}

} // verus!
