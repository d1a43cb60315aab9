//! What is asked of the Azure CLI, and what its answers mean.
//!
//! The CLI itself is run elsewhere; a run is handed in as a [`Ran`].

use crate::json::{
    members, object_model, parse, parsed, parsed_texts, texts_of_json, Json, JsonV,
};
use crate::loganalytics::outcome_view;
use crate::order::{
    arrange, arranged, arranged_multiset, arranged_views, order, order_is_stable, precedes, Rank,
    RankV,
};
use crate::text::{
    alnum, ascii_lowered, byte_len, bytes_in, cat2, cat3, cat6, chars_of, contains, holds, is_alnum,
    lowercase, lowered, same_ignoring_case, same_letters, text_less, trim, trimmed, views, Text,
};
use vstd::prelude::*;

verus! {

/// How a run of the CLI went.
#[derive(Debug, PartialEq)]
pub enum Ran {
    Finished { ok: bool, stdout: String, stderr: String },
    /// It could not be run; `missing` when there is no such program.
    NotRun { missing: bool, message: String },
}

/// The account that `az account show` names.
#[derive(Debug, PartialEq)]
pub struct AzAccount {
    pub name: String,
    pub id: String,
}

#[derive(Debug, PartialEq)]
pub enum AzLoginState {
    LoggedIn { account: String, subscription_id: String },
    /// There was a session, and the CLI says that it has expired.
    Expired { account: String, message: String },
    NotLoggedIn,
    AzNotFound,
}

#[verifier::ext_equal]
pub ghost enum LoginV {
    LoggedIn { account: Text, subscription_id: Text },
    Expired { account: Text, message: Text },
    NotLoggedIn,
    AzNotFound,
}

impl View for AzLoginState {
    type V = LoginV;

    open spec fn view(&self) -> LoginV {
        match self {
            AzLoginState::LoggedIn { account, subscription_id } => LoginV::LoggedIn {
                account: account@,
                subscription_id: subscription_id@,
            },
            AzLoginState::Expired { account, message } => LoginV::Expired {
                account: account@,
                message: message@,
            },
            AzLoginState::NotLoggedIn => LoginV::NotLoggedIn,
            AzLoginState::AzNotFound => LoginV::AzNotFound,
        }
    }
}

/// Whether a failed run says that the session has expired. The CLI has no
/// code for it, only words.
pub open spec fn tells_of_expiry(stderr: Text) -> bool {
    holds(lowered(stderr), "expired"@)
}

fn is_expiry(stderr: &str) -> (r: bool)
    ensures
        r == tells_of_expiry(stderr@),
{
    contains(lowercase(stderr).as_str(), "expired")
}

/// Whether someone is signed in, given how a run of `az account show` went
/// and the account read from what it printed.
pub open spec fn login_state(ran: Ran, account: Option<AzAccount>) -> LoginV {
    match ran {
        Ran::Finished { ok, stdout, stderr } => if ok {
            match account {
                Some(a) => LoginV::LoggedIn { account: a.name@, subscription_id: a.id@ },
                None => LoginV::NotLoggedIn,
            }
        } else if tells_of_expiry(stderr@) {
            LoginV::Expired {
                account: match account {
                    Some(a) => a.name@,
                    None => Seq::empty(),
                },
                message: trimmed(stderr@),
            }
        } else {
            LoginV::NotLoggedIn
        },
        Ran::NotRun { missing, message } => if missing {
            LoginV::AzNotFound
        } else {
            LoginV::NotLoggedIn
        },
    }
}

/// Whether someone is signed in, from a run of `az account show` and the
/// account read from what it printed, if one could be.
pub fn check_login(ran: &Ran, account: Option<AzAccount>) -> (r: AzLoginState)
    ensures
        r@ == login_state(*ran, account),
{
    match ran {
        Ran::Finished { ok, stderr, .. } => if *ok {
            match account {
                Some(a) => AzLoginState::LoggedIn { account: a.name, subscription_id: a.id },
                None => AzLoginState::NotLoggedIn,
            }
        } else if is_expiry(stderr.as_str()) {
            let name = match account {
                Some(a) => a.name,
                None => {
                    let none: String = String::new();
                    assert(none@ =~= Seq::empty());
                    none
                },
            };
            AzLoginState::Expired { account: name, message: trim(stderr.as_str()) }
        } else {
            AzLoginState::NotLoggedIn
        },
        Ran::NotRun { missing, .. } => if *missing {
            AzLoginState::AzNotFound
        } else {
            AzLoginState::NotLoggedIn
        },
    }
}

pub open spec fn text_result(r: Result<String, String>) -> Result<Text, Text> {
    match r {
        Ok(s) => Ok(s@),
        Err(e) => Err(e@),
    }
}

pub open spec fn unit_result(r: Result<(), String>) -> Result<(), Text> {
    match r {
        Ok(_) => Ok(()),
        Err(e) => Err(e@),
    }
}

/// What starting `az login` amounts to, given why it could not be started.
pub fn open_login(failure: Option<Ran>) -> (r: Result<(), String>)
    ensures
        unit_result(r) == match failure {
            Some(Ran::NotRun { missing, message }) => Err(
                if missing {
                    "Azure CLI ('az') not found on PATH."@
                } else {
                    "Failed to start 'az login': "@ + message@
                },
            ),
            _ => Ok(()),
        },
{
    match failure {
        Some(Ran::NotRun { missing, message }) => if missing {
            Err("Azure CLI ('az') not found on PATH.".to_owned())
        } else {
            Err(cat2("Failed to start 'az login': ", message.as_str()))
        },
        _ => Ok(()),
    }
}

/// What a run printed, or why there is nothing: `what` says what failed when
/// it could not be run, and a run that failed says so itself.
pub open spec fn printed(ran: Ran, what: Text) -> Result<Text, Text> {
    match ran {
        Ran::NotRun { missing, message } => Err(what + " failed: "@ + message@),
        Ran::Finished { ok, stdout, stderr } => if ok {
            Ok(stdout@)
        } else {
            Err(trimmed(stderr@))
        },
    }
}

fn output_of(ran: &Ran, what: &str) -> (r: Result<String, String>)
    ensures
        text_result(r) == printed(*ran, what@),
{
    match ran {
        Ran::NotRun { message, .. } => Err(cat3(what, " failed: ", message.as_str())),
        Ran::Finished { ok, stdout, stderr } => if *ok {
            Ok(stdout.clone())
        } else {
            Err(trim(stderr.as_str()))
        },
    }
}

// ── Subscriptions and workspaces ──────────────────────────────────────────

pub open spec fn texts_result(r: Result<Vec<String>, String>) -> Result<Seq<Text>, Text> {
    match r {
        Ok(v) => Ok(views(v@)),
        Err(e) => Err(e@),
    }
}

/// The subscriptions that a listing names, given what parsing it gives.
pub open spec fn subscriptions_with(
    ran: Ran,
    outcome: Result<Seq<Text>, Text>,
) -> Result<Seq<Text>, Text> {
    match printed(ran, "az account list"@) {
        Err(e) => Err(e),
        Ok(_) => match outcome {
            Ok(ids) => Ok(ids),
            Err(e) => Err("parse: "@ + e),
        },
    }
}

/// The subscriptions that a listing names, given what parsing it gave.
pub fn subscriptions_from(ran: &Ran, outcome: Result<Vec<String>, String>) -> (r: Result<
    Vec<String>,
    String,
>)
    ensures
        texts_result(r) == subscriptions_with(*ran, texts_result(outcome)),
{
    match output_of(ran, "az account list") {
        Err(e) => Err(e),
        Ok(_) => match outcome {
            Ok(ids) => Ok(ids),
            Err(e) => Err(cat2("parse: ", e.as_str())),
        },
    }
}

pub open spec fn stdout_of(ran: Ran) -> Text {
    match ran {
        Ran::Finished { ok, stdout, stderr } => stdout@,
        Ran::NotRun { missing, message } => Seq::empty(),
    }
}

/// The ids of the subscriptions, from a run of `az account list`.
pub fn list_subscription_ids(ran: &Ran) -> (r: Result<Vec<String>, String>)
    ensures
        texts_result(r) == subscriptions_with(*ran, parsed_texts(stdout_of(*ran))),
{
    match ran {
        Ran::Finished { stdout, .. } => subscriptions_from(ran, texts_of_json(stdout.as_str())),
        Ran::NotRun { .. } => {
            let none: String = String::new();
            assert(none@ =~= Seq::empty());
            subscriptions_from(ran, texts_of_json(none.as_str()))
        },
    }
}

/// A Log Analytics workspace.
#[derive(Debug, PartialEq)]
pub struct Workspace {
    pub name: String,
    pub resource_group: String,
    /// The GUID that the query API addresses it by.
    pub customer_id: String,
    pub subscription_id: String,
}

#[verifier::ext_equal]
pub ghost struct WorkspaceV {
    pub name: Text,
    pub resource_group: Text,
    pub customer_id: Text,
    pub subscription_id: Text,
}

impl View for Workspace {
    type V = WorkspaceV;

    open spec fn view(&self) -> WorkspaceV {
        WorkspaceV {
            name: self.name@,
            resource_group: self.resource_group@,
            customer_id: self.customer_id@,
            subscription_id: self.subscription_id@,
        }
    }
}

impl Clone for Workspace {
    fn clone(&self) -> (r: Workspace)
        ensures
            r@ == self@,
    {
        Workspace {
            name: self.name.clone(),
            resource_group: self.resource_group.clone(),
            customer_id: self.customer_id.clone(),
            subscription_id: self.subscription_id.clone(),
        }
    }
}

pub open spec fn arm_id(w: WorkspaceV) -> Text {
    "/subscriptions/"@ + w.subscription_id + "/resourceGroups/"@ + w.resource_group
        + "/providers/Microsoft.OperationalInsights/workspaces/"@ + w.name
}

impl Workspace {
    /// The full ARM resource id, needed for role assignments.
    pub fn resource_id(&self) -> (r: String)
        ensures
            r@ == arm_id(self@),
    {
        cat6(
            "/subscriptions/",
            self.subscription_id.as_str(),
            "/resourceGroups/",
            self.resource_group.as_str(),
            "/providers/Microsoft.OperationalInsights/workspaces/",
            self.name.as_str(),
        )
    }
}

/// A list of arguments, as texts.
fn args_of(args: &[&str]) -> (r: Vec<String>)
    ensures
        views(r@) == args@.map_values(|a: &str| a@),
{
    let mut out: Vec<String> = Vec::new();
    let mut i: usize = 0;
    while i < args.len()
        invariant
            i <= args@.len(),
            out@.len() == i,
            forall|k: int| 0 <= k < i ==> (#[trigger] out@[k])@ == args@[k]@,
        decreases args@.len() - i,
    {
        out.push(args[i].to_owned());
        i = i + 1;
    }
    assert(views(out@) =~= args@.map_values(|a: &str| a@));
    out
}

/// The arguments that list the workspaces of a subscription.
pub fn workspace_list_args(subscription: &str) -> (r: Vec<String>)
    ensures
        views(r@) == seq![
            "monitor"@,
            "log-analytics"@,
            "workspace"@,
            "list"@,
            "--subscription"@,
            subscription@,
            "--query"@,
            "[].{name:name,resourceGroup:resourceGroup,customerId:customerId}"@,
            "--output"@,
            "json"@,
        ],
{
    let r = args_of(
        &[
            "monitor",
            "log-analytics",
            "workspace",
            "list",
            "--subscription",
            subscription,
            "--query",
            "[].{name:name,resourceGroup:resourceGroup,customerId:customerId}",
            "--output",
            "json",
        ],
    );
    assert(views(r@) =~= seq![
        "monitor"@,
        "log-analytics"@,
        "workspace"@,
        "list"@,
        "--subscription"@,
        subscription@,
        "--query"@,
        "[].{name:name,resourceGroup:resourceGroup,customerId:customerId}"@,
        "--output"@,
        "json"@,
    ]);
    r
}

/// Workspaces, as found in a subscription.
pub open spec fn in_subscription(found: Seq<WorkspaceV>, subscription: Text) -> Seq<WorkspaceV> {
    found.map_values(|w: WorkspaceV| WorkspaceV { subscription_id: subscription, ..w })
}

/// A subscription that could not be read, and why. Without these a session
/// that has expired could not be told from a tenant without workspaces.
#[derive(Debug, PartialEq)]
pub struct SubscriptionError {
    pub name: String,
    pub message: String,
    /// The session has expired.
    pub expired: bool,
}

#[verifier::ext_equal]
pub ghost struct SubscriptionErrorV {
    pub name: Text,
    pub message: Text,
    pub expired: bool,
}

impl View for SubscriptionError {
    type V = SubscriptionErrorV;

    open spec fn view(&self) -> SubscriptionErrorV {
        SubscriptionErrorV { name: self.name@, message: self.message@, expired: self.expired }
    }
}

/// What the subscriptions listed so far hold.
#[derive(Debug, PartialEq)]
pub struct WorkspaceScan {
    pub workspaces: Vec<Workspace>,
    pub errors: Vec<SubscriptionError>,
}

#[verifier::ext_equal]
pub ghost struct WorkspaceScanV {
    pub workspaces: Seq<WorkspaceV>,
    pub errors: Seq<SubscriptionErrorV>,
}

impl View for WorkspaceScan {
    type V = WorkspaceScanV;

    open spec fn view(&self) -> WorkspaceScanV {
        WorkspaceScanV { workspaces: views(self.workspaces@), errors: views(self.errors@) }
    }
}

impl Default for WorkspaceScan {
    fn default() -> (r: WorkspaceScan)
        ensures
            r@ == (WorkspaceScanV { workspaces: Seq::empty(), errors: Seq::empty() }),
    {
        let r = WorkspaceScan { workspaces: Vec::new(), errors: Vec::new() };
        assert(r@ =~= (WorkspaceScanV { workspaces: Seq::empty(), errors: Seq::empty() }));
        r
    }
}

pub open spec fn workspaces_result(r: Result<Vec<Workspace>, String>) -> Result<
    Seq<WorkspaceV>,
    Text,
> {
    match r {
        Ok(v) => Ok(views(v@)),
        Err(e) => Err(e@),
    }
}

pub open spec fn scan_result(r: Result<WorkspaceScan, String>) -> Result<WorkspaceScanV, Text> {
    match r {
        Ok(s) => Ok(s@),
        Err(e) => Err(e@),
    }
}

/// What is known after one more subscription was listed. One that cannot be
/// read is reported and does not block the others; a listing that cannot be
/// run or parsed ends discovery.
pub open spec fn scan_after(
    so_far: WorkspaceScanV,
    subscription: Text,
    ran: Ran,
    found: Result<Seq<WorkspaceV>, Text>,
) -> Result<WorkspaceScanV, Text> {
    match ran {
        Ran::NotRun { missing, message } => Err(
            "az monitor log-analytics workspace list failed: "@ + message@,
        ),
        Ran::Finished { ok, stdout, stderr } => if !ok {
            Ok(
                WorkspaceScanV {
                    errors: so_far.errors.push(
                        SubscriptionErrorV {
                            name: subscription,
                            message: trimmed(stderr@),
                            expired: tells_of_expiry(stderr@),
                        },
                    ),
                    ..so_far
                },
            )
        } else {
            match found {
                Ok(list) => Ok(
                    WorkspaceScanV {
                        workspaces: so_far.workspaces + in_subscription(list, subscription),
                        ..so_far
                    },
                ),
                Err(e) => Err("parse: "@ + e),
            }
        },
    }
}

/// Takes in the listing of one subscription: `found` is what was read from
/// what the run printed.
pub fn absorb_workspaces(
    so_far: WorkspaceScan,
    subscription: &str,
    ran: &Ran,
    found: Result<Vec<Workspace>, String>,
) -> (r: Result<WorkspaceScan, String>)
    ensures
        scan_result(r) == scan_after(
            so_far@,
            subscription@,
            *ran,
            workspaces_result(found),
        ),
{
    let WorkspaceScan { workspaces, errors } = so_far;
    match ran {
        Ran::NotRun { message, .. } => Err(
            cat2("az monitor log-analytics workspace list failed: ", message.as_str()),
        ),
        Ran::Finished { ok, stderr, .. } => if !*ok {
            let ghost before = views(errors@);
            let mut reported = errors;
            let error = SubscriptionError {
                name: subscription.to_owned(),
                message: trim(stderr.as_str()),
                expired: is_expiry(stderr.as_str()),
            };
            let ghost ev = error@;
            reported.push(error);
            assert(views(reported@) =~= before.push(ev));
            Ok(WorkspaceScan { workspaces, errors: reported })
        } else {
            match found {
                Err(e) => Err(cat2("parse: ", e.as_str())),
                Ok(list) => {
                    let ghost start = views(workspaces@);
                    let ghost more = in_subscription(views(list@), subscription@);
                    let mut out = workspaces;
                    let mut i: usize = 0;
                    assert(start + more.take(0) =~= start);
                    while i < list.len()
                        invariant
                            i <= list@.len(),
                            more == in_subscription(views(list@), subscription@),
                            views(out@) == start + more.take(i as int),
                        decreases list@.len() - i,
                    {
                        let ghost before = views(out@);
                        let w = Workspace {
                            name: list[i].name.clone(),
                            resource_group: list[i].resource_group.clone(),
                            customer_id: list[i].customer_id.clone(),
                            subscription_id: subscription.to_owned(),
                        };
                        assert(w@ =~= more[i as int]);
                        out.push(w);
                        assert(views(out@) =~= before.push(more[i as int]));
                        assert(views(out@) =~= start + more.take(i + 1));
                        i = i + 1;
                    }
                    assert(more.take(i as int) =~= more);
                    Ok(WorkspaceScan { workspaces: out, errors })
                },
            }
        },
    }
}

/// Whether some subscription could not be read because the session has
/// expired.
pub open spec fn has_expired(errors: Seq<SubscriptionErrorV>) -> bool {
    exists|i: int| 0 <= i < errors.len() && (#[trigger] errors[i]).expired
}

/// Whether to ask for a new sign-in: some subscription could not be read
/// because the session has expired.
pub fn any_expired(errors: &Vec<SubscriptionError>) -> (r: bool)
    ensures
        r == has_expired(views(errors@)),
{
    let ghost ev = views(errors@);
    let mut i: usize = 0;
    while i < errors.len()
        invariant
            i <= errors@.len(),
            ev == views(errors@),
            forall|k: int| 0 <= k < i ==> !(#[trigger] ev[k]).expired,
        decreases errors@.len() - i,
    {
        assert(ev[i as int] == errors@[i as int]@);
        if errors[i].expired {
            return true;
        }
        i = i + 1;
    }
    false
}

/// A session that has expired is reported as that: no listing that fails for
/// it goes unnoticed, and none that follows hides it.
pub proof fn expiry_is_reported(
    so_far: WorkspaceScanV,
    subscription: Text,
    ran: Ran,
    found: Result<Seq<WorkspaceV>, Text>,
)
    requires
        scan_after(so_far, subscription, ran, found) is Ok,
    ensures
        has_expired(scan_after(so_far, subscription, ran, found)->Ok_0.errors) <==> has_expired(
            so_far.errors,
        ) || (ran matches Ran::Finished { ok: false, stdout, stderr } && tells_of_expiry(stderr@)),
{
    let before = so_far.errors;
    let after = scan_after(so_far, subscription, ran, found)->Ok_0.errors;
    if has_expired(before) {
        let i = choose|i: int| 0 <= i < before.len() && (#[trigger] before[i]).expired;
        assert(after[i].expired);
    }
    if has_expired(after) {
        let i = choose|i: int| 0 <= i < after.len() && (#[trigger] after[i]).expired;
        if i < before.len() {
            assert(before[i].expired);
        }
    }
    if ran matches Ran::Finished { ok: false, stdout, stderr } && tells_of_expiry(stderr@) {
        assert(after[after.len() - 1].expired);
    }
}

/// However a listing went, nothing found or reported before it is lost; and
/// a subscription that could not be read is reported.
pub proof fn listings_only_add(
    so_far: WorkspaceScanV,
    subscription: Text,
    ran: Ran,
    found: Result<Seq<WorkspaceV>, Text>,
)
    requires
        scan_after(so_far, subscription, ran, found) is Ok,
    ensures
        ({
            let after = scan_after(so_far, subscription, ran, found)->Ok_0;
            &&& so_far.workspaces.is_prefix_of(after.workspaces)
            &&& so_far.errors.is_prefix_of(after.errors)
            &&& ran matches Ran::Finished { ok: false, stdout, stderr } ==> after.errors.last().name
                == subscription
        }),
{
}

// ── Granting access ───────────────────────────────────────────────────────

/// The signed-in user's object id, from a run of `az ad signed-in-user show`.
pub fn signed_in_principal_id(ran: &Ran) -> (r: Result<String, String>)
    ensures
        text_result(r) == match printed(*ran, "az ad signed-in-user show"@) {
            Ok(t) => Ok(trimmed(t)),
            Err(e) => Err(e),
        },
{
    match output_of(ran, "az ad signed-in-user show") {
        Ok(t) => Ok(trim(t.as_str())),
        Err(e) => Err(e),
    }
}

/// The arguments that grant a user Log Analytics Reader on a workspace.
pub fn grant_args(workspace: &Workspace, principal_id: &str) -> (r: Vec<String>)
    ensures
        views(r@) == seq![
            "role"@,
            "assignment"@,
            "create"@,
            "--subscription"@,
            workspace@.subscription_id,
            "--role"@,
            "Log Analytics Reader"@,
            "--assignee-object-id"@,
            principal_id@,
            "--assignee-principal-type"@,
            "User"@,
            "--scope"@,
            arm_id(workspace@),
        ],
{
    let scope = workspace.resource_id();
    let r = args_of(
        &[
            "role",
            "assignment",
            "create",
            "--subscription",
            workspace.subscription_id.as_str(),
            "--role",
            "Log Analytics Reader",
            "--assignee-object-id",
            principal_id,
            "--assignee-principal-type",
            "User",
            "--scope",
            scope.as_str(),
        ],
    );
    assert(views(r@) =~= seq![
        "role"@,
        "assignment"@,
        "create"@,
        "--subscription"@,
        workspace@.subscription_id,
        "--role"@,
        "Log Analytics Reader"@,
        "--assignee-object-id"@,
        principal_id@,
        "--assignee-principal-type"@,
        "User"@,
        "--scope"@,
        arm_id(workspace@),
    ]);
    r
}

/// Whether the role was granted, from a run of `az role assignment create`.
pub fn grant_self_log_analytics_reader(ran: &Ran) -> (r: Result<(), String>)
    ensures
        unit_result(r) == match printed(*ran, "az role assignment create"@) {
            Ok(_) => Ok(()),
            Err(e) => Err(e),
        },
{
    match output_of(ran, "az role assignment create") {
        Ok(_) => Ok(()),
        Err(e) => Err(e),
    }
}

// ── Key Vault references ──────────────────────────────────────────────────

/// One app setting that refers to a Key Vault, and whether it resolved.
#[derive(Debug, PartialEq)]
pub struct KeyVaultRef {
    pub app: String,
    pub setting: String,
    pub status: String,
    pub details: String,
}

#[verifier::ext_equal]
pub ghost struct RefV {
    pub app: Text,
    pub setting: Text,
    pub status: Text,
    pub details: Text,
}

impl View for KeyVaultRef {
    type V = RefV;

    open spec fn view(&self) -> RefV {
        RefV {
            app: self.app@,
            setting: self.setting@,
            status: self.status@,
            details: self.details@,
        }
    }
}

pub open spec fn is_resolved(r: RefV) -> bool {
    same_letters(r.status, "Resolved"@)
}

impl KeyVaultRef {
    pub fn resolved(&self) -> (r: bool)
        ensures
            r == is_resolved(self@),
    {
        same_ignoring_case(self.status.as_str(), "Resolved")
    }
}

/// The alphabet of Azure resource names.
pub open spec fn name_char(c: char) -> bool {
    is_alnum(c) || c == '-' || c == '_' || c == '.'
}

/// Whether a name read from log data can be a resource name. One that begins
/// with a hyphen would be read as an option.
pub open spec fn plausible(name: Text) -> bool {
    &&& name.len() > 0
    &&& byte_len(name) <= 90
    &&& name[0] != '-'
    &&& forall|i: int| 0 <= i < name.len() ==> name_char(#[trigger] name[i])
}

pub fn plausible_resource_name(name: &str) -> (r: bool)
    ensures
        r == plausible(name@),
{
    let chars = chars_of(name);
    if chars.len() == 0 || bytes_in(name) > 90 || chars[0] == '-' {
        return false;
    }
    let mut i: usize = 0;
    while i < chars.len()
        invariant
            i <= chars@.len(),
            chars@ == name@,
            forall|k: int| 0 <= k < i ==> name_char(#[trigger] name@[k]),
        decreases chars@.len() - i,
    {
        let c: char = chars[i];
        if !(alnum(c) || c == '-' || c == '_' || c == '.') {
            assert(!name_char(name@[i as int]));
            return false;
        }
        i = i + 1;
    }
    true
}

/// The arguments that look an app up by name within one subscription; none
/// for a name that cannot be one.
pub fn find_site_args(subscription: &str, name: &str) -> (r: Option<Vec<String>>)
    ensures
        match r {
            Some(args) => plausible(name@) && views(args@) == seq![
                "resource"@,
                "list"@,
                "--name"@,
                name@,
                "--resource-type"@,
                "Microsoft.Web/sites"@,
                "--subscription"@,
                subscription@,
                "--query"@,
                "[].id"@,
                "--output"@,
                "json"@,
            ],
            None => !plausible(name@),
        },
{
    if !plausible_resource_name(name) {
        return None;
    }
    let r = args_of(
        &[
            "resource",
            "list",
            "--name",
            name,
            "--resource-type",
            "Microsoft.Web/sites",
            "--subscription",
            subscription,
            "--query",
            "[].id",
            "--output",
            "json",
        ],
    );
    assert(views(r@) =~= seq![
        "resource"@,
        "list"@,
        "--name"@,
        name@,
        "--resource-type"@,
        "Microsoft.Web/sites"@,
        "--subscription"@,
        subscription@,
        "--query"@,
        "[].id"@,
        "--output"@,
        "json"@,
    ]);
    Some(r)
}

/// The first id that a lookup lists, given what parsing it gives.
pub open spec fn site_with(ran: Ran, outcome: Result<Seq<Text>, Text>) -> Option<Text> {
    match ran {
        Ran::Finished { ok, stdout, stderr } => match outcome {
            Ok(ids) => if ok && ids.len() > 0 {
                Some(ids[0])
            } else {
                None
            },
            Err(_) => None,
        },
        Ran::NotRun { missing, message } => None,
    }
}

/// The first id that a lookup lists, given what parsing it gave.
pub fn site_from(ran: &Ran, outcome: &Result<Vec<String>, String>) -> (r: Option<String>)
    ensures
        match r {
            Some(s) => site_with(*ran, texts_result(*outcome)) == Some(s@),
            None => site_with(*ran, texts_result(*outcome)) is None,
        },
{
    match ran {
        Ran::Finished { ok, .. } => match outcome {
            Ok(ids) => {
                assert(views(ids@).len() == ids@.len());
                if *ok && ids.len() > 0 {
                    assert(views(ids@)[0] == ids@[0]@);
                    Some(ids[0].clone())
                } else {
                    None
                }
            },
            Err(_) => None,
        },
        Ran::NotRun { .. } => None,
    }
}

/// The app's resource id, from a run of the lookup.
pub fn find_site(ran: &Ran) -> (r: Option<String>)
    ensures
        match r {
            Some(s) => site_with(*ran, parsed_texts(stdout_of(*ran))) == Some(s@),
            None => site_with(*ran, parsed_texts(stdout_of(*ran))) is None,
        },
{
    match ran {
        Ran::Finished { stdout, .. } => {
            let outcome = texts_of_json(stdout.as_str());
            site_from(ran, &outcome)
        },
        Ran::NotRun { .. } => None,
    }
}

/// Where an app's setting references are read.
pub fn references_url(resource_id: &str) -> (r: String)
    ensures
        r@ == "https://management.azure.com"@ + resource_id@
            + "/config/configreferences/appsettings?api-version=2022-03-01"@,
{
    cat3(
        "https://management.azure.com",
        resource_id,
        "/config/configreferences/appsettings?api-version=2022-03-01",
    )
}

/// The settings of a response: under `properties`, wrapped or not.
pub open spec fn settings_of(body: JsonV) -> Option<JsonV> {
    match body.get("properties"@) {
        Some(p) => match p.get("configReferences"@) {
            Some(c) => Some(c),
            None => Some(p),
        },
        None => None,
    }
}

pub open spec fn text_or_empty(t: Option<Text>) -> Text {
    match t {
        Some(s) => s,
        None => Seq::empty(),
    }
}

/// The settings that state a status, in order.
pub open spec fn refs_in(app: Text, ms: Seq<(Text, JsonV)>) -> Seq<RefV>
    decreases ms.len(),
{
    if ms.len() == 0 {
        Seq::empty()
    } else {
        let before = refs_in(app, ms.drop_last());
        let (setting, entry) = ms.last();
        match entry.text_at("status"@) {
            Some(status) => before.push(
                RefV {
                    app,
                    setting,
                    status,
                    details: text_or_empty(entry.text_at("details"@)),
                },
            ),
            None => before,
        }
    }
}

pub open spec fn ref_rank(r: RefV) -> RankV {
    RankV { first: 0, second: 0, text: r.setting }
}

/// The references that a response lists, by setting.
pub open spec fn config_references(app: Text, body: JsonV) -> Seq<RefV> {
    match settings_of(body) {
        Some(JsonV::Object(ms)) => {
            let all = refs_in(app, ms);
            arranged(all, all.map_values(|r: RefV| ref_rank(r)))
        },
        _ => Seq::empty(),
    }
}

fn collect_refs(app: &str, ms: &Vec<(String, Json)>) -> (r: Vec<KeyVaultRef>)
    ensures
        views(r@) == refs_in(app@, members(ms@)),
{
    let ghost all = members(ms@);
    let mut out: Vec<KeyVaultRef> = Vec::new();
    let mut i: usize = 0;
    assert(all.take(0) =~= Seq::empty());
    assert(views(out@) =~= Seq::<RefV>::empty());
    while i < ms.len()
        invariant
            i <= ms@.len(),
            all == members(ms@),
            views(out@) == refs_in(app@, all.take(i as int)),
        decreases ms@.len() - i,
    {
        assert(all.take(i + 1).drop_last() =~= all.take(i as int));
        assert(all.take(i + 1).last() == all[i as int]);
        if let Some(status) = ms[i].1.text_at("status") {
            let details: String = match ms[i].1.text_at("details") {
                Some(d) => d.clone(),
                None => {
                    let none: String = String::new();
                    assert(none@ =~= Seq::empty());
                    none
                },
            };
            let ghost before = views(out@);
            let found = KeyVaultRef {
                app: app.to_owned(),
                setting: ms[i].0.clone(),
                status: status.clone(),
                details,
            };
            let ghost fv = found@;
            out.push(found);
            assert(views(out@) =~= before.push(fv));
        }
        i = i + 1;
    }
    assert(all.take(i as int) =~= all);
    out
}

/// Reads the references out of a response. What states no status is skipped
/// rather than guessed at.
pub fn parse_config_references(app: &str, body: &Json) -> (r: Vec<KeyVaultRef>)
    ensures
        views(r@) == config_references(app@, body@),
{
    let none: Vec<KeyVaultRef> = Vec::new();
    assert(views(none@) =~= Seq::<RefV>::empty());
    let settings: &Json = match body.get("properties") {
        Some(p) => match p.get("configReferences") {
            Some(c) => c,
            None => p,
        },
        None => {
            return none;
        },
    };
    match settings {
        Json::Object(ms) => {
            proof {
                object_model(*ms);
            }
            let found = collect_refs(app, ms);
            let ghost all = views(found@);
            let mut ranks: Vec<Rank> = Vec::new();
            let mut i: usize = 0;
            while i < found.len()
                invariant
                    i <= found@.len(),
                    all == views(found@),
                    ranks@.len() == i,
                    forall|k: int| 0 <= k < i ==> (#[trigger] ranks@[k])@ == ref_rank(all[k]),
                decreases found@.len() - i,
            {
                ranks.push(Rank { first: 0, second: 0, text: found[i].setting.clone() });
                i = i + 1;
            }
            assert(views(ranks@) =~= all.map_values(|r: RefV| ref_rank(r)));
            proof {
                arranged_views(found@, views(ranks@));
            }
            arrange(found, &ranks)
        },
        _ => none,
    }
}

pub open spec fn refs_result(r: Result<Vec<KeyVaultRef>, String>) -> Result<Seq<RefV>, Text> {
    match r {
        Ok(v) => Ok(views(v@)),
        Err(e) => Err(e@),
    }
}

/// The references of an app, given what parsing the response gives.
pub open spec fn references_with(
    app: Text,
    ran: Ran,
    outcome: Result<JsonV, Text>,
) -> Result<Seq<RefV>, Text> {
    match printed(ran, "az rest"@) {
        Err(e) => Err(e),
        Ok(_) => match outcome {
            Ok(body) => Ok(config_references(app, body)),
            Err(e) => Err("parse: "@ + e),
        },
    }
}

/// The references of an app, given what parsing the response gave.
pub fn references_from(app: &str, ran: &Ran, outcome: &Result<Json, String>) -> (r: Result<
    Vec<KeyVaultRef>,
    String,
>)
    ensures
        refs_result(r) == references_with(app@, *ran, outcome_view(*outcome)),
{
    match output_of(ran, "az rest") {
        Err(e) => Err(e),
        Ok(_) => match outcome {
            Ok(body) => Ok(parse_config_references(app, body)),
            Err(e) => Err(cat2("parse: ", e.as_str())),
        },
    }
}

/// The Key Vault references of one app, from a run that read them.
pub fn site_key_vault_refs(app: &str, ran: &Ran) -> (r: Result<Vec<KeyVaultRef>, String>)
    ensures
        refs_result(r) == references_with(app@, *ran, parsed(stdout_of(*ran))),
{
    match ran {
        Ran::Finished { stdout, .. } => {
            let outcome = parse(stdout.as_str());
            references_from(app, ran, &outcome)
        },
        Ran::NotRun { message, .. } => Err(cat3("az rest", " failed: ", message.as_str())),
    }
}

/// The references that did not resolve, in order.
pub open spec fn unresolved(refs: Seq<RefV>) -> Seq<RefV>
    decreases refs.len(),
{
    if refs.len() == 0 {
        Seq::empty()
    } else {
        let before = unresolved(refs.drop_last());
        if is_resolved(refs.last()) {
            before
        } else {
            before.push(refs.last())
        }
    }
}

/// The unresolved references of several apps. One that could not be read
/// adds nothing.
pub open spec fn all_unresolved(found: Seq<Result<Seq<RefV>, Text>>) -> Seq<RefV>
    decreases found.len(),
{
    if found.len() == 0 {
        Seq::empty()
    } else {
        let before = all_unresolved(found.drop_last());
        match found.last() {
            Ok(refs) => before + unresolved(refs),
            Err(_) => before,
        }
    }
}

pub open spec fn found_view(found: Seq<Result<Vec<KeyVaultRef>, String>>) -> Seq<
    Result<Seq<RefV>, Text>,
> {
    found.map_values(|r: Result<Vec<KeyVaultRef>, String>| refs_result(r))
}

/// The references that are not resolved, of every app whose references were
/// read.
pub fn unresolved_key_vault_refs(found: &Vec<Result<Vec<KeyVaultRef>, String>>) -> (r: Vec<
    KeyVaultRef,
>)
    ensures
        views(r@) == all_unresolved(found_view(found@)),
{
    let ghost fv = found_view(found@);
    let mut out: Vec<KeyVaultRef> = Vec::new();
    let mut i: usize = 0;
    assert(fv.take(0) =~= Seq::empty());
    assert(views(out@) =~= Seq::<RefV>::empty());
    while i < found.len()
        invariant
            i <= found@.len(),
            fv == found_view(found@),
            views(out@) == all_unresolved(fv.take(i as int)),
        decreases found@.len() - i,
    {
        assert(fv.take(i + 1).drop_last() =~= fv.take(i as int));
        assert(fv.take(i + 1).last() == fv[i as int]);
        if let Ok(refs) = &found[i] {
            let ghost rv = views(refs@);
            assert(fv[i as int] == Ok::<Seq<RefV>, Text>(rv));
            let ghost start = views(out@);
            let mut j: usize = 0;
            assert(rv.take(0) =~= Seq::empty());
            assert(start + unresolved(rv.take(0)) =~= start);
            while j < refs.len()
                invariant
                    j <= refs@.len(),
                    rv == views(refs@),
                    views(out@) == start + unresolved(rv.take(j as int)),
                decreases refs@.len() - j,
            {
                assert(rv.take(j + 1).drop_last() =~= rv.take(j as int));
                assert(rv.take(j + 1).last() == refs@[j as int]@);
                if !refs[j].resolved() {
                    let ghost before = views(out@);
                    let copy = KeyVaultRef {
                        app: refs[j].app.clone(),
                        setting: refs[j].setting.clone(),
                        status: refs[j].status.clone(),
                        details: refs[j].details.clone(),
                    };
                    assert(copy@ =~= rv[j as int]);
                    out.push(copy);
                    assert(views(out@) =~= before.push(rv[j as int]));
                    assert(views(out@) =~= start + unresolved(rv.take(j + 1)));
                }
                j = j + 1;
            }
            assert(rv.take(j as int) =~= rv);
        }
        i = i + 1;
    }
    assert(fv.take(i as int) =~= fv);
    out
}

/// Nothing reported as unresolved is resolved.
pub proof fn only_unresolved_are_reported(found: Seq<Result<Seq<RefV>, Text>>, i: int)
    requires
        0 <= i < all_unresolved(found).len(),
    ensures
        !is_resolved(all_unresolved(found)[i]),
    decreases found.len(),
{
    let before = all_unresolved(found.drop_last());
    if i < before.len() {
        only_unresolved_are_reported(found.drop_last(), i);
    } else {
        unresolved_only(found.last()->Ok_0, i - before.len());
    }
}

proof fn unresolved_only(refs: Seq<RefV>, i: int)
    requires
        0 <= i < unresolved(refs).len(),
    ensures
        !is_resolved(unresolved(refs)[i]),
    decreases refs.len(),
{
    let before = unresolved(refs.drop_last());
    if i < before.len() {
        unresolved_only(refs.drop_last(), i);
    }
}

/// A name that is handed to the CLI is never read as an option and holds no
/// white space.
pub proof fn plausible_names_are_plain(name: Text)
    requires
        plausible(name),
    ensures
        name.len() > 0 && name[0] != '-',
        forall|i: int| 0 <= i < name.len() ==> !crate::text::is_space(#[trigger] name[i]),
{
    assert forall|i: int| 0 <= i < name.len() implies !crate::text::is_space(
        #[trigger] name[i],
    ) by {
        assert(name_char(name[i]));
    }
}

// ── What a run of the CLI means ───────────────────────────────────────────

/// Someone is signed in exactly when the run succeeded and named an account;
/// the CLI is missing exactly when it could not be run for want of it; and a
/// session has expired only where a run failed and said so.
pub proof fn sign_ins_are_told_by_the_run(ran: Ran, account: Option<AzAccount>)
    ensures
        login_state(ran, account) is LoggedIn <==> ran is Finished && ran->ok && account is Some,
        login_state(ran, account) is AzNotFound <==> ran is NotRun && ran->missing,
        login_state(ran, account) is Expired <==> ran is Finished && !ran->ok && holds(
            lowered(ran->stderr@),
            "expired"@,
        ),
        login_state(ran, account) matches LoginV::LoggedIn { account: name, subscription_id } ==> {
            &&& name == (account->0).name@
            &&& subscription_id == (account->0).id@
        },
        login_state(ran, account) matches LoginV::Expired { account: name, message } ==> {
            &&& message == trimmed(ran->stderr@)
            &&& account matches Some(a) ==> name == a.name@
            &&& account is None ==> name.len() == 0
        },
{
}

/// A run that succeeded gives what it printed, one that failed what it
/// printed of the failure, and one that never ran says what was tried.
pub proof fn runs_give_what_they_printed(ran: Ran, what: Text)
    ensures
        printed(ran, what) is Ok <==> ran is Finished && ran->ok,
        ran is Finished && ran->ok ==> printed(ran, what) == Ok::<Text, Text>(ran->stdout@),
        ran is Finished && !ran->ok ==> printed(ran, what) == Err::<Text, Text>(
            trimmed(ran->stderr@),
        ),
        ran is NotRun ==> printed(ran, what) == Err::<Text, Text>(
            what + " failed: "@ + ran->message@,
        ),
{
}

/// A subscription that was listed adds each workspace that was found in it,
/// in order and as found there, and reports nothing; one that failed adds
/// none and is reported under its own name with what the run said.
pub proof fn listings_add_what_they_found(
    so_far: WorkspaceScanV,
    subscription: Text,
    ran: Ran,
    list: Seq<WorkspaceV>,
    e: Text,
    i: int,
)
    ensures
        ran is Finished && ran->ok ==> {
            let after = scan_after(so_far, subscription, ran, Ok(list));
            &&& after is Ok
            &&& (after->Ok_0).errors == so_far.errors
            &&& (after->Ok_0).workspaces.len() == so_far.workspaces.len() + list.len()
            &&& 0 <= i < list.len() ==> {
                let w = (after->Ok_0).workspaces[so_far.workspaces.len() + i];
                &&& w.name == list[i].name
                &&& w.resource_group == list[i].resource_group
                &&& w.customer_id == list[i].customer_id
                &&& w.subscription_id == subscription
            }
        },
        ran is Finished && !ran->ok ==> {
            let after = scan_after(so_far, subscription, ran, Ok(list));
            &&& after is Ok
            &&& (after->Ok_0).workspaces == so_far.workspaces
            &&& (after->Ok_0).errors.len() == so_far.errors.len() + 1
            &&& (after->Ok_0).errors.last().name == subscription
            &&& (after->Ok_0).errors.last().message == trimmed(ran->stderr@)
            &&& (after->Ok_0).errors.last().expired == holds(lowered(ran->stderr@), "expired"@)
        },
        ran is NotRun ==> scan_after(so_far, subscription, ran, Ok(list)) is Err,
        ran is Finished && ran->ok ==> scan_after(so_far, subscription, ran, Err(e)) is Err,
{
}

/// A site is the first that a lookup lists; a lookup that failed, or lists
/// none, finds none.
pub proof fn the_first_site_is_taken(ran: Ran, ids: Seq<Text>, e: Text)
    ensures
        ran is Finished && ran->ok && ids.len() > 0 ==> site_with(ran, Ok(ids)) == Some(ids[0]),
        ran is NotRun || !ran->ok || ids.len() == 0 ==> site_with(ran, Ok(ids)) is None,
        site_with(ran, Err(e)) is None,
{
}

// ── What is said of references ────────────────────────────────────────────

proof fn refs_filter(app: Text, ms: Seq<(Text, JsonV)>)
    ensures
        refs_in(app, ms) == ms.filter(
            |m: (Text, JsonV)| m.1.get("status"@) matches Some(JsonV::Text(_)),
        ).map_values(
            |m: (Text, JsonV)|
                (RefV {
                    app,
                    setting: m.0,
                    status: m.1.get("status"@)->0->Text_0,
                    details: match m.1.get("details"@) {
                        Some(JsonV::Text(d)) => d,
                        _ => Seq::empty(),
                    },
                }),
        ),
    decreases ms.len(),
{
    reveal(Seq::filter);
    let p = |m: (Text, JsonV)| m.1.get("status"@) matches Some(JsonV::Text(_));
    let f = |m: (Text, JsonV)|
        (RefV {
            app,
            setting: m.0,
            status: m.1.get("status"@)->0->Text_0,
            details: match m.1.get("details"@) {
                Some(JsonV::Text(d)) => d,
                _ => Seq::empty(),
            },
        });
    if ms.len() > 0 {
        refs_filter(app, ms.drop_last());
        let part = ms.drop_last().filter(p);
        if p(ms.last()) {
            assert(part.push(ms.last()).map_values(f) =~= part.map_values(f).push(f(ms.last())));
        }
    } else {
        assert(ms.filter(p).map_values(f) =~= Seq::empty());
    }
}

/// A response lists each setting that states a status, once, with that
/// status and its details, under the app that was asked about, by the name
/// of the setting. The settings stand under `properties`, or in a wrapper
/// there.
pub proof fn references_are_the_settings_with_a_status(
    app: Text,
    body: JsonV,
    p: JsonV,
    ms: Seq<(Text, JsonV)>,
)
    requires
        body.get("properties"@) == Some(p),
        p.get("configReferences"@) == Some(JsonV::Object(ms)) || (p.get("configReferences"@) is None
            && p == JsonV::Object(ms)),
    ensures
        config_references(app, body).to_multiset() == ms.filter(
            |m: (Text, JsonV)| m.1.get("status"@) matches Some(JsonV::Text(_)),
        ).map_values(
            |m: (Text, JsonV)|
                (RefV {
                    app,
                    setting: m.0,
                    status: m.1.get("status"@)->0->Text_0,
                    details: match m.1.get("details"@) {
                        Some(JsonV::Text(d)) => d,
                        _ => Seq::empty(),
                    },
                }),
        ).to_multiset(),
        forall|i: int, j: int|
            0 <= i < j < config_references(app, body).len() ==> !text_less(
                (#[trigger] config_references(app, body)[j]).setting,
                (#[trigger] config_references(app, body)[i]).setting,
            ),
{
    refs_filter(app, ms);
    let all = refs_in(app, ms);
    let ranks = all.map_values(|r: RefV| ref_rank(r));
    arranged_multiset(all, ranks);
    order_is_stable(ranks);
    let o = order(ranks);
    let got = config_references(app, body);
    assert forall|i: int, j: int| 0 <= i < j < got.len() implies !text_less(
        (#[trigger] got[j]).setting,
        (#[trigger] got[i]).setting,
    ) by {
        assert(precedes(ranks, o[i], o[j]));
        assert(0 <= o[i] < all.len() && 0 <= o[j] < all.len());
    }
}

proof fn unresolved_filter(refs: Seq<RefV>)
    ensures
        unresolved(refs) == refs.filter(
            |r: RefV| ascii_lowered(r.status) != ascii_lowered("Resolved"@),
        ),
    decreases refs.len(),
{
    reveal(Seq::filter);
    if refs.len() > 0 {
        unresolved_filter(refs.drop_last());
    }
}

/// Every app that was read adds each of its references that did not
/// resolve, whatever else its status says, in order; one that could not be
/// read adds nothing.
pub proof fn every_unresolved_reference_is_reported(
    found: Seq<Result<Seq<RefV>, Text>>,
    refs: Seq<RefV>,
    e: Text,
)
    ensures
        all_unresolved(found.push(Ok(refs))) == all_unresolved(found) + refs.filter(
            |r: RefV| ascii_lowered(r.status) != ascii_lowered("Resolved"@),
        ),
        all_unresolved(found.push(Err(e))) == all_unresolved(found),
        all_unresolved(seq![]).len() == 0,
{
    assert(found.push(Ok(refs)).drop_last() =~= found);
    assert(found.push(Err(e)).drop_last() =~= found);
    unresolved_filter(refs);
}

/// A resource id names its subscription, then its group, then itself.
pub proof fn resource_ids_name_the_whole_path(w: WorkspaceV)
    ensures
        arm_id(w) == "/subscriptions/"@ + w.subscription_id + "/resourceGroups/"@
            + w.resource_group + "/providers/Microsoft.OperationalInsights/workspaces/"@ + w.name,
{
}

/// A name can be one of a resource exactly when it is made of letters,
/// digits, hyphens, underscores and dots, takes ninety bytes at most, and
/// begins with no hyphen.
pub proof fn resource_names_are_plain(name: Text)
    ensures
        plausible(name) ==> 0 < name.len() && byte_len(name) <= 90 && name[0] != '-',
        plausible(name) ==> forall|i: int|
            0 <= i < name.len() ==> is_alnum(#[trigger] name[i]) || name[i] == '-' || name[i] == '_'
                || name[i] == '.',
        name.len() > 0 && byte_len(name) <= 90 && name[0] != '-' && (forall|i: int|
            0 <= i < name.len() ==> is_alnum(#[trigger] name[i]) || name[i] == '-' || name[i] == '_'
                || name[i] == '.') ==> plausible(name),
{
}

/// Subscriptions and references are read off what a run printed, where it
/// succeeded; a failed run says why, and what cannot be read is told so.
pub proof fn listings_are_read_where_the_run_succeeded(
    ran: Ran,
    ids: Seq<Text>,
    app: Text,
    body: JsonV,
    e: Text,
)
    ensures
        ran is Finished && ran->ok ==> subscriptions_with(ran, Ok(ids)) == Ok::<Seq<Text>, Text>(
            ids,
        ),
        ran is Finished && ran->ok ==> references_with(app, ran, Ok(body)) == Ok::<
            Seq<RefV>,
            Text,
        >(config_references(app, body)),
        ran is Finished && ran->ok ==> subscriptions_with(ran, Err(e)) == Err::<Seq<Text>, Text>(
            "parse: "@ + e,
        ),
        ran is Finished && ran->ok ==> references_with(app, ran, Err(e)) == Err::<Seq<RefV>, Text>(
            "parse: "@ + e,
        ),
        ran is Finished && !ran->ok ==> subscriptions_with(ran, Ok(ids)) == Err::<Seq<Text>, Text>(
            trimmed(ran->stderr@),
        ),
        ran is Finished && !ran->ok ==> references_with(app, ran, Ok(body)) == Err::<
            Seq<RefV>,
            Text,
        >(trimmed(ran->stderr@)),
        ran is NotRun ==> subscriptions_with(ran, Ok(ids)) is Err && references_with(
            app,
            ran,
            Ok(body),
        ) is Err,
{
}

} // verus!
