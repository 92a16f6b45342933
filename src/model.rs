use vstd::prelude::*;

verus! {

/// How a policy reaches a device. The precedence between scopes is the
/// explicit ranking given by [`Scope::rank`], never an ordering of labels.
#[derive(Clone, Copy, Debug, PartialEq, Eq, Structural)]
pub enum Scope {
    Direct,
    Group,
}

pub open spec fn scope_rank(s: Scope) -> nat {
    match s {
        Scope::Direct => 0,
        Scope::Group => 1,
    }
}

/// The scope of higher precedence (lower rank) of the two.
pub open spec fn stronger(a: Scope, b: Scope) -> Scope {
    if scope_rank(b) < scope_rank(a) {
        b
    } else {
        a
    }
}

impl Scope {
    /// Precedence rank: a lower rank wins.
    pub fn rank(&self) -> (r: u8)
        ensures
            r as nat == scope_rank(*self),
    {
        match self {
            Scope::Direct => 0,
            Scope::Group => 1,
        }
    }

    /// The scope that wins when a policy reaches a device both ways.
    pub fn stronger(self, other: Scope) -> (r: Scope)
        ensures
            r == stronger(self, other),
    {
        if other.rank() < self.rank() {
            other
        } else {
            self
        }
    }

    /// The scope's label.
    pub fn as_str(&self) -> (r: &'static str)
        ensures
            *self == Scope::Direct ==> r@ == "direct"@,
            *self == Scope::Group ==> r@ == "group"@,
    {
        match self {
            Scope::Direct => "direct",
            Scope::Group => "group",
        }
    }
}

/// What a policy is assigned to.
#[derive(Clone, Copy, Debug, PartialEq, Eq, Structural)]
pub enum Assignable {
    Device(u64),
    Group(u64),
}

/// An assignment edge from a policy to a device or a group.
#[derive(Clone, Copy, Debug, PartialEq, Eq, Structural)]
pub struct Assignment {
    pub policy_pk: u64,
    pub target: Assignable,
}

/// A device that is a member of a group.
#[derive(Clone, Copy, Debug, PartialEq, Eq, Structural)]
pub struct Membership {
    pub group_pk: u64,
    pub device_pk: u64,
}

/// An immutable version of a policy's configuration. `data` is the
/// configuration payload as JSON text.
#[derive(Clone, Debug)]
pub struct Deploy {
    pub pk: u64,
    pub policy_pk: u64,
    pub data: String,
}

impl Deploy {
    pub fn copy(&self) -> (r: Deploy)
        ensures
            r == *self,
    {
        Deploy { pk: self.pk, policy_pk: self.policy_pk, data: self.data.clone() }
    }
}

/// The state of a device's acknowledgement of one deploy.
#[derive(Clone, Copy, Debug, PartialEq, Eq, Structural)]
pub enum DeployVariant {
    Pending,
    Applied,
    Conflict,
}

/// One ledger row: the status of `deploy_pk` on `device_pk`.
#[derive(Clone, Debug)]
pub struct DeployStatus {
    pub device_pk: u64,
    pub deploy_pk: u64,
    pub variant: DeployVariant,
    pub conflicts: Option<String>,
    pub done_at: Option<i64>,
}

impl DeployStatus {
    pub fn copy(&self) -> (r: DeployStatus)
        ensures
            r == *self,
    {
        DeployStatus {
            device_pk: self.device_pk,
            deploy_pk: self.deploy_pk,
            variant: self.variant,
            conflicts: copy_opt(&self.conflicts),
            done_at: self.done_at,
        }
    }
}

pub fn copy_opt(s: &Option<String>) -> (r: Option<String>)
    ensures
        r == *s,
{
    match s {
        Some(v) => Some(v.clone()),
        None => None,
    }
}

/// An enrolled device. Timestamps are seconds since the Unix epoch.
#[derive(Clone, Debug)]
pub struct Device {
    pub pk: u64,
    pub id: String,
    pub mdm_id: String,
    pub name: String,
    pub enrollment_type: String,
    pub os: String,
    pub serial_number: String,
    pub tenant_pk: u64,
    pub owner_pk: Option<u64>,
    pub enrolled_by_pk: Option<u64>,
    pub last_synced: Option<i64>,
}

/// A command queued for a device.
#[derive(Clone, Debug)]
pub struct QueuedDeviceActionsResult {
    pub action: String,
    pub device_pk: u64,
    pub created_by: u64,
    pub created_at: i64,
}

impl QueuedDeviceActionsResult {
    pub fn copy(&self) -> (r: QueuedDeviceActionsResult)
        ensures
            r == *self,
    {
        QueuedDeviceActionsResult {
            action: self.action.clone(),
            device_pk: self.device_pk,
            created_by: self.created_by,
            created_at: self.created_at,
        }
    }
}

/// Failures of the store. `NotFound`: a device, policy or deploy is
/// absent. `WriteConflict`: a uniqueness rule refused a write.
/// `StorageUnavailable`: a transient failure; the whole check-in is retried.
/// `InvariantViolation`: the stored data breaks a rule of the store.
#[derive(Clone, Copy, Debug, PartialEq, Eq, Structural)]
pub enum DbError {
    NotFound,
    WriteConflict,
    StorageUnavailable,
    InvariantViolation,
}

/// The tables of one store.
pub struct Db {
    pub devices: Vec<Device>,
    pub assignments: Vec<Assignment>,
    pub memberships: Vec<Membership>,
    pub deploys: Vec<Deploy>,
    pub statuses: Vec<DeployStatus>,
    pub actions: Vec<QueuedDeviceActionsResult>,
}

pub open spec fn same_row(a: DeployStatus, b: DeployStatus) -> bool {
    a.device_pk == b.device_pk && a.deploy_pk == b.deploy_pk
}

/// At most one ledger row per (device, deploy) pair.
pub open spec fn statuses_unique(s: Seq<DeployStatus>) -> bool {
    forall|i: int, j: int|
        0 <= i < s.len() && 0 <= j < s.len() && i != j ==> !(#[trigger] same_row(s[i], s[j]))
}

/// Deploy identifiers are unique.
pub open spec fn deploy_pks_unique(s: Seq<Deploy>) -> bool {
    forall|i: int, j: int|
        0 <= i < s.len() && 0 <= j < s.len() && i != j ==> #[trigger] s[i].pk != #[trigger] s[j].pk
}

/// Devices have unique identifiers, and at most one device is enrolled
/// per (tenant, management id).
pub open spec fn devices_unique(s: Seq<Device>) -> bool {
    forall|i: int, j: int|
        0 <= i < s.len() && 0 <= j < s.len() && i != j ==> #[trigger] s[i].pk != #[trigger] s[j].pk && !(
        s[i].tenant_pk == s[j].tenant_pk && s[i].mdm_id@ == s[j].mdm_id@)
}

impl Db {
    pub open spec fn wf(&self) -> bool {
        &&& statuses_unique(self.statuses@)
        &&& deploy_pks_unique(self.deploys@)
        &&& devices_unique(self.devices@)
    }

    /// An empty store.
    pub fn new() -> (r: Db)
        ensures
            r.wf(),
            r.devices@.len() == 0,
            r.assignments@.len() == 0,
            r.memberships@.len() == 0,
            r.deploys@.len() == 0,
            r.statuses@.len() == 0,
            r.actions@.len() == 0,
    {
        Db {
            devices: Vec::new(),
            assignments: Vec::new(),
            memberships: Vec::new(),
            deploys: Vec::new(),
            statuses: Vec::new(),
            actions: Vec::new(),
        }
    }
}

} // verus!
