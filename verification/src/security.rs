//! Who may do what: capabilities, policies, and what is refused.

use vstd::prelude::*;
use vstd::string::{StrSliceExecFns, StringExecFns};

use crate::query::ast::{FanoutBudget, FilterExpr, FilterView};
use crate::query::filter::{combine_filters, combined};
use crate::query::rows::{masks_view, FieldMask, MaskView};
use crate::text::{copy_texts, str_eq, texts};

verus! {

/// Why something was refused.
#[derive(Debug)]
pub enum SecurityError {
    /// The credentials are not known.
    AuthenticationFailed(String),
    /// The client may not do this.
    PermissionDenied(String),
    /// The client lacks a capability.
    CapabilityNotGranted(String),
    /// A row-level policy forbids it.
    RlsViolation(String),
    /// A field may not be read.
    FieldAccessDenied {
        /// The entity type.
        entity: String,
        /// The field.
        field: String,
    },
    /// A capability is not written as capabilities are.
    InvalidCapabilityFormat(String),
    /// The request asks for too much.
    BudgetExceeded(String),
    /// The security context cannot be used.
    InvalidContext(String),
    /// A policy cannot be used.
    PolicyCompilationError(String),
    /// The audit log failed.
    AuditError(String),
    /// The policy store failed.
    Storage(String),
}

/// Why something was refused, in mathematical terms.
pub ghost enum SecurityErrorView {
    /// See [`SecurityError::AuthenticationFailed`].
    AuthenticationFailed(Seq<char>),
    /// See [`SecurityError::PermissionDenied`].
    PermissionDenied(Seq<char>),
    /// See [`SecurityError::CapabilityNotGranted`].
    CapabilityNotGranted(Seq<char>),
    /// See [`SecurityError::RlsViolation`].
    RlsViolation(Seq<char>),
    /// See [`SecurityError::FieldAccessDenied`].
    FieldAccessDenied(Seq<char>, Seq<char>),
    /// See [`SecurityError::InvalidCapabilityFormat`].
    InvalidCapabilityFormat(Seq<char>),
    /// See [`SecurityError::BudgetExceeded`].
    BudgetExceeded(Seq<char>),
    /// See [`SecurityError::InvalidContext`].
    InvalidContext(Seq<char>),
    /// See [`SecurityError::PolicyCompilationError`].
    PolicyCompilationError(Seq<char>),
    /// See [`SecurityError::AuditError`].
    AuditError(Seq<char>),
    /// See [`SecurityError::Storage`].
    Storage(Seq<char>),
}

impl View for SecurityError {
    type V = SecurityErrorView;

    open spec fn view(&self) -> SecurityErrorView {
        match *self {
            SecurityError::AuthenticationFailed(s) => SecurityErrorView::AuthenticationFailed(s@),
            SecurityError::PermissionDenied(s) => SecurityErrorView::PermissionDenied(s@),
            SecurityError::CapabilityNotGranted(s) => SecurityErrorView::CapabilityNotGranted(s@),
            SecurityError::RlsViolation(s) => SecurityErrorView::RlsViolation(s@),
            SecurityError::FieldAccessDenied { entity, field } => SecurityErrorView::FieldAccessDenied(
                entity@,
                field@,
            ),
            SecurityError::InvalidCapabilityFormat(s) => SecurityErrorView::InvalidCapabilityFormat(
                s@,
            ),
            SecurityError::BudgetExceeded(s) => SecurityErrorView::BudgetExceeded(s@),
            SecurityError::InvalidContext(s) => SecurityErrorView::InvalidContext(s@),
            SecurityError::PolicyCompilationError(s) => SecurityErrorView::PolicyCompilationError(
                s@,
            ),
            SecurityError::AuditError(s) => SecurityErrorView::AuditError(s@),
            SecurityError::Storage(s) => SecurityErrorView::Storage(s@),
        }
    }
}

/// What a client may do with entities of a type.
#[derive(Debug, Clone, Copy, PartialEq, Eq, Structural)]
pub enum Access {
    /// Read them.
    Read,
    /// Write them.
    Write,
    /// Delete them.
    Delete,
}

/// The word for an access.
pub open spec fn access_word(access: Access) -> Seq<char> {
    match access {
        Access::Read => "read"@,
        Access::Write => "write"@,
        Access::Delete => "delete"@,
    }
}

fn word_of(access: Access) -> (s: &'static str)
    ensures
        s@ == access_word(access),
{
    match access {
        Access::Read => "read",
        Access::Write => "write",
        Access::Delete => "delete",
    }
}

/// Whether a capability is the one to do everything.
pub open spec fn is_admin_word(capability: Seq<char>) -> bool {
    capability == "admin"@
}

/// Whether a capability allows an access to a type: it is the access's word, a
/// colon, and the type or a star.
pub open spec fn allows(capability: Seq<char>, access: Access, entity: Seq<char>) -> bool {
    let head = access_word(access) + ":"@;
    capability == head + entity || capability == head + "*"@
}

/// Whether capabilities hold the one to do everything.
pub open spec fn has_admin(capabilities: Seq<Seq<char>>) -> bool {
    exists|i: int| 0 <= i < capabilities.len() && is_admin_word(#[trigger] capabilities[i])
}

/// Whether capabilities allow an access to a type.
pub open spec fn permits(capabilities: Seq<Seq<char>>, access: Access, entity: Seq<char>) -> bool {
    has_admin(capabilities) || exists|i: int|
        0 <= i < capabilities.len() && allows(#[trigger] capabilities[i], access, entity)
}

/// What is said where an access is refused.
pub open spec fn denied_text(access: Access, entity: Seq<char>) -> Seq<char> {
    access_word(access) + " access to '"@ + entity + "'"@
}

/// A client and what it may do.
#[derive(Debug)]
pub struct SecurityContext {
    /// The connection.
    pub connection_id: String,
    /// The client.
    pub client_id: String,
    /// What it may do.
    pub capabilities: Vec<String>,
    /// How much it may ask for.
    pub budget: FanoutBudget,
    /// What is done to fields before the client sees them.
    pub masks: Vec<FieldMask>,
}

/// A client in mathematical terms.
pub ghost struct ContextView {
    /// The connection.
    pub connection_id: Seq<char>,
    /// The client.
    pub client_id: Seq<char>,
    /// What it may do.
    pub capabilities: Seq<Seq<char>>,
    /// How much it may ask for.
    pub budget: FanoutBudget,
    /// What is done to fields before the client sees them.
    pub masks: Seq<MaskView>,
}

impl View for SecurityContext {
    type V = ContextView;

    open spec fn view(&self) -> ContextView {
        ContextView {
            connection_id: self.connection_id@,
            client_id: self.client_id@,
            capabilities: texts(self.capabilities@),
            budget: self.budget,
            masks: masks_view(self.masks@),
        }
    }
}

impl SecurityContext {
    /// Whether the client may do everything.
    pub fn is_admin(&self) -> (r: bool)
        ensures
            r == has_admin(self@.capabilities),
    {
        let ghost all = self@.capabilities;
        let mut i: usize = 0;
        while i < self.capabilities.len()
            invariant
                i <= self.capabilities@.len(),
                all == texts(self.capabilities@),
                forall|k: int| 0 <= k < i ==> !is_admin_word(#[trigger] all[k]),
            decreases self.capabilities@.len() - i,
        {
            assert(all[i as int] == self.capabilities@[i as int]@);
            if str_eq(self.capabilities[i].as_str(), "admin") {
                assert(is_admin_word(all[i as int]));
                return true;
            }
            i = i + 1;
        }
        false
    }

    /// Whether the client may access entities of a type.
    pub fn may(&self, access: Access, entity: &str) -> (r: bool)
        ensures
            r == permits(self@.capabilities, access, entity@),
    {
        if self.is_admin() {
            return true;
        }
        let ghost all = self@.capabilities;
        let mut exact: String = word_of(access).to_owned();
        exact.append(":");
        let mut any: String = exact.clone();
        exact.append(entity);
        any.append("*");
        let mut i: usize = 0;
        while i < self.capabilities.len()
            invariant
                i <= self.capabilities@.len(),
                all == texts(self.capabilities@),
                exact@ == access_word(access) + ":"@ + entity@,
                any@ == access_word(access) + ":"@ + "*"@,
                forall|k: int| 0 <= k < i ==> !allows(#[trigger] all[k], access, entity@),
            decreases self.capabilities@.len() - i,
        {
            assert(all[i as int] == self.capabilities@[i as int]@);
            if str_eq(self.capabilities[i].as_str(), exact.as_str()) || str_eq(
                self.capabilities[i].as_str(),
                any.as_str(),
            ) {
                assert(allows(all[i as int], access, entity@));
                return true;
            }
            i = i + 1;
        }
        false
    }

    /// Refuses where the client may not access entities of a type.
    pub fn require(&self, access: Access, entity: &str) -> (r: Result<(), SecurityError>)
        ensures
            match r {
                Ok(_) => permits(self@.capabilities, access, entity@),
                Err(e) => !permits(self@.capabilities, access, entity@) && e@
                    == SecurityErrorView::PermissionDenied(denied_text(access, entity@)),
            },
    {
        if self.may(access, entity) {
            Ok(())
        } else {
            let mut text: String = word_of(access).to_owned();
            text.append(" access to '");
            text.append(entity);
            text.append("'");
            Err(SecurityError::PermissionDenied(text))
        }
    }

    /// Refuses where the client may not do everything.
    pub fn require_admin(&self) -> (r: Result<(), SecurityError>)
        ensures
            match r {
                Ok(_) => has_admin(self@.capabilities),
                Err(e) => !has_admin(self@.capabilities) && e@
                    == SecurityErrorView::PermissionDenied("admin access"@),
            },
    {
        if self.is_admin() {
            Ok(())
        } else {
            Err(SecurityError::PermissionDenied("admin access".to_owned()))
        }
    }
}

/// A key and what its holder may do.
#[derive(Debug)]
pub struct ApiKey {
    /// The key.
    pub key: String,
    /// What its holder may do.
    pub capabilities: Vec<String>,
}

/// A key in mathematical terms.
pub type ApiKeyView = (Seq<char>, Seq<Seq<char>>);

/// How clients are recognised.
#[derive(Debug)]
pub enum Authenticator {
    /// Everybody may do everything. For development only.
    Dev,
    /// By keys.
    ApiKeys(Vec<ApiKey>),
}

/// How clients are recognised, in mathematical terms.
pub ghost enum AuthView {
    /// See [`Authenticator::Dev`].
    Dev,
    /// See [`Authenticator::ApiKeys`].
    ApiKeys(Seq<ApiKeyView>),
}

impl View for Authenticator {
    type V = AuthView;

    open spec fn view(&self) -> AuthView {
        match *self {
            Authenticator::Dev => AuthView::Dev,
            Authenticator::ApiKeys(keys) => AuthView::ApiKeys(
                keys@.map_values(|k: ApiKey| (k.key@, texts(k.capabilities@))),
            ),
        }
    }
}

/// What the holder of a key may do, where the key is known.
pub open spec fn key_capabilities(keys: Seq<ApiKeyView>, key: Seq<char>) -> Option<Seq<Seq<char>>>
    decreases keys.len(),
{
    if keys.len() == 0 {
        None
    } else if keys.last().0 == key {
        Some(keys.last().1)
    } else {
        key_capabilities(keys.drop_last(), key)
    }
}

/// What a client with credentials may do.
pub open spec fn authenticated(auth: AuthView, credentials: Option<Seq<char>>) -> Result<
    Seq<Seq<char>>,
    SecurityErrorView,
> {
    match auth {
        AuthView::Dev => Ok(seq!["admin"@]),
        AuthView::ApiKeys(keys) => match credentials {
            None => Err(SecurityErrorView::AuthenticationFailed("missing credentials"@)),
            Some(key) => match key_capabilities(keys, key) {
                Some(capabilities) => Ok(capabilities),
                None => Err(SecurityErrorView::AuthenticationFailed("unknown api key"@)),
            },
        },
    }
}

impl Authenticator {
    /// What a client with credentials may do.
    pub fn authenticate(&self, credentials: &Option<String>) -> (r: Result<
        Vec<String>,
        SecurityError,
    >)
        ensures
            match r {
                Ok(capabilities) => authenticated(self@, credentials.deep_view()) == Ok::<
                    Seq<Seq<char>>,
                    SecurityErrorView,
                >(texts(capabilities@)),
                Err(e) => authenticated(self@, credentials.deep_view()) == Err::<
                    Seq<Seq<char>>,
                    SecurityErrorView,
                >(e@),
            },
    {
        match self {
            Authenticator::Dev => {
                let mut capabilities: Vec<String> = Vec::new();
                capabilities.push("admin".to_owned());
                assert(texts(capabilities@) =~= seq!["admin"@]);
                Ok(capabilities)
            },
            Authenticator::ApiKeys(keys) => match credentials {
                None => Err(SecurityError::AuthenticationFailed("missing credentials".to_owned())),
                Some(key) => {
                    let ghost all = keys@.map_values(
                        |k: ApiKey| (k.key@, texts(k.capabilities@)),
                    );
                    let mut i: usize = keys.len();
                    assert(all.take(i as int) =~= all);
                    while i > 0
                        invariant
                            i <= keys@.len(),
                            self@ == AuthView::ApiKeys(all),
                            credentials.deep_view() == Some(key@),
                            all == keys@.map_values(
                                |k: ApiKey| (k.key@, texts(k.capabilities@)),
                            ),
                            key_capabilities(all, key@) == key_capabilities(
                                all.take(i as int),
                                key@,
                            ),
                        decreases i,
                    {
                        proof {
                            assert(all.take(i as int).last() == all[i - 1]);
                            assert(all.take(i as int).drop_last() =~= all.take(i - 1));
                        }
                        i = i - 1;
                        if str_eq(keys[i].key.as_str(), key.as_str()) {
                            return Ok(copy_texts(keys[i].capabilities.as_slice()));
                        }
                    }
                    Err(SecurityError::AuthenticationFailed("unknown api key".to_owned()))
                },
            },
        }
    }
}

/// A condition that row-level security puts on the entities of a type.
#[derive(Debug)]
pub struct RlsPolicy {
    /// The entity type.
    pub entity: String,
    /// The condition.
    pub filter: FilterExpr,
}

/// A policy in mathematical terms.
pub type PolicyView = (Seq<char>, FilterView);

/// Policies in mathematical terms.
pub open spec fn policies_view(policies: Seq<RlsPolicy>) -> Seq<PolicyView> {
    policies.map_values(|p: RlsPolicy| (p.entity@, p.filter@))
}

/// The condition that the policies put on a type, where they do.
pub open spec fn policy_for(policies: Seq<PolicyView>, entity: Seq<char>) -> Option<FilterView>
    decreases policies.len(),
{
    if policies.len() == 0 {
        None
    } else {
        let rest = policy_for(policies.drop_last(), entity);
        if policies.last().0 == entity {
            combined(rest, Some(policies.last().1))
        } else {
            rest
        }
    }
}

/// The condition that the policies put on a type, where they do: all of them
/// have to hold.
pub fn compile_policies(policies: &[RlsPolicy], entity: &str) -> (r: Option<FilterExpr>)
    ensures
        r.deep_view() == policy_for(policies_view(policies@), entity@),
{
    let ghost all = policies_view(policies@);
    let mut found: Option<FilterExpr> = None;
    let mut i: usize = 0;
    assert(all.take(0) =~= Seq::<PolicyView>::empty());
    while i < policies.len()
        invariant
            i <= policies@.len(),
            all == policies_view(policies@),
            found.deep_view() == policy_for(all.take(i as int), entity@),
        decreases policies@.len() - i,
    {
        proof {
            assert(all.take(i + 1).drop_last() =~= all.take(i as int));
            assert(all.take(i + 1).last() == all[i as int]);
        }
        if str_eq(policies[i].entity.as_str(), entity) {
            found = combine_filters(found, Some(policies[i].filter.copy()));
        }
        i = i + 1;
    }
    assert(all.take(all.len() as int) =~= all);
    found
}

} // verus!
