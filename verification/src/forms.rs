//! The forms the console's pages post, and what each form asks for.

use vstd::prelude::*;
use crate::text::owned;
use crate::requests::{GroupUpdate, NewGroup, NewUser, UserUpdate};
use crate::web::{SetupError, check_login, encode_len, login_accepted, setup_password_hash};

verus! {

broadcast use vstd::string::group_string_axioms;

/// The first-run setup form.
pub struct SetupForm {
    pub username: String,
    pub password: String,
    pub confirm_password: String,
}

impl SetupForm {
    /// The admin password hash to store, or why setup is refused.
    pub fn password_hash(&self) -> (r: Result<String, SetupError>)
        ensures
            match r {
                Ok(h) => self.password@ == self.confirm_password@ && encode_len(self.password@)
                    >= 8 && login_accepted(self.password@, Some(h@)),
                Err(SetupError::PasswordsDiffer) => self.password@ != self.confirm_password@,
                Err(SetupError::PasswordTooShort) => self.password@ == self.confirm_password@
                    && encode_len(self.password@) < 8,
                Err(SetupError::Hashing(_)) => self.password@ == self.confirm_password@
                    && encode_len(self.password@) >= 8,
            },
    {
        setup_password_hash(self.password.as_str(), self.confirm_password.as_str())
    }
}

/// The login form.
pub struct LoginForm {
    pub username: String,
    pub password: String,
}

impl LoginForm {
    /// Whether the password matches the stored hash of the named account
    /// (`None` when no account has that name).
    pub fn accepted(&self, stored: Option<&str>) -> (r: bool)
        ensures
            r == login_accepted(self.password@, match stored {
                Some(h) => Some(h@),
                None => None,
            }),
    {
        check_login(self.password.as_str(), stored)
    }
}

/// The form that adds a domain controller.
pub struct ServerForm {
    pub name: String,
    pub ldap_url: String,
    pub bind_dn: String,
    pub bind_password: String,
    pub skip_tls: Option<String>,
}

impl ServerForm {
    /// Whether certificate checks are skipped (the box was ticked).
    pub fn skips_tls(&self) -> (r: bool)
        ensures
            r == self.skip_tls is Some,
    {
        self.skip_tls.is_some()
    }
}

/// The form that edits a domain controller.
pub struct UpdateServerForm {
    pub name: String,
    pub ldap_url: String,
    pub bind_dn: String,
    pub bind_password: String,
    pub skip_tls: Option<String>,
}

impl UpdateServerForm {
    /// Whether certificate checks are skipped (the box was ticked).
    pub fn skips_tls(&self) -> (r: bool)
        ensures
            r == self.skip_tls is Some,
    {
        self.skip_tls.is_some()
    }

    /// Whether the stored bind password is kept: an empty field leaves it.
    pub fn keeps_password(&self) -> (r: bool)
        ensures
            r == (self.bind_password@.len() == 0),
    {
        self.bind_password.as_str().is_empty()
    }
}

/// The form that creates a group.
pub struct CreateGroupForm {
    pub name: String,
    pub description: String,
    pub group_type: i64,
}

impl CreateGroupForm {
    /// The group the form describes.
    pub fn new_group(&self) -> (r: NewGroup<'_>)
        ensures
            r.name@ == self.name@,
            r.description@ == self.description@,
            r.group_type == self.group_type,
    {
        NewGroup {
            name: self.name.as_str(),
            description: self.description.as_str(),
            group_type: self.group_type,
        }
    }
}

/// The form that edits a group.
pub struct UpdateGroupForm {
    pub description: String,
}

impl UpdateGroupForm {
    /// The change the form describes.
    pub fn update(&self) -> (r: GroupUpdate<'_>)
        ensures
            r.description@ == self.description@,
    {
        GroupUpdate { description: self.description.as_str() }
    }
}

/// The form that adds a member to a group.
pub struct AddMemberForm {
    pub username: String,
}

/// The form that creates an organizational unit.
pub struct CreateOuForm {
    pub name: String,
    pub description: String,
    pub parent_dn: String,
}

/// The form that renames an organizational unit.
pub struct RenameOuForm {
    pub ou_dn: String,
    pub new_name: String,
}

/// The form that deletes an organizational unit.
pub struct DeleteOuForm {
    pub ou_dn: String,
}

/// The form that moves an object into an organizational unit.
pub struct MoveObjectForm {
    pub sam_account: String,
    pub target_ou_dn: String,
}

/// The form that adds a DNS record.
pub struct AddDnsRecordForm {
    pub node_name: String,
    pub record_type: String,
    pub value: String,
    pub ttl: u32,
}

/// The form that deletes a DNS record, given by its raw value in hex.
pub struct DeleteDnsRecordForm {
    pub node_name: String,
    pub raw_hex: String,
}

/// The form that creates a GPO.
pub struct CreateGpoForm {
    pub display_name: String,
}

/// The form that edits a GPO.
pub struct UpdateGpoForm {
    pub display_name: String,
    pub flags: i32,
}

/// The form that links a GPO to, or unlinks it from, a container.
pub struct GpoLinkForm {
    pub ou_dn: String,
}

/// The form that creates a user.
pub struct CreateUserForm {
    pub username: String,
    pub first_name: String,
    pub last_name: String,
    pub email: String,
    pub password: String,
}

impl CreateUserForm {
    /// The user the form describes.
    pub fn new_user(&self) -> (r: NewUser<'_>)
        ensures
            r.username@ == self.username@,
            r.first_name@ == self.first_name@,
            r.last_name@ == self.last_name@,
            r.email@ == self.email@,
            r.password@ == self.password@,
    {
        NewUser {
            username: self.username.as_str(),
            first_name: self.first_name.as_str(),
            last_name: self.last_name.as_str(),
            email: self.email.as_str(),
            password: self.password.as_str(),
        }
    }
}

/// The form that edits a user.
pub struct UpdateUserForm {
    pub first_name: String,
    pub last_name: String,
    pub email: String,
    pub password: String,
}

impl UpdateUserForm {
    /// The change the form describes.
    pub fn update(&self) -> (r: UserUpdate<'_>)
        ensures
            r.first_name@ == self.first_name@,
            r.last_name@ == self.last_name@,
            r.email@ == self.email@,
            r.password@ == self.password@,
    {
        UserUpdate {
            first_name: self.first_name.as_str(),
            last_name: self.last_name.as_str(),
            email: self.email.as_str(),
            password: self.password.as_str(),
        }
    }
}

/// The form that enables or disables an account; `enable` is `true` or
/// `false`.
pub struct ToggleForm {
    pub enable: String,
}

impl ToggleForm {
    /// Whether the account is to be enabled: only the text `true` enables.
    pub fn enabling(&self) -> (r: bool)
        ensures
            r == (self.enable@ == "true"@),
    {
        self.enable == owned("true")
    }
}

/// The form that resets a user's password; the box sends a value when
/// ticked.
pub struct ResetPasswordForm {
    pub password: String,
    pub force_change: Option<String>,
}

impl ResetPasswordForm {
    /// Whether the user must change the password at next logon.
    pub fn forces_change(&self) -> (r: bool)
        ensures
            r == self.force_change is Some,
    {
        self.force_change.is_some()
    }

    /// The form is refused when the new password is empty.
    pub fn check(&self) -> (r: Result<(), String>)
        ensures
            match r {
                Ok(()) => self.password@.len() > 0,
                Err(e) => self.password@.len() == 0 && e@ == "Password cannot be empty"@,
            },
    {
        if self.password.as_str().is_empty() {
            Err(owned("Password cannot be empty"))
        } else {
            Ok(())
        }
    }
}

} // verus!
