use vstd::prelude::*;
use crate::text::{owned, str_eq};

verus! {

/// The permission level of an admin; later variants grant more.
#[derive(Clone, Copy, Debug, PartialEq, Eq, Structural, PartialOrd, Ord)]
pub enum AdminRole {
    /// Grants control of the bot commands.
    Admin,
    /// The owner of the bot. Configured, never read from or written as a string.
    Superuser,
}

/// A stored role name that names no admin role.
#[derive(Clone, Debug, PartialEq, Eq)]
pub struct InvalidAdminRole {
    pub role: String,
}

/// Reads an admin role from its stored name: only `admin` names one.
pub fn parse_admin_role(s: &str) -> (r: Result<AdminRole, InvalidAdminRole>)
    ensures
        s@ == "admin"@ ==> r == Ok::<AdminRole, InvalidAdminRole>(AdminRole::Admin),
        s@ != "admin"@ ==> (r matches Err(e) && e.role@ == s@),
{
    if str_eq(s, "admin") {
        Ok(AdminRole::Admin)
    } else {
        Err(InvalidAdminRole { role: owned(s) })
    }
}

impl std::str::FromStr for AdminRole {
    type Err = InvalidAdminRole;

    fn from_str(s: &str) -> Result<AdminRole, InvalidAdminRole> {
        parse_admin_role(s)
    }
}

/// An administrator: a user snowflake id, stored signed, and a role name.
#[derive(Clone, Debug)]
pub struct Admin {
    user_id: i64,
    role: String,
}

impl Admin {
    /// The stored user id.
    pub closed spec fn stored_id(&self) -> i64 {
        self.user_id
    }

    /// The stored role name.
    pub closed spec fn stored_role(&self) -> Seq<char> {
        self.role@
    }

    pub fn new(user_id: i64, role: String) -> (r: Admin)
        ensures
            r.stored_id() == user_id,
            r.stored_role() == role@,
    {
        Admin { user_id, role }
    }

    /// The snowflake id of this user: the stored bits read as unsigned.
    pub fn user_id(&self) -> (r: u64)
        ensures
            r == self.stored_id() as u64,
            self.stored_id() >= 0 ==> r == self.stored_id(),
    {
        self.user_id as u64
    }

    /// The role of this user, read from its stored name.
    pub fn role(&self) -> (r: Result<AdminRole, InvalidAdminRole>)
        ensures
            self.stored_role() == "admin"@ ==> r == Ok::<AdminRole, InvalidAdminRole>(
                AdminRole::Admin,
            ),
            self.stored_role() != "admin"@ ==> (r matches Err(e) && e.role@ == self.stored_role()),
    {
        parse_admin_role(self.role.as_str())
    }
}

} // verus!
