use vstd::prelude::*;
use crate::error::AppError;

verus! {

#[derive(Debug, Clone, Copy, PartialEq, Eq, Structural)]
pub enum Role {
    Manager,
    Driver,
}

/// Who is calling: attached to every request once its token is checked.
#[derive(Debug, Clone)]
pub struct AuthContext {
    pub user_id: u64,
    pub role: Role,
    pub username: String,
}

/// What a signed token says of its holder. Times are seconds since the epoch.
#[derive(Debug)]
pub struct Claims {
    pub sub: u64,
    pub role: Role,
    pub exp: u64,
    pub iat: u64,
    pub username: String,
}

/// Tokens last eight hours.
pub const TOKEN_LIFETIME_SECONDS: u64 = 28800;

impl Claims {
    /// The claims of a token issued at `now` for a user.
    pub fn issue(user_id: u64, role: Role, username: String, now: u64) -> (r: Claims)
        requires
            now <= u64::MAX - TOKEN_LIFETIME_SECONDS,
        ensures
            r.sub == user_id,
            r.role == role,
            r.username == username,
            r.iat == now,
            r.exp == now + TOKEN_LIFETIME_SECONDS,
    {
        Claims { sub: user_id, role, exp: now + TOKEN_LIFETIME_SECONDS, iat: now, username }
    }

    /// The caller that the claims describe.
    pub fn into_context(self) -> (r: AuthContext)
        ensures
            r.user_id == self.sub,
            r.role == self.role,
            r.username == self.username,
    {
        AuthContext { user_id: self.sub, role: self.role, username: self.username }
    }
}

/// Only managers may run the operations that change stock, loads,
/// reconciliations and allowances.
pub fn require_manager(ctx: &AuthContext) -> (r: Result<(), AppError>)
    ensures
        ctx.role == Role::Manager <==> r is Ok,
        r is Err ==> r == Err::<(), AppError>(AppError::Forbidden),
{
    match ctx.role {
        Role::Manager => Ok(()),
        Role::Driver => Err(AppError::Forbidden),
    }
}

/// A driver acts only for their own truck or their own sale; a manager for
/// any.
pub fn require_owner(ctx: &AuthContext, owner: Option<u64>) -> (r: Result<(), AppError>)
    ensures
        (ctx.role == Role::Manager || owner == Some(ctx.user_id)) <==> r is Ok,
        r is Err ==> r == Err::<(), AppError>(AppError::Forbidden),
{
    match ctx.role {
        Role::Manager => Ok(()),
        Role::Driver => match owner {
            Some(o) => if o == ctx.user_id {
                Ok(())
            } else {
                Err(AppError::Forbidden)
            },
            None => Err(AppError::Forbidden),
        },
    }
}

} // verus!
