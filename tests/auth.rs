use dairy_core::auth::{require_manager, require_owner, AuthContext, Claims, Role, TOKEN_LIFETIME_SECONDS};
use dairy_core::error::AppError;

#[test]
fn roles_gate_operations() {
    let manager = AuthContext { user_id: 1, role: Role::Manager, username: "boss".to_string() };
    let driver = AuthContext { user_id: 2, role: Role::Driver, username: "dan".to_string() };
    assert_eq!(require_manager(&manager), Ok(()));
    assert_eq!(require_manager(&driver), Err(AppError::Forbidden));
    assert_eq!(require_owner(&driver, Some(2)), Ok(()));
    assert_eq!(require_owner(&driver, Some(3)), Err(AppError::Forbidden));
    assert_eq!(require_owner(&driver, None), Err(AppError::Forbidden));
    assert_eq!(require_owner(&manager, Some(3)), Ok(()));
}

#[test]
fn claims_last_eight_hours() {
    let c = Claims::issue(5, Role::Driver, "dan".to_string(), 1_000);
    assert_eq!(c.exp, 1_000 + 8 * 3600);
    assert_eq!(TOKEN_LIFETIME_SECONDS, 28_800);
    let ctx = c.into_context();
    assert_eq!(ctx.user_id, 5);
    assert_eq!(ctx.role, Role::Driver);
    assert_eq!(ctx.username, "dan");
}
