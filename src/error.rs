use vstd::prelude::*;

verus! {

/// The error kinds that every operation of the core reports.
#[derive(Debug, Clone, Copy, PartialEq, Eq, Structural)]
pub enum AppError {
    /// Malformed or out-of-range input (a quantity that is not positive, an over-return, ...).
    Validation,
    /// Not enough stock to satisfy an outbound movement or an allocation.
    InsufficientStock,
    /// A state-transition violation or a duplicate key.
    Conflict,
    /// A referenced entity does not exist.
    NotFound,
    /// The caller's role does not allow the operation.
    Forbidden,
    /// An unexpected failure of the surrounding storage.
    Internal,
}

impl AppError {
    /// The machine-readable code that the presentation layer sends with the error.
    pub fn code(&self) -> (r: &'static str)
        ensures
            r@ == match *self {
                AppError::Validation => "validation_error"@,
                AppError::InsufficientStock => "insufficient_stock"@,
                AppError::Conflict => "conflict"@,
                AppError::NotFound => "not_found"@,
                AppError::Forbidden => "forbidden"@,
                AppError::Internal => "internal_error"@,
            },
    {
        match self {
            AppError::Validation => "validation_error",
            AppError::InsufficientStock => "insufficient_stock",
            AppError::Conflict => "conflict",
            AppError::NotFound => "not_found",
            AppError::Forbidden => "forbidden",
            AppError::Internal => "internal_error",
        }
    }

    /// The HTTP status that corresponds to the error kind.
    pub fn status(&self) -> (r: u16)
        ensures
            r == match *self {
                AppError::Validation | AppError::InsufficientStock => 400u16,
                AppError::Conflict => 409u16,
                AppError::NotFound => 404u16,
                AppError::Forbidden => 403u16,
                AppError::Internal => 500u16,
            },
    {
        match self {
            AppError::Validation | AppError::InsufficientStock => 400,
            AppError::Conflict => 409,
            AppError::NotFound => 404,
            AppError::Forbidden => 403,
            AppError::Internal => 500,
        }
    }
}

} // verus!
