//! Who may do what, and the tokens that prove it was asked.

pub mod access;
pub mod marker;
pub mod model;
pub mod roles;

pub use access::{Access, ActionMarker, Denied, DeniedKind, DomainMarker, GlobalAccess};
pub use model::{Action, AuthCtx, Domain, Grant, GrantSet, PortfolioScope};
pub use roles::Role;
