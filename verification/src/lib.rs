//! Content addressing and indexing for transfer containers of client-side
//! validated contracts.
//!
//! A transfer is identified by the tagged digest of a commitment to what it
//! holds ([`transfer`], [`ident`], [`digest`]). Collections are committed to
//! in canonical arrangement ([`order`], [`canon`], [`encoding`]), so that
//! the identifier does not depend on the order of insertion, and seals are
//! shown in concealed form only ([`seal`]). For validation a consignment
//! ([`contract`]) is wrapped together with an index from its operations to
//! the witnesses that anchor them ([`indexed`]).

pub mod canon;
pub mod contract;
pub mod digest;
pub mod encoding;
pub mod ident;
pub mod indexed;
pub mod order;
pub mod seal;
pub mod transfer;
