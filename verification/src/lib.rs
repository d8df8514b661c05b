use vstd::prelude::*;

pub mod text;
pub mod strmap;
pub mod expiry;
pub mod broker;
pub mod grants;
pub mod room;
pub mod rate_limit;
pub mod reconnect;
pub mod access;
pub mod auth;
pub mod protocol;
pub mod voting;
pub mod tasks;
pub mod webhooks;
pub mod session;
pub mod http_rules;
pub mod startup;

verus! {

} // verus!
