//! A settings manager core: a registry of tracked applications, the
//! file-transfer rules that move their configuration files between the
//! real location, a local staging tree and an ephemeral mirror clone,
//! and the decision logic of the git-backed synchronization protocol.

pub mod codec;
pub mod fileman;
pub mod gitman;
pub mod paths;
pub mod setman;
pub mod transfer;

use vstd::prelude::*;

verus! {

} // verus!
