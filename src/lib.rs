//! Admission control for peer groups: certificate-based admission, quorum
//! (vote) based admission and an open baseline policy.

pub mod ca_permissioned;
pub mod codec;
pub mod identity;
pub mod permissionless;
pub mod table;
pub mod types;
pub mod vote_permissioned;

pub use ca_permissioned::{CAPermissionedGroup, MemberRecord};
pub use codec::{decode_join_payload, encode_join_payload, key_message};
pub use identity::{Identity, IdentityError};
pub use permissionless::PermissionlessGroup;
pub use types::{GroupId, JoinVerdict, PeerAddr, SocketAddress, REJECT_BAD_CERTIFICATE, REJECT_MALFORMED};
pub use vote_permissioned::{Certificate, VotePermissionedGroup};
