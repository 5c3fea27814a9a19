//! Request planning and wire-format codecs for managing a Samba Active
//! Directory domain controller over LDAP.

pub mod text;
pub mod encoding;
pub mod dns;
pub mod sort;
pub mod directory;
pub mod requests;
pub mod policy;
pub mod units;
pub mod zones;
pub mod web;
pub mod forms;
pub mod searches;
