//! Verified decision logic of an APT-style package client: the per-host
//! credential store read from `auth.conf.d`, and the ordering of the mirror
//! menu.

pub mod auth;
pub mod mirror;
