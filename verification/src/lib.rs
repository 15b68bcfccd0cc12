//! Hemlock: the verified core of a network operating system's control plane.

pub mod agentx;
pub mod answers;
pub mod bytes;
pub mod checksum;
pub mod clock;
pub mod dhcp;
pub mod dhcpserver;
pub mod dot1x;
pub mod double;
pub mod frrshow;
pub mod interfaces;
pub mod ip;
pub mod json;
pub mod lacp;
pub mod laws;
pub mod lint;
pub mod lldp;
pub mod mac;
pub mod natural;
pub mod ntpshow;
pub mod ordmap;
pub mod platform;
pub mod quirks;
pub mod requests;
pub mod rib;
pub mod schema;
pub mod sflow;
pub mod snmpsub;
pub mod snoop;
pub mod snoopsec;
pub mod stp;
pub mod sysinit;
pub mod text;
pub mod topology;
pub mod transport;
