//! What holds of the engines as a whole: laws on what goes in and what comes
//! out.

pub mod agentx;
pub mod answers;
pub mod basics;
pub mod dhcp;
pub mod dhcpserver;
pub mod dot1x;
pub mod frrshow;
pub mod lacp;
pub mod lint;
pub mod lldp;
pub mod ntpshow;
pub mod platform;
pub mod requests;
pub mod rib;
pub mod sflow;
pub mod snmpsub;
pub mod snoop;
pub mod snoopsec;
pub mod stp;
pub mod sysinit;
pub mod text;
pub mod topology;
pub mod transport;
pub mod views;
