//! Named environments of host entries, and the system hosts file that they are
//! switched into: a hosts-file line codec, IP address text, hostname checks, the
//! environment model, the split and rebuild of the hosts file, and what each
//! command decides and prints.
pub mod commands;
pub mod config;
pub mod hosts;
pub mod ip;
pub mod ip_laws;
pub mod laws;
pub mod storage;
pub mod text;
