//! System information logic of a small fetch tool: parsing of kernel files,
//! formatting of the fetched fields, and a bump allocator.

pub mod bump;
pub mod text;
pub mod uptime;
pub mod cpu;
pub mod cpuinfo;
pub mod colors;
pub mod desktop;
pub mod release;
pub mod system;
pub mod fetch;
pub mod mem;
