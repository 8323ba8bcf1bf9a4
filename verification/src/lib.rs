//! Control-plane and data-plane logic of a WireGuard mesh.
//!
//! Every module states its behaviour over mathematical models and proves it; sockets, files, clocks
//! and processes are left to the application around the library.
pub mod text;
pub mod order;
pub mod assoc;
pub mod wire;
pub mod clock;
pub mod net;
pub mod url;
pub mod membership;
pub mod mesh;
pub mod netcfg;
pub mod coord;
pub mod zone;
pub mod versions;
pub mod beacon;
pub mod cert;
pub mod dns;
pub mod mesh_services;
pub mod p2p;
pub mod api;
pub mod fw;
pub mod peering;
pub mod tunnel;
pub mod ice;
pub mod daemon;
pub mod lifecycle;
pub mod release;
pub mod control;
pub mod config;
pub mod oauth;
pub mod upnp;
pub mod ping;
pub mod keys;
pub mod proxy;
pub mod ctl;
pub mod command;
