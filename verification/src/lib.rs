//! Symmetrix: finite-field arithmetic (prime fields, CRT, binary word fields),
//! cache-aware tensor layout with Morton ordering, the configuration model of the
//! Symmetrix mathematical runtime and its QANBAN / QAGML / UAO-QTCAM parts, and the
//! request handling of its control-plane server (HTTP, WebSocket handshake, commands).
pub mod bignat;
pub mod bits;
pub mod bus_coalescing;
pub mod commands;
pub mod config;
pub mod control_plane;
pub mod crt;
pub mod euclid;
pub mod galois;
pub mod gf32;
pub mod http_request;
pub mod morton;
pub mod qagml;
pub mod qagml_engine;
pub mod qanban;
pub mod quantum_cache;
pub mod sheaf;
pub mod tensor;
pub mod text;
pub mod websocket;
