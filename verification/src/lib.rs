//! # `ttyman`
//!
//! The verified core of a terminal session manager that persists, detaches
//! and reattaches terminal sessions: the `.ttyrec` frame format, keystroke
//! remapping, session and socket naming rules, the IPC vocabulary and the
//! decisions of the session server and of its clients, the configuration
//! defaults, and the text that screen snapshots are made of.
//!
//! - [`terminal`]: the in-memory VT100 screen model ([`Terminal`]).
//! - [`config`]: the configuration file ([`Config`]).
//! - [`ipc`]: session names, socket paths and the IPC request and response
//!   types ([`IpcRequest`], [`IpcResponse`]).
//! - [`server`] and [`attach`]: what the session server and the attaching
//!   client decide.
//! - [`commands`]: subcommand arguments and computations.
//! - [`completion`]: shell completion scripts that complete session names.
//! - [`ttyrec`] and [`remap`]: recordings and keystroke remapping.
pub mod attach;
pub mod clock;
pub mod commands;
pub mod completion;
pub mod config;
pub mod ipc;
pub mod remap;
pub mod server;
pub mod terminal;
pub mod text;
pub mod ttyrec;

pub use config::Config;
pub use ipc::{
    default_socket_path, named_socket_path, parse_name_from_socket_path, validate_session_name,
    IpcRequest, IpcResponse, SessionInfo, SessionNameError, DEFAULT_SESSION_VAR,
};
pub use terminal::Terminal;
pub use ttyrec::{
    calc_time_streaming, extract_frame_from_buffer, read_frame, read_header, write_frame,
    write_header, write_raw_frame, Frame, FrameError, FrameReader, Header, HeaderError,
    HEADER_SIZE, MAX_RECORD_LEN,
};
