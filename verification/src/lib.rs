//! A service that exposes ECHONET Lite devices through the ECHONET Lite Web API
//! guidelines: device descriptions, converters between JSON values and EDT bytes,
//! the backend's line protocol, and the decisions of the Web API handlers.
use vstd::prelude::*;

pub mod converters;
pub mod descriptions;
pub mod echo;
pub mod echoinfo;
pub mod errors;
pub mod hex;
pub mod lineproto;
pub mod service;
pub mod setup;
pub mod text;

pub use descriptions::{
    DeviceDescription, DeviceProperty, Descriptions, Options, PropertyValue, Schema, TextDescription,
    TypedSchema,
};
pub use echo::{EchoCommand, EchoOperation};
pub use errors::{ErrorReply, ErrorResponse, NetError, ReplyBody};
pub use hex::{to_bytes, to_usize};

verus! {

/// Where the backend listens and where the descriptions and the additional
/// information are read from.
#[derive(Debug)]
pub struct Config {
    pub backend: String,
    pub dd_dir: String,
    pub superclass_dd: String,
    pub ai_file: String,
}

/// What the service knows once it is set up: its configuration, the device
/// instances, and the description of each instance keyed by `host:eoj`.
#[derive(Debug)]
pub struct AppData {
    pub config: Config,
    pub instances: Vec<echoinfo::EchonetDevice>,
    pub updated_descriptions: Vec<(String, DeviceDescription)>,
}

} // verus!
