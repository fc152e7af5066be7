//! Settings of the pub/sub relay.

use vstd::prelude::*;
use crate::interval::Interval;

verus! {

/// The pub/sub relay's settings.
#[derive(Debug)]
pub struct Config {
    /// A file to read the settings from instead.
    pub config_file: Option<String>,
    pub create: CreateOpt,
    pub connect: ConnectOpt,
    /// Topics to subscribe to.
    pub events: Vec<String>,
    /// Quality of service: 0 at most once, 1 at least once, 2 exactly once.
    pub qos: i32,
}

impl Config {
    /// The quality of service when none is given: exactly once.
    pub fn default_qos() -> (r: i32)
        ensures
            r == 2,
    {
        2
    }
}

/// How to create the client.
#[derive(Debug)]
pub struct CreateOpt {
    /// The server's URL.
    pub url: String,
    /// The client id, for resuming a session.
    pub client_id: String,
    /// The protocol version.
    pub mqtt_version: u32,
}

impl CreateOpt {
    /// The server's URL when none is given: `localhost:1883`.
    pub fn default_url() -> (r: String)
        ensures
            r@ == "localhost:1883"@,
    {
        "localhost:1883".to_owned()
    }

    /// The protocol version when none is given: 5.
    pub fn default_version() -> (r: u32)
        ensures
            r == 5,
    {
        5
    }
}

/// How to connect.
#[derive(Debug)]
pub struct ConnectOpt {
    /// The keep-alive interval of the session.
    pub keep_alive_interval: Option<Interval>,
    /// The 'clean session' flag (protocol 3 only).
    pub clean_session: bool,
    /// The 'clean start' flag (protocol 5 only).
    pub clean_start: bool,
    /// The most messages in flight at once.
    pub max_inflight: Option<i32>,
    pub username: Option<String>,
    pub password: Option<String>,
    /// How long the connection may take.
    pub connect_timeout: Option<Interval>,
    /// How long to wait between connection attempts.
    pub retry_interval: Option<Interval>,
    /// The shortest wait before reconnecting.
    pub automatic_reconnect_min: Option<Interval>,
    /// The longest wait before reconnecting.
    pub automatic_reconnect_max: Option<Interval>,
    /// The HTTP proxy for websockets.
    pub http_proxy: Option<String>,
    /// The HTTPS proxy for websockets.
    pub https_proxy: Option<String>,
    pub ssl: SslOpts,
}

/// Transport security settings; paths are given as text.
#[derive(Debug)]
pub struct SslOpts {
    /// PEM file of the certificates to trust.
    pub trust_store: Option<String>,
    /// PEM file of the public certificate chain.
    pub key_store: Option<String>,
    /// PEM file of the client's private key, when not in the key store.
    pub private_key: Option<String>,
    /// The password of the private key.
    pub private_key_password: Option<String>,
    /// The cipher suites to offer.
    pub enabled_cipher_suites: Option<String>,
    /// Whether the server's certificate is verified.
    pub enable_server_cert_auth: bool,
    /// Whether the post-connection checks run.
    pub verify: bool,
    /// Directory of CA certificates.
    pub ca_path: Option<String>,
    /// Whether the default trust store is left unloaded.
    pub disable_default_trust_store: bool,
}

} // verus!
