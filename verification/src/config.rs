//! Configuration: how command-line values, the configuration file and the
//! built-in defaults combine into the runtime settings.
use vstd::prelude::*;
use vstd::string::StringExecFns;

use crate::error::Error;

verus! {

/// Default RPC control port exposed by the `iosm` driver.
pub const DEFAULT_RPC_PORT: &'static str = "/dev/wwan0xmmrpc0";
/// Default WWAN network interface created by `iosm`.
pub const DEFAULT_INTERFACE: &'static str = "wwan0";
/// Default metric for the installed default route.
pub const DEFAULT_METRIC: u32 = 1000;
/// Default interval between address queries, in seconds.
pub const DEFAULT_FETCH_INTERVAL_SECS: u64 = 1;
/// Default time to wait for an address, in seconds.
pub const DEFAULT_WAIT_SECS: u64 = 120;
/// Default firmware data-channel path.
pub const DEFAULT_DATACHANNEL: &'static str = "/sioscc/PCIE/IOSM/IPS/0";
/// Default resolver configuration file.
pub const DEFAULT_RESOLV_CONF: &'static str = "/etc/resolv.conf";
/// Name of the configuration file searched in the working directory.
pub const CONFIG_FILE_NAME: &'static str = "xmmrpc.toml";
/// The system-wide configuration file.
pub const SYSTEM_CONFIG_FILE: &'static str = "/etc/xmmrpc.toml";

/// Command-line values. Paths are held as text.
#[derive(Debug)]
pub struct Cli {
    /// Path to a TOML configuration file.
    pub config: Option<String>,
    /// Network provider APN.
    pub apn: Option<String>,
    /// WWAN network interface created by iosm.
    pub interface: Option<String>,
    /// XMM RPC control port.
    pub rpc_port: Option<String>,
    /// Install the modem as the default route.
    pub default_route: Option<bool>,
    /// Metric for the default route (higher is lower priority).
    pub metric: Option<u32>,
    /// Seconds between attempts to fetch the assigned IP address.
    pub ip_fetch_interval: Option<u64>,
    /// Seconds to wait for the network to assign an address.
    pub ip_wait: Option<u64>,
    /// Append modem-provided DNS servers to the resolver configuration.
    pub write_resolv: Option<bool>,
    /// Resolver configuration file to append DNS servers to.
    pub resolv_conf: Option<String>,
    /// Firmware data-channel path.
    pub datachannel_path: Option<String>,
    /// Print the version and exit.
    pub version: bool,
}

/// Values read from a TOML configuration file.
#[derive(Debug)]
pub struct FileConfig {
    /// Network provider APN.
    pub apn: Option<String>,
    /// WWAN network interface.
    pub interface: Option<String>,
    /// RPC control port.
    pub rpc_port: Option<String>,
    /// Whether to install the modem as the default route.
    pub default_route: Option<bool>,
    /// Default route metric.
    pub metric: Option<u32>,
    /// Seconds between address queries.
    pub ip_fetch_interval: Option<u64>,
    /// Seconds to wait for an address.
    pub ip_wait: Option<u64>,
    /// Whether to append DNS servers to the resolver configuration.
    pub write_resolv: Option<bool>,
    /// Resolver configuration file.
    pub resolv_conf: Option<String>,
    /// Firmware data-channel path.
    pub datachannel_path: Option<String>,
}

impl Default for FileConfig {
    fn default() -> (r: Self)
        ensures
            r.apn is None && r.interface is None && r.rpc_port is None && r.default_route is None
                && r.metric is None && r.ip_fetch_interval is None && r.ip_wait is None
                && r.write_resolv is None && r.resolv_conf is None && r.datachannel_path is None,
    {
        FileConfig {
            apn: None,
            interface: None,
            rpc_port: None,
            default_route: None,
            metric: None,
            ip_fetch_interval: None,
            ip_wait: None,
            write_resolv: None,
            resolv_conf: None,
            datachannel_path: None,
        }
    }
}

/// Fully resolved runtime settings.
#[derive(Debug, Clone)]
pub struct Settings {
    /// Network provider APN.
    pub apn: String,
    /// WWAN network interface.
    pub interface: String,
    /// RPC control port.
    pub rpc_port: String,
    /// Whether to install the modem as the default route.
    pub default_route: bool,
    /// Default route metric.
    pub metric: u32,
    /// Seconds between address queries.
    pub ip_fetch_interval: u64,
    /// Seconds to wait for an address.
    pub ip_wait: u64,
    /// Whether to append DNS servers to the resolver configuration.
    pub write_resolv: bool,
    /// Resolver configuration file.
    pub resolv_conf: String,
    /// Firmware data-channel path.
    pub datachannel_path: String,
}

/// The command line's value where it gives one, else the file's.
pub open spec fn first_given<T>(cli: Option<T>, file: Option<T>) -> Option<T> {
    match cli {
        Some(v) => Some(v),
        None => file,
    }
}

/// The text of a value given as text, else the default text.
pub open spec fn text_or(value: Option<String>, default: Seq<char>) -> Seq<char> {
    match value {
        Some(s) => s@,
        None => default,
    }
}

/// A value, else its default.
pub open spec fn value_or<T>(value: Option<T>, default: T) -> T {
    match value {
        Some(v) => v,
        None => default,
    }
}

/// The command line's text where it gives one, else the file's, else the
/// default.
fn merge_text(cli: &Option<String>, file: Option<String>, default: &str) -> (r: String)
    ensures
        r@ == text_or(first_given(*cli, file), default@),
{
    match cli {
        Some(value) => value.clone(),
        None => match file {
            Some(value) => value,
            None => default.to_owned(),
        },
    }
}

/// The command line's value where it gives one, else the file's, else the
/// default.
fn merge_value<T: Copy>(cli: Option<T>, file: Option<T>, default: T) -> (r: T)
    ensures
        r == value_or(first_given(cli, file), default),
{
    match cli {
        Some(value) => value,
        None => match file {
            Some(value) => value,
            None => default,
        },
    }
}

/// Every setting but the APN is the command line's value where it gives
/// one, else the file's, else its default.
pub open spec fn merged(cli: &Cli, file: &FileConfig, s: Settings) -> bool {
    &&& s.interface@ == text_or(first_given(cli.interface, file.interface), DEFAULT_INTERFACE@)
    &&& s.rpc_port@ == text_or(first_given(cli.rpc_port, file.rpc_port), DEFAULT_RPC_PORT@)
    &&& s.default_route == value_or(first_given(cli.default_route, file.default_route), true)
    &&& s.metric == value_or(first_given(cli.metric, file.metric), DEFAULT_METRIC)
    &&& s.ip_fetch_interval == value_or(
        first_given(cli.ip_fetch_interval, file.ip_fetch_interval),
        DEFAULT_FETCH_INTERVAL_SECS,
    )
    &&& s.ip_wait == value_or(first_given(cli.ip_wait, file.ip_wait), DEFAULT_WAIT_SECS)
    &&& s.write_resolv == value_or(first_given(cli.write_resolv, file.write_resolv), true)
    &&& s.resolv_conf@ == text_or(
        first_given(cli.resolv_conf, file.resolv_conf),
        DEFAULT_RESOLV_CONF@,
    )
    &&& s.datachannel_path@ == text_or(
        first_given(cli.datachannel_path, file.datachannel_path),
        DEFAULT_DATACHANNEL@,
    )
}

/// The settings that `resolve` gives for `cli` and `file`: the APN given
/// first, and every other setting merged.
pub open spec fn resolves_to(cli: &Cli, file: &FileConfig, s: Settings) -> bool {
    s.apn == first_given(cli.apn, file.apn)->0 && merged(cli, file, s)
}

/// What `resolve` gives for `cli` and `file`: an error naming the missing
/// APN where the APN given first is missing or empty, else settings that
/// [`resolves_to`] describes.
pub open spec fn resolve_outcome(cli: &Cli, file: &FileConfig, r: Result<Settings, Error>) -> bool {
    let apn = first_given(cli.apn, file.apn);
    &&& (apn is None || apn->0@.len() == 0) ==> (r matches Err(Error::Config(m)) && m@
        == "no APN configured (pass --apn or set `apn = \"...\"` in the config file)"@)
    &&& (apn is Some && apn->0@.len() > 0) ==> r is Ok
    &&& r matches Ok(s) ==> resolves_to(cli, file, s)
}

/// Settings resolve exactly when an APN that is not empty is given: on the
/// command line, or, where the command line gives none, in the file. An
/// empty APN on the command line is not replaced by the file's.
pub proof fn law_apn_is_required(cli: Cli, file: FileConfig, r: Result<Settings, Error>)
    requires
        resolve_outcome(&cli, &file, r),
    ensures
        r is Ok <==> (match cli.apn {
            Some(a) => a@.len() > 0,
            None => file.apn matches Some(a) && a@.len() > 0,
        }),
        r is Err ==> r matches Err(Error::Config(_)),
{
}

/// Command-line values override the file, which overrides the built-in
/// defaults: in resolved settings, each setting given on the command line
/// has that value; one given only in the file has the file's value; one
/// given in neither has its default.
pub proof fn law_command_line_over_file_over_default(cli: Cli, file: FileConfig, s: Settings)
    requires
        resolves_to(&cli, &file, s),
    ensures
        cli.apn matches Some(v) ==> s.apn@ == v@,
        cli.apn is None ==> (file.apn matches Some(v) ==> s.apn@ == v@),
        cli.interface matches Some(v) ==> s.interface@ == v@,
        cli.interface is None ==> (file.interface matches Some(v) ==> s.interface@ == v@),
        (cli.interface is None && file.interface is None) ==> s.interface@ == DEFAULT_INTERFACE@,
        cli.rpc_port matches Some(v) ==> s.rpc_port@ == v@,
        cli.rpc_port is None ==> (file.rpc_port matches Some(v) ==> s.rpc_port@ == v@),
        (cli.rpc_port is None && file.rpc_port is None) ==> s.rpc_port@ == DEFAULT_RPC_PORT@,
        cli.resolv_conf matches Some(v) ==> s.resolv_conf@ == v@,
        cli.resolv_conf is None ==> (file.resolv_conf matches Some(v) ==> s.resolv_conf@ == v@),
        (cli.resolv_conf is None && file.resolv_conf is None) ==> s.resolv_conf@ == DEFAULT_RESOLV_CONF@,
        cli.datachannel_path matches Some(v) ==> s.datachannel_path@ == v@,
        cli.datachannel_path is None ==> (file.datachannel_path matches Some(v) ==> s.datachannel_path@ == v@),
        (cli.datachannel_path is None && file.datachannel_path is None) ==> s.datachannel_path@ == DEFAULT_DATACHANNEL@,
        cli.default_route matches Some(v) ==> s.default_route == v,
        cli.default_route is None ==> (file.default_route matches Some(v) ==> s.default_route == v),
        (cli.default_route is None && file.default_route is None) ==> s.default_route == true,
        cli.metric matches Some(v) ==> s.metric == v,
        cli.metric is None ==> (file.metric matches Some(v) ==> s.metric == v),
        (cli.metric is None && file.metric is None) ==> s.metric == DEFAULT_METRIC,
        cli.ip_fetch_interval matches Some(v) ==> s.ip_fetch_interval == v,
        cli.ip_fetch_interval is None ==> (file.ip_fetch_interval matches Some(v) ==> s.ip_fetch_interval == v),
        (cli.ip_fetch_interval is None && file.ip_fetch_interval is None) ==> s.ip_fetch_interval == DEFAULT_FETCH_INTERVAL_SECS,
        cli.ip_wait matches Some(v) ==> s.ip_wait == v,
        cli.ip_wait is None ==> (file.ip_wait matches Some(v) ==> s.ip_wait == v),
        (cli.ip_wait is None && file.ip_wait is None) ==> s.ip_wait == DEFAULT_WAIT_SECS,
        cli.write_resolv matches Some(v) ==> s.write_resolv == v,
        cli.write_resolv is None ==> (file.write_resolv matches Some(v) ==> s.write_resolv == v),
        (cli.write_resolv is None && file.write_resolv is None) ==> s.write_resolv == true,
{
}

impl Settings {
    /// Merge defaults, the configuration file and command-line values: each
    /// setting comes from the command line where it is given there, else from
    /// the file, else from its default. The APN has no default and must not
    /// be empty.
    pub fn resolve(cli: &Cli, file: FileConfig) -> (r: Result<Self, Error>)
        ensures
            resolve_outcome(cli, &file, r),
    {
        let apn = match &cli.apn {
            Some(apn) => Some(apn.clone()),
            None => file.apn,
        };
        let apn = match apn {
            Some(apn) => {
                if apn.as_str().is_empty() {
                    None
                } else {
                    Some(apn)
                }
            },
            None => None,
        };
        let apn = match apn {
            Some(apn) => apn,
            None => {
                return Err(
                    Error::Config(
                        "no APN configured (pass --apn or set `apn = \"...\"` in the config file)".to_owned(),
                    ),
                );
            },
        };
        Ok(Settings {
            apn,
            interface: merge_text(&cli.interface, file.interface, DEFAULT_INTERFACE),
            rpc_port: merge_text(&cli.rpc_port, file.rpc_port, DEFAULT_RPC_PORT),
            default_route: merge_value(cli.default_route, file.default_route, true),
            metric: merge_value(cli.metric, file.metric, DEFAULT_METRIC),
            ip_fetch_interval: merge_value(
                cli.ip_fetch_interval,
                file.ip_fetch_interval,
                DEFAULT_FETCH_INTERVAL_SECS,
            ),
            ip_wait: merge_value(cli.ip_wait, file.ip_wait, DEFAULT_WAIT_SECS),
            write_resolv: merge_value(cli.write_resolv, file.write_resolv, true),
            resolv_conf: merge_text(&cli.resolv_conf, file.resolv_conf, DEFAULT_RESOLV_CONF),
            datachannel_path: merge_text(
                &cli.datachannel_path,
                file.datachannel_path,
                DEFAULT_DATACHANNEL,
            ),
        })
    }
}

/// The configuration file to read: the one named explicitly, else the first
/// candidate that exists, else none.
pub fn choose_config_file(explicit: Option<String>, candidates: &[(String, bool)]) -> (r: Option<
    String,
>)
    ensures
        explicit is Some ==> r == explicit,
        explicit is None ==> match r {
            Some(path) => exists|i: int|
                0 <= i < candidates@.len() && candidates@[i].1 && candidates@[i].0 == path && (
                forall|j: int| 0 <= j < i ==> !(#[trigger] candidates@[j]).1),
            None => forall|j: int| 0 <= j < candidates@.len() ==> !(#[trigger] candidates@[j]).1,
        },
{
    if explicit.is_some() {
        return explicit;
    }
    let mut i: usize = 0;
    while i < candidates.len()
        invariant
            i <= candidates@.len(),
            explicit is None,
            forall|j: int| 0 <= j < i ==> !(#[trigger] candidates@[j]).1,
        decreases candidates.len() - i,
    {
        if candidates[i].1 {
            return Some(candidates[i].0.clone());
        }
        i = i + 1;
    }
    None
}

/// The configuration files searched when none is named, in order: the one
/// in the working directory (`in_working_dir`, where the working directory is
/// known), then [`SYSTEM_CONFIG_FILE`].
pub fn config_candidates(in_working_dir: Option<String>) -> (paths: Vec<String>)
    ensures
        match in_working_dir {
            Some(p) => paths@.len() == 2 && paths@[0]@ == p@ && paths@[1]@ == SYSTEM_CONFIG_FILE@,
            None => paths@.len() == 1 && paths@[0]@ == SYSTEM_CONFIG_FILE@,
        },
{
    let mut paths: Vec<String> = Vec::new();
    if let Some(p) = in_working_dir {
        paths.push(p);
    }
    paths.push(SYSTEM_CONFIG_FILE.to_owned());
    paths
}

} // verus!
