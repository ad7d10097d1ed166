//! The start-up checks of the local server: configuration files, policy
//! consistency and the listening address.
use crate::policy::{Directory, Policy};
use crate::text::{chars_of, push_chars, push_decimal, decimal, same_text};
use vstd::prelude::*;

verus! {

/// The largest configuration file, in bytes.
pub const CONFIG_LIMIT: usize = 65536;

/// A configuration file is at most `CONFIG_LIMIT` bytes and declares schema `1.0`.
pub open spec fn spec_configuration_check(size: usize, schema_version: Option<Seq<char>>) -> Result<
    (),
    Seq<char>,
> {
    if size > CONFIG_LIMIT {
        Err("Configuration trop volumineuse."@)
    } else if schema_version != Some("1.0"@) {
        Err("Version de configuration invalide."@)
    } else {
        Ok(())
    }
}

/// Checks a configuration file of `size` bytes whose `schema_version` field, when it
/// is a string, is `schema_version`.
pub fn configuration_check(size: usize, schema_version: Option<&str>) -> (r: Result<(), &'static str>)
    ensures
        match r {
            Ok(_) => spec_configuration_check(
                size,
                match schema_version {
                    Some(s) => Some(s@),
                    None => None,
                },
            ) is Ok,
            Err(m) => spec_configuration_check(
                size,
                match schema_version {
                    Some(s) => Some(s@),
                    None => None,
                },
            ) == Err::<(), Seq<char>>(m@),
        },
{
    if size > 65536 {
        return Err("Configuration trop volumineuse.");
    }
    let ok = match schema_version {
        Some(s) => same_text(s, "1.0"),
        None => false,
    };
    if !ok {
        return Err("Version de configuration invalide.");
    }
    Ok(())
}

/// Keeps a policy and its directory only when the policy is consistent with it.
pub fn load_policy(policy: Policy, directory: Directory) -> (r: Result<
    (Policy, Directory),
    &'static str,
>)
    ensures
        match r {
            Ok((p, d)) => policy.spec_validate(directory) is None && p == policy && d == directory,
            Err(m) => policy.spec_validate(directory) is Some && m@ == "Politique incohérente."@,
        },
{
    match policy.validate(&directory) {
        Ok(()) => Ok((policy, directory)),
        Err(_) => Err("Politique incohérente."),
    }
}

/// Ports that the server never takes: none, and those of the other local services.
pub open spec fn reserved_port(port: u16) -> bool {
    port == 0 || port == 3210 || port == 11434 || port == 6333
}

/// The `host:port` that the server listens on and expects in `Host`, on the loopback
/// interface; a reserved port is refused.
pub fn listen_host(port: u16) -> (r: Result<String, &'static str>)
    ensures
        match r {
            Ok(h) => !reserved_port(port) && h@ == "127.0.0.1:"@ + decimal(port as nat),
            Err(m) => reserved_port(port) && m@ == "Port réservé ou invalide."@,
        },
{
    if port == 0 || port == 3210 || port == 11434 || port == 6333 {
        return Err("Port réservé ou invalide.");
    }
    let mut h = String::new();
    push_chars(&mut h, &chars_of("127.0.0.1:"));
    push_decimal(&mut h, port as u64);
    Ok(h)
}

} // verus!
