//! Connection targets and the host specification grammar.

use crate::text::{lemma_split_shape, parse_port, port_of, split, split_on};
use vstd::prelude::*;
use vstd::string::*;

verus! {

/// A connection target together with the identity commands run under.
#[derive(Debug, PartialEq, Eq)]
pub struct RemoteHost {
    pub host: String,
    pub sudo: Option<String>,
    pub username: String,
    pub port: u16,
}

/// Mathematical model of a [`RemoteHost`].
pub struct RemoteHostView {
    pub host: Seq<char>,
    pub sudo: Option<Seq<char>>,
    pub username: Seq<char>,
    pub port: u16,
}

/// Model of an optional string.
pub open spec fn opt_text(s: Option<String>) -> Option<Seq<char>> {
    match s {
        Some(t) => Some(t@),
        None => None,
    }
}

impl View for RemoteHost {
    type V = RemoteHostView;

    open spec fn view(&self) -> RemoteHostView {
        RemoteHostView {
            host: self.host@,
            sudo: opt_text(self.sudo),
            username: self.username@,
            port: self.port,
        }
    }
}

impl RemoteHostView {
    /// The identity commands effectively run under: the escalation target
    /// when there is one, the login user otherwise.
    pub open spec fn effective_user(self) -> Seq<char> {
        match self.sudo {
            Some(target) => target,
            None => self.username,
        }
    }

    /// The display form `user@host`.
    pub open spec fn label(self) -> Seq<char> {
        self.effective_user().push('@') + self.host
    }
}

/// Copies an optional string.
pub fn clone_opt_text(s: &Option<String>) -> (copy: Option<String>)
    ensures
        opt_text(copy) == opt_text(*s),
{
    match s {
        Some(t) => Some(t.clone()),
        None => None,
    }
}

impl Clone for RemoteHost {
    fn clone(&self) -> (copy: Self)
        ensures
            copy@ == self@,
    {
        RemoteHost {
            host: self.host.clone(),
            sudo: clone_opt_text(&self.sudo),
            username: self.username.clone(),
            port: self.port,
        }
    }
}

impl RemoteHost {
    /// The display form of the host: `user@host`, where `user` is the
    /// escalation target if one was requested and the login user otherwise.
    pub fn to_string(&self) -> (label: String)
        ensures
            label@ == self@.label(),
    {
        let mut label = match &self.sudo {
            Some(target) => target.clone(),
            None => self.username.clone(),
        };
        label.append("@");
        label.append(self.host.as_str());
        proof {
            reveal_strlit("@");
            assert("@"@ =~= seq!['@']);
            assert(label@ =~= self@.label());
        }
        label
    }
}

/// Port used when a host specification names none.
pub const DEFAULT_PORT: u16 = 22;

/// Why a host specification was refused.
#[derive(Debug, Clone, Copy, PartialEq, Eq)]
pub enum HostSpecError {
    /// More than a login user and an escalation target were named.
    InvalidUserName,
    /// No user was named and the invoker's own name is not known.
    UnknownInvoker,
    /// The host is empty, or more than a host and a port were named.
    InvalidHost,
    /// What stands for the port is not a number a port can have.
    InvalidPort,
}

impl HostSpecError {
    /// The text shown to the user for this error.
    pub open spec fn message(self) -> Seq<char> {
        match self {
            HostSpecError::InvalidUserName => "Invalid user name"@,
            HostSpecError::UnknownInvoker => "No user name given and none known for the invoker"@,
            HostSpecError::InvalidHost => "Invalid host"@,
            HostSpecError::InvalidPort => "Invalid port"@,
        }
    }

    /// The text shown to the user for this error.
    pub fn to_string(&self) -> (text: String)
        ensures
            text@ == self.message(),
    {
        match self {
            HostSpecError::InvalidUserName => "Invalid user name".to_string(),
            HostSpecError::UnknownInvoker => "No user name given and none known for the invoker".to_string(),
            HostSpecError::InvalidHost => "Invalid host".to_string(),
            HostSpecError::InvalidPort => "Invalid port".to_string(),
        }
    }
}

/// The users a host specification names: everything before its last `@`,
/// split at each `@`.
pub open spec fn users_of(spec: Seq<char>) -> Seq<Seq<char>> {
    split_on(spec, '@').drop_last()
}

/// What a host specification names after its last `@`: the host and, behind
/// a `:`, the port.
pub open spec fn target_of(spec: Seq<char>) -> Seq<Seq<char>> {
    split_on(split_on(spec, '@').last(), ':')
}

/// The meaning of a host specification `[user[@sudo]@]host[:port]`, for an
/// invoker of the given name.
///
/// One user is the login user; of two, the second is the escalation target;
/// with none the login user is the invoker. A missing port is 22. The users
/// are judged before the host and the port before the host's emptiness.
pub open spec fn host_spec(spec: Seq<char>, invoker: Option<Seq<char>>) -> Result<
    RemoteHostView,
    HostSpecError,
> {
    let users = users_of(spec);
    let target = target_of(spec);
    if users.len() > 2 {
        Err(HostSpecError::InvalidUserName)
    } else if users.len() == 0 && invoker is None {
        Err(HostSpecError::UnknownInvoker)
    } else if target.len() > 2 {
        Err(HostSpecError::InvalidHost)
    } else if target.len() == 2 && port_of(target[1]) is None {
        Err(HostSpecError::InvalidPort)
    } else if target[0].len() == 0 {
        Err(HostSpecError::InvalidHost)
    } else {
        Ok(
            RemoteHostView {
                host: target[0],
                sudo: if users.len() == 2 {
                    Some(users[1])
                } else {
                    None
                },
                username: if users.len() == 0 {
                    invoker->Some_0
                } else {
                    users[0]
                },
                port: if target.len() == 2 {
                    port_of(target[1])->Some_0
                } else {
                    DEFAULT_PORT
                },
            },
        )
    }
}

/// Model of the outcome of reading a host specification.
pub open spec fn parsed_view(parsed: Result<RemoteHost, HostSpecError>) -> Result<
    RemoteHostView,
    HostSpecError,
> {
    match parsed {
        Ok(remote_host) => Ok(remote_host@),
        Err(error) => Err(error),
    }
}

/// The users a host specification names, in the order they stand.
pub fn parse_users(s: &str) -> (users: Vec<String>)
    ensures
        users.deep_view() == users_of(s@),
{
    let mut pieces = split(s, '@');
    proof {
        lemma_split_shape(s@, '@');
    }
    let ghost all = pieces.deep_view();
    pieces.pop();
    proof {
        assert(pieces.deep_view() =~= all.drop_last());
    }
    pieces
}

/// Reads a host specification `[user[@sudo]@]host[:port]`. `invoker` is the
/// name of the user who runs the program, if it is known; it is the login
/// user where the specification names none.
pub fn parse_host_login(host_login: &str, invoker: Option<String>) -> (parsed: Result<
    RemoteHost,
    HostSpecError,
>)
    ensures
        parsed_view(parsed) == host_spec(host_login@, opt_text(invoker)),
{
    let mut users = parse_users(host_login);
    let ghost named = users.deep_view();
    let (username, sudo) = if users.len() == 1 {
        (users.remove(0), None)
    } else if users.len() == 2 {
        let sudo = users.remove(1);
        (users.remove(0), Some(sudo))
    } else if users.len() == 0 {
        match invoker {
            Some(name) => (name, None),
            None => {
                return Err(HostSpecError::UnknownInvoker);
            },
        }
    } else {
        return Err(HostSpecError::InvalidUserName);
    };
    proof {
        assert(named.len() > 0 ==> username@ == named[0]);
        assert(named.len() == 2 ==> opt_text(sudo) == Some(named[1]));
    }
    let mut pieces = split(host_login, '@');
    proof {
        lemma_split_shape(host_login@, '@');
    }
    let ghost last = pieces.deep_view().last();
    let host_string = match pieces.pop() {
        Some(piece) => piece,
        None => {
            return Err(HostSpecError::InvalidHost);
        },
    };
    assert(host_string@ == last);
    let mut target = split(host_string.as_str(), ':');
    proof {
        lemma_split_shape(host_string@, ':');
    }
    let ghost parts = target.deep_view();
    let port = if target.len() == 1 {
        DEFAULT_PORT
    } else if target.len() == 2 {
        match parse_port(target[1].as_str()) {
            Some(port) => port,
            None => {
                return Err(HostSpecError::InvalidPort);
            },
        }
    } else {
        return Err(HostSpecError::InvalidHost);
    };
    let host = target.remove(0);
    assert(host@ == parts[0]);
    if host.as_str().unicode_len() == 0 {
        return Err(HostSpecError::InvalidHost);
    }
    Ok(RemoteHost { host, sudo, username, port })
}

} // verus!
