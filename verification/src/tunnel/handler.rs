//! The trust in the server's key, and the sign that a connection has ended.

use vstd::prelude::*;

use super::config::HostKeyPolicy;
use super::manager::{accepts_unknown_host, fingerprint_matches, same_fingerprint};

verus! {

/// The sign that a connection has ended. Once given it stays.
#[derive(Debug)]
pub struct DisconnectSignal(bool);

impl DisconnectSignal {
    /// Whether the sign was given.
    pub closed spec fn given(self) -> bool {
        self.0
    }

    pub fn trigger(&mut self)
        ensures
            final(self).given(),
    {
        self.0 = true;
    }

    pub fn is_triggered(&self) -> (r: bool)
        ensures
            r == self.given(),
    {
        self.0
    }
}

impl Default for DisconnectSignal {
    fn default() -> (r: DisconnectSignal)
        ensures
            !r.given(),
    {
        DisconnectSignal(false)
    }
}

/// What the record of known hosts says of a key.
#[derive(Debug, Clone, Copy, PartialEq, Eq, Structural)]
pub enum KnownHost {
    /// It is the host's key.
    Known,
    /// The host is not on record.
    Unknown,
    /// The host is on record with another key.
    Changed,
    /// The record could not be read.
    Failed,
}

/// What becomes of a connection to a server with some key.
#[derive(Debug, Clone, Copy, PartialEq, Eq, Structural)]
pub enum HostKeyVerdict {
    Accept,
    /// Accept, and put the key on record.
    Learn,
    Refuse,
}

/// What becomes of a connection under a policy: the fingerprint alone decides
/// where one is pinned, and the record does otherwise.
pub open spec fn verdict(policy: HostKeyPolicy, fingerprint: Seq<char>, known: KnownHost) -> HostKeyVerdict {
    match policy {
        HostKeyPolicy::Pinned(pin) => if same_fingerprint(pin@, fingerprint) {
            HostKeyVerdict::Accept
        } else {
            HostKeyVerdict::Refuse
        },
        _ => match known {
            KnownHost::Known => HostKeyVerdict::Accept,
            KnownHost::Unknown => if policy is AcceptNew {
                HostKeyVerdict::Learn
            } else {
                HostKeyVerdict::Refuse
            },
            KnownHost::Changed => HostKeyVerdict::Refuse,
            KnownHost::Failed => HostKeyVerdict::Refuse,
        },
    }
}

/// What a connection needs to judge the server's key.
#[derive(Debug)]
pub struct ClientHandler {
    pub host: String,
    pub port: u16,
    pub policy: HostKeyPolicy,
    pub known_hosts: Option<std::path::PathBuf>,
}

impl ClientHandler {
    pub fn new(
        host: String,
        port: u16,
        policy: HostKeyPolicy,
        known_hosts: Option<std::path::PathBuf>,
    ) -> (r: ClientHandler)
        ensures
            r == (ClientHandler { host, port, policy, known_hosts }),
    {
        ClientHandler { host, port, policy, known_hosts }
    }

    /// Whether the record of known hosts is to be asked at all.
    pub fn asks_known_hosts(&self) -> (r: bool)
        ensures
            r == !(self.policy is Pinned),
    {
        match &self.policy {
            HostKeyPolicy::Pinned(_) => false,
            _ => true,
        }
    }

    /// Judges a key by its fingerprint and by what the record says of it. Where
    /// the record is not asked, any answer stands for it.
    pub fn verify(&self, fingerprint: &str, known: KnownHost) -> (r: HostKeyVerdict)
        ensures
            r == verdict(self.policy, fingerprint@, known),
    {
        match &self.policy {
            HostKeyPolicy::Pinned(pin) => {
                if fingerprint_matches(pin.as_str(), fingerprint) {
                    HostKeyVerdict::Accept
                } else {
                    HostKeyVerdict::Refuse
                }
            },
            policy => match known {
                KnownHost::Known => HostKeyVerdict::Accept,
                KnownHost::Unknown => {
                    if accepts_unknown_host(policy) {
                        HostKeyVerdict::Learn
                    } else {
                        HostKeyVerdict::Refuse
                    }
                },
                KnownHost::Changed => HostKeyVerdict::Refuse,
                KnownHost::Failed => HostKeyVerdict::Refuse,
            },
        }
    }
}

/// A key other than the one on record is refused under every policy that goes
/// by the record, and so is one when the record cannot be read.
pub proof fn law_changed_key_is_refused(policy: HostKeyPolicy, fingerprint: Seq<char>)
    requires
        !(policy is Pinned),
    ensures
        verdict(policy, fingerprint, KnownHost::Changed) == HostKeyVerdict::Refuse,
        verdict(policy, fingerprint, KnownHost::Failed) == HostKeyVerdict::Refuse,
{
}

/// The strict policy accepts a key exactly when it is on record, and never
/// puts one there.
pub proof fn law_strict_goes_by_the_record(fingerprint: Seq<char>, known: KnownHost)
    ensures
        verdict(HostKeyPolicy::Strict, fingerprint, known) == (if known == KnownHost::Known {
            HostKeyVerdict::Accept
        } else {
            HostKeyVerdict::Refuse
        }),
{
}

/// Under a pin the record has no say, and an empty pin accepts nothing.
pub proof fn law_pin_alone_decides(pin: String, fingerprint: Seq<char>, a: KnownHost, b: KnownHost)
    ensures
        verdict(HostKeyPolicy::Pinned(pin), fingerprint, a) == verdict(
            HostKeyPolicy::Pinned(pin),
            fingerprint,
            b,
        ),
        pin@.len() == 0 ==> verdict(HostKeyPolicy::Pinned(pin), fingerprint, a)
            == HostKeyVerdict::Refuse,
{
}

/// The policy that accepts new hosts accepts a key on record, puts the first
/// key of a new host there, and refuses everything else.
pub proof fn law_new_hosts_are_learnt(fingerprint: Seq<char>, known: KnownHost)
    ensures
        verdict(HostKeyPolicy::AcceptNew, fingerprint, known) == if known == KnownHost::Known {
            HostKeyVerdict::Accept
        } else if known == KnownHost::Unknown {
            HostKeyVerdict::Learn
        } else {
            HostKeyVerdict::Refuse
        },
{
}

/// A pinned key is accepted exactly when it is that key: its fingerprint holds
/// the pinned digest, with or without the name of the hash and the padding.
pub proof fn law_a_pin_accepts_its_key_only(
    pin: String,
    digest: Seq<char>,
    other: Seq<char>,
    named: bool,
    also_named: bool,
    padding: nat,
    other_padding: nat,
    known: KnownHost,
)
    requires
        super::manager::bare(digest),
        super::manager::bare(other),
        pin@ == super::manager::dressed(digest, named, padding),
    ensures
        verdict(
            HostKeyPolicy::Pinned(pin),
            super::manager::dressed(other, also_named, other_padding),
            known,
        ) == if digest == other {
            HostKeyVerdict::Accept
        } else {
            HostKeyVerdict::Refuse
        },
{
    super::manager::law_fingerprints_go_by_the_digest(
        digest,
        other,
        named,
        also_named,
        padding,
        other_padding,
    );
}

} // verus!
