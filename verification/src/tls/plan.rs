//! How a client connects.

use crate::clock::Clock;
use crate::error::Error;
use shin::client::config::{
    Config as ClientConfig, Error as ConfigError, Identity, IdentityTemplate,
    Prepared as PreparedConfig,
};
use vstd::prelude::*;

verus! {

#[verifier::external_type_specification]
#[verifier::external_body]
pub struct ExClientConfig(ClientConfig);

#[verifier::external_type_specification]
#[verifier::external_body]
pub struct ExIdentity(Identity);

/// That `shin::client::config::Config::try_into_prepared` can come to this.
pub uninterp spec fn config_checked(
    config: ClientConfig,
    result: Result<PreparedConfig, ConfigError>,
) -> bool;

/// That `shin::client::config::Identity::try_into_template` can come to this.
pub uninterp spec fn identity_checked(
    identity: Identity,
    result: Result<IdentityTemplate, ConfigError>,
) -> bool;

/// `shin::client::config::Config::try_into_prepared`: checks a configuration.
/// Which configurations pass is the engine's own matter.
#[verifier::external_body]
fn prepare(config: ClientConfig) -> (result: Result<PreparedConfig, ConfigError>)
    ensures
        config_checked(config, result),
{
    config.try_into_prepared()
}

/// `shin::client::config::Identity::try_into_template`: checks an identity. Which
/// identities pass is the engine's own matter.
#[verifier::external_body]
fn identify(identity: Identity) -> (result: Result<IdentityTemplate, ConfigError>)
    ensures
        identity_checked(identity, result),
{
    identity.try_into_template()
}

/// A checked client configuration, which all connections of an endpoint share.
pub struct ClientPlan {
    pub prepared: PreparedConfig,
    pub identity: Option<IdentityTemplate>,
    pub clock: Clock,
}

/// The plan that a checked configuration makes.
pub open spec fn planned(prepared: Result<PreparedConfig, ConfigError>) -> Result<
    ClientPlan,
    Error,
> {
    match prepared {
        Ok(prepared) => Ok(ClientPlan { prepared, identity: None, clock: Clock::System }),
        Err(error) => Err(Error::InvalidConfig(error)),
    }
}

/// A plan with a checked identity.
pub open spec fn with_identity(
    plan: ClientPlan,
    identity: Result<IdentityTemplate, ConfigError>,
) -> Result<ClientPlan, Error> {
    match identity {
        Ok(identity) => Ok(ClientPlan { identity: Some(identity), ..plan }),
        Err(error) => Err(Error::InvalidConfig(error)),
    }
}

/// That a configuration makes this plan.
pub open spec fn plain_plan(config: ClientConfig, plan: Result<ClientPlan, Error>) -> bool {
    exists|prepared: Result<PreparedConfig, ConfigError>| #[trigger]
        config_checked(config, prepared) && plan == planned(prepared)
}

/// That a configuration and an identity make this plan.
pub open spec fn mutual_plan(
    config: ClientConfig,
    identity: Identity,
    plan: Result<ClientPlan, Error>,
) -> bool {
    exists|prepared: Result<PreparedConfig, ConfigError>| #[trigger]
        config_checked(config, prepared) && match planned(prepared) {
            Ok(plain) => exists|checked: Result<IdentityTemplate, ConfigError>| #[trigger]
                identity_checked(identity, checked) && plan == with_identity(plain, checked),
            Err(error) => plan == Err::<ClientPlan, Error>(error),
        }
}

impl ClientPlan {
    /// Checks a configuration. The connections go by the system clock.
    pub fn new(config: ClientConfig) -> (plan: Result<Self, Error>)
        ensures
            plain_plan(config, plan),
    {
        Self::prepared(prepare(config))
    }

    /// The plan that a checked configuration makes.
    pub fn prepared(prepared: Result<PreparedConfig, ConfigError>) -> (plan: Result<Self, Error>)
        ensures
            plan == planned(prepared),
    {
        match prepared {
            Ok(prepared) => Ok(ClientPlan { prepared, identity: None, clock: Clock::System }),
            Err(error) => Err(Error::InvalidConfig(error)),
        }
    }

    /// Checks the configuration of a client that shows an identity of its own.
    pub fn mutual(config: ClientConfig, identity: Identity) -> (plan: Result<Self, Error>)
        ensures
            mutual_plan(config, identity, plan),
    {
        match Self::new(config) {
            Ok(plan) => plan.identified(identify(identity)),
            Err(error) => Err(error),
        }
    }

    /// The plan with a checked identity.
    pub fn identified(self, identity: Result<IdentityTemplate, ConfigError>) -> (plan: Result<
        Self,
        Error,
    >)
        ensures
            plan == with_identity(self, identity),
    {
        match identity {
            Ok(identity) => Ok(
                ClientPlan {
                    prepared: self.prepared,
                    identity: Some(identity),
                    clock: self.clock,
                },
            ),
            Err(error) => Err(Error::InvalidConfig(error)),
        }
    }

    /// The same plan by another clock.
    pub fn with_clock(self, clock: Clock) -> (plan: Self)
        ensures
            plan == (ClientPlan { clock, ..self }),
    {
        ClientPlan { prepared: self.prepared, identity: self.identity, clock }
    }
}

} // verus!
