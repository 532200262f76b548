use vstd::prelude::*;

verus! {

/// Identity of an account. Accounts are ordered by this number.
pub type AccountId = u64;

/// An amount of currency.
pub type Balance = u128;

/// A block height.
pub type BlockNumber = u64;

/// A reported price.
pub type Price = u128;

/// Why a call was rejected. A rejected call leaves every state untouched.
#[derive(Clone, Copy, PartialEq, Eq, Debug)]
pub enum Error {
    /// The caller lacks the authorization that the call asks for.
    BadOrigin,
    /// A sum would leave the representable range.
    ArithmeticOverflow,
    /// The active stake after binding would be below the minimum.
    StakeTooLow,
    /// More was asked to be unbound than is actively staked.
    InsufficientStake,
}

/// Who makes a call, as the host has established it.
#[derive(Clone, Copy, PartialEq, Eq, Debug)]
pub enum Origin {
    /// The root of the chain.
    Root,
    /// A call signed by this account.
    Signed(AccountId),
    /// An origin that the authority over slashes by vote has accepted.
    SlashAuthority,
    /// An origin that the resolver of reporters has mapped to this account.
    Reporter(AccountId),
    /// No credentials.
    Unsigned,
}

impl Origin {
    /// The account that signed, if the call is a signed one.
    pub open spec fn signer(self) -> Option<AccountId> {
        match self {
            Origin::Signed(who) => Some(who),
            _ => None,
        }
    }

    /// Whether the origin may order a slash: the authority over slashes, or root.
    pub open spec fn may_slash(self) -> bool {
        self is SlashAuthority || self is Root
    }

    /// The reporter that the origin stands for, if it stands for one.
    pub open spec fn reporter(self) -> Option<AccountId> {
        match self {
            Origin::Reporter(who) => Some(who),
            _ => None,
        }
    }

    /// The signing account, or `BadOrigin`.
    pub fn ensure_signed(self) -> (r: Result<AccountId, Error>)
        ensures
            r == match self.signer() {
                Some(who) => Ok::<AccountId, Error>(who),
                None => Err::<AccountId, Error>(Error::BadOrigin),
            },
    {
        match self {
            Origin::Signed(who) => Ok(who),
            _ => Err(Error::BadOrigin),
        }
    }

    /// The reporter, or `BadOrigin`.
    pub fn ensure_reporter(self) -> (r: Result<AccountId, Error>)
        ensures
            r == match self.reporter() {
                Some(who) => Ok::<AccountId, Error>(who),
                None => Err::<AccountId, Error>(Error::BadOrigin),
            },
    {
        match self {
            Origin::Reporter(who) => Ok(who),
            _ => Err(Error::BadOrigin),
        }
    }

    /// Nothing if the origin may order a slash, else `BadOrigin`.
    pub fn ensure_slasher(self) -> (r: Result<(), Error>)
        ensures
            r == if self.may_slash() {
                Ok::<(), Error>(())
            } else {
                Err::<(), Error>(Error::BadOrigin)
            },
    {
        match self {
            Origin::SlashAuthority => Ok(()),
            Origin::Root => Ok(()),
            _ => Err(Error::BadOrigin),
        }
    }
}

/// What the host has to do, or to tell, after a step. The first four are
/// instructions for collaborators; the others are notifications.
#[derive(Clone, Copy, PartialEq, Eq, Debug)]
pub enum Effect {
    /// Currency service: replace the account's oracle lock by one of this amount.
    SetLock(AccountId, Balance),
    /// Currency service: forfeit up to this amount from the account.
    Slash(AccountId, Balance),
    /// Currency service: credit this amount to the account.
    Deposit(AccountId, Balance),
    /// Membership notifier: the account left the oracle set outside an
    /// election; nobody came in, and the full set is the previous one
    /// without this account.
    OracleRemoved(AccountId),
    OracleBonded(AccountId, Balance),
    OracleUnbonded(AccountId, Balance),
    OracleSlashed(AccountId, Balance),
    OraclePaid(AccountId, Balance),
    CandidatesAdded(AccountId),
    CandidatesRemoved(AccountId),
    OracleStakeReleased(AccountId, Balance),
    PriceReported(AccountId, Price),
    PriceChanged(Price),
}

/// The constants that the staking rules are run with.
#[derive(Clone, Copy, PartialEq, Eq, Debug)]
pub struct Params {
    /// Paid to a live oracle once per report interval.
    pub oracle_fee: Balance,
    /// Forfeited by an oracle that missed its report window.
    pub miss_report_slash: Balance,
    /// Least active stake that a bind may leave.
    pub min_staking: Balance,
    /// Size of the oracle set.
    pub count: u16,
    /// Blocks after a report within which the reporter counts as live.
    pub report_interval: BlockNumber,
    /// Blocks between two elections.
    pub election_era: BlockNumber,
    /// Blocks between an unbind and the release of its funds.
    pub locked_duration: BlockNumber,
}

} // verus!
