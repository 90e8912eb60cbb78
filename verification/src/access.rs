//! The permission and pause gates the contract consults before every
//! administrative operation, and the one host query the registry needs
//! (whether an address is a contract). These collaborators sit outside the
//! conversion logic proper; only their observable behaviour is specified.
use vstd::prelude::*;

use crate::types::Error;

verus! {

/// Capability bit granting owner-only operations.
pub const PERMISSION_OWNER: u32 = 1;

/// Capability bit granting admin operations.
pub const PERMISSION_ADMIN: u32 = 2;

/// Capability bit granting pause/resume.
pub const PERMISSION_PAUSE: u32 = 4;

/// Whether the contract accepts user-facing calls.
#[derive(Clone, Copy, Debug, PartialEq, Eq, Structural)]
pub enum State {
    Inactive,
    Active,
}

/// One account's capability bits.
#[derive(Clone, Copy, Debug, PartialEq, Eq, Structural)]
pub struct PermissionEntry {
    pub address: u64,
    pub flags: u32,
}

/// Pause state plus the capability bits of every account that has any.
#[derive(Debug)]
pub struct AccessControl {
    pub state: State,
    pub permissions: Vec<PermissionEntry>,
}

impl AccessControl {
    /// The capability bits of an address (no entry means none).
    pub open spec fn flags_of(&self, address: u64) -> u32 {
        Self::flags_in(self.permissions@, address)
    }

    /// The capability bits of an address within a permission list: the first
    /// entry for the address decides.
    pub open spec fn flags_in(entries: Seq<PermissionEntry>, address: u64) -> u32
        decreases entries.len(),
    {
        if entries.len() == 0 {
            0u32
        } else if entries[0].address == address {
            entries[0].flags
        } else {
            Self::flags_in(entries.drop_first(), address)
        }
    }

    /// The caller may perform owner-only operations.
    pub open spec fn has_owner(&self, caller: u64) -> bool {
        self.flags_of(caller) & PERMISSION_OWNER == PERMISSION_OWNER
    }

    /// The caller may perform owner or admin operations.
    pub open spec fn has_owner_or_admin(&self, caller: u64) -> bool {
        self.flags_of(caller) & (PERMISSION_OWNER | PERMISSION_ADMIN) != 0
    }

    /// The caller may pause and resume the contract.
    pub open spec fn has_pause(&self, caller: u64) -> bool {
        self.flags_of(caller) & PERMISSION_PAUSE == PERMISSION_PAUSE
    }

    /// The contract accepts user-facing calls.
    pub open spec fn is_active(&self) -> bool {
        self.state == State::Active
    }

    /// A fresh gate: paused, with full capabilities for the deployer alone.
    pub fn new(deployer: u64) -> (r: AccessControl)
        ensures
            r.state == State::Inactive,
            r.flags_of(deployer) == PERMISSION_OWNER | PERMISSION_ADMIN | PERMISSION_PAUSE,
            forall|a: u64| a != deployer ==> r.flags_of(a) == 0u32,
    {
        let entry = PermissionEntry {
            address: deployer,
            flags: PERMISSION_OWNER | PERMISSION_ADMIN | PERMISSION_PAUSE,
        };
        let mut permissions: Vec<PermissionEntry> = Vec::new();
        permissions.push(entry);
        let r = AccessControl { state: State::Inactive, permissions };
        proof {
            assert(r.permissions@.drop_first() =~= Seq::<PermissionEntry>::empty());
            assert forall|a: u64| a != deployer implies r.flags_of(a) == 0u32 by {
                assert(Self::flags_in(Seq::<PermissionEntry>::empty(), a) == 0u32);
            }
        }
        r
    }

    /// Looks up the capability bits of an address.
    pub fn get_flags(&self, address: u64) -> (r: u32)
        ensures
            r == self.flags_of(address),
    {
        let mut i: usize = 0;
        proof {
            assert(self.permissions@.skip(0) =~= self.permissions@);
        }
        while i < self.permissions.len()
            invariant
                i <= self.permissions@.len(),
                Self::flags_in(self.permissions@, address) == Self::flags_in(
                    self.permissions@.skip(i as int),
                    address,
                ),
            decreases self.permissions@.len() - i,
        {
            proof {
                assert(self.permissions@.skip(i as int).drop_first() =~= self.permissions@.skip(
                    i + 1,
                ));
            }
            if self.permissions[i].address == address {
                return self.permissions[i].flags;
            }
            i += 1;
        }
        0
    }

    /// Fails with [`Error::Unauthorized`] exactly when the caller lacks the
    /// owner capability.
    pub fn require_caller_has_owner_permissions(&self, caller: u64) -> (r: Result<(), Error>)
        ensures
            r is Ok <==> self.has_owner(caller),
            r is Err ==> r == Err::<(), Error>(Error::Unauthorized),
    {
        if self.get_flags(caller) & PERMISSION_OWNER == PERMISSION_OWNER {
            Ok(())
        } else {
            Err(Error::Unauthorized)
        }
    }

    /// Fails with [`Error::Unauthorized`] exactly when the caller has neither
    /// the owner nor the admin capability.
    pub fn require_caller_has_owner_or_admin_permissions(&self, caller: u64) -> (r: Result<
        (),
        Error,
    >)
        ensures
            r is Ok <==> self.has_owner_or_admin(caller),
            r is Err ==> r == Err::<(), Error>(Error::Unauthorized),
    {
        if self.get_flags(caller) & (PERMISSION_OWNER | PERMISSION_ADMIN) != 0 {
            Ok(())
        } else {
            Err(Error::Unauthorized)
        }
    }

    /// Fails with [`Error::NotActive`] exactly when the contract is paused.
    pub fn require_state_active(&self) -> (r: Result<(), Error>)
        ensures
            r is Ok <==> self.is_active(),
            r is Err ==> r == Err::<(), Error>(Error::NotActive),
    {
        match self.state {
            State::Active => Ok(()),
            State::Inactive => Err(Error::NotActive),
        }
    }

    /// Unpauses the contract; only a caller with the pause capability may.
    pub fn resume(&mut self, caller: u64) -> (r: Result<(), Error>)
        ensures
            r is Ok <==> old(self).has_pause(caller),
            r is Err ==> r == Err::<(), Error>(Error::Unauthorized) && *final(self) == *old(self),
            r is Ok ==> *final(self) == (AccessControl {
                state: State::Active,
                ..*old(self)
            }),
    {
        if self.get_flags(caller) & PERMISSION_PAUSE == PERMISSION_PAUSE {
            self.state = State::Active;
            Ok(())
        } else {
            Err(Error::Unauthorized)
        }
    }

    /// Pauses the contract; only a caller with the pause capability may.
    pub fn pause(&mut self, caller: u64) -> (r: Result<(), Error>)
        ensures
            r is Ok <==> old(self).has_pause(caller),
            r is Err ==> r == Err::<(), Error>(Error::Unauthorized) && *final(self) == *old(self),
            r is Ok ==> *final(self) == (AccessControl {
                state: State::Inactive,
                ..*old(self)
            }),
    {
        if self.get_flags(caller) & PERMISSION_PAUSE == PERMISSION_PAUSE {
            self.state = State::Inactive;
            Ok(())
        } else {
            Err(Error::Unauthorized)
        }
    }
}

/// The one fact about the host ledger the registry consults: which addresses
/// are contracts.
#[derive(Debug)]
pub struct Blockchain {
    pub contract_addresses: Vec<u64>,
}

impl Blockchain {
    /// Whether the host knows the address as a deployed contract.
    pub open spec fn is_contract(&self, address: u64) -> bool {
        self.contract_addresses@.contains(address)
    }

    /// Checks whether an address is a deployed contract.
    pub fn is_smart_contract(&self, address: u64) -> (r: bool)
        ensures
            r == self.is_contract(address),
    {
        let mut i: usize = 0;
        while i < self.contract_addresses.len()
            invariant
                i <= self.contract_addresses@.len(),
                forall|j: int| 0 <= j < i ==> self.contract_addresses@[j] != address,
            decreases self.contract_addresses@.len() - i,
        {
            if self.contract_addresses[i] == address {
                return true;
            }
            i += 1;
        }
        false
    }
}

} // verus!
