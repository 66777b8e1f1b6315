//! The choices that the wizard and the command line offer, and what they
//! mean to the engine.
use vstd::prelude::*;

use crate::install::Encryption;

verus! {

#[derive(Debug, Clone, Copy, PartialEq, Eq, Structural)]
pub enum EncryptionChoice {
    Unencrypted,
    LuksPassphrase,
    Tpm2Luks,
    Tpm2LuksPassphrase,
}

impl Default for EncryptionChoice {
    fn default() -> (r: Self)
        ensures
            r == EncryptionChoice::Unencrypted,
    {
        EncryptionChoice::Unencrypted
    }
}

impl EncryptionChoice {
    pub open spec fn text(self) -> Seq<char> {
        match self {
            EncryptionChoice::Unencrypted => "No encryption"@,
            EncryptionChoice::LuksPassphrase => "LUKS — passphrase"@,
            EncryptionChoice::Tpm2Luks => "LUKS — TPM2 only"@,
            EncryptionChoice::Tpm2LuksPassphrase => "LUKS — TPM2 + passphrase"@,
        }
    }

    /// The choice as shown.
    pub fn label(&self) -> (r: &'static str)
        ensures
            r@ == self.text(),
    {
        match self {
            EncryptionChoice::Unencrypted => "No encryption",
            EncryptionChoice::LuksPassphrase => "LUKS — passphrase",
            EncryptionChoice::Tpm2Luks => "LUKS — TPM2 only",
            EncryptionChoice::Tpm2LuksPassphrase => "LUKS — TPM2 + passphrase",
        }
    }

    pub open spec fn wants_passphrase(self) -> bool {
        self is LuksPassphrase || self is Tpm2LuksPassphrase
    }

    /// Whether the choice asks for a passphrase.
    pub fn needs_passphrase(&self) -> (r: bool)
        ensures
            r == self.wants_passphrase(),
    {
        matches!(self, EncryptionChoice::LuksPassphrase | EncryptionChoice::Tpm2LuksPassphrase)
    }

    /// What the choice means to the engine.
    pub open spec fn meaning(self, passphrase: String) -> Encryption {
        match self {
            EncryptionChoice::Unencrypted => Encryption::Unencrypted,
            EncryptionChoice::LuksPassphrase => Encryption::LuksPassphrase { passphrase },
            EncryptionChoice::Tpm2Luks => Encryption::Tpm2Luks,
            EncryptionChoice::Tpm2LuksPassphrase => Encryption::Tpm2LuksPassphrase { passphrase },
        }
    }

    pub fn encryption(&self, passphrase: &String) -> (r: Encryption)
        ensures
            r == self.meaning(*passphrase),
    {
        match self {
            EncryptionChoice::Unencrypted => Encryption::Unencrypted,
            EncryptionChoice::LuksPassphrase => Encryption::LuksPassphrase {
                passphrase: passphrase.clone(),
            },
            EncryptionChoice::Tpm2Luks => Encryption::Tpm2Luks,
            EncryptionChoice::Tpm2LuksPassphrase => Encryption::Tpm2LuksPassphrase {
                passphrase: passphrase.clone(),
            },
        }
    }
}

/// Which partitioning mode is selected.
#[derive(Debug, Clone, Copy, PartialEq, Eq, Structural)]
pub enum PartitionModeChoice {
    /// Erase the whole disk; always available.
    EraseDisk,
    /// Install into the largest free-space gap.
    FreeSpace,
    /// Per-partition roles.
    Custom,
}

impl Default for PartitionModeChoice {
    fn default() -> (r: Self)
        ensures
            r == PartitionModeChoice::EraseDisk,
    {
        PartitionModeChoice::EraseDisk
    }
}

impl PartitionModeChoice {
    pub open spec fn text(self) -> Seq<char> {
        match self {
            PartitionModeChoice::EraseDisk => "Erase entire disk"@,
            PartitionModeChoice::FreeSpace => "Install into free space"@,
            PartitionModeChoice::Custom => "Custom layout"@,
        }
    }

    /// The mode as shown.
    pub fn label(&self) -> (r: &'static str)
        ensures
            r@ == self.text(),
    {
        match self {
            PartitionModeChoice::EraseDisk => "Erase entire disk",
            PartitionModeChoice::FreeSpace => "Install into free space",
            PartitionModeChoice::Custom => "Custom layout",
        }
    }
}

/// A choice asks for a passphrase exactly when the volume is then keyed by
/// it, and it is that very passphrase.
pub proof fn law_asked_passphrases_are_used(c: EncryptionChoice, p: String)
    ensures
        c is LuksPassphrase <==> c.meaning(p) is LuksPassphrase,
        c is Tpm2Luks <==> c.meaning(p) is Tpm2Luks,
        c is Tpm2LuksPassphrase <==> c.meaning(p) is Tpm2LuksPassphrase,
        c.wants_passphrase() <==> c.meaning(p) is LuksPassphrase
            || c.meaning(p) is Tpm2LuksPassphrase,
        c.meaning(p) is LuksPassphrase ==> c.meaning(p)->LuksPassphrase_passphrase == p,
        c.meaning(p) is Tpm2LuksPassphrase ==> c.meaning(p)->Tpm2LuksPassphrase_passphrase == p,
{
}

} // verus!
