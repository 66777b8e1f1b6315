//! The command line driver: the request that its options make, and the
//! lines that it prints.
use vstd::prelude::*;

use crate::install::{Encryption, InstallSpec, PartitionPlan};
use crate::text::{self, decimal};

verus! {

/// The encryption that the options ask for, or what is wrong with them: an
/// empty passphrase is refused.
pub open spec fn asked_encryption(
    luks_passphrase: Option<String>,
    tpm2_luks: bool,
    tpm2_luks_passphrase: Option<String>,
) -> Result<Encryption, Seq<char>> {
    match luks_passphrase {
        Some(p) => if p@.len() == 0 {
            Err("--luks-passphrase must be non-empty"@)
        } else {
            Ok(Encryption::LuksPassphrase { passphrase: p })
        },
        None => if tpm2_luks {
            Ok(Encryption::Tpm2Luks)
        } else {
            match tpm2_luks_passphrase {
                Some(p) => if p@.len() == 0 {
                    Err("--tpm2-luks-passphrase must be non-empty"@)
                } else {
                    Ok(Encryption::Tpm2LuksPassphrase { passphrase: p })
                },
                None => Ok(Encryption::Unencrypted),
            }
        },
    }
}

/// The encryption that the options ask for.
pub fn derive_encryption(
    luks_passphrase: &Option<String>,
    tpm2_luks: bool,
    tpm2_luks_passphrase: &Option<String>,
) -> (r: Result<Encryption, String>)
    ensures
        match (r, asked_encryption(*luks_passphrase, tpm2_luks, *tpm2_luks_passphrase)) {
            (Ok(e), Ok(x)) => e == x,
            (Err(m), Err(x)) => m@ == x,
            _ => false,
        },
{
    if let Some(p) = luks_passphrase {
        if text::chars_of(p.as_str()).len() == 0 {
            return Err("--luks-passphrase must be non-empty".to_owned());
        }
        return Ok(Encryption::LuksPassphrase { passphrase: p.clone() });
    }
    if tpm2_luks {
        return Ok(Encryption::Tpm2Luks);
    }
    if let Some(p) = tpm2_luks_passphrase {
        if text::chars_of(p.as_str()).len() == 0 {
            return Err("--tpm2-luks-passphrase must be non-empty".to_owned());
        }
        return Ok(Encryption::Tpm2LuksPassphrase { passphrase: p.clone() });
    }
    Ok(Encryption::Unencrypted)
}

/// The options of the driver, with a plan that was already read.
#[derive(Debug, PartialEq, Eq)]
pub struct Options {
    pub image: String,
    pub disk: String,
    pub hostname: String,
    pub luks_passphrase: Option<String>,
    pub tpm2_luks: bool,
    pub tpm2_luks_passphrase: Option<String>,
    pub plan: Option<PartitionPlan>,
}

/// The request that the options make: the whole disk is erased unless they
/// give a plan.
pub fn requested_spec(options: Options) -> (r: Result<InstallSpec, String>)
    ensures
        match (
            r,
            asked_encryption(
                options.luks_passphrase,
                options.tpm2_luks,
                options.tpm2_luks_passphrase,
            ),
        ) {
            (Ok(s), Ok(encryption)) => s == (InstallSpec {
                disk: options.disk,
                image: options.image,
                hostname: options.hostname,
                encryption,
                plan: match options.plan {
                    Some(p) => p,
                    None => PartitionPlan::EraseDisk,
                },
            }),
            (Err(m), Err(x)) => m@ == x,
            _ => false,
        },
{
    let encryption = match derive_encryption(
        &options.luks_passphrase,
        options.tpm2_luks,
        &options.tpm2_luks_passphrase,
    ) {
        Ok(e) => e,
        Err(m) => return Err(m),
    };
    let plan = match options.plan {
        Some(p) => p,
        None => PartitionPlan::EraseDisk,
    };
    Ok(
        InstallSpec {
            disk: options.disk,
            image: options.image,
            hostname: options.hostname,
            encryption,
            plan,
        },
    )
}

/// What the daemon tells while an install runs.
#[derive(Debug, PartialEq, Eq)]
pub enum Signal {
    StepChanged { step: String, detail: String },
    LogLine { stream: String, line: String },
    Progress { percent: u8, step: String },
    Completed { success: bool, error: String },
}

/// The line that a signal is printed as.
pub open spec fn signal_text(s: Signal) -> Seq<char> {
    match s {
        Signal::StepChanged { step, detail } => "== step: "@ + step@ + " :: "@ + detail@,
        Signal::LogLine { stream, line } => "["@ + stream@ + "] "@ + line@,
        Signal::Progress { percent, step } => "== progress: "@ + decimal(percent as nat) + "% ("@
            + step@ + ")"@,
        Signal::Completed { success, error } => if success {
            "== completed: ok"@
        } else {
            "== completed: error -- "@ + error@
        },
    }
}

impl Signal {
    /// The line that the signal is printed as.
    pub fn line(&self) -> (r: String)
        ensures
            r@ == signal_text(*self),
    {
        match self {
            Signal::StepChanged { step, detail } => text::cat4(
                "== step: ",
                step.as_str(),
                " :: ",
                detail.as_str(),
            ),
            Signal::LogLine { stream, line } => text::cat4("[", stream.as_str(), "] ", line.as_str()),
            Signal::Progress { percent, step } => {
                let n = text::decimal_string(*percent as u64);
                text::cat5("== progress: ", n.as_str(), "% (", step.as_str(), ")")
            },
            Signal::Completed { success, error } => {
                if *success {
                    "== completed: ok".to_owned()
                } else {
                    text::cat2("== completed: error -- ", error.as_str())
                }
            },
        }
    }

    /// Whether the line goes to the standard output: log lines do, the rest
    /// goes to the error stream.
    pub fn on_stdout(&self) -> (r: bool)
        ensures
            r == (*self is LogLine),
    {
        matches!(self, Signal::LogLine { .. })
    }
}

/// The last line, for the daemon's answer.
pub fn closing_line(answer: &Result<(), String>) -> (r: String)
    ensures
        r@ == (match answer {
            Ok(_) => "== install ok =="@,
            Err(e) => "== install error: "@ + e@,
        }),
{
    match answer {
        Ok(_) => "== install ok ==".to_owned(),
        Err(e) => text::cat2("== install error: ", e.as_str()),
    }
}

/// What is asked for on the command line is what is installed with: a
/// passphrase is taken as it is, never left out and never empty, and without
/// any of the options nothing is encrypted.
pub proof fn law_asked_encryption_is_used(
    luks: Option<String>,
    tpm2: bool,
    tpm2_luks: Option<String>,
)
    ensures
        ({
            let r = asked_encryption(luks, tpm2, tpm2_luks);
            &&& luks matches Some(p) ==> if p@.len() == 0 {
                r is Err
            } else {
                r is Ok && r->Ok_0 is LuksPassphrase && r->Ok_0->LuksPassphrase_passphrase == p
            }
            &&& luks is None && tpm2 ==> r is Ok && r->Ok_0 is Tpm2Luks
            &&& luks is None && !tpm2 && tpm2_luks is Some ==> if tpm2_luks->0@.len() == 0 {
                r is Err
            } else {
                r is Ok && r->Ok_0 is Tpm2LuksPassphrase && r->Ok_0->Tpm2LuksPassphrase_passphrase
                    == tpm2_luks->0
            }
            &&& luks is None && !tpm2 && tpm2_luks is None ==> r is Ok && r->Ok_0 is Unencrypted
        }),
{
}

/// A printed line tells all that the signal says.
pub proof fn law_lines_tell_the_signal(x: String, y: String, percent: u8)
    ensures
        signal_text(Signal::StepChanged { step: x, detail: y }) == "== step: "@ + x@ + " :: "@ + y@,
        signal_text(Signal::LogLine { stream: x, line: y }) == "["@ + x@ + "] "@ + y@,
        signal_text(Signal::Progress { percent, step: x }) == "== progress: "@ + decimal(
            percent as nat,
        ) + "% ("@ + x@ + ")"@,
        signal_text(Signal::Completed { success: true, error: x }) == "== completed: ok"@,
        signal_text(Signal::Completed { success: false, error: x }) == "== completed: error -- "@
            + x@,
{
}

} // verus!
