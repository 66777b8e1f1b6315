//! LUKS: formatting and opening the root volume, binding it to a TPM.
use vstd::prelude::*;

use crate::command::{
    announcement, args2, args3, args4, chained, fed, plain, push_command, Command, CommandView,
};
use crate::install::Encryption;
use crate::text::{self, views};

verus! {

/// The name of the opened mapping.
pub const MAPPER_NAME: &'static str = "cosmonaut-root";

pub open spec fn mapper_path() -> Seq<char> {
    "/dev/mapper/cosmonaut-root"@
}

pub open spec fn format_command(root: Seq<char>, key: Seq<char>) -> CommandView {
    fed(
        "cryptsetup"@,
        seq!["luksFormat"@, "--type"@, "luks2"@, "--batch-mode"@, "--key-file"@, "-"@, root],
        key,
        "cryptsetup luksFormat"@,
    )
}

/// Opening lets discards through, so that the final trim reaches the disk.
pub open spec fn open_command(root: Seq<char>, key: Seq<char>) -> CommandView {
    fed(
        "cryptsetup"@,
        seq!["luksOpen"@, "--allow-discards"@, "--key-file"@, "-"@, root, MAPPER_NAME@],
        key,
        "cryptsetup luksOpen"@,
    )
}

pub open spec fn enroll_command(root: Seq<char>, key: Seq<char>) -> CommandView {
    fed(
        "systemd-cryptenroll"@,
        seq!["--tpm2-device=auto"@, "--tpm2-pcrs=7"@, root],
        key,
        "systemd-cryptenroll --tpm2-device=auto (with existing passphrase)"@,
    )
}

pub open spec fn remove_command(root: Seq<char>, key: Seq<char>) -> CommandView {
    fed(
        "cryptsetup"@,
        seq!["luksRemoveKey"@, "--key-file"@, "-"@, root],
        key,
        "cryptsetup luksRemoveKey"@,
    )
}

/// The commands that set up the encrypted root. With a TPM alone, a
/// throwaway key formats and opens the volume, and its slot is removed once
/// the TPM holds a key.
pub open spec fn luks_plan(
    root: Seq<char>,
    encryption: Encryption,
    throwaway: Seq<char>,
) -> Seq<CommandView> {
    match encryption {
        Encryption::Unencrypted => Seq::empty(),
        Encryption::LuksPassphrase { passphrase } => seq![
            format_command(root, passphrase@),
            open_command(root, passphrase@),
        ],
        Encryption::Tpm2Luks => seq![
            format_command(root, throwaway),
            open_command(root, throwaway),
            enroll_command(root, throwaway),
            remove_command(root, throwaway),
        ],
        Encryption::Tpm2LuksPassphrase { passphrase } => seq![
            format_command(root, passphrase@),
            open_command(root, passphrase@),
            enroll_command(root, passphrase@),
        ],
    }
}

fn push_format(list: &mut Vec<Command>, root: &str, key: &str)
    ensures
        views(final(list)@) == views(old(list)@).push(format_command(root@, key@)),
{
    let args = chained(
        args4("luksFormat", "--type", "luks2", "--batch-mode"),
        args3("--key-file", "-", root),
    );
    assert(views(args@) =~= format_command(root@, key@).args);
    push_command(list, Command::with_stdin("cryptsetup", args, key, "cryptsetup luksFormat"));
}

fn push_open(list: &mut Vec<Command>, root: &str, key: &str)
    ensures
        views(final(list)@) == views(old(list)@).push(open_command(root@, key@)),
{
    let args = chained(
        args4("luksOpen", "--allow-discards", "--key-file", "-"),
        args2(root, MAPPER_NAME),
    );
    assert(views(args@) =~= open_command(root@, key@).args);
    push_command(list, Command::with_stdin("cryptsetup", args, key, "cryptsetup luksOpen"));
}

fn push_enroll(list: &mut Vec<Command>, root: &str, key: &str)
    ensures
        views(final(list)@) == views(old(list)@).push(enroll_command(root@, key@)),
{
    let args = args3("--tpm2-device=auto", "--tpm2-pcrs=7", root);
    push_command(
        list,
        Command::with_stdin(
            "systemd-cryptenroll",
            args,
            key,
            "systemd-cryptenroll --tpm2-device=auto (with existing passphrase)",
        ),
    );
}

fn push_remove(list: &mut Vec<Command>, root: &str, key: &str)
    ensures
        views(final(list)@) == views(old(list)@).push(remove_command(root@, key@)),
{
    let args = args4("luksRemoveKey", "--key-file", "-", root);
    push_command(list, Command::with_stdin("cryptsetup", args, key, "cryptsetup luksRemoveKey"));
}

/// The commands that format and open the root volume, with the throwaway
/// key given.
pub fn open_with(root: &str, encryption: &Encryption, throwaway: &str) -> (r: Result<
    Vec<Command>,
    String,
>)
    ensures
        match r {
            Ok(commands) => *encryption !is Unencrypted && views(commands@) == luks_plan(
                root@,
                *encryption,
                throwaway@,
            ),
            Err(m) => *encryption is Unencrypted && m@
                == "luks::open called with Encryption::None"@,
        },
{
    let mut list: Vec<Command> = Vec::new();
    assert(views(list@) =~= Seq::empty());
    match encryption {
        Encryption::Unencrypted => {
            return Err("luks::open called with Encryption::None".to_owned());
        },
        Encryption::LuksPassphrase { passphrase } => {
            push_format(&mut list, root, passphrase.as_str());
            push_open(&mut list, root, passphrase.as_str());
        },
        Encryption::Tpm2Luks => {
            push_format(&mut list, root, throwaway);
            push_open(&mut list, root, throwaway);
            push_enroll(&mut list, root, throwaway);
            push_remove(&mut list, root, throwaway);
        },
        Encryption::Tpm2LuksPassphrase { passphrase } => {
            push_format(&mut list, root, passphrase.as_str());
            push_open(&mut list, root, passphrase.as_str());
            push_enroll(&mut list, root, passphrase.as_str());
        },
    }
    assert(views(list@) =~= luks_plan(root@, *encryption, throwaway@));
    Ok(list)
}

pub open spec fn is_lower_hex(c: char) -> bool {
    ('0' as u32 <= c as u32 <= '9' as u32) || ('a' as u32 <= c as u32 <= 'f' as u32)
}

/// The hyphenated form of a random UUID: 32 lower case hexadecimal digits
/// in groups of 8, 4, 4, 4 and 12, with the version and variant digits that
/// mark it as random.
pub open spec fn is_random_uuid(s: Seq<char>) -> bool {
    &&& s.len() == 36
    &&& s[8] == '-' && s[13] == '-' && s[18] == '-' && s[23] == '-'
    &&& forall|i: int|
        0 <= i < 36 && i != 8 && i != 13 && i != 18 && i != 23 ==> is_lower_hex(#[trigger] s[i])
    &&& s[14] == '4'
    &&& s[19] == '8' || s[19] == '9' || s[19] == 'a' || s[19] == 'b'
}

/// `uuid::Uuid::new_v4` and its `to_string`: a random UUID in hyphenated
/// lower case form. Which one is left to chance.
#[verifier::external_body]
fn new_throwaway() -> (r: String)
    ensures
        is_random_uuid(r@),
{
    uuid::Uuid::new_v4().to_string()
}

/// The key that a TPM-only volume is made with: drawn anew where the
/// encryption calls for one, empty otherwise.
pub fn throwaway_for(encryption: &Encryption) -> (r: String)
    ensures
        *encryption is Tpm2Luks ==> is_random_uuid(r@),
        *encryption !is Tpm2Luks ==> r@.len() == 0,
{
    match encryption {
        Encryption::Tpm2Luks => new_throwaway(),
        _ => String::new(),
    }
}

/// The commands that format and open the root volume, with a fresh
/// throwaway key where one is needed.
pub fn open(root: &str, encryption: &Encryption) -> (r: Result<Vec<Command>, String>)
    ensures
        match r {
            Ok(commands) => *encryption !is Unencrypted && exists|key: Seq<char>|
                (*encryption is Tpm2Luks ==> is_random_uuid(key)) && views(commands@)
                    == #[trigger] luks_plan(root@, *encryption, key),
            Err(m) => *encryption is Unencrypted && m@
                == "luks::open called with Encryption::None"@,
        },
{
    let key = throwaway_for(encryption);
    open_with(root, encryption, key.as_str())
}

pub open spec fn close_command() -> CommandView {
    plain("cryptsetup"@, seq!["luksClose"@, MAPPER_NAME@], ""@)
}

/// Closes the mapping; how it ends does not matter to callers.
pub fn close() -> (r: Command)
    ensures
        r@ == close_command(),
{
    Command::new("cryptsetup", args2("luksClose", MAPPER_NAME), "")
}

pub open spec fn uuid_command(root: Seq<char>) -> CommandView {
    plain("cryptsetup"@, seq!["luksUUID"@, root], ""@)
}

/// Asks for the LUKS header UUID of the root partition.
pub fn partition_uuid(root: &str) -> (r: Command)
    ensures
        r@ == uuid_command(root@),
{
    Command::new("cryptsetup", args2("luksUUID", root), "")
}

/// Secrets go in over standard input only: what the log shows of the
/// commands is the same for any two secrets.
pub proof fn law_secrets_are_not_logged(
    root: Seq<char>,
    a: Encryption,
    b: Encryption,
    key_a: Seq<char>,
    key_b: Seq<char>,
    k: int,
)
    requires
        a is LuksPassphrase <==> b is LuksPassphrase,
        a is Tpm2Luks <==> b is Tpm2Luks,
        a is Tpm2LuksPassphrase <==> b is Tpm2LuksPassphrase,
        0 <= k < luks_plan(root, a, key_a).len(),
    ensures
        luks_plan(root, b, key_b).len() == luks_plan(root, a, key_a).len(),
        announcement(luks_plan(root, a, key_a)[k]) == announcement(luks_plan(root, b, key_b)[k]),
{
    let x = luks_plan(root, a, key_a)[k];
    let y = luks_plan(root, b, key_b)[k];
    assert(x.program == y.program);
    assert(x.args == y.args);
}

/// The throwaway key of a TPM-only volume does not survive: the last
/// command removes the slot of the very key that the volume was made with.
pub proof fn law_throwaway_is_removed(root: Seq<char>, key: Seq<char>)
    ensures
        luks_plan(root, Encryption::Tpm2Luks, key).first() == format_command(root, key),
        luks_plan(root, Encryption::Tpm2Luks, key).last() == remove_command(root, key),
{
}

/// The secret that an encryption stands for: the passphrase where the user
/// chose one, else the throwaway key.
pub open spec fn secret_of(encryption: Encryption, throwaway: Seq<char>) -> Seq<char> {
    match encryption {
        Encryption::LuksPassphrase { passphrase } => passphrase@,
        Encryption::Tpm2LuksPassphrase { passphrase } => passphrase@,
        _ => throwaway,
    }
}

/// The command is `cryptsetup` with this verb.
pub open spec fn is_cryptsetup(c: CommandView, verb: Seq<char>) -> bool {
    c.program == "cryptsetup"@ && c.args.len() > 0 && c.args[0] == verb
}

/// The volume is formatted with the secret that the user chose, and every
/// later command unlocks it with the same one: a chosen passphrase whatever
/// the throwaway key is. The first command formats the root as LUKS 2, the
/// second opens it under the name of the mapping, and each is about the
/// root.
pub proof fn law_volume_is_keyed_as_chosen(
    root: Seq<char>,
    encryption: Encryption,
    throwaway: Seq<char>,
)
    requires
        encryption !is Unencrypted,
    ensures
        ({
            let plan = luks_plan(root, encryption, throwaway);
            &&& plan.len() >= 2
            &&& forall|k: int|
                0 <= k < plan.len() ==> (#[trigger] plan[k]).stdin == Some(
                    secret_of(encryption, throwaway),
                )
            &&& forall|k: int| 0 <= k < plan.len() ==> (#[trigger] plan[k]).args.contains(root)
            &&& is_cryptsetup(plan[0], "luksFormat"@) && plan[0].args.last() == root
                && plan[0].args.contains("--batch-mode"@) && plan[0].args.contains("luks2"@)
            &&& is_cryptsetup(plan[1], "luksOpen"@) && plan[1].args.last() == "cosmonaut-root"@
                && plan[1].args[plan[1].args.len() - 2] == root && plan[1].args.contains(
                "--allow-discards"@,
            )
        }),
{
    let plan = luks_plan(root, encryption, throwaway);
    assert(plan[0].args[6] == root && plan[0].args[2] == "luks2"@ && plan[0].args[3]
        == "--batch-mode"@);
    assert(plan[1].args[4] == root && plan[1].args[1] == "--allow-discards"@);
    assert forall|k: int| 0 <= k < plan.len() implies (#[trigger] plan[k]).args.contains(root) by {
        if k == 2 {
            assert(plan[2].args[2] == root);
        } else if k == 3 {
            assert(plan[3].args[3] == root);
        }
    }
}

/// The key of each command comes over standard input, where the command
/// looks for it.
pub proof fn law_keys_are_read_from_stdin(
    root: Seq<char>,
    encryption: Encryption,
    throwaway: Seq<char>,
    k: int,
)
    requires
        0 <= k < luks_plan(root, encryption, throwaway).len(),
        luks_plan(root, encryption, throwaway)[k].program == "cryptsetup"@,
    ensures
        ({
            let args = luks_plan(root, encryption, throwaway)[k].args;
            exists|i: int|
                0 <= i < args.len() - 1 && #[trigger] args[i] == "--key-file"@ && args[i + 1]
                    == "-"@
        }),
{
    let c = luks_plan(root, encryption, throwaway)[k];
    reveal_strlit("cryptsetup");
    reveal_strlit("systemd-cryptenroll");
    assert("cryptsetup"@.len() != "systemd-cryptenroll"@.len());
    if k == 0 {
        assert(c.args[4] == "--key-file"@ && c.args[5] == "-"@);
    } else if k == 1 {
        assert(c.args[2] == "--key-file"@ && c.args[3] == "-"@);
    } else if k == 3 {
        assert(c.args[1] == "--key-file"@ && c.args[2] == "-"@);
    }
}

/// A TPM gets a key of its own exactly where the encryption asks for one.
/// The key that was used on the way is taken off again exactly where the
/// user chose none, and only once the TPM holds one.
pub proof fn law_tpm_is_enrolled_where_asked(
    root: Seq<char>,
    encryption: Encryption,
    throwaway: Seq<char>,
)
    ensures
        ({
            let plan = luks_plan(root, encryption, throwaway);
            &&& encryption is Unencrypted ==> plan.len() == 0
            &&& encryption is LuksPassphrase ==> plan.len() == 2
            &&& encryption is Tpm2LuksPassphrase ==> plan.len() == 3
            &&& encryption is Tpm2Luks ==> plan.len() == 4 && is_cryptsetup(
                plan[3],
                "luksRemoveKey"@,
            ) && plan[3].args.last() == root
            &&& encryption is Tpm2Luks || encryption is Tpm2LuksPassphrase ==> plan[2].program
                == "systemd-cryptenroll"@ && plan[2].args.contains("--tpm2-device=auto"@)
                && plan[2].args.contains("--tpm2-pcrs=7"@) && plan[2].args.last() == root
        }),
{
    let plan = luks_plan(root, encryption, throwaway);
    if plan.len() > 2 {
        assert(plan[2].args[0] == "--tpm2-device=auto"@);
        assert(plan[2].args[1] == "--tpm2-pcrs=7"@);
    }
}

/// The mapping that is closed is the one that was opened, and the device of
/// the opened volume bears its name.
pub proof fn law_mapping_has_one_name(
    root: Seq<char>,
    encryption: Encryption,
    throwaway: Seq<char>,
)
    requires
        encryption !is Unencrypted,
    ensures
        ({
            let name = luks_plan(root, encryption, throwaway)[1].args.last();
            &&& is_cryptsetup(close_command(), "luksClose"@)
            &&& close_command().args == seq!["luksClose"@, name]
            &&& close_command().stdin is None
            &&& mapper_path() == "/dev/mapper/"@ + name
        }),
{
    reveal_strlit("/dev/mapper/cosmonaut-root");
    reveal_strlit("/dev/mapper/");
    reveal_strlit("cosmonaut-root");
    assert(mapper_path() =~= "/dev/mapper/"@ + "cosmonaut-root"@);
}

/// The UUID that boot needs is asked of the partition that was formatted.
pub proof fn law_uuid_is_of_the_formatted_partition(
    root: Seq<char>,
    encryption: Encryption,
    throwaway: Seq<char>,
)
    requires
        encryption !is Unencrypted,
    ensures
        is_cryptsetup(uuid_command(root), "luksUUID"@),
        uuid_command(root).args.len() == 2,
        uuid_command(root).args[1] == luks_plan(root, encryption, throwaway)[0].args.last(),
{
}

} // verus!
