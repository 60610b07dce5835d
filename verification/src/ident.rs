use vstd::prelude::*;
use vstd::string::StringSliceAdditionalSpecFns;
use crate::model::{ConfigError, ErrorKind};
use crate::text::bytes_eq;

verus! {

/// An upper-case letter of ASCII.
pub open spec fn is_upper(b: u8) -> bool {
    0x41 <= b <= 0x5a
}

/// A digit of ASCII.
pub open spec fn is_digit(b: u8) -> bool {
    0x30 <= b <= 0x39
}

/// A byte that an alias name may hold: an upper-case letter, a digit or an underscore.
pub open spec fn is_name_byte(b: u8) -> bool {
    is_upper(b) || is_digit(b) || b == 0x5f
}

/// The shape of an alias name: an upper-case letter, then upper-case letters, digits and
/// underscores. A word of this shape in a list is a reference, which keeps alias names apart
/// from the names of users, hosts and groups.
pub open spec fn alias_shaped(name: Seq<u8>) -> bool {
    &&& name.len() > 0
    &&& is_upper(name[0])
    &&& forall|i: int| 0 <= i < name.len() ==> is_name_byte(#[trigger] name[i])
}

/// The keyword that matches anything.
pub open spec fn all_keyword() -> Seq<u8> {
    "ALL".spec_bytes()
}

/// The keywords that the rule language keeps for itself.
pub open spec fn reserved_words() -> Seq<Seq<u8>> {
    seq![
        "ALL".spec_bytes(),
        "CHROOT".spec_bytes(),
        "CWD".spec_bytes(),
        "NOTAFTER".spec_bytes(),
        "NOTBEFORE".spec_bytes(),
        "ROLE".spec_bytes(),
        "TIMEOUT".spec_bytes(),
        "TYPE".spec_bytes(),
    ]
}

/// Whether `name` is one of the reserved keywords.
pub open spec fn is_reserved(name: Seq<u8>) -> bool {
    reserved_words().contains(name)
}

/// A name that an alias may be defined under: of the shape of an alias name, and no
/// reserved keyword other than `ALL`.
pub open spec fn is_identifier(name: Seq<u8>) -> bool {
    alias_shaped(name) && (!is_reserved(name) || name == all_keyword())
}

/// The reserved keyword at position `i` of the fixed list.
fn reserved_word(i: usize) -> (word: &'static str)
    requires
        i < 8,
    ensures
        word.spec_bytes() == reserved_words()[i as int],
{
    if i == 0 {
        "ALL"
    } else if i == 1 {
        "CHROOT"
    } else if i == 2 {
        "CWD"
    } else if i == 3 {
        "NOTAFTER"
    } else if i == 4 {
        "NOTBEFORE"
    } else if i == 5 {
        "ROLE"
    } else if i == 6 {
        "TIMEOUT"
    } else {
        "TYPE"
    }
}

/// Whether `name` is one of the reserved keywords.
pub fn check_reserved(name: &[u8]) -> (out: bool)
    ensures
        out == is_reserved(name@),
{
    let mut i: usize = 0;
    while i < 8
        invariant
            i <= 8,
            forall|j: int| 0 <= j < i ==> reserved_words()[j] != name@,
        decreases 8 - i,
    {
        if bytes_eq(reserved_word(i).as_bytes(), name) {
            return true;
        }
        i += 1;
    }
    false
}

/// Whether `name` has the shape of an alias name.
pub fn check_alias_shaped(name: &[u8]) -> (out: bool)
    ensures
        out == alias_shaped(name@),
{
    if name.len() == 0 {
        return false;
    }
    if !(name[0] >= 0x41 && name[0] <= 0x5a) {
        return false;
    }
    let mut i: usize = 0;
    while i < name.len()
        invariant
            i <= name.len(),
            forall|j: int| 0 <= j < i ==> is_name_byte(#[trigger] name@[j]),
        decreases name.len() - i,
    {
        let b = name[i];
        if !((b >= 0x41 && b <= 0x5a) || (b >= 0x30 && b <= 0x39) || b == 0x5f) {
            return false;
        }
        i += 1;
    }
    true
}

/// Accepts `name` as the name of an alias, or rejects it with the position it was found at.
///
/// A name is rejected where it is empty, starts with anything but an upper-case letter (so
/// with an underscore), holds a byte that is no upper-case letter, digit or underscore, or is
/// a reserved keyword other than `ALL`.
pub fn validate_identifier(name: &[u8], position: usize) -> (out: Result<(), ConfigError>)
    ensures
        out is Ok <==> is_identifier(name@),
        out is Err ==> out == Err::<(), ConfigError>(
            ConfigError { kind: ErrorKind::InvalidIdentifier, line: position },
        ),
{
    if !check_alias_shaped(name) {
        return Err(ConfigError { kind: ErrorKind::InvalidIdentifier, line: position });
    }
    if check_reserved(name) && !bytes_eq(name, "ALL".as_bytes()) {
        return Err(ConfigError { kind: ErrorKind::InvalidIdentifier, line: position });
    }
    Ok(())
}

/// A name that starts with an underscore is no identifier.
pub proof fn lemma_leading_underscore_rejected(name: Seq<u8>)
    requires
        name.len() > 0,
        name[0] == 0x5f,
    ensures
        !is_identifier(name),
{
}

/// A reserved keyword other than `ALL` is no identifier.
pub proof fn lemma_reserved_rejected(name: Seq<u8>)
    requires
        is_reserved(name),
        name != all_keyword(),
    ensures
        !is_identifier(name),
{
}

/// `ALL` is an identifier, reserved as it is.
pub proof fn lemma_all_is_identifier()
    ensures
        is_reserved(all_keyword()),
        is_identifier(all_keyword()),
{
    reveal_strlit("ALL");
    broadcast use vstd::string::is_ascii_spec_bytes;

    assert(vstd::string::is_ascii("ALL"));
    let name = all_keyword();
    assert(name.len() == 3);
    assert(name[0] == 0x41 && name[1] == 0x4c && name[2] == 0x4c);
    assert(reserved_words()[0] == name);
}

/// A name of the shape of an alias name that is on no list of keywords is an identifier.
pub proof fn lemma_plain_name_accepted(name: Seq<u8>)
    requires
        alias_shaped(name),
        !is_reserved(name),
    ensures
        is_identifier(name),
{
}

} // verus!
