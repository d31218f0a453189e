//! The syntax of command paths.
//!
//! A command path such as `/interface/ethernet/print` starts with `/` and is
//! made of segments of letters, digits, `-` and `_`, parted by single
//! delimiters, `/` or a space. It does not end with a delimiter.

use vstd::prelude::*;
use vstd::string::StringSliceAdditionalSpecFns;

verus! {

/// What is wrong with a command path.
#[derive(Debug, Clone, Copy, PartialEq, Eq)]
pub enum CommandSyntaxError {
    /// The path is empty.
    Empty,
    /// The path does not start with `/`.
    MissingSlash,
    /// A delimiter follows a delimiter: the segment between them is empty.
    EmptySegment {
        /// Where the second delimiter stands.
        pos: usize,
    },
    /// A character that may not stand in a path.
    InvalidCharacter {
        /// Where it stands.
        pos: usize,
    },
    /// The path ends with a delimiter.
    TrailingDelimiter,
}

/// `b` parts two segments: `/` or a space.
pub open spec fn is_delimiter(b: u8) -> bool {
    b == '/' as u8 || b == ' ' as u8
}

/// `b` may stand in a segment: a letter, a digit, `-` or `_`.
pub open spec fn is_segment_char(b: u8) -> bool {
    ||| ('0' as u8) <= b <= '9' as u8
    ||| ('A' as u8) <= b <= 'Z' as u8
    ||| ('a' as u8) <= b <= 'z' as u8
    ||| b == '-' as u8
    ||| b == '_' as u8
}

/// `cmd` is a well-formed command path.
pub open spec fn valid_command(cmd: Seq<u8>) -> bool {
    &&& cmd.len() > 0
    &&& cmd[0] == '/' as u8
    &&& forall|i: int|
        1 <= i < cmd.len() ==> is_delimiter(#[trigger] cmd[i]) || is_segment_char(cmd[i])
    &&& forall|i: int|
        1 <= i < cmd.len() ==> !(is_delimiter(#[trigger] cmd[i]) && is_delimiter(cmd[i - 1]))
    &&& !is_delimiter(cmd.last())
}

/// What is wrong with the byte at `i`, if anything.
pub open spec fn fault_at(cmd: Seq<u8>, i: int) -> Option<CommandSyntaxError>
    recommends
        1 <= i < cmd.len(),
{
    if is_delimiter(cmd[i]) {
        if is_delimiter(cmd[i - 1]) {
            Some(CommandSyntaxError::EmptySegment { pos: i as usize })
        } else {
            None
        }
    } else if is_segment_char(cmd[i]) {
        None
    } else {
        Some(CommandSyntaxError::InvalidCharacter { pos: i as usize })
    }
}

/// Checks the bytes from `i` on: the first fault decides, and a path without
/// a fault may still end with a delimiter.
pub open spec fn check_from(cmd: Seq<u8>, i: int) -> Result<(), CommandSyntaxError>
    recommends
        1 <= i <= cmd.len(),
    decreases cmd.len() - i,
{
    if i >= cmd.len() {
        if is_delimiter(cmd.last()) {
            Err(CommandSyntaxError::TrailingDelimiter)
        } else {
            Ok(())
        }
    } else {
        match fault_at(cmd, i) {
            Some(e) => Err(e),
            None => check_from(cmd, i + 1),
        }
    }
}

/// Checks a command path, and says what is wrong with it first.
pub open spec fn check_command(cmd: Seq<u8>) -> Result<(), CommandSyntaxError> {
    if cmd.len() == 0 {
        Err(CommandSyntaxError::Empty)
    } else if cmd[0] != '/' as u8 {
        Err(CommandSyntaxError::MissingSlash)
    } else {
        check_from(cmd, 1)
    }
}

/// The check passes from `i` on exactly if the path is sound from there on.
proof fn lemma_check_from(cmd: Seq<u8>, i: int)
    requires
        1 <= i <= cmd.len(),
    ensures
        check_from(cmd, i) is Ok <==> {
            &&& forall|j: int|
                i <= j < cmd.len() ==> is_delimiter(#[trigger] cmd[j]) || is_segment_char(cmd[j])
            &&& forall|j: int|
                i <= j < cmd.len() ==> !(is_delimiter(#[trigger] cmd[j]) && is_delimiter(
                    cmd[j - 1],
                ))
            &&& !is_delimiter(cmd.last())
        },
    decreases cmd.len() - i,
{
    if i < cmd.len() {
        lemma_check_from(cmd, i + 1);
    }
}

/// The check passes exactly for the well-formed command paths.
pub proof fn lemma_check_command(cmd: Seq<u8>)
    ensures
        check_command(cmd) is Ok <==> valid_command(cmd),
{
    if cmd.len() > 0 && cmd[0] == '/' as u8 {
        lemma_check_from(cmd, 1);
    }
}

/// Checks the syntax of a command path.
pub fn validate_mikrotik_command(cmd: &str) -> (r: Result<(), CommandSyntaxError>)
    ensures
        r == check_command(cmd.spec_bytes()),
        r is Ok <==> valid_command(cmd.spec_bytes()),
{
    let bytes = cmd.as_bytes();
    let len: usize = bytes.len();
    proof {
        lemma_check_command(bytes@);
    }
    // Reject empty string
    if len == 0 {
        return Err(CommandSyntaxError::Empty);
    }
    // Must start with slash
    if bytes[0] != '/' as u8 {
        return Err(CommandSyntaxError::MissingSlash);
    }
    // Track if the previous character was a space or slash to detect duplicates
    let mut prev_was_delimiter: bool = true;
    let mut i: usize = 1;
    while i < len
        invariant
            1 <= i <= len,
            len == bytes@.len(),
            bytes@ == cmd.spec_bytes(),
            bytes@[0] == '/' as u8,
            check_command(bytes@) is Ok <==> valid_command(bytes@),
            prev_was_delimiter == is_delimiter(bytes@[i - 1]),
            check_from(bytes@, 1) == check_from(bytes@, i as int),
        decreases len - i,
    {
        let c: u8 = bytes[i];
        if c == '/' as u8 || c == ' ' as u8 {
            if prev_was_delimiter {
                return Err(CommandSyntaxError::EmptySegment { pos: i });
            }
            prev_was_delimiter = true;
        } else {
            let is_valid_char = (('0' as u8) <= c && c <= '9' as u8) || (('A' as u8) <= c && c
                <= 'Z' as u8) || (('a' as u8) <= c && c <= 'z' as u8) || c == '-' as u8 || c
                == '_' as u8;
            if !is_valid_char {
                return Err(CommandSyntaxError::InvalidCharacter { pos: i });
            }
            prev_was_delimiter = false;
        }
        i += 1;
    }
    if prev_was_delimiter {
        return Err(CommandSyntaxError::TrailingDelimiter);
    }
    Ok(())
}

/// Hands back a command path that is known to be well-formed.
///
/// The path must be well-formed; [`validate_mikrotik_command`] tells
/// whether it is.
pub fn check_mikrotik_command(cmd: &str) -> (r: &str)
    requires
        valid_command(cmd.spec_bytes()),
    ensures
        r == cmd,
{
    cmd
}

} // verus!
