//! The operations that a user can ask for, by their command words.

use vstd::prelude::*;
use crate::text::str_eq;

verus! {

/// An operation on a repository.
#[derive(Clone, Copy, Debug, PartialEq, Eq, Structural)]
pub enum Operation {
    Acknowledge,
    Status,
    Verify,
    Index,
    History,
    Initialize,
}

/// Something that can say how it is used.
pub trait OperationHelp {
    fn usage(&self) -> String;
}

/// The word that asks for an operation.
pub open spec fn command_word(op: Operation) -> Seq<char> {
    match op {
        Operation::Acknowledge => seq!['a', 'c', 'k'],
        Operation::Status => seq!['s', 't', 'a', 't', 'u', 's'],
        Operation::Verify => seq!['v', 'e', 'r', 'i', 'f', 'y'],
        Operation::Index => seq!['i', 'n', 'd', 'e', 'x'],
        Operation::Initialize => seq!['i', 'n', 'i', 't'],
        Operation::History => seq!['l', 'o', 'g'],
    }
}

/// The operation that a word asks for.
pub open spec fn operation_named(word: Seq<char>) -> Option<Operation> {
    if word == command_word(Operation::Acknowledge) {
        Some(Operation::Acknowledge)
    } else if word == command_word(Operation::Status) {
        Some(Operation::Status)
    } else if word == command_word(Operation::Verify) {
        Some(Operation::Verify)
    } else if word == command_word(Operation::Index) {
        Some(Operation::Index)
    } else if word == command_word(Operation::Initialize) {
        Some(Operation::Initialize)
    } else if word == command_word(Operation::History) {
        Some(Operation::History)
    } else {
        None
    }
}

/// Every operation is asked for by its own word.
pub proof fn lemma_command_words(op: Operation)
    ensures
        operation_named(command_word(op)) == Some(op),
{
    assert(command_word(Operation::Acknowledge)[0] == 'a');
    assert(command_word(Operation::Status)[0] == 's');
    assert(command_word(Operation::Verify)[0] == 'v');
    assert(command_word(Operation::Index)[2] == 'd');
    assert(command_word(Operation::Initialize)[2] == 'i');
    assert(command_word(Operation::History)[0] == 'l');
}

/// How each operation is used.
pub open spec fn usage_text(op: Operation) -> Seq<char> {
    match op {
        Operation::Acknowledge => USAGE_ACKNOWLEDGE@,
        Operation::Status => USAGE_STATUS@,
        Operation::Verify => USAGE_VERIFY@,
        Operation::Index => USAGE_INDEX@,
        Operation::Initialize => USAGE_INITIALIZE@,
        Operation::History => USAGE_HISTORY@,
    }
}

impl Operation {
    /// The operation that the command word `str` asks for.
    pub fn from_str(str: &str) -> (op: Option<Operation>)
        ensures
            op == operation_named(str@),
    {
        proof {
            reveal_strlit("ack");
            reveal_strlit("status");
            reveal_strlit("verify");
            reveal_strlit("index");
            reveal_strlit("init");
            reveal_strlit("log");
            assert("ack"@ =~= command_word(Operation::Acknowledge));
            assert("status"@ =~= command_word(Operation::Status));
            assert("verify"@ =~= command_word(Operation::Verify));
            assert("index"@ =~= command_word(Operation::Index));
            assert("init"@ =~= command_word(Operation::Initialize));
            assert("log"@ =~= command_word(Operation::History));
        }
        if str_eq(str, "ack") {
            Some(Operation::Acknowledge)
        } else if str_eq(str, "status") {
            Some(Operation::Status)
        } else if str_eq(str, "verify") {
            Some(Operation::Verify)
        } else if str_eq(str, "index") {
            Some(Operation::Index)
        } else if str_eq(str, "init") {
            Some(Operation::Initialize)
        } else if str_eq(str, "log") {
            Some(Operation::History)
        } else {
            None
        }
    }

    /// How the operation is used: the text that `help` prints for it.
    pub fn usage_text(&self) -> (text: String)
        ensures
            text@ == usage_text(*self),
    {
        match self {
            Operation::Acknowledge => USAGE_ACKNOWLEDGE.to_owned(),
            Operation::Status => USAGE_STATUS.to_owned(),
            Operation::Verify => USAGE_VERIFY.to_owned(),
            Operation::Index => USAGE_INDEX.to_owned(),
            Operation::Initialize => USAGE_INITIALIZE.to_owned(),
            Operation::History => USAGE_HISTORY.to_owned(),
        }
    }
}

impl OperationHelp for Operation {
    fn usage(&self) -> (text: String)
        ensures
            text@ == usage_text(*self),
    {
        self.usage_text()
    }
}

pub const USAGE_ACKNOWLEDGE: &'static str = "\
usage: fhistory ack [options] <path>
Acknowledge changes to files in the repository and create a new snapshot

options:
  -m,--message=MSG       Set a message to be stored along with the snapshot
  -y,--noconfirm         Don't prompt to confirm changes
  -d,--data_dir=PATH     Set the path of the repository/data directory
                         default: '.'
  -x,--index_dir=PATH    Set the path of the index directory. Note that this
                         path is relative to the data directory. Absolute
                         paths are allowed. default: '.fh'
  --progress=[on/off]    Turn progress reporting on stderr on or off
                         default: off
  --colours=[on/off]     Turn coloured terminal output on or off
                         default: on
  --set_time=TIMESTAMP   Use the specified current unix microsecond timestamp
                         instead of the real system time
  -v,--verbose           Enable verbose output,
  -h,--help              Print this help message and exit
";

pub const USAGE_STATUS: &'static str = "\
usage: fhistory status [options]
Compare the current state of the repository to the latest snapshot

options:
  -d,--data_dir=PATH     Set the path of the repository/data directory
                         default: '.'
  -x,--index_dir=PATH    Set the path of the index directory. Note that this
                         path is relative to the data directory. Absolute
                         paths are allowed. default: '.fh'
  --progress=[on/off]    Turn progress reporting on stderr on or off
                         default: off
  --colours=[on/off]     Turn coloured terminal output on or off
                         default: on
  -v,--verbose           Enable verbose output,
  -h,--help              Print this help message and exit
";

pub const USAGE_VERIFY: &'static str = "\
usage: fhistory verify [options]
Perform a full check of the repository's integrity

options:
  -d,--data_dir=PATH     Set the path of the repository/data directory
                         default: '.'
  -x,--index_dir=PATH    Set the path of the index directory. Note that this
                         path is relative to the data directory. Absolute
                         paths are allowed. default: '.fh'
  --progress=[on/off]    Turn progress reporting on stderr on or off
                         default: on
  --colours=[on/off]     Turn coloured terminal output on or off
                         default: on
  -v,--verbose           Enable verbose output,
  -h,--help              Print this help message and exit
";

pub const USAGE_INDEX: &'static str = "\
usage: fhistory index [options] <path>...
Create an index file containing checksums of all files in a directory

options:
  -d,--data_dir=PATH     Set the path of the repository/data directory
                         default: '.'
  --progress=[on/off]    Turn progress reporting on stderr on or off
                         default: off
  --colours=[on/off]     Turn coloured terminal output on or off
                         default: on
  -v,--verbose           Enable verbose output,
  -h,--help              Print this help message and exit
";

pub const USAGE_INITIALIZE: &'static str = "\
usage: fhistory init [options]
Create a new index file.

options:
  --checksum=TYPE        Set the checksum/digest function. Possible values:
                         'sha256' (default), 'md5'
  --empty                Create the index, but do not add the existing files
  -d,--data_dir=PATH     Set the path of the repository/data directory
                         default: '.'
  -x,--index_dir=PATH    Set the path of the index directory. Note that this
                         path is relative to the data directory. Absolute
                         paths are allowed. default: '.fh'
  --progress=[on/off]    Turn progress reporting on stderr on or off
                         default: on
  --colours=[on/off]     Turn coloured terminal output on or off
                         default: on
  -v,--verbose           Enable verbose output,
  -h,--help              Print this help message and exit
";

pub const USAGE_HISTORY: &'static str = "\
usage: fhistory log [options]
Display a historical log of snapshots and changes to the repository

options:
  -d,--data_dir=PATH     Set the path of the repository/data directory
                         default: '.'
  -x,--index_dir=PATH    Set the path of the index directory. Note that this
                         path is relative to the data directory. Absolute
                         paths are allowed. default: '.fh'
  --help                 Print this help message and exit
";

} // verus!
