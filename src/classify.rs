//! Advisory classification of client commands by name.
use crate::codec::{Frame, Value};
use vstd::prelude::*;

verus! {

/// How a command is flagged for observers. Forwarding ignores it.
#[derive(PartialEq, Eq, Structural, Clone, Copy, Debug)]
pub enum CommandClass {
    /// Anything not named below, and frames that carry no command name.
    Ordinary,
    /// `KEYS`, which walks the whole key space.
    Expensive,
    /// `FLUSHALL` and `FLUSHDB`, which erase data.
    Destructive,
}

/// The text that `String::from_utf8_lossy` makes of some bytes.
pub uninterp spec fn lossy_of(b: Seq<u8>) -> Seq<char>;

/// The text that `str::to_uppercase` makes of some text.
pub uninterp spec fn upper_of(s: Seq<char>) -> Seq<char>;

/// Relies on `String::from_utf8_lossy`: the bytes read as UTF-8, with each
/// invalid sequence replaced; the result depends on the bytes alone.
#[verifier::external_body]
fn lossy_text(b: &[u8]) -> (r: String)
    ensures
        r@ == lossy_of(b@),
{
    String::from_utf8_lossy(b).into_owned()
}

/// Relies on `str::to_uppercase`: the Unicode upper case of the text; the
/// result depends on the text alone.
#[verifier::external_body]
fn uppercase(s: &str) -> (r: String)
    ensures
        r@ == upper_of(s@),
{
    s.to_uppercase()
}

pub open spec fn keys_name() -> Seq<char> {
    seq!['K', 'E', 'Y', 'S']
}

pub open spec fn flushall_name() -> Seq<char> {
    seq!['F', 'L', 'U', 'S', 'H', 'A', 'L', 'L']
}

pub open spec fn flushdb_name() -> Seq<char> {
    seq!['F', 'L', 'U', 'S', 'H', 'D', 'B']
}

/// The class of an upper-cased command name.
pub open spec fn class_of_text(upper: Seq<char>) -> CommandClass {
    if upper == keys_name() {
        CommandClass::Expensive
    } else if upper == flushall_name() || upper == flushdb_name() {
        CommandClass::Destructive
    } else {
        CommandClass::Ordinary
    }
}

/// The class of a request: a command is an array whose first item is a bulk
/// string holding its name, read as UTF-8 and compared in upper case.
pub open spec fn class_of(v: Value) -> CommandClass {
    match v {
        Value::Array(items) => if items.len() > 0 && items[0] is Bulk {
            class_of_text(upper_of(lossy_of(items[0]->Bulk_0)))
        } else {
            CommandClass::Ordinary
        },
        _ => CommandClass::Ordinary,
    }
}

/// Classifies a command name that is already in upper case.
pub fn class_of_upper(upper: &String) -> (r: CommandClass)
    ensures
        r == class_of_text(upper@),
{
    let keys = "KEYS".to_owned();
    let flushall = "FLUSHALL".to_owned();
    let flushdb = "FLUSHDB".to_owned();
    proof {
        reveal_strlit("KEYS");
        reveal_strlit("FLUSHALL");
        reveal_strlit("FLUSHDB");
        assert(keys@ =~= keys_name());
        assert(flushall@ =~= flushall_name());
        assert(flushdb@ =~= flushdb_name());
    }
    if *upper == keys {
        CommandClass::Expensive
    } else if *upper == flushall || *upper == flushdb {
        CommandClass::Destructive
    } else {
        CommandClass::Ordinary
    }
}

/// Flags a request by its command name, compared in Unicode upper case.
pub fn monitor_command(frame: &Frame) -> (r: CommandClass)
    ensures
        r == class_of(frame@),
{
    match frame {
        Frame::Array(items) => {
            if items.len() == 0 {
                return CommandClass::Ordinary;
            }
            assert(frame@->Array_0[0] == items[0]@);
            match &items[0] {
                Frame::BulkString(cmd) => {
                    let text = lossy_text(cmd.as_slice());
                    let upper = uppercase(text.as_str());
                    class_of_upper(&upper)
                },
                _ => CommandClass::Ordinary,
            }
        },
        _ => CommandClass::Ordinary,
    }
}

} // verus!
