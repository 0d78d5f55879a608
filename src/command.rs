use vstd::prelude::*;
use vstd::string::StringSliceAdditionalSpecFns;
use crate::model::bytes_equal;

verus! {

/// The commands the menu offers.
#[derive(PartialEq, Eq, Structural, Clone, Copy, Debug)]
pub enum Command {
    Update,
    Upload,
    Rules,
    Help,
    Quit,
}

pub const CARRIAGE_RETURN: u8 = 13;

pub const LINE_FEED: u8 = 10;

/// The input with every line break character taken out.
pub open spec fn without_line_breaks(s: Seq<u8>) -> Seq<u8> {
    s.filter(|b: u8| b != CARRIAGE_RETURN && b != LINE_FEED)
}

pub open spec fn command_of(s: Seq<u8>) -> Option<Command> {
    if s == "update".spec_bytes() {
        Some(Command::Update)
    } else if s == "upload".spec_bytes() {
        Some(Command::Upload)
    } else if s == "rules".spec_bytes() {
        Some(Command::Rules)
    } else if s == "help".spec_bytes() {
        Some(Command::Help)
    } else if s == "quit".spec_bytes() {
        Some(Command::Quit)
    } else {
        None
    }
}

fn strip_line_breaks(input: &[u8]) -> (r: Vec<u8>)
    ensures
        r@ == without_line_breaks(input@),
{
    let mut r: Vec<u8> = Vec::new();
    let mut i: usize = 0;
    while i < input.len()
        invariant
            0 <= i <= input@.len(),
            r@ == without_line_breaks(input@.take(i as int)),
        decreases input@.len() - i,
    {
        proof {
            reveal(Seq::filter);
        }
        assert(input@.take(i + 1).drop_last() =~= input@.take(i as int));
        assert(input@.take(i + 1).last() == input@[i as int]);
        if input[i] != CARRIAGE_RETURN && input[i] != LINE_FEED {
            r.push(input[i]);
        }
        i = i + 1;
    }
    assert(input@.take(input@.len() as int) =~= input@);
    r
}

/// Reads a menu command from a line of input, ignoring line breaks.
pub fn parse_command(input: &[u8]) -> (r: Option<Command>)
    ensures
        r == command_of(without_line_breaks(input@)),
{
    let clean = strip_line_breaks(input);
    let s = clean.as_slice();
    if bytes_equal(s, "update".as_bytes()) {
        Some(Command::Update)
    } else if bytes_equal(s, "upload".as_bytes()) {
        Some(Command::Upload)
    } else if bytes_equal(s, "rules".as_bytes()) {
        Some(Command::Rules)
    } else if bytes_equal(s, "help".as_bytes()) {
        Some(Command::Help)
    } else if bytes_equal(s, "quit".as_bytes()) {
        Some(Command::Quit)
    } else {
        None
    }
}

} // verus!
