use vstd::prelude::*;

use crate::bytes::clone_bytes;
use crate::schedule::{RepeatPolicy, Schedule};

verus! {

/// The three answers the path-configuration prompt accepts.
#[derive(Clone, Copy, Debug, PartialEq, Eq, Structural)]
pub enum PathChoice {
    Primary,
    Alternate,
    Custom,
}

/// What a trimmed line at the path-configuration prompt means: `1`, `2`
/// and `3` select a configuration; anything else is rejected, and the
/// session then ends with no filesystem work done.
pub open spec fn spec_parse_path_choice(s: Seq<u8>) -> Option<PathChoice> {
    if s == seq![49u8] {
        Some(PathChoice::Primary)
    } else if s == seq![50u8] {
        Some(PathChoice::Alternate)
    } else if s == seq![51u8] {
        Some(PathChoice::Custom)
    } else {
        None
    }
}

/// Parses the answer to the path-configuration prompt.
pub fn parse_path_choice(input: &Vec<u8>) -> (r: Option<PathChoice>)
    ensures
        r == spec_parse_path_choice(input@),
{
    if input.len() == 1 {
        proof {
            assert(input@ =~= seq![input@[0]]);
        }
        let b = input[0];
        if b == 49 {
            return Some(PathChoice::Primary);
        }
        if b == 50 {
            return Some(PathChoice::Alternate);
        }
        if b == 51 {
            return Some(PathChoice::Custom);
        }
        return None;
    }
    None
}

/// What a trimmed line at the operation-mode prompt means: `1` runs one
/// pass, `2` repeats every thirty seconds, `3` repeats every week;
/// anything else is rejected.
pub open spec fn spec_parse_mode_choice(s: Seq<u8>) -> Option<Schedule> {
    if s == seq![49u8] {
        Some(Schedule { interval_seconds: 1, repeat: RepeatPolicy::Once })
    } else if s == seq![50u8] {
        Some(Schedule { interval_seconds: 30, repeat: RepeatPolicy::Forever })
    } else if s == seq![51u8] {
        Some(Schedule { interval_seconds: 604800, repeat: RepeatPolicy::Forever })
    } else {
        None
    }
}

/// Parses the answer to the operation-mode prompt.
pub fn parse_mode_choice(input: &Vec<u8>) -> (r: Option<Schedule>)
    ensures
        r == spec_parse_mode_choice(input@),
{
    if input.len() == 1 {
        proof {
            assert(input@ =~= seq![input@[0]]);
        }
        let b = input[0];
        if b == 49 {
            return Some(Schedule { interval_seconds: 1, repeat: RepeatPolicy::Once });
        }
        if b == 50 {
            return Some(Schedule { interval_seconds: 30, repeat: RepeatPolicy::Forever });
        }
        if b == 51 {
            return Some(Schedule { interval_seconds: 604800, repeat: RepeatPolicy::Forever });
        }
        return None;
    }
    None
}

/// The target directory entered at the custom-path prompt, with a blank
/// entry falling back to the main directory.
pub fn choose_target(main_dir: &Vec<u8>, entered: &Vec<u8>) -> (r: Vec<u8>)
    ensures
        entered@.len() == 0 ==> r@ == main_dir@,
        entered@.len() > 0 ==> r@ == entered@,
{
    if entered.len() == 0 {
        clone_bytes(main_dir)
    } else {
        clone_bytes(entered)
    }
}

} // verus!
