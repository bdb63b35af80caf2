use vstd::prelude::*;

verus! {

/// The reply-keyboard presets a game message can carry.
#[derive(PartialEq, Eq, Structural, Clone, Copy, Debug)]
pub enum KeyboardOptions {
    Plain,
    Remove,
    Plus,
    YesNoPause,
    YesNoContinue,
}

} // verus!
