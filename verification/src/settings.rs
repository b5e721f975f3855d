//! A player's preferences.

use vstd::prelude::*;

verus! {

/// The name a player starts with.
pub open spec fn default_name_spec() -> Seq<char> {
    "Nerter"@
}

pub fn default_name() -> (res: String)
    ensures
        res@ == default_name_spec(),
{
    "Nerter".to_owned()
}

#[derive(Clone, PartialEq)]
pub struct Settings {
    pub name: String,
    pub drag: bool,
    pub round_start_music: bool,
    pub suit_callouts: bool,
    pub nerts_callout: bool,
}

impl Default for Settings {
    fn default() -> (res: Self)
        ensures
            res.name@ == default_name_spec(),
            !res.drag,
            !res.round_start_music,
            !res.suit_callouts,
            !res.nerts_callout,
    {
        Settings {
            name: default_name(),
            drag: false,
            round_start_music: false,
            suit_callouts: false,
            nerts_callout: false,
        }
    }
}

} // verus!
