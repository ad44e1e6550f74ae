//! The main menu's model: the name typed for a new world.
use vstd::prelude::*;
use vstd::string::*;
use crate::text::{trim, trim_spec};

verus! {

/// What the main menu remembers between frames.
#[derive(Debug)]
pub struct MenuState {
    pub new_world_name: String,
}

impl Default for MenuState {
    fn default() -> (m: Self)
        ensures
            m.new_world_name@ == Seq::<char>::empty(),
    {
        MenuState { new_world_name: String::new() }
    }
}

/// The name under which a new world is created from what was typed:
/// the text without surrounding white space, or nothing when only white
/// space is left, in which case creating is not offered.
pub fn world_name_to_create(typed: &str) -> (r: Option<String>)
    ensures
        match r {
            Some(n) => n@ == trim_spec(typed@) && n@.len() > 0,
            None => trim_spec(typed@).len() == 0,
        },
{
    let t = trim(typed);
    if t.as_str().unicode_len() == 0 {
        None
    } else {
        Some(t)
    }
}

impl MenuState {
    /// The name of the world the menu would create now, if any.
    pub fn world_to_create(&self) -> (r: Option<String>)
        ensures
            match r {
                Some(n) => n@ == trim_spec(self.new_world_name@) && n@.len() > 0,
                None => trim_spec(self.new_world_name@).len() == 0,
            },
    {
        world_name_to_create(self.new_world_name.as_str())
    }
}

} // verus!

verus! {

/// A typed name that begins and ends with a printable ASCII character
/// (a letter, a digit, punctuation) is offered for creation exactly as
/// typed: trimming removes white space only.
pub proof fn lemma_name_kept_when_no_surrounding_space(typed: Seq<char>)
    requires
        typed.len() > 0,
        0x21 <= (typed[0] as int) <= 0x7E,
        0x21 <= (typed.last() as int) <= 0x7E,
    ensures
        trim_spec(typed) == typed,
        trim_spec(typed).len() > 0,
{
    crate::text::lemma_white_space_is_unicode_table(typed[0]);
    crate::text::lemma_white_space_is_unicode_table(typed.last());
    crate::text::lemma_trim_keeps_non_white_space(typed);
}

} // verus!
