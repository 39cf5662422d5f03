use vstd::prelude::*;
use vstd::string::*;
use crate::text::same_text;

verus! {

/// The two ways in which the cursor can turn by a quarter.
#[derive(Debug, PartialEq, Eq, Structural, Clone, Copy)]
pub enum TurningDirection {
    LEFT,
    RIGHT,
}

/// Whether `s` is one of the two spellings of a left turn.
pub open spec fn names_left(s: Seq<char>) -> bool {
    s == "LEFT"@ || s == "L"@
}

/// Whether `s` is one of the two spellings of a right turn.
pub open spec fn names_right(s: Seq<char>) -> bool {
    s == "RIGHT"@ || s == "R"@
}

impl TurningDirection {
    /// Reads a turning direction from its long or short name. Any other
    /// text is handed back unchanged as the error.
    pub fn from_string(s: &str) -> (r: Result<TurningDirection, String>)
        ensures
            names_left(s@) ==> r == Ok::<TurningDirection, String>(TurningDirection::LEFT),
            !names_left(s@) && names_right(s@) ==> r == Ok::<TurningDirection, String>(
                TurningDirection::RIGHT,
            ),
            !names_left(s@) && !names_right(s@) ==> r is Err && r->Err_0@ == s@,
    {
        if same_text(s, "LEFT") || same_text(s, "L") {
            Ok(TurningDirection::LEFT)
        } else if same_text(s, "RIGHT") || same_text(s, "R") {
            Ok(TurningDirection::RIGHT)
        } else {
            Err(String::from_str(s))
        }
    }
}

} // verus!
