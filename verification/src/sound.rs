//! The sounds that mark the start and the end of a recording.

use vstd::prelude::*;

verus! {

/// The name of the file that holds the sound `name`.
pub fn file_name(name: &str) -> (r: String)
    ensures
        r@ == name@ + ".wav"@,
{
    let mut r: String = name.to_owned();
    r.append(".wav");
    r
}

} // verus!
