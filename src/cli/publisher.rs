//! The publisher shell's command words.

use vstd::prelude::*;
use crate::cli::texts;

verus! {

/// The commands the publisher shell understands, in the order offered.
pub fn shell_commands() -> (r: Vec<String>)
    ensures
        texts(r@) == seq![
            "exit"@,
            "getCoinInfo"@,
            "updateCoin"@,
            "proveMembership"@,
            "clear"@,
            "help"@,
            "?"@,
        ],
{
    let r = vec![
        "exit".to_owned(),
        "getCoinInfo".to_owned(),
        "updateCoin".to_owned(),
        "proveMembership".to_owned(),
        "clear".to_owned(),
        "help".to_owned(),
        "?".to_owned(),
    ];
    assert(texts(r@) =~= seq![
        "exit"@,
        "getCoinInfo"@,
        "updateCoin"@,
        "proveMembership"@,
        "clear"@,
        "help"@,
        "?"@,
    ]);
    r
}

} // verus!
