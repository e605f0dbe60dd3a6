//! The exchange shell's command words.

use vstd::prelude::*;
use crate::cli::texts;

verus! {

/// The commands the exchange shell understands, in the order offered.
pub fn shell_commands() -> (r: Vec<String>)
    ensures
        texts(r@) == seq![
            "exit"@,
            "createPrivateKey"@,
            "proveMembership"@,
            "addCoinToDB"@,
            "createRNG"@,
            "clear"@,
            "showFile"@,
            "help"@,
            "?"@,
        ],
{
    let r = vec![
        "exit".to_owned(),
        "createPrivateKey".to_owned(),
        "proveMembership".to_owned(),
        "addCoinToDB".to_owned(),
        "createRNG".to_owned(),
        "clear".to_owned(),
        "showFile".to_owned(),
        "help".to_owned(),
        "?".to_owned(),
    ];
    assert(texts(r@) =~= seq![
        "exit"@,
        "createPrivateKey"@,
        "proveMembership"@,
        "addCoinToDB"@,
        "createRNG"@,
        "clear"@,
        "showFile"@,
        "help"@,
        "?"@,
    ]);
    r
}

} // verus!
