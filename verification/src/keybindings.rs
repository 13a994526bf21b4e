//! Keys that act whatever the mode.

use vstd::prelude::*;

use crate::app::{KeyCode, KeyEvent};

verus! {

/// `Ctrl+C` quits; `q` quits only in normal mode, so that it can be typed.
pub open spec fn quits(key: KeyEvent) -> bool {
    key.code == KeyCode::Char('c') && key.control
}

pub fn is_quit(key: KeyEvent) -> (b: bool)
    ensures
        b == quits(key),
{
    key.code == KeyCode::Char('c') && key.control
}

} // verus!
