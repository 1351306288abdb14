//! Capture argument and wireless-interface shapes for machines running an
//! X11 display, and the NUL-separated string lists X11 properties carry.

use vstd::prelude::*;
use crate::scripting::lexer::chars_to_string;
use crate::scripting::parser::{split_chars, split_sep};

verus! {

/// How an X11 capture is taken.
pub struct X11CaptureArgs {
    /// Capture only the focused window when set; every window otherwise.
    pub only_focused_window: bool,
}

/// One wireless interface, as the kernel reports it.
pub struct WifiInterface {
    /// The network name the interface is on.
    pub ssid: String,
    /// The interface's hardware address.
    pub mac: String,
    /// The interface's name.
    pub name: String,
    /// Transmit power level, in signed mBm units.
    pub power: u32,
    /// Signal strength average, in dBm.
    pub average_signal: i8,
    /// The station's hardware address.
    pub bssid: String,
    /// Seconds since the station last connected.
    pub connected_time: u32,
}

/// The wireless network a machine is on, if any.
pub struct NetworkInfo {
    pub wifi: Option<WifiInterface>,
}

/// The parts of a NUL-separated string list: its NUL-separated pieces, with
/// a final empty piece dropped, since some window managers end such lists
/// with a NUL and others do not.
pub open spec fn split_zero_spec(s: Seq<char>) -> Seq<Seq<char>> {
    let parts = split_sep(s, '\0');
    if parts.len() > 0 && parts.last().len() == 0 {
        parts.drop_last()
    } else {
        parts
    }
}

/// Splits a NUL-separated string list into its parts; see `split_zero_spec`.
pub fn split_zero(s: &str) -> (parts: Vec<String>)
    ensures
        parts@.len() == split_zero_spec(s@).len(),
        forall|i: int|
            0 <= i < parts@.len() ==> (#[trigger] parts@[i])@ == split_zero_spec(s@)[i],
{
    let chars = crate::scripting::lexer::str_to_chars(s);
    let raw = split_chars(&chars, '\0');
    let n = raw.len();
    let mut keep = n;
    if n > 0 && raw[n - 1].len() == 0 {
        keep = n - 1;
        proof {
            assert(split_sep(s@, '\0').last().len() == 0);
        }
    }
    let mut parts: Vec<String> = Vec::new();
    let mut i: usize = 0;
    while i < keep
        invariant
            i <= keep <= n,
            n == raw@.len(),
            n == split_sep(s@, '\0').len(),
            forall|j: int| 0 <= j < n ==> (#[trigger] raw@[j])@ == split_sep(s@, '\0')[j],
            keep == split_zero_spec(s@).len(),
            forall|j: int|
                0 <= j < keep ==> #[trigger] split_zero_spec(s@)[j] == split_sep(s@, '\0')[j],
            parts@.len() == i,
            forall|j: int| 0 <= j < i ==> (#[trigger] parts@[j])@ == split_zero_spec(s@)[j],
        decreases keep - i,
    {
        let piece = &raw[i];
        let m = piece.len();
        let owned = chars_to_string(piece, 0, m);
        proof {
            assert(piece@.subrange(0, m as int) =~= piece@);
        }
        parts.push(owned);
        i += 1;
    }
    parts
}

} // verus!
