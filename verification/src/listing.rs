//! How configured mappings are shown to the user.
use vstd::prelude::*;

verus! {

/// A mapping as listed and offered for removal: `<serial> :: <key>`.
pub open spec fn label_text(serial: Seq<char>, key: Seq<char>) -> Seq<char> {
    serial + " :: "@ + key
}

/// A mapping's status line: its label, whether its device is connected, and
/// a note when its key file is missing.
pub open spec fn status_text(serial: Seq<char>, key: Seq<char>, connected: bool, key_exists: bool) -> Seq<
    char,
> {
    label_text(serial, key) + " ["@ + (if connected {
        "connected"@
    } else {
        "not connected"@
    }) + "]"@ + (if key_exists {
        Seq::<char>::empty()
    } else {
        " (key file missing)"@
    })
}

/// `<serial> :: <key>`.
pub fn mapping_label(serial: &str, key: &str) -> (r: String)
    ensures
        r@ == label_text(serial@, key@),
{
    let mut r = String::from_str(serial);
    r.append(" :: ");
    r.append(key);
    r
}

/// Whether a device's reported serial is `serial`; no serial is none.
pub open spec fn reports_serial(reported: Option<String>, serial: Seq<char>) -> bool {
    reported matches Some(s) && s@ == serial
}

/// Whether `serial` is among the serials that the connected devices report;
/// a device that reports no serial (`None`) is connected to no mapping.
pub fn is_connected(serial: &str, connected_serials: &Vec<Option<String>>) -> (b: bool)
    ensures
        b == exists|i: int|
            0 <= i < connected_serials.len() && reports_serial(
                #[trigger] connected_serials[i],
                serial@,
            ),
{
    let target = serial.to_owned();
    let mut i: usize = 0;
    while i < connected_serials.len()
        invariant
            i <= connected_serials.len(),
            target@ == serial@,
            forall|k: int| 0 <= k < i ==> !reports_serial(#[trigger] connected_serials[k], serial@),
        decreases connected_serials.len() - i,
    {
        if let Some(s) = &connected_serials[i] {
            if *s == target {
                return true;
            }
        }
        i += 1;
    }
    false
}

/// The line listing one mapping.
pub fn status_line(serial: &str, key: &str, connected: bool, key_exists: bool) -> (r: String)
    ensures
        r@ == status_text(serial@, key@, connected, key_exists),
{
    let mut r = mapping_label(serial, key);
    r.append(" [");
    if connected {
        r.append("connected");
    } else {
        r.append("not connected");
    }
    r.append("]");
    if !key_exists {
        r.append(" (key file missing)");
    }
    proof {
        if key_exists {
            assert(r@ + Seq::<char>::empty() =~= r@);
        }
    }
    r
}

} // verus!
