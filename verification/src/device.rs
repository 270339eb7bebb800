//! FIDO devices as the rest of the program sees them: a name and a serial,
//! read from what the PC/SC and HID enumerations report.
use vstd::prelude::*;

use crate::text::{
    ascii_lowercase, ascii_lowercase_vec, chars_of, contains, decimal, digit_char, find_char,
    is_char, lemma_find_from_skip, push_char, range_starts_with, split_char,
    starts_with, string_of, to_lowercase, unicode_lowercase, vec_contains,
};

verus! {

/// A connected FIDO device.
#[derive(Debug)]
pub enum FidoDevice {
    /// A YubiKey reached over PC/SC: its model name and PIV serial number.
    YubiKey { name: String, serial: u32 },
    /// Any device reached over HID: its product string and the information
    /// string the HID layer built for it (space-separated `key=value` fields).
    Generic { product_string: String, info: String },
}

// ----------------------------------------------------------------------------
// Specifications
// ----------------------------------------------------------------------------

/// The field that carries a HID device's serial number.
pub open spec fn serial_field_prefix() -> Seq<char> {
    "serial_number="@
}

/// The lowercase word that marks a YubiKey.
pub open spec fn yubikey_word() -> Seq<char> {
    "yubikey"@
}

/// What a device without a serial number is labelled with in its place; it is
/// never used for matching.
pub open spec fn unknown_serial() -> Seq<char> {
    "unknown"@
}

/// The value of the first field carrying the serial number.
pub open spec fn serial_in_fields(fields: Seq<Seq<char>>) -> Option<Seq<char>>
    decreases fields.len(),
{
    if fields.len() == 0 {
        None
    } else if starts_with(fields[0], serial_field_prefix()) {
        Some(fields[0].skip(serial_field_prefix().len() as int))
    } else {
        serial_in_fields(fields.drop_first())
    }
}

/// The serial number in a HID information string: the text after `=` in its
/// first space-separated field that starts with `serial_number=`.
pub open spec fn hid_serial_spec(info: Seq<char>) -> Option<Seq<char>> {
    serial_in_fields(split_char(info, ' '))
}

/// The serial number a device reports, if any.
pub open spec fn reported_serial(d: FidoDevice) -> Option<Seq<char>> {
    match d {
        FidoDevice::YubiKey { serial, .. } => Some(decimal(serial as nat)),
        FidoDevice::Generic { info, .. } => hid_serial_spec(info@),
    }
}

/// The serial a device is labelled with in prompts.
pub open spec fn shown_serial(d: FidoDevice) -> Seq<char> {
    match reported_serial(d) {
        Some(s) => s,
        None => unknown_serial(),
    }
}

/// A device's name.
pub open spec fn device_name(d: FidoDevice) -> Seq<char> {
    match d {
        FidoDevice::YubiKey { name, .. } => name@,
        FidoDevice::Generic { product_string, .. } => product_string@,
    }
}

/// Whether a HID product string names a YubiKey, in any letter case.
pub open spec fn names_yubikey(product_string: Seq<char>) -> bool {
    contains(unicode_lowercase(product_string), yubikey_word())
}

/// Whether a HID-enumerated device is kept: a HID device that is not a
/// YubiKey, whose HID interface would only shadow its PC/SC entry.
pub open spec fn kept_hid_device(d: FidoDevice) -> bool {
    match d {
        FidoDevice::Generic { product_string, .. } => !names_yubikey(product_string@),
        _ => false,
    }
}

/// The HID-enumerated devices that are kept, in order.
pub open spec fn kept_hid_devices(s: Seq<FidoDevice>) -> Seq<FidoDevice>
    decreases s.len(),
{
    if s.len() == 0 {
        seq![]
    } else if kept_hid_device(s.last()) {
        kept_hid_devices(s.drop_last()).push(s.last())
    } else {
        kept_hid_devices(s.drop_last())
    }
}

// ----------------------------------------------------------------------------
// Executable code
// ----------------------------------------------------------------------------

/// The decimal digit `d`.
fn digit(d: u32) -> (c: char)
    requires
        d < 10,
    ensures
        c == digit_char(d as nat),
{
    ((48 + d) as u8) as char
}

/// `u32::to_string`: the decimal numeral of `n`.
pub fn decimal_string(n: u32) -> (s: String)
    ensures
        s@ == decimal(n as nat),
{
    let mut rev: Vec<char> = Vec::new();
    let mut m = n;
    assert(rev@.reverse() =~= Seq::<char>::empty());
    assert(decimal(n as nat) =~= decimal(m as nat) + rev@.reverse());
    while m >= 10
        invariant
            decimal(n as nat) == decimal(m as nat) + rev@.reverse(),
        decreases m,
    {
        let ghost prev = rev@;
        let c = digit(m % 10);
        rev.push(c);
        assert(rev@.reverse() =~= seq![c] + prev.reverse());
        assert(decimal(m as nat) == decimal((m / 10) as nat).push(c));
        assert(decimal(m as nat) + prev.reverse() =~= decimal((m / 10) as nat) + rev@.reverse());
        m = m / 10;
    }
    let mut s = String::new();
    push_char(&mut s, digit(m));
    let mut k = rev.len();
    while k > 0
        invariant
            k <= rev.len(),
            decimal(n as nat) == s@ + rev@.reverse().skip(rev.len() - k),
        decreases k,
    {
        push_char(&mut s, rev[k - 1]);
        assert(rev@.reverse().skip(rev.len() - k) =~= seq![rev@[k - 1]] + rev@.reverse().skip(
            rev.len() - k + 1,
        ));
        k -= 1;
    }
    assert(rev@.reverse().skip(rev.len() as int) =~= Seq::<char>::empty());
    assert(s@ + Seq::<char>::empty() =~= s@);
    s
}

/// The serial number in a HID information string, if it has one.
pub fn hid_serial(info: &str) -> (r: Option<String>)
    ensures
        match hid_serial_spec(info@) {
            Some(s) => r matches Some(x) && x@ == s,
            None => r is None,
        },
{
    let v = chars_of(info);
    let pre = chars_of("serial_number=");
    proof {
        reveal_strlit("serial_number=");
    }
    assert(pre@.len() == 14);
    let mut i: usize = 0;
    assert(v@.skip(0) =~= v@);
    loop
        invariant
            i <= v.len(),
            pre@ == serial_field_prefix(),
            pre@.len() == 14,
            hid_serial_spec(info@) == serial_in_fields(split_char(v@.skip(i as int), ' ')),
        decreases v.len() - i,
    {
        let j = find_char(&v, ' ', i);
        let ghost rest = v@.skip(i as int);
        proof {
            lemma_find_from_skip(v@, is_char(' '), i as int, 0);
            assert(rest.take(j - i) =~= v@.subrange(i as int, j as int));
            if j < v.len() {
                assert(rest.skip(j - i + 1) =~= v@.skip(j + 1));
                assert(split_char(rest, ' ') == seq![v@.subrange(i as int, j as int)]
                    + split_char(v@.skip(j + 1), ' '));
            } else {
                assert(rest =~= v@.subrange(i as int, j as int));
                assert(split_char(rest, ' ') == seq![rest]);
            }
        }
        let ghost fields = split_char(rest, ' ');
        assert(fields[0] == v@.subrange(i as int, j as int));
        if range_starts_with(&v, i, j, &pre) {
            assert(v@.subrange(i as int, j as int).skip(14) =~= v@.subrange(i + 14, j as int));
            return Some(string_of(&v, i + 14, j));
        }
        if j == v.len() {
            assert(fields.drop_first() =~= Seq::<Seq<char>>::empty());
            assert(serial_in_fields(Seq::<Seq<char>>::empty()) is None);
            return None;
        }
        assert(fields.drop_first() =~= split_char(v@.skip(j + 1), ' '));
        i = j + 1;
    }
}

/// Whether a HID product string, already lowercased, names a YubiKey.
pub fn mentions_yubikey(lowercased: &str) -> (b: bool)
    ensures
        b == contains(lowercased@, yubikey_word()),
{
    let hay = chars_of(lowercased);
    let needle = chars_of("yubikey");
    vec_contains(&hay, &needle)
}

/// Whether a HID product string names a YubiKey, in any letter case.
pub fn is_yubikey_product(product_string: &str) -> (b: bool)
    ensures
        b == names_yubikey(product_string@),
        b == contains(unicode_lowercase(product_string@), "yubikey"@),
{
    let lowered = to_lowercase(product_string);
    mentions_yubikey(lowered.as_str())
}

/// Whether a PC/SC reader name names a YubiKey, in any ASCII letter case.
pub fn is_yubikey_reader(name: &str) -> (b: bool)
    ensures
        b == contains(ascii_lowercase(name@), yubikey_word()),
{
    let v = chars_of(name);
    let lowered = ascii_lowercase_vec(&v);
    let needle = chars_of("yubikey");
    vec_contains(&lowered, &needle)
}

/// All devices to choose from: the HID devices that are not YubiKeys, then
/// the YubiKeys found over PC/SC. The flag tells whether no YubiKey was found
/// while other devices were, which the user is warned of.
pub fn merge_devices(generics: Vec<FidoDevice>, yubikeys: Vec<FidoDevice>) -> (r: (
    Vec<FidoDevice>,
    bool,
))
    ensures
        r.0@ == kept_hid_devices(generics@) + yubikeys@,
        r.1 == (yubikeys@.len() == 0 && kept_hid_devices(generics@).len() > 0),
{
    let mut kept: Vec<FidoDevice> = Vec::new();
    let ghost all = generics@;
    for d in it: generics
        invariant
            all == it.seq(),
            kept@ == kept_hid_devices(it.seq().take(it.index())),
    {
        let ghost k = it.index();
        assert(it.seq().take(k + 1).drop_last() =~= it.seq().take(k));
        let keep = match &d {
            FidoDevice::Generic { product_string, .. } => !is_yubikey_product(
                product_string.as_str(),
            ),
            _ => false,
        };
        if keep {
            kept.push(d);
        }
    }
    assert(all.take(all.len() as int) =~= all);
    let warn = yubikeys.len() == 0 && kept.len() > 0;
    let mut out = kept;
    let mut ys = yubikeys;
    out.append(&mut ys);
    (out, warn)
}

impl FidoDevice {
    /// The device's name.
    pub fn name(&self) -> (r: String)
        ensures
            r@ == device_name(*self),
    {
        match self {
            FidoDevice::YubiKey { name, .. } => name.clone(),
            FidoDevice::Generic { product_string, .. } => product_string.clone(),
        }
    }

    /// The serial number the device reports, or `None` when it reports none;
    /// a device without one is keyed by no placeholder.
    pub fn serial(&self) -> (r: Option<String>)
        ensures
            match reported_serial(*self) {
                Some(s) => r matches Some(x) && x@ == s,
                None => r is None,
            },
    {
        match self {
            FidoDevice::YubiKey { serial, .. } => Some(decimal_string(*serial)),
            FidoDevice::Generic { info, .. } => hid_serial(info.as_str()),
        }
    }

    /// How the device is offered in prompts: `<serial> - <name>`, with
    /// `unknown` in place of a serial it does not report.
    pub fn label(&self) -> (r: String)
        ensures
            r@ == shown_serial(*self) + " - "@ + device_name(*self),
    {
        let mut r = match self.serial() {
            Some(s) => s,
            None => String::from_str("unknown"),
        };
        r.append(" - ");
        let n = self.name();
        r.append(n.as_str());
        r
    }
}

} // verus!
