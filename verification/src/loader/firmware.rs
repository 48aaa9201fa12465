//! The firmware's revision and vendor. The vendor comes from the firmware
//! as UCS-2 text and is kept as at most 32 bytes of UTF-8.

use vstd::prelude::*;
use vstd::string::StringSliceAdditionalSpecFns;
use vstd::utf8::{encode_scalar, valid_utf8};
use crate::abi::Firmware;
use crate::loader::writer::FixedBufWriter;

verus! {

/// Most bytes kept of the vendor.
pub const VENDOR_CAP: usize = 32;

/// Whether the code units are UCS-2 text with its terminator: a zero at the
/// end and only there, and no code unit from the surrogate range.
pub open spec fn ucs2_text(units: Seq<u16>) -> bool {
    &&& units.len() >= 1
    &&& units.last() == 0
    &&& forall|i: int|
        0 <= i < units.len() - 1 ==> (#[trigger] units[i]) != 0 && !(0xd800 <= units[i] <= 0xdfff)
}

/// The UTF-8 encoding of code units that stand for one character each.
pub open spec fn utf8_of(units: Seq<u16>) -> Seq<u8>
    decreases units.len(),
{
    if units.len() == 0 {
        Seq::empty()
    } else {
        utf8_of(units.drop_last()) + encode_scalar(units.last() as u32)
    }
}

/// Converts UCS-2 text, terminator included, to UTF-8, by way of
/// `uefi::CStr16::from_u16_with_nul` and `uefi::CStr16::as_str_in_buf`. The
/// first accepts the code units if and only if they end in their only zero
/// and hold no surrogate; the second writes each character before the zero
/// in its UTF-8 encoding.
#[verifier::external_body]
pub(crate) fn ucs2_to_utf8(units: &[u16]) -> (r: Option<Vec<u8>>)
    ensures
        r is Some <==> ucs2_text(units@),
        r matches Some(bytes) ==> bytes@ == utf8_of(units@.drop_last()),
{
    let text = uefi::CStr16::from_u16_with_nul(units).ok()?;
    let mut out = String::new();
    text.as_str_in_buf(&mut out).ok()?;
    Some(out.into_bytes())
}

/// The text of bytes that are valid UTF-8, by way of `core::str::from_utf8`,
/// which accepts the bytes if and only if they are valid UTF-8 and hands
/// them back unchanged.
#[verifier::external_body]
fn utf8_text(bytes: &[u8]) -> (r: Option<&str>)
    ensures
        r is Some <==> valid_utf8(bytes@),
        r matches Some(text) ==> text.spec_bytes() == bytes@,
{
    core::str::from_utf8(bytes).ok()
}

/// Firmware revision and vendor as the loader keeps them.
pub struct FirmwareInfo {
    pub revision: u32,
    vendor: [u8; 32],
    vendor_len: usize,
    vendor_truncated: bool,
}

/// What is kept of a vendor in UTF-8: its first 32 bytes.
pub open spec fn vendor_kept(utf8: Seq<u8>) -> Seq<u8> {
    if utf8.len() <= VENDOR_CAP {
        utf8
    } else {
        utf8.take(VENDOR_CAP as int)
    }
}

impl FirmwareInfo {
    /// The bytes kept of the vendor.
    pub closed spec fn vendor_bytes(&self) -> Seq<u8> {
        self.vendor@.take(self.vendor_len as int)
    }

    /// The revision of the firmware.
    pub closed spec fn revision_number(&self) -> u32 {
        self.revision
    }

    /// Whether the vendor was longer than what is kept.
    pub closed spec fn truncated(&self) -> bool {
        self.vendor_truncated
    }

    pub closed spec fn wf(&self) -> bool {
        &&& self.vendor_len <= VENDOR_CAP
        &&& forall|i: int| self.vendor_len <= i < VENDOR_CAP ==> #[trigger] self.vendor[i] == 0
    }

    /// The vendor as text, or a note that it is none: what is kept of a
    /// vendor that was cut inside a character is not valid UTF-8.
    pub fn vendor_str(&self) -> (r: &str)
        requires
            self.wf(),
        ensures
            valid_utf8(self.vendor_bytes()) ==> r.spec_bytes() == self.vendor_bytes(),
            !valid_utf8(self.vendor_bytes()) ==> r@ == "INVALID UTF-8"@,
    {
        let kept = vstd::slice::slice_subrange(self.vendor.as_slice(), 0, self.vendor_len);
        assert(kept@ =~= self.vendor_bytes());
        match utf8_text(kept) {
            Some(text) => text,
            None => "INVALID UTF-8",
        }
    }

    /// Whether the vendor was longer than what is kept.
    pub fn vendor_was_truncated(&self) -> (r: bool)
        ensures
            r == self.truncated(),
    {
        self.vendor_truncated
    }

    /// The bytes kept of the vendor.
    pub fn vendor_utf8(&self) -> (r: &[u8])
        requires
            self.wf(),
        ensures
            r@ == self.vendor_bytes(),
    {
        let kept = vstd::slice::slice_subrange(self.vendor.as_slice(), 0, self.vendor_len);
        assert(kept@ =~= self.vendor_bytes());
        kept
    }
}

/// Keeps the first 32 bytes of a vendor in UTF-8: the bytes, zero padded,
/// how many there are, and whether any were left out.
pub fn copy_vendor_string(utf8: &[u8]) -> (r: ([u8; 32], usize, bool))
    ensures
        r.1 == vendor_kept(utf8@).len(),
        r.0@.take(r.1 as int) == vendor_kept(utf8@),
        forall|i: int| r.1 <= i < VENDOR_CAP ==> #[trigger] r.0[i] == 0,
        r.2 == (utf8@.len() > VENDOR_CAP),
{
    let mut writer = FixedBufWriter::new(VENDOR_CAP);
    let truncated: bool = writer.write_bytes(utf8).is_err();
    let len: usize = writer.len();
    let kept = writer.as_slice();
    let mut buf: [u8; 32] = [0u8; 32];
    let mut i: usize = 0;
    while i < len
        invariant
            i <= len,
            len <= VENDOR_CAP,
            len == kept@.len(),
            forall|j: int| 0 <= j < i ==> #[trigger] buf[j] == kept@[j],
            forall|j: int| i <= j < VENDOR_CAP ==> #[trigger] buf[j] == 0,
        decreases len - i,
    {
        buf[i] = kept[i];
        i = i + 1;
    }
    proof {
        assert(buf@.take(len as int) =~= vendor_kept(utf8@));
    }
    (buf, len, truncated)
}

/// What the loader keeps of a firmware with the vendor `vendor` in UCS-2,
/// terminator included.
pub fn get_info(revision: u32, vendor: &[u16]) -> (r: FirmwareInfo)
    ensures
        r.wf(),
        r.revision_number() == revision,
        ucs2_text(vendor@) ==> r.vendor_bytes() == vendor_kept(utf8_of(vendor@.drop_last()))
            && r.truncated() == (utf8_of(vendor@.drop_last()).len() > VENDOR_CAP),
        !ucs2_text(vendor@) ==> r.vendor_bytes().len() == 0 && r.truncated(),
{
    match ucs2_to_utf8(vendor) {
        Some(utf8) => firmware_info_from_utf8(revision, utf8.as_slice(), false),
        None => {
            let empty: [u8; 0] = [];
            firmware_info_from_utf8(revision, empty.as_slice(), true)
        },
    }
}

/// What the loader keeps of a firmware whose vendor, in UTF-8, is `utf8`.
/// `failed` says that the vendor could not be converted at all, which
/// counts as a truncation.
pub fn firmware_info_from_utf8(revision: u32, utf8: &[u8], failed: bool) -> (r: FirmwareInfo)
    ensures
        r.wf(),
        r.revision_number() == revision,
        r.vendor_bytes() == vendor_kept(utf8@),
        r.truncated() == (failed || utf8@.len() > VENDOR_CAP),
{
    let (vendor, vendor_len, cut) = copy_vendor_string(utf8);
    FirmwareInfo { revision, vendor, vendor_len, vendor_truncated: cut || failed }
}

/// Puts what the loader keeps of the firmware into the hand-off record.
pub fn firmware_into_abi(info: &FirmwareInfo) -> (r: Firmware)
    requires
        info.wf(),
    ensures
        r.revision == info.revision_number(),
        r.vendor@.take(r.vendor_len as int) == info.vendor_bytes(),
        r.vendor_len == info.vendor_bytes().len(),
        forall|i: int| r.vendor_len <= i < VENDOR_CAP ==> #[trigger] r.vendor[i] == 0,
        r.vendor_truncated == if info.truncated() {
            1u8
        } else {
            0u8
        },
{
    Firmware {
        revision: info.revision,
        vendor: info.vendor,
        vendor_len: info.vendor_len as u8,
        vendor_truncated: if info.vendor_truncated {
            1
        } else {
            0
        },
    }
}

} // verus!
