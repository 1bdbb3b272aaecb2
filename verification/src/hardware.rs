//! Recognising supported keyboards.
//!
//! A `HardwareSignature` names a device family, a `DecodingProfile` adds how
//! that family scales its readings, and a `RawDescriptor` is what the
//! transport reports of one attached interface. Matching and fingerprinting
//! are pure: they read the descriptor and nothing else.
use vstd::prelude::*;
use crate::intensity::{scale, scale_spec, Gain};

verus! {

/// USB vendor id shared by the supported keyboards.
pub const WOOTING_VENDOR_ID: u16 = 0x03EB;

/// USB product id of the Wooting One.
pub const WOOTING_ONE_PRODUCT_ID: u16 = 0xFF01;

/// USB product id of the Wooting Two.
pub const WOOTING_TWO_PRODUCT_ID: u16 = 0xFF02;

/// HID usage page of the analog interface.
pub const ANALOG_USAGE_PAGE: u16 = 0xFF54;

/// Interface number of the analog interface.
pub const ANALOG_INTERFACE_NUMBER: i32 = 6;

/// What identifies a device family and its analog interface.
#[derive(Clone, Copy, PartialEq, Eq, Structural, Debug)]
pub struct HardwareSignature {
    pub vendor_id: u16,
    pub product_id: u16,
    /// Zero where the platform does not report usage pages.
    pub usage_page: u16,
    pub interface_number: i32,
}

/// One attached interface as the transport lists it.
#[derive(Debug)]
pub struct RawDescriptor {
    pub vendor_id: u16,
    pub product_id: u16,
    /// Zero where the platform does not report usage pages.
    pub usage_page: u16,
    pub interface_number: i32,
    pub serial_number: Option<String>,
    pub manufacturer_string: Option<String>,
    pub product_string: Option<String>,
}

/// A copy of a string that may be missing.
fn clone_text(text: &Option<String>) -> (twin: Option<String>)
    ensures
        twin == *text,
{
    match text {
        Some(held) => Some(held.clone()),
        None => None,
    }
}

impl Clone for RawDescriptor {
    /// An independent copy that says the same.
    fn clone(&self) -> (twin: Self)
        ensures
            twin == *self,
    {
        RawDescriptor {
            vendor_id: self.vendor_id,
            product_id: self.product_id,
            usage_page: self.usage_page,
            interface_number: self.interface_number,
            serial_number: clone_text(&self.serial_number),
            manufacturer_string: clone_text(&self.manufacturer_string),
            product_string: clone_text(&self.product_string),
        }
    }
}

/// A device family: how to recognise it and how it scales a raw reading.
#[derive(Clone, Copy, PartialEq, Eq, Structural, Debug)]
pub struct DecodingProfile {
    pub signature: HardwareSignature,
    pub gain: Gain,
}

/// The usage page a profile expects, given whether the platform reports
/// usage pages at all.
pub open spec fn expected_usage_page(usage_pages_available: bool) -> u16 {
    if usage_pages_available {
        ANALOG_USAGE_PAGE
    } else {
        0
    }
}

/// The profile of the Wooting One.
pub open spec fn wooting_one_spec(usage_pages_available: bool) -> DecodingProfile {
    DecodingProfile {
        signature: HardwareSignature {
            vendor_id: WOOTING_VENDOR_ID,
            product_id: WOOTING_ONE_PRODUCT_ID,
            usage_page: expected_usage_page(usage_pages_available),
            interface_number: ANALOG_INTERFACE_NUMBER,
        },
        gain: Gain::HighTravel,
    }
}

/// The profile of the Wooting Two.
pub open spec fn wooting_two_spec(usage_pages_available: bool) -> DecodingProfile {
    DecodingProfile {
        signature: HardwareSignature {
            vendor_id: WOOTING_VENDOR_ID,
            product_id: WOOTING_TWO_PRODUCT_ID,
            usage_page: expected_usage_page(usage_pages_available),
            interface_number: ANALOG_INTERFACE_NUMBER,
        },
        gain: Gain::HighTravel,
    }
}

impl DecodingProfile {
    /// The profile of the Wooting One. Pass `false` on a platform whose
    /// transport reports no usage pages: the profile then expects page zero
    /// and matching goes by the interface number.
    pub fn wooting_one(usage_pages_available: bool) -> (profile: Self)
        ensures
            profile == wooting_one_spec(usage_pages_available),
    {
        DecodingProfile {
            signature: HardwareSignature {
                vendor_id: WOOTING_VENDOR_ID,
                product_id: WOOTING_ONE_PRODUCT_ID,
                usage_page: if usage_pages_available {
                    ANALOG_USAGE_PAGE
                } else {
                    0
                },
                interface_number: ANALOG_INTERFACE_NUMBER,
            },
            gain: Gain::HighTravel,
        }
    }

    /// The profile of the Wooting Two; see `wooting_one` for the argument.
    pub fn wooting_two(usage_pages_available: bool) -> (profile: Self)
        ensures
            profile == wooting_two_spec(usage_pages_available),
    {
        DecodingProfile {
            signature: HardwareSignature {
                vendor_id: WOOTING_VENDOR_ID,
                product_id: WOOTING_TWO_PRODUCT_ID,
                usage_page: if usage_pages_available {
                    ANALOG_USAGE_PAGE
                } else {
                    0
                },
                interface_number: ANALOG_INTERFACE_NUMBER,
            },
            gain: Gain::HighTravel,
        }
    }

    /// The signature that finds this family's analog interface.
    pub fn device_hardware_id(&self) -> (signature: HardwareSignature)
        ensures
            signature == self.signature,
    {
        self.signature
    }

    /// Whether `descriptor` is the analog interface of this family: vendor
    /// and product id agree, and so does the usage page where both sides
    /// report one, else the interface number.
    pub open spec fn matches_spec(self, descriptor: RawDescriptor) -> bool {
        &&& descriptor.product_id == self.signature.product_id
        &&& descriptor.vendor_id == self.signature.vendor_id
        &&& if descriptor.usage_page != 0 && self.signature.usage_page != 0 {
            descriptor.usage_page == self.signature.usage_page
        } else {
            descriptor.interface_number == self.signature.interface_number
        }
    }

    /// Tests a descriptor against this profile.
    pub fn matches(&self, descriptor: &RawDescriptor) -> (hit: bool)
        ensures
            hit == self.matches_spec(*descriptor),
    {
        descriptor.product_id == self.signature.product_id && descriptor.vendor_id
            == self.signature.vendor_id && if descriptor.usage_page != 0
            && self.signature.usage_page != 0 {
            descriptor.usage_page == self.signature.usage_page
        } else {
            descriptor.interface_number == self.signature.interface_number
        }
    }

    /// The intensity this family assigns to a raw travel byte.
    pub fn analog_value(&self, raw: u8) -> (units: u16)
        ensures
            units == scale_spec(self.gain, raw),
    {
        scale(self.gain, raw)
    }
}

/// The families this library knows, in the order in which a descriptor is
/// tested against them.
pub open spec fn known_profiles_spec(usage_pages_available: bool) -> Seq<DecodingProfile> {
    seq![wooting_one_spec(usage_pages_available), wooting_two_spec(usage_pages_available)]
}

/// Builds the list of known families.
pub fn known_profiles(usage_pages_available: bool) -> (profiles: Vec<DecodingProfile>)
    ensures
        profiles@ == known_profiles_spec(usage_pages_available),
{
    let mut profiles: Vec<DecodingProfile> = Vec::new();
    profiles.push(DecodingProfile::wooting_one(usage_pages_available));
    profiles.push(DecodingProfile::wooting_two(usage_pages_available));
    profiles
}

/// No descriptor is claimed by two known families.
pub proof fn lemma_known_profiles_exclusive(usage_pages_available: bool, descriptor: RawDescriptor)
    ensures
        !(wooting_one_spec(usage_pages_available).matches_spec(descriptor) && wooting_two_spec(
            usage_pages_available,
        ).matches_spec(descriptor)),
{
}

/// What `wooting_analog_plugin_dev::generate_device_id` returns for a
/// serial string, a vendor id and a product id: a hash of the three, of
/// which nothing more is claimed here.
pub uninterp spec fn device_id_hash(serial_number: Seq<char>, vendor_id: u16, product_id: u16) -> u64;

/// The serial string that stands in where the hardware reports none.
pub open spec fn serial_or_sentinel(descriptor: RawDescriptor) -> Seq<char> {
    match descriptor.serial_number {
        Some(serial) => serial@,
        None => "NO SERIAL"@,
    }
}

/// The stable identity of the physical unit behind a descriptor.
pub open spec fn identity_spec(descriptor: RawDescriptor) -> u64 {
    device_id_hash(serial_or_sentinel(descriptor), descriptor.vendor_id, descriptor.product_id)
}

/// Calls `wooting_analog_plugin_dev::generate_device_id`. That function
/// feeds the two ids and the serial's bytes to a hasher made by
/// `DefaultHasher::new()`, which carries no seed, and returns what `finish`
/// gives: the result depends on the three arguments alone. The contract
/// gives that result its name and claims nothing else of it. In particular
/// the hash may be zero, and two units may share it.
#[verifier::external_body]
fn generate_device_id(serial_number: &str, vendor_id: u16, product_id: u16) -> (id: u64)
    ensures
        id == device_id_hash(serial_number@, vendor_id, product_id),
{
    wooting_analog_plugin_dev::generate_device_id(serial_number, vendor_id, product_id)
}

/// Fingerprints a descriptor. Never fails: a missing serial is replaced by
/// a fixed sentinel, so all units of one model without a serial share an
/// identity.
pub fn identity_of(descriptor: &RawDescriptor) -> (id: u64)
    ensures
        id == identity_spec(*descriptor),
{
    match &descriptor.serial_number {
        Some(serial) => generate_device_id(
            serial.as_str(),
            descriptor.vendor_id,
            descriptor.product_id,
        ),
        None => generate_device_id("NO SERIAL", descriptor.vendor_id, descriptor.product_id),
    }
}

/// Descriptors that agree on serial, vendor and product have one identity,
/// whatever their interface, usage page or display strings.
pub proof fn lemma_identity_ignores_interface(a: RawDescriptor, b: RawDescriptor)
    requires
        serial_or_sentinel(a) == serial_or_sentinel(b),
        a.vendor_id == b.vendor_id,
        a.product_id == b.product_id,
    ensures
        identity_spec(a) == identity_spec(b),
{
}

} // verus!
