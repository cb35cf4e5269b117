//! Device-facing data types handed to scripts.
//!
//! The hardware bindings themselves live outside the engine; these are
//! the plain records and codes that cross that interface.

use vstd::prelude::*;

verus! {

/// A device, as scripts see it.
#[derive(Debug, Clone)]
pub struct UsbDeviceInfo {
    pub bus_number: u8,
    pub address: u8,
    pub vendor_id: u16,
    pub product_id: u16,
    pub class_code: u8,
    pub subclass_code: u8,
    pub protocol_code: u8,
    pub manufacturer: Option<String>,
    pub product: Option<String>,
    pub serial_number: Option<String>,
    pub speed: String,
    pub num_configurations: u8,
}

/// A device configuration.
#[derive(Debug, Clone)]
pub struct UsbConfigInfo {
    pub number: u8,
    pub num_interfaces: u8,
    pub max_power_ma: u16,
    pub self_powered: bool,
    pub remote_wakeup: bool,
    pub description: Option<String>,
}

/// An interface of a configuration.
#[derive(Debug, Clone)]
pub struct UsbInterfaceInfo {
    pub number: u8,
    pub class_code: u8,
    pub subclass_code: u8,
    pub protocol_code: u8,
    pub num_endpoints: u8,
    pub description: Option<String>,
    pub alternate_settings: Vec<UsbAltSettingInfo>,
}

/// An alternate setting of an interface.
#[derive(Debug, Clone)]
pub struct UsbAltSettingInfo {
    pub number: u8,
    pub class_code: u8,
    pub subclass_code: u8,
    pub protocol_code: u8,
    pub num_endpoints: u8,
    pub endpoints: Vec<UsbEndpointInfo>,
}

/// An endpoint of an alternate setting.
#[derive(Debug, Clone)]
pub struct UsbEndpointInfo {
    pub address: u8,
    pub number: u8,
    pub direction: String,
    pub transfer_type: String,
    pub sync_type: String,
    pub usage_type: String,
    pub max_packet_size: u16,
    pub interval: u8,
}

/// Direction of a transfer.
#[derive(Debug, Clone, Copy, PartialEq, Eq, Structural)]
pub enum UsbDirection {
    In,
    Out,
}

impl UsbDirection {
    /// The name scripts use for this direction.
    pub fn as_str(&self) -> (r: &'static str)
        ensures
            *self == UsbDirection::In ==> r@ == "in"@,
            *self == UsbDirection::Out ==> r@ == "out"@,
    {
        match self {
            UsbDirection::In => "in",
            UsbDirection::Out => "out",
        }
    }
}

/// Kind of a transfer.
#[derive(Debug, Clone, Copy, PartialEq, Eq, Structural)]
pub enum UsbTransferType {
    Control,
    Isochronous,
    Bulk,
    Interrupt,
}

impl UsbTransferType {
    /// The name scripts use for this kind.
    pub fn as_str(&self) -> (r: &'static str)
        ensures
            *self == UsbTransferType::Control ==> r@ == "control"@,
            *self == UsbTransferType::Isochronous ==> r@ == "isochronous"@,
            *self == UsbTransferType::Bulk ==> r@ == "bulk"@,
            *self == UsbTransferType::Interrupt ==> r@ == "interrupt"@,
    {
        match self {
            UsbTransferType::Control => "control",
            UsbTransferType::Isochronous => "isochronous",
            UsbTransferType::Bulk => "bulk",
            UsbTransferType::Interrupt => "interrupt",
        }
    }
}

/// A control request's type fields.
#[derive(Debug, Clone, Copy, PartialEq, Eq, Structural)]
pub struct UsbRequestType {
    pub direction: UsbDirection,
    /// 0 standard, 1 class, 2 vendor.
    pub request_type: u8,
    /// 0 device, 1 interface, 2 endpoint, 3 other.
    pub recipient: u8,
}

impl UsbRequestType {
    /// The `bmRequestType` byte: direction in bit 7, type in bits 5 and
    /// 6, recipient in the low five bits.
    pub fn to_byte(&self) -> (r: u8)
        ensures
            r == ((if self.direction == UsbDirection::In {
                0x80u8
            } else {
                0x00u8
            }) | ((self.request_type & 0x03) << 5u8) | (self.recipient & 0x1f)),
    {
        let dir: u8 = match self.direction {
            UsbDirection::In => 0x80,
            UsbDirection::Out => 0x00,
        };
        dir | ((self.request_type & 0x03) << 5u8) | (self.recipient & 0x1f)
    }
}

/// Why a device operation failed.
#[derive(Debug, Clone)]
pub enum UsbError {
    Io(String),
    InvalidParam(String),
    Access(String),
    NoDevice,
    NotFound,
    Busy,
    Timeout,
    Overflow,
    Pipe,
    Interrupted,
    NoMem,
    NotSupported,
    BadDescriptor,
    Other(String),
}

impl UsbError {
    /// A short description of the failure.
    pub fn message(&self) -> (r: &'static str)
        ensures
            *self matches UsbError::NoDevice ==> r@ == "No such device"@,
            *self matches UsbError::NotFound ==> r@ == "Entity not found"@,
            *self matches UsbError::Timeout ==> r@ == "Operation timed out"@,
    {
        match self {
            UsbError::Io(_) => "IO error",
            UsbError::InvalidParam(_) => "Invalid parameter",
            UsbError::Access(_) => "Access denied",
            UsbError::NoDevice => "No such device",
            UsbError::NotFound => "Entity not found",
            UsbError::Busy => "Resource busy",
            UsbError::Timeout => "Operation timed out",
            UsbError::Overflow => "Overflow",
            UsbError::Pipe => "Pipe error",
            UsbError::Interrupted => "Interrupted",
            UsbError::NoMem => "Insufficient memory",
            UsbError::NotSupported => "Operation not supported",
            UsbError::BadDescriptor => "Bad descriptor",
            UsbError::Other(_) => "USB error",
        }
    }
}

} // verus!
