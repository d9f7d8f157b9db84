//! Error and status types mirrored from the device driver's closed code sets.

use vstd::prelude::*;

verus! {

/// The closed set of error kinds reported by the device driver, with
/// `UnknownError` as the catch-all for codes this library does not recognise
/// and `HistogramLengthNotKnown` for a histogram read before its length is set.
#[derive(Clone, Copy, Debug, PartialEq, Eq, Structural)]
pub enum HydraHarpError {
    DeviceFailedToOpen,
    DeviceBusy,
    DeviceHEventFail,
    DeviceCallBSetFail,
    DeviceBarmapFail,
    DeviceFailedToClose,
    DeviceFailedToReset,
    FailedToGetDeviceVersion,
    DeviceVersionMismatch,
    DeviceNotOpen,
    InstanceRunning,
    InvalidArgument,
    InvalidMode,
    InvalidOption,
    InvalidMemory,
    InvalidRData,
    NotInitialized,
    NotCalibrated,
    DMAFail,
    XTDeviceFail,
    FPGAConfFail,
    IFConfFail,
    FIFOResetFail,
    FailedToGetDriverVersion,
    DriverVersionMismatch,
    USBGetIFInfoFail,
    USBHiSpeedFail,
    USBVCMDFail,
    USBBulkRDFail,
    USBResetFail,
    LaneUpTimeout,
    DoneAllTimeout,
    MODACKTimeout,
    MACTIVETimeout,
    MEMClearFail,
    MEMTestFail,
    CALIBFail,
    REFSELFail,
    StatusFail,
    MODNUMFail,
    DIGMUXFail,
    MODMUXFail,
    MODFWPCBMismatch,
    MODFWVERMismatch,
    MODPropertyMismatch,
    InvalidMagic,
    InvalidLength,
    RateFail,
    MODFWVERTooLow,
    MODFWVERTooHigh,
    EEPROMF01,
    EEPROMF02,
    EEPROMF03,
    EEPROMF04,
    EEPROMF05,
    EEPROMF06,
    EEPROMF07,
    EEPROMF08,
    EEPROMF09,
    EEPROMF10,
    EEPROMF11,
    UnknownError,
    HistogramLengthNotKnown,
}

/// Whether an acquisition run is still active on the device.
#[derive(Clone, Copy, Debug, PartialEq, Eq, Structural)]
pub enum CTCStatus {
    Running,
    Ended,
}

} // verus!
