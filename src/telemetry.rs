//! The NVML items that the library reads device telemetry through.
use vstd::prelude::*;

verus! {

#[verifier::external_type_specification]
#[verifier::external_body]
pub struct ExNvml(nvml_wrapper::Nvml);

#[verifier::external_type_specification]
#[verifier::external_body]
pub struct ExNvmlError(nvml_wrapper::error::NvmlError);

#[verifier::external_type_specification]
#[verifier::external_body]
pub struct ExDevice<'nvml>(nvml_wrapper::Device<'nvml>);

#[verifier::external_type_specification]
pub struct ExUtilization(nvml_wrapper::struct_wrappers::device::Utilization);

#[verifier::external_type_specification]
pub struct ExMemoryInfo(nvml_wrapper::struct_wrappers::device::MemoryInfo);

/// Relies on `Nvml::init`: loads the driver library; whether it succeeds
/// depends on the machine, so nothing is promised of it.
pub assume_specification[ nvml_wrapper::Nvml::init ]() -> Result<
    nvml_wrapper::Nvml,
    nvml_wrapper::error::NvmlError,
>;

/// Relies on `Nvml::device_count`: the number of devices on the machine.
pub assume_specification[ nvml_wrapper::Nvml::device_count ](
    nvml: &nvml_wrapper::Nvml,
) -> Result<u32, nvml_wrapper::error::NvmlError>;

/// Relies on `Nvml::device_by_index`: a handle on one device, or the driver's error.
pub assume_specification<'nvml>[ nvml_wrapper::Nvml::device_by_index ](
    nvml: &'nvml nvml_wrapper::Nvml,
    index: u32,
) -> Result<nvml_wrapper::Device<'nvml>, nvml_wrapper::error::NvmlError>;

/// Relies on `Device::utilization_rates`: the device's current utilization.
pub assume_specification<'nvml>[ nvml_wrapper::Device::<'nvml>::utilization_rates ](
    device: &nvml_wrapper::Device<'nvml>,
) -> Result<nvml_wrapper::struct_wrappers::device::Utilization, nvml_wrapper::error::NvmlError>;

/// Relies on `Device::memory_info`: the device's current memory figures.
pub assume_specification<'nvml>[ nvml_wrapper::Device::<'nvml>::memory_info ](
    device: &nvml_wrapper::Device<'nvml>,
) -> Result<nvml_wrapper::struct_wrappers::device::MemoryInfo, nvml_wrapper::error::NvmlError>;

} // verus!
