//! Decides whether GPUs on a shared host are free enough to use.
//!
//! `devices` resolves which device ids a run may consider; `availability`
//! classifies each device from its telemetry and reaches a verdict.
pub mod availability;
pub mod devices;
pub mod error;
mod telemetry;

pub use availability::{
    check_all, check_n, classify, cpu_fallback, decide_availability, get_gpu_availability, ids_to_string,
    occupied_ids, status_ids, validate_num_requested, GPUAvailability, GPUStatus,
    DEFAULT_MEMORY_BORDER_MIB, UTILIZATION_CEILING_PERCENT,
};
pub use devices::{
    clamp_to_bounds, device_ids_below, get_all_devices, get_visible_devices, is_cuda_available,
    parse_cuda_visible_devices, parse_cuda_visible_devices_with_device_count, pick_devices,
    resolve_devices, resolve_devices_with_device_count,
};
pub use error::KnockError;
