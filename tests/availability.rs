use knock_on_gpus::{
    check_all, check_n, classify, cpu_fallback, decide_availability, get_gpu_availability, ids_to_string, occupied_ids, status_ids,
    validate_num_requested, GPUAvailability, GPUStatus, KnockError,
};

const MIB: u64 = 1024 * 1024;

fn status(id: u32, vacant: bool) -> GPUStatus {
    if vacant {
        classify(id, 10 * MIB, 0, 0, 300 * MIB)
    } else {
        classify(id, 1000 * MIB, 90, 40, 300 * MIB)
    }
}

fn ids_of(v: &GPUAvailability<Vec<GPUStatus>>) -> (bool, Vec<u32>) {
    match v {
        GPUAvailability::Vacant(s) => (true, s.iter().map(|x| x.id).collect()),
        GPUAvailability::Occupied(s) => (false, s.iter().map(|x| x.id).collect()),
    }
}

#[test]
fn classify_uses_memory_and_utilization() {
    let s = classify(0, 50_000_000, 5, 5, 300 * MIB);
    assert!(s.is_vacant);
    assert_eq!(s.id, 0);
    assert_eq!(s.used_memory, 50_000_000);
    assert!(!classify(0, 50_000_000, 25, 5, 300 * MIB).is_vacant);
    assert!(!classify(0, 0, 25, 5, 300 * MIB).is_vacant);
    assert!(!classify(0, 50_000_000, 5, 20, 300 * MIB).is_vacant);
    assert!(classify(0, 50_000_000, 19, 19, 300 * MIB).is_vacant);
}

#[test]
fn classify_memory_border_is_exclusive() {
    assert!(!classify(1, 300 * MIB, 0, 0, 300 * MIB).is_vacant);
    assert!(classify(1, 300 * MIB - 1, 0, 0, 300 * MIB).is_vacant);
}

#[test]
fn check_n_selects_first_vacant() {
    let statuses = vec![status(0, false), status(1, true), status(2, false), status(3, true)];
    assert_eq!(ids_of(&check_n(statuses.clone(), 2)), (true, vec![1, 3]));
    assert_eq!(ids_of(&check_n(statuses.clone(), 1)), (true, vec![1]));
    assert_eq!(ids_of(&check_n(statuses, 3)), (false, vec![0, 1, 2, 3]));
}

#[test]
fn check_n_zero_is_vacant() {
    let statuses = vec![status(0, false)];
    assert_eq!(ids_of(&check_n(statuses, 0)), (true, vec![]));
}

#[test]
fn check_all_needs_every_device_vacant() {
    let all = vec![status(0, true), status(1, true), status(2, true)];
    assert_eq!(ids_of(&check_all(all.clone())), (true, vec![0, 1, 2]));
    let mut one_busy = all.clone();
    one_busy[1] = status(1, false);
    assert_eq!(ids_of(&check_all(one_busy.clone())), (false, vec![0, 1, 2]));
    let mut reversed = one_busy.clone();
    reversed.reverse();
    assert_eq!(ids_of(&check_all(reversed.clone())), (false, vec![2, 1, 0]));
    assert_eq!(occupied_ids(&one_busy), vec![1]);
    assert_eq!(occupied_ids(&reversed), vec![1]);
}

#[test]
fn check_all_with_no_devices_is_vacant() {
    assert_eq!(ids_of(&check_all(vec![])), (true, vec![]));
}

#[test]
fn decide_follows_the_policy() {
    let statuses = vec![status(0, false), status(1, true)];
    assert_eq!(ids_of(&decide_availability(statuses.clone(), None)), (false, vec![0, 1]));
    assert_eq!(ids_of(&decide_availability(statuses, Some(1))), (true, vec![1]));
}

#[test]
fn validate_refuses_too_many_requested() {
    assert_eq!(validate_num_requested(2, &vec![0, 1]), Ok(()));
    let e = validate_num_requested(3, &vec![0, 1]).unwrap_err();
    assert_eq!(e, KnockError::TooManyRequested { requested: 3, visible: 2 });
    assert_eq!(
        e.message(),
        "The number of requested GPUs is greater than the number of visible devices.\n\
         Visible devices: 2\nThe number of GPUs you requested: 3"
    );
}

#[test]
fn ids_are_written_comma_separated() {
    assert_eq!(ids_to_string(&vec![]), "");
    assert_eq!(ids_to_string(&vec![7]), "7");
    assert_eq!(ids_to_string(&vec![0, 12, 305]), "0,12,305");
    let statuses = vec![status(4, true), status(9, false)];
    assert_eq!(status_ids(&statuses), vec![4, 9]);
}

#[test]
fn telemetry_error_messages() {
    assert_eq!(KnockError::TelemetryQuery(3).message(), "Failed to get device by index 3");
    assert_eq!(
        KnockError::TelemetrySource.message(),
        "Failed to initialize NVML. Probably no NVIDIA GPU is installed."
    );
}

#[test]
fn no_devices_is_vacant_without_telemetry() {
    assert_eq!(ids_of(&get_gpu_availability(&vec![], 300 * MIB, None).unwrap()), (true, vec![]));
    assert_eq!(ids_of(&get_gpu_availability(&vec![], 300 * MIB, Some(0)).unwrap()), (true, vec![]));
}

#[test]
fn too_many_requested_is_refused_first() {
    let e = get_gpu_availability(&vec![0, 1], 300 * MIB, Some(3)).unwrap_err();
    assert_eq!(e, KnockError::TooManyRequested { requested: 3, visible: 2 });
    let e = get_gpu_availability(&vec![], 300 * MIB, Some(1)).unwrap_err();
    assert_eq!(e, KnockError::TooManyRequested { requested: 1, visible: 0 });
}

#[test]
fn cpu_fallback_unless_gpu_required() {
    assert_eq!(ids_of(&cpu_fallback(false).unwrap()), (true, vec![]));
    let e = cpu_fallback(true).unwrap_err();
    assert_eq!(e, KnockError::GpuRequired);
    assert_eq!(
        e.message(),
        "CUDA is not available, but you are trying to use GPU strictly."
    );
}

#[test]
fn check_n_prefers_lower_ids() {
    let statuses = vec![status(2, true), status(5, true), status(7, false), status(9, true)];
    assert_eq!(ids_of(&check_n(statuses, 2)), (true, vec![2, 5]));
}

#[test]
fn decimal_text_of_large_numbers() {
    assert_eq!(KnockError::TelemetryQuery(0).message(), "Failed to get device by index 0");
    assert_eq!(
        KnockError::TelemetryQuery(4294967295).message(),
        "Failed to get device by index 4294967295"
    );
    assert_eq!(KnockError::DeviceOutOfRange(10).message(), "Device number 10 is out of range");
}
