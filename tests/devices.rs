use knock_on_gpus::{
    clamp_to_bounds, device_ids_below, parse_cuda_visible_devices_with_device_count, pick_devices,
    resolve_devices_with_device_count, KnockError,
};

#[test]
fn test_parse_cuda_visible_devices() {
    let f = |s, n| parse_cuda_visible_devices_with_device_count(s, n).unwrap();
    assert_eq!(f("0,1,2", 4), vec![0, 1, 2]);
    assert_eq!(f("0,1,2,", 4), vec![0, 1, 2]);
    assert_eq!(f("0,1,2,3", 4), vec![0, 1, 2, 3]);
    assert_eq!(f(",2,3,", 4), vec![2, 3]);
    assert_eq!(f("0", 4), vec![0]);
    assert_eq!(f("0,", 4), vec![0]);
    assert_eq!(f("", 4), Vec::<u32>::new());
    assert_eq!(f("0,1,2,3", 8), vec![0, 1, 2, 3]);
    assert_eq!(f("0,1,2,3,4,5,6,7", 8), vec![0, 1, 2, 3, 4, 5, 6, 7]);
}

#[test]
fn test_parse_cuda_visible_devices_error() {
    let f = &parse_cuda_visible_devices_with_device_count;
    assert!(f("a,", 4).is_err());
    assert!(f("0,a", 4).is_err());
    assert!(f("0,a,", 4).is_err());
    assert!(f("0,x,2,3", 4).is_err());
    assert!(f("0,1,2,3,x", 4).is_err());
    assert!(f("0,1,-1", 4).is_err());
    assert!(f("0,1,2,4", 4).is_err());
    assert!(f("0,1,2,8,", 8).is_err());
}

#[test]
fn test_pick_device() {
    let f = |pick_idx: Vec<u32>, from_devices: Vec<u32>| {
        pick_devices(&pick_idx, &from_devices).unwrap()
    };

    assert_eq!(f(vec![], vec![]), Vec::<u32>::new());
    assert_eq!(f(vec![], vec![0, 1, 2]), Vec::<u32>::new());
    assert_eq!(f(vec![0], vec![0, 1, 2]), vec![0]);
    assert_eq!(f(vec![0, 1], vec![2, 1]), vec![1, 2]);
    assert_eq!(f(vec![0, 1, 2], vec![2, 1, 0]), vec![0, 1, 2]);
    assert_eq!(f(vec![1], vec![5, 6, 7]), vec![6]);

    let f = |pick_idx: Vec<u32>, from_devices: Vec<u32>| {
        pick_devices(&pick_idx, &from_devices).unwrap_err().message()
    };

    assert_eq!(f(vec![0, 1, 2], vec![]), "Index 0 is out of range.");
    assert_eq!(f(vec![0, 1, 2], vec![0]), "Index 1 is out of range.");
    assert_eq!(f(vec![0, 1, 2], vec![0, 1]), "Index 2 is out of range.");
}

#[test]
fn parse_ignores_order_and_repeats() {
    let f = |s| parse_cuda_visible_devices_with_device_count(s, 4).unwrap();
    assert_eq!(f("0,1,2"), f("2,1,0,1"));
    assert_eq!(f("2,1,0,1"), vec![0, 1, 2]);
    assert_eq!(f("3,3,3"), vec![3]);
}

#[test]
fn parse_skips_empty_tokens() {
    let f = |s| parse_cuda_visible_devices_with_device_count(s, 4).unwrap();
    assert_eq!(f("0,1,,2,"), vec![0, 1, 2]);
    assert_eq!(f(",,,"), Vec::<u32>::new());
}

#[test]
fn parse_accepts_plus_sign_and_leading_zeros() {
    let f = |s| parse_cuda_visible_devices_with_device_count(s, 4).unwrap();
    assert_eq!(f("+1,003"), vec![1, 3]);
}

#[test]
fn parse_reports_the_first_rejected_token() {
    let f = |s, n| parse_cuda_visible_devices_with_device_count(s, n).unwrap_err();
    assert_eq!(f("0,a,9", 4), KnockError::InvalidDevice("a".to_string()));
    assert_eq!(f("0,9,a", 4), KnockError::DeviceOutOfRange(9));
    assert_eq!(f("1, 2", 4), KnockError::InvalidDevice(" 2".to_string()));
    assert_eq!(f("0,1,-1", 4), KnockError::InvalidDevice("-1".to_string()));
    assert_eq!(f("+", 4), KnockError::InvalidDevice("+".to_string()));
    assert_eq!(f("4294967296", 4), KnockError::InvalidDevice("4294967296".to_string()));
    assert_eq!(f("4294967295", 4), KnockError::DeviceOutOfRange(4294967295));
    assert_eq!(f("0,1,2,4", 4), KnockError::DeviceOutOfRange(4));
}

#[test]
fn parse_rejects_every_device_with_no_devices() {
    let r = parse_cuda_visible_devices_with_device_count("0", 0);
    assert_eq!(r, Err(KnockError::DeviceOutOfRange(0)));
    assert_eq!(parse_cuda_visible_devices_with_device_count("", 0), Ok(vec![]));
}

#[test]
fn parse_error_messages() {
    let f = |s| parse_cuda_visible_devices_with_device_count(s, 4).unwrap_err().message();
    assert_eq!(f("0,x"), "Invalid device number: x");
    assert_eq!(f("0,17"), "Device number 17 is out of range");
}

#[test]
fn pick_maps_indices_into_visible_devices() {
    assert_eq!(pick_devices(&vec![0, 2], &vec![10, 30, 50]), Ok(vec![10, 50]));
    assert_eq!(
        pick_devices(&vec![3], &vec![10, 30, 50]),
        Err(KnockError::IndexOutOfRange(3))
    );
    assert_eq!(
        pick_devices(&vec![3], &vec![10, 30, 50]).unwrap_err().message(),
        "Index 3 is out of range."
    );
}

#[test]
fn pick_removes_repeated_devices() {
    assert_eq!(pick_devices(&vec![2, 0, 2], &vec![10, 30, 50]), Ok(vec![10, 50]));
}

#[test]
fn clamp_truncates_to_the_lowest_ids() {
    assert_eq!(clamp_to_bounds(vec![0, 1, 2, 3], 0, 2), Ok((vec![0, 1], true)));
    assert_eq!(clamp_to_bounds(vec![3, 2, 1, 0], 0, 2), Ok((vec![0, 1], true)));
    assert_eq!(clamp_to_bounds(vec![5, 7], 1, 2), Ok((vec![5, 7], false)));
    assert_eq!(clamp_to_bounds(vec![], 0, 1024), Ok((vec![], false)));
}

#[test]
fn clamp_refuses_too_few_devices() {
    let e = clamp_to_bounds(vec![0], 2, 1024).unwrap_err();
    assert_eq!(e, KnockError::NotEnoughDevices { available: 1, required: 2 });
    assert_eq!(
        e.message(),
        "You are trying to use 1 GPU(s), but at least 2 GPU(s) are required."
    );
}

#[test]
fn device_ids_below_lists_every_device() {
    assert_eq!(device_ids_below(0), Vec::<u32>::new());
    assert_eq!(device_ids_below(4), vec![0, 1, 2, 3]);
}

#[test]
fn resolve_without_settings_gives_every_device() {
    assert_eq!(resolve_devices_with_device_count(None, None, 3), Ok(vec![0, 1, 2]));
}

#[test]
fn resolve_uses_the_visible_list() {
    assert_eq!(resolve_devices_with_device_count(None, Some("3,1"), 4), Ok(vec![1, 3]));
    assert_eq!(
        resolve_devices_with_device_count(None, Some("1,x"), 4),
        Err(KnockError::InvalidDevice("x".to_string()))
    );
}

#[test]
fn resolve_selection_indexes_into_visible_list() {
    assert_eq!(resolve_devices_with_device_count(Some("0,2"), Some("1,2,3"), 4), Ok(vec![1, 3]));
    assert_eq!(resolve_devices_with_device_count(Some("1"), None, 4), Ok(vec![1]));
    assert_eq!(
        resolve_devices_with_device_count(Some("2"), Some("1,3"), 4),
        Err(KnockError::IndexOutOfRange(2))
    );
    assert_eq!(
        resolve_devices_with_device_count(Some("5"), None, 4),
        Err(KnockError::DeviceOutOfRange(5))
    );
}
