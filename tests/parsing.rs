use cpu_hotplug::text::{
    control_bytes, is_idle_state_name, parse_counter, parse_cpu_dir_name, parse_decimal, parse_id,
    parse_id_list, parse_online, AttributeRead,
};

#[test]
fn ids_allow_surrounding_whitespace() {
    assert_eq!(parse_id(b"12\n"), Some(12));
    assert_eq!(parse_id(b"  7 \t"), Some(7));
    assert_eq!(parse_id(b"0"), Some(0));
    assert_eq!(parse_id(b""), None);
    assert_eq!(parse_id(b" \n"), None);
    assert_eq!(parse_id(b"1 2"), None);
    assert_eq!(parse_id(b"-1"), None);
    assert_eq!(parse_id(b"x3"), None);
}

#[test]
fn decimals_must_fit_in_64_bits() {
    assert_eq!(parse_decimal(b"18446744073709551615"), Some(u64::MAX));
    assert_eq!(parse_decimal(b"18446744073709551616"), None);
    assert_eq!(parse_decimal(b"99999999999999999999x"), None);
    assert_eq!(parse_decimal(b"12 "), None);
    assert_eq!(parse_counter(b"123456789\n"), Some(123_456_789));
    assert_eq!(parse_counter(b"abc\n"), None);
}

#[test]
fn sibling_lists_split_on_commas() {
    assert_eq!(parse_id_list(b"0,4\n"), vec![0, 4]);
    assert_eq!(parse_id_list(b"3"), vec![3]);
    assert_eq!(parse_id_list(b""), Vec::<usize>::new());
    assert_eq!(parse_id_list(b"0-3\n"), Vec::<usize>::new());
    assert_eq!(parse_id_list(b"1, x ,2,,5"), vec![1, 2, 5]);
}

#[test]
fn online_attribute() {
    assert!(parse_online(&AttributeRead::Missing));
    assert!(!parse_online(&AttributeRead::Unreadable));
    assert!(parse_online(&AttributeRead::Contents(b"1\n".to_vec())));
    assert!(!parse_online(&AttributeRead::Contents(b"0\n".to_vec())));
    assert!(!parse_online(&AttributeRead::Contents(b"11".to_vec())));
    assert!(!parse_online(&AttributeRead::Contents(Vec::new())));
    assert!(parse_online(&AttributeRead::Contents(control_bytes(true))));
    assert!(!parse_online(&AttributeRead::Contents(control_bytes(false))));
    assert_eq!(control_bytes(false), b"0".to_vec());
}

#[test]
fn cpu_directory_names() {
    assert_eq!(parse_cpu_dir_name(b"cpu0"), Some(0));
    assert_eq!(parse_cpu_dir_name(b"cpu12"), Some(12));
    assert_eq!(parse_cpu_dir_name(b"cpu"), None);
    assert_eq!(parse_cpu_dir_name(b"cpufreq"), None);
    assert_eq!(parse_cpu_dir_name(b"cpuidle"), None);
    assert_eq!(parse_cpu_dir_name(b"node0"), None);
}

#[test]
fn idle_state_entries() {
    assert!(is_idle_state_name(b"state0"));
    assert!(is_idle_state_name(b"state12"));
    assert!(!is_idle_state_name(b"stat"));
    assert!(!is_idle_state_name(b"driver"));
}
