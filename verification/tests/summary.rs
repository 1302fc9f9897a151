use wmde_settings::hardware::summary::{
    cpu, display_server, max_freq_khz, os_field, parse_cpu_list, parse_cpuinfo, parse_meminfo,
    present_cpus, topology,
};
use wmde_settings::hardware::util::{parse_env_file, Attr};
use wmde_settings::hardware::{Cpu, DisplayServer, Summary, Value};

#[test]
fn cpu_range_lists_expand() {
    assert_eq!(parse_cpu_list("0-31").len(), 32);
    assert_eq!(parse_cpu_list("0-31")[31], 31);
    assert_eq!(parse_cpu_list("0-3,8-11"), vec![0, 1, 2, 3, 8, 9, 10, 11]);
    assert_eq!(parse_cpu_list("5"), vec![5]);
    assert_eq!(parse_cpu_list("0,2-2,4"), vec![0, 2, 4]);
}

#[test]
fn cpu_range_lists_survive_junk() {
    assert!(parse_cpu_list("").is_empty());
    assert!(parse_cpu_list("garbage").is_empty());
    assert!(parse_cpu_list("9-2").is_empty());
    assert!(parse_cpu_list("0-999999").is_empty());
    assert_eq!(parse_cpu_list("0-1,,x,7"), vec![0, 1, 7]);
}

#[test]
fn meminfo_values_are_kib() {
    let fixture = "MemTotal:       131643804 kB\n\
                   MemFree:         2000000 kB\n\
                   SwapTotal:      33554428 kB\n\
                   HugePages_Total:       0\n";
    let (mem, swap) = parse_meminfo(fixture);
    assert_eq!(mem, Some(131_643_804 * 1024));
    assert_eq!(swap, Some(33_554_428 * 1024));
}

#[test]
fn meminfo_tolerates_missing_swap() {
    let (mem, swap) = parse_meminfo("MemTotal:  1024 kB\n");
    assert_eq!(mem, Some(1_048_576));
    assert_eq!(swap, None);
    assert_eq!(parse_meminfo("nonsense\n"), (None, None));
}

#[test]
fn meminfo_without_a_unit_is_bytes_and_saturates() {
    assert_eq!(parse_meminfo("SwapTotal: 4096\n"), (None, Some(4096)));
    assert_eq!(
        parse_meminfo("MemTotal: 18446744073709551615 kB\n"),
        (Some(u64::MAX), None)
    );
}

#[test]
fn cpuinfo_keeps_the_first_block_and_counts_threads() {
    let fixture = "processor\t: 0\n\
                   vendor_id\t: GenuineIntel\n\
                   model\t\t: 183\n\
                   model name\t: Intel(R) Core(TM) i9-14900KF\n\
                   microcode\t: 0x133\n\
                   cpu cores\t: 24\n\
                   \n\
                   processor\t: 1\n\
                   vendor_id\t: GenuineIntel\n\
                   model name\t: Intel(R) Core(TM) i9-14900KF\n";
    let parsed = parse_cpuinfo(fixture);
    assert_eq!(parsed.threads, 2);
    assert_eq!(
        parsed.model.as_deref(),
        Some("Intel(R) Core(TM) i9-14900KF")
    );
    assert_eq!(parsed.vendor.as_deref(), Some("GenuineIntel"));
}

#[test]
fn cpuinfo_on_a_machine_without_the_x86_keys() {
    let fixture = "processor\t: 0\nBogoMIPS\t: 50.00\n\nprocessor\t: 1\n";
    let parsed = parse_cpuinfo(fixture);
    assert_eq!(parsed.threads, 2);
    assert_eq!(parsed.model, None);
    assert_eq!(parsed.vendor, None);
}

#[test]
fn os_release_lookup_prefers_pretty_name() {
    let pairs = parse_env_file("NAME=\"Arch Linux\"\nPRETTY_NAME=\"Arch Linux\"\nID=arch\n");
    assert_eq!(
        Value::first_known(vec![
            os_field(&pairs, "PRETTY_NAME"),
            os_field(&pairs, "NAME"),
            os_field(&pairs, "ID"),
        ]),
        Value::Known("Arch Linux".into())
    );
    let sparse = parse_env_file("ID=wmde\n");
    assert_eq!(
        Value::first_known(vec![
            os_field(&sparse, "PRETTY_NAME"),
            os_field(&sparse, "NAME"),
            os_field(&sparse, "ID"),
        ]),
        Value::Known("wmde".into())
    );
    assert_eq!(os_field(&sparse, "BUILD_ID"), Value::Unavailable);
}

#[test]
fn first_known_falls_back_to_requires_root() {
    assert_eq!(
        Value::first_known(vec![Value::RequiresRoot, Value::Unavailable]),
        Value::RequiresRoot
    );
    assert_eq!(
        Value::first_known(vec![Value::Unavailable, Value::Unavailable]),
        Value::Unavailable
    );
    assert_eq!(
        Value::first_known(vec![Value::RequiresRoot, Value::Known("x".into())]),
        Value::Known("x".into())
    );
    assert_eq!(Value::first_known(Vec::new()), Value::Unavailable);
}

#[test]
fn present_cpus_come_from_the_list_or_the_directory_names() {
    let names = vec!["cpu0".to_string(), "cpufreq".to_string(), "cpu2".to_string()];
    assert_eq!(present_cpus(&Attr::Text("0-3\n".into()), &names), vec![0, 1, 2, 3]);
    assert_eq!(present_cpus(&Attr::Missing, &names), vec![0, 2]);
}

#[test]
fn topology_counts_distinct_cores_and_packages() {
    let t = vec![
        (Some(0), Some(0)),
        (Some(0), Some(0)),
        (Some(0), Some(1)),
        (Some(1), Some(0)),
        (None, Some(5)),
    ];
    assert_eq!(topology(&t), (Some(3), Some(2)));
    assert_eq!(topology(&Vec::new()), (None, None));
}

#[test]
fn max_frequency_prefers_cpu0_and_falls_back_in_order() {
    let others = vec![Attr::Missing, Attr::Text("4800000\n".into()), Attr::Text("1\n".into())];
    assert_eq!(max_freq_khz(&Attr::Text("5200000\n".into()), &others), Some(5_200_000));
    assert_eq!(max_freq_khz(&Attr::Denied, &others), Some(4_800_000));
    assert_eq!(max_freq_khz(&Attr::Missing, &Vec::new()), None);
}

#[test]
fn the_session_type_wins_over_the_display_variables() {
    assert_eq!(display_server(Some("wayland"), false, true), DisplayServer::Wayland);
    assert_eq!(display_server(Some("X11"), true, false), DisplayServer::X11);
    assert_eq!(display_server(Some("tty"), true, true), DisplayServer::Tty);
    assert_eq!(display_server(Some("unspecified"), true, true), DisplayServer::Wayland);
    assert_eq!(display_server(None, false, true), DisplayServer::X11);
    assert_eq!(display_server(None, false, false), DisplayServer::Unknown);
}

#[test]
fn cpu_facts_combine_cpuinfo_and_topology() {
    let c = cpu(
        Some("processor\t: 0\nmodel name\t: Zen\n\nprocessor\t: 1\n"),
        &vec![(Some(0), Some(0)), (Some(0), Some(0))],
        Some(3_000_000),
    );
    assert_eq!(c.model, Value::Known("Zen".into()));
    assert_eq!(c.vendor, Value::Unavailable);
    assert_eq!(c.logical_threads, Some(2));
    assert_eq!(c.physical_cores, Some(1));
    assert_eq!(c.sockets, Some(1));
    assert_eq!(c.max_freq_khz, Some(3_000_000));
    let none = cpu(None, &Vec::new(), None);
    assert_eq!(none.logical_threads, None);
    assert_eq!(none.model, Value::Unavailable);
}

fn summary(vendor: Value, model: Value, board: Value) -> Summary {
    Summary {
        vendor,
        model,
        board,
        os_name: Value::Unavailable,
        os_build: Value::Unavailable,
        kernel: Value::Unavailable,
        architecture: Value::Unavailable,
        hostname: Value::Unavailable,
        uptime_secs: None,
        cpu: Cpu {
            model: Value::Unavailable,
            vendor: Value::Unavailable,
            physical_cores: None,
            logical_threads: None,
            sockets: None,
            max_freq_khz: None,
        },
        mem_total_bytes: None,
        swap_total_bytes: None,
        gpu_names: Vec::new(),
        disk_total_bytes: 0,
        disk_count: 0,
        desktop: Value::Unavailable,
        desktop_version: String::new(),
        display_server: DisplayServer::Unknown,
    }
}

#[test]
fn the_machine_name_drops_a_vendor_the_model_already_names() {
    let s = summary(
        Value::Known("ASUSTeK COMPUTER INC.".into()),
        Value::Unavailable,
        Value::Known("ASUS TUF GAMING Z790-PRO".into()),
    );
    // The board name does not start with "asustek", so the vendor stays.
    assert_eq!(
        s.machine().as_deref(),
        Some("ASUSTeK COMPUTER INC. ASUS TUF GAMING Z790-PRO")
    );
    let s = summary(
        Value::Known("LENOVO".into()),
        Value::Known("Lenovo ThinkPad X1".into()),
        Value::Unavailable,
    );
    assert_eq!(s.machine().as_deref(), Some("Lenovo ThinkPad X1"));
    let s = summary(Value::Unavailable, Value::Unavailable, Value::RequiresRoot);
    assert_eq!(s.machine(), None);
    let s = summary(Value::Known("Dell Inc.".into()), Value::Unavailable, Value::Unavailable);
    assert_eq!(s.machine().as_deref(), Some("Dell Inc."));
}

#[test]
fn the_machine_name_keeps_a_vendor_named_only_inside_the_model() {
    let s = summary(
        Value::Known("HP".into()),
        Value::Known("Chromebook HP 14".into()),
        Value::Unavailable,
    );
    assert_eq!(s.machine().as_deref(), Some("HP Chromebook HP 14"));
    let s = summary(
        Value::Known("HP".into()),
        Value::Known("HP EliteBook 840".into()),
        Value::Unavailable,
    );
    assert_eq!(s.machine().as_deref(), Some("HP EliteBook 840"));
}
