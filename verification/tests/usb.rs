use wmde_settings::hardware::usb::{classify, parent_name, scan, NameKind, UsbEntry};
use wmde_settings::hardware::util::Attr;

#[test]
fn interfaces_are_told_apart_from_devices() {
    assert_eq!(
        classify("1-2:1.0"),
        NameKind::Interface {
            device: "1-2".to_owned()
        }
    );
    assert_eq!(
        classify("1-6.1:1.2"),
        NameKind::Interface {
            device: "1-6.1".to_owned()
        }
    );
    assert_eq!(
        classify("1-0:1.0"),
        NameKind::Interface {
            device: "usb1".to_owned()
        }
    );
    assert_eq!(classify("usb2"), NameKind::RootHub { bus: 2 });
    assert_eq!(
        classify("1-2"),
        NameKind::Device {
            bus: 1,
            ports: vec![2]
        }
    );
    assert_eq!(classify("usbmisc"), NameKind::Unknown);
    assert_eq!(classify("1-a"), NameKind::Unknown);
    assert_eq!(classify("garbage"), NameKind::Unknown);
}

#[test]
fn port_path_gives_depth_and_parent() {
    let depth = |name: &str| match classify(name) {
        NameKind::Device { ports, .. } => ports.len() - 1,
        _ => panic!("not a device"),
    };
    assert_eq!(depth("1-2"), 0);
    assert_eq!(depth("1-6.1"), 1);
    assert_eq!(depth("1-6.1.3"), 2);

    let NameKind::Device { bus, ports } = classify("1-6.1") else {
        panic!("not a device");
    };
    assert_eq!((bus, ports.as_slice()), (1, [6, 1].as_slice()));
    assert_eq!(&ports[..ports.len() - 1], [6]);
}

#[test]
fn tree_order_is_numeric_not_lexicographic() {
    let mut keys: Vec<(u32, Vec<u32>)> = ["1-13", "1-2", "1-6.2", "usb2", "1-6", "1-6.1", "usb1"]
        .iter()
        .map(|name| match classify(name) {
            NameKind::Device { bus, ports } => (bus, ports),
            NameKind::RootHub { bus } => (bus, Vec::new()),
            other => panic!("unexpected {other:?}"),
        })
        .collect();
    keys.sort();
    let ports: Vec<&[u32]> = keys.iter().map(|(_, p)| p.as_slice()).collect();
    assert_eq!(
        keys.iter().map(|(bus, _)| *bus).collect::<Vec<_>>(),
        [1, 1, 1, 1, 1, 1, 2]
    );
    assert_eq!(
        ports,
        [
            [].as_slice(),
            [2].as_slice(),
            [6].as_slice(),
            [6, 1].as_slice(),
            [6, 2].as_slice(),
            [13].as_slice(),
            [].as_slice()
        ]
    );
}

#[test]
fn parent_name_walks_up_the_port_path() {
    assert_eq!(parent_name(1, &[2]), Some("usb1".to_owned()));
    assert_eq!(parent_name(1, &[6, 1]), Some("1-6".to_owned()));
    assert_eq!(parent_name(2, &[8, 3, 4]), Some("2-8.3".to_owned()));
    assert_eq!(parent_name(1, &[]), None);
}

#[test]
fn the_parent_of_a_device_classifies_one_level_up() {
    let parent = parent_name(1, &[6, 1, 3]).unwrap();
    assert_eq!(
        classify(&parent),
        NameKind::Device {
            bus: 1,
            ports: vec![6, 1]
        }
    );
    let root = parent_name(3, &[4]).unwrap();
    assert_eq!(classify(&root), NameKind::RootHub { bus: 3 });
}

fn text(s: &str) -> Attr {
    Attr::Text(s.to_string())
}

fn entry(name: &str) -> UsbEntry {
    UsbEntry {
        name: name.to_string(),
        busnum: Attr::Missing,
        devnum: Attr::Missing,
        id_vendor: Attr::Missing,
        id_product: Attr::Missing,
        manufacturer: Attr::Missing,
        product: Attr::Missing,
        serial: Attr::Missing,
        speed: Attr::Missing,
        version: Attr::Missing,
        device_class: Attr::Missing,
        device_subclass: Attr::Missing,
        device_protocol: Attr::Missing,
        interface_number: Attr::Missing,
        interface_class: Attr::Missing,
        interface_subclass: Attr::Missing,
        interface_protocol: Attr::Missing,
        driver: None,
    }
}

fn interface(name: &str, number: &str, class: &str) -> UsbEntry {
    let mut e = entry(name);
    e.interface_number = text(number);
    e.interface_class = text(class);
    e
}

#[test]
fn scan_orders_the_tree_and_attaches_sorted_interfaces() {
    let mut hub = entry("1-6");
    hub.busnum = text("1\n");
    hub.devnum = text("4\n");
    hub.id_vendor = text("05e3\n");
    hub.id_product = text("0610\n");
    hub.version = text(" 2.00\n");
    hub.device_class = text("09\n");
    let es = vec![
        entry("1-13"),
        interface("1-6:1.1", "01\n", "03\n"),
        hub,
        entry("usb1"),
        interface("1-6:1.0", "00\n", "09\n"),
        entry("1-6.1"),
        entry("usbmisc"),
        interface("1-0:1.0", "00\n", "09\n"),
    ];
    let out = scan(&es);
    let names: Vec<&str> = out.iter().map(|d| d.sysfs_name.as_str()).collect();
    assert_eq!(names, ["usb1", "1-6", "1-6.1", "1-13"]);

    assert_eq!(out[0].parent, None);
    assert_eq!(out[0].depth, 0);
    assert_eq!(out[0].interfaces.len(), 1);

    let hub = &out[1];
    assert_eq!(hub.parent.as_deref(), Some("usb1"));
    assert_eq!((hub.bus, hub.device), (1, 4));
    assert_eq!((hub.vendor_id, hub.product_id), (0x05e3, 0x0610));
    assert_eq!(hub.usb_version.as_deref(), Some("2.00"));
    assert_eq!(hub.class, 9);
    let numbers: Vec<u8> = hub.interfaces.iter().map(|i| i.number).collect();
    assert_eq!(numbers, [0, 1]);
    assert_eq!(hub.interfaces[1].class, 3);

    assert_eq!(out[2].parent.as_deref(), Some("1-6"));
    assert_eq!(out[2].depth, 1);
    // Without `busnum` the bus comes from the name.
    assert_eq!(out[3].bus, 1);
    assert_eq!(out[3].device, 0);
    assert!(out[3].interfaces.is_empty());
}
