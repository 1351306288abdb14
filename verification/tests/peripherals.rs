use timetrackrs::capture::linux::peripherals::{
    parse_handlers, parse_proc_bus_input_devices, InputEvent, PeripheralKind,
};

#[test]
fn parse_proc_info() {
    let string = r#"
I: Bus=0019 Vendor=0000 Product=0001 Version=0000
N: Name="Power Button"
P: Phys=PNP0C0C/button/input0
S: Sysfs=/devices/LNXSYSTM:00/LNXSYBUS:00/PNP0C0C:00/input/input0
U: Uniq=
H: Handlers=kbd event0 
B: PROP=0
B: EV=3
B: KEY=10000000000000 0

I: Bus=0003 Vendor=0627 Product=0001 Version=0001
N: Name="QEMU QEMU USB Tablet"
P: Phys=usb-0000:00:03.0-1/input0
S: Sysfs=/devices/pci0000:00/0000:00:03.0/usb5/5-1/5-1:1.0/0003:0627:0001.0001/input/input1
U: Uniq=28754-0000:00:03.0-1
H: Handlers=mouse0 event1 
B: PROP=0
B: EV=1f
B: KEY=70000 0 0 0 0
B: REL=900
B: ABS=3
B: MSC=10

I: Bus=0003 Vendor=0627 Product=0001 Version=0001
N: Name="QEMU QEMU USB Mouse"
P: Phys=usb-0000:00:03.0-2/input0
S: Sysfs=/devices/pci0000:00/0000:00:03.0/usb5/5-2/5-2:1.0/0003:0627:0001.0002/input/input2
U: Uniq=89126-0000:00:03.0-2
H: Handlers=mouse1 event2 
B: PROP=0
B: EV=17
B: KEY=70000 0 0 0 0
B: REL=903
B: MSC=10

I: Bus=0003 Vendor=0627 Product=0001 Version=0111
N: Name="QEMU QEMU USB Keyboard"
P: Phys=usb-0000:00:03.0-3/input0
S: Sysfs=/devices/pci0000:00/0000:00:03.0/usb5/5-3/5-3:1.0/0003:0627:0001.0003/input/input3
U: Uniq=68284-0000:00:03.0-3
H: Handlers=sysrq kbd event3 leds 
B: PROP=0
B: EV=120013
B: KEY=1000000000007 ff9f207ac14057ff febeffdfffefffff fffffffffffffffe
B: MSC=10
B: LED=1f
"#;

    let devices = parse_proc_bus_input_devices(string).unwrap();

    let expected = ["/dev/input/event1", "/dev/input/event2", "/dev/input/event3"];
    assert_eq!(devices.len(), expected.len());
    for (device, want) in devices.iter().zip(expected.iter()) {
        assert_eq!(device.as_str(), *want);
    }
}

#[test]
fn empty_table_is_refused() {
    assert!(parse_proc_bus_input_devices("").is_err());
    assert!(parse_proc_bus_input_devices("B: EV=17\n").is_err());
}

#[test]
fn handlers_line_names_device() {
    let d = parse_handlers("sysrq kbd event3 leds").unwrap();
    assert_eq!(d.as_str(), "/dev/input/event3");
    assert!(parse_handlers("kbd leds").is_none());
}

#[test]
fn input_events_classify() {
    let key = InputEvent { tv_sec: 0, tv_usec: 0, type_: 1, code: 30, value: 1 };
    assert_eq!(key.classify(), PeripheralKind::Keystroke);
    let left = InputEvent { tv_sec: 0, tv_usec: 0, type_: 1, code: 0x110, value: 1 };
    assert_eq!(left.classify(), PeripheralKind::MouseClick);
    let right = InputEvent { tv_sec: 0, tv_usec: 0, type_: 1, code: 0x111, value: 1 };
    assert_eq!(right.classify(), PeripheralKind::MouseClick);
    let rel = InputEvent { tv_sec: 0, tv_usec: 0, type_: 2, code: 0, value: 1 };
    assert_eq!(rel.classify(), PeripheralKind::Other);
}
