use zero_kernel::arch::x86_64::pcie::PciDevice;
use zero_kernel::drivers::nvme_probe::{is_nvme, ControllerList, MAX_CONTROLLERS};

fn dev(class: u8, sub: u8) -> PciDevice {
    PciDevice {
        bus: 0,
        device: 0,
        function: 0,
        vendor_id: 0xABCD,
        device_id: 0x0001,
        class_code: class,
        subclass: sub,
        prog_if: 0x02,
        header_type: 0,
    }
}

#[test]
fn is_nvme_matches_spec_triple() {
    assert!(is_nvme(&dev(0x01, 0x08)));
}

#[test]
fn is_nvme_rejects_other_storage() {
    // SATA: subclass 0x06.
    assert!(!is_nvme(&dev(0x01, 0x06)));
    // SCSI: subclass 0x00.
    assert!(!is_nvme(&dev(0x01, 0x00)));
    // Network controller (class 0x02).
    assert!(!is_nvme(&dev(0x02, 0x08)));
}

#[test]
fn controller_list_bounded_and_iterable() {
    let mut list = ControllerList::new();
    list.push(dev(0x01, 0x08));
    list.push(dev(0x01, 0x08));
    assert_eq!(list.len(), 2);
    assert!(list.get(0).is_some());
    assert!(list.get(2).is_none());
    // Push past cap silently drops.
    for _ in 0..MAX_CONTROLLERS {
        list.push(dev(0x01, 0x08));
    }
    assert_eq!(list.len(), MAX_CONTROLLERS);
}
