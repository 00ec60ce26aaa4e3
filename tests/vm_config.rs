use mullvad_masque_proxy::vm_config::{get_vm_config, Config, VmConfig, VmType};

fn config() -> Config {
    Config {
        vms: vec![
            ("debian".to_string(), VmConfig { vm_type: VmType::Qemu, image_path: "debian.qcow2".to_string() }),
            ("macos".to_string(), VmConfig { vm_type: VmType::Tart, image_path: "macos".to_string() }),
        ],
    }
}

#[test]
fn vm_config_found() {
    let config = config();
    let vm = get_vm_config(&config, "macos").unwrap();
    assert_eq!(vm.vm_type, VmType::Tart);
    assert_eq!(vm.image_path, "macos");
}

#[test]
fn vm_config_missing() {
    let config = config();
    let err = get_vm_config(&config, "windows").unwrap_err();
    assert_eq!(err.name, "windows");
    assert_eq!(err.message(), "Could not find config: windows");
}
