use display_link::locate::{
    discovery_action, prompt_answer, select_endpoint, DiscoveryAction, DiscoveryError, Endpoint,
    PromptAnswer, PREFERRED_VENDOR,
};

fn ep(name: &str, usb_vendor: Option<u16>) -> Endpoint {
    Endpoint { name: String::from(name), usb_vendor }
}

#[test]
fn preferred_vendor_wins_over_first_enumerated() {
    let eps = vec![
        ep("/dev/ttyUSB0", Some(0x1a86)),
        ep("/dev/ttyUSB1", Some(PREFERRED_VENDOR)),
        ep("/dev/ttyUSB2", Some(0x10c4)),
    ];
    assert_eq!(select_endpoint(&eps), Some(String::from("/dev/ttyUSB1")));
}

#[test]
fn first_usb_endpoint_without_preferred_vendor() {
    let eps = vec![ep("/dev/ttyS0", None), ep("/dev/ttyACM0", Some(0x2341)), ep("/dev/ttyACM1", Some(0x2341))];
    assert_eq!(select_endpoint(&eps), Some(String::from("/dev/ttyACM0")));
}

#[test]
fn no_usb_endpoint_selects_nothing() {
    assert_eq!(select_endpoint(&vec![ep("/dev/ttyS0", None)]), None);
    assert_eq!(select_endpoint(&vec![]), None);
}

#[test]
fn enumeration_error_retries() {
    assert!(matches!(discovery_action(&Err(DiscoveryError)), DiscoveryAction::RetryLater));
}

#[test]
fn empty_enumeration_prompts() {
    assert!(matches!(discovery_action(&Ok(vec![])), DiscoveryAction::Prompt));
}

#[test]
fn discovery_uses_selected_endpoint() {
    let listing = Ok(vec![ep("COM3", Some(0x0001)), ep("COM4", Some(PREFERRED_VENDOR))]);
    match discovery_action(&listing) {
        DiscoveryAction::Use(name) => assert_eq!(name, "COM4"),
        _ => panic!("expected a device"),
    }
}

#[test]
fn empty_answer_aborts() {
    assert!(matches!(prompt_answer(""), PromptAnswer::Abort));
    assert!(matches!(prompt_answer("\n"), PromptAnswer::Abort));
    assert!(matches!(prompt_answer("\r\n"), PromptAnswer::Abort));
}

#[test]
fn answer_names_device_without_line_end() {
    match prompt_answer("COM7\r\n") {
        PromptAnswer::Device(d) => assert_eq!(d, "COM7"),
        PromptAnswer::Abort => panic!("expected a device"),
    }
    match prompt_answer("/dev/ttyUSB0") {
        PromptAnswer::Device(d) => assert_eq!(d, "/dev/ttyUSB0"),
        PromptAnswer::Abort => panic!("expected a device"),
    }
}
