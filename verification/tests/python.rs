use lumen::python::{DeviceArg, DeviceError, DeviceType, PyDevice};
use lumen::text::{decimal_string, find_char, parse_decimal, same_text, signed_string};
use lumen::Device;

fn device(spec: &str) -> PyDevice {
    match PyDevice::parse(spec) {
        Ok(d) => d,
        Err(e) => panic!("{}", e.message()),
    }
}

fn refusal(r: Result<PyDevice, DeviceError>) -> String {
    match r {
        Ok(d) => panic!("{} was taken", d.__str__()),
        Err(e) => e.message(),
    }
}

fn text(s: &str) -> DeviceArg {
    DeviceArg::Text(s.to_string())
}

#[test]
fn devices_are_parsed() {
    let d = device("cuda:1");
    assert_eq!(d.kind(), "cuda");
    assert_eq!(d.index(), Some(1));
    assert_eq!(d.__str__(), "cuda:1");
    assert_eq!(d.__repr__(), "device(type='cuda', index=1)");
    let m = device("mps");
    assert_eq!(m.kind(), "mps");
    assert_eq!(m.index(), None);
    assert_eq!(m.__str__(), "mps");
    assert_eq!(m.__repr__(), "device(type='mps')");
    assert_eq!(device("cpu:0").index(), Some(0));
    assert_eq!(device("cuda:007"), device("cuda:7"));
}

#[test]
fn devices_are_read_back_from_their_text() {
    for spec in ["cpu", "cpu:0", "mps", "mps:0", "cuda", "cuda:0", "cuda:12"] {
        let d = device(spec);
        assert_eq!(d.__str__(), spec);
        assert_eq!(device(&d.__str__()), d);
    }
    let last = format!("cuda:{}", i64::MAX);
    assert_eq!(device(&last).__str__(), last);
}

#[test]
fn index_beside_the_type() {
    let d = match PyDevice::new(&text("cuda"), Some(1)) {
        Ok(d) => d,
        Err(e) => panic!("{}", e.message()),
    };
    assert_eq!(d, device("cuda:1"));
    let same = match PyDevice::new(&DeviceArg::Device(d), None) {
        Ok(d) => d,
        Err(e) => panic!("{}", e.message()),
    };
    assert_eq!(same, d);
    assert!(PyDevice::new(&text("cuda:3"), None).is_ok());
}

#[test]
fn unknown_types_are_refused() {
    let e = refusal(PyDevice::parse("tpu"));
    assert_eq!(
        e,
        "Expected one of cpu, mps, cuda device type at start of device string: tpu"
    );
    assert_eq!(
        refusal(PyDevice::parse("tpu:1")),
        "Expected one of cpu, mps, cuda device type at start of device string: tpu"
    );
    assert!(DeviceType::parse("CPU").is_err());
    assert!(DeviceType::parse("").is_err());
}

#[test]
fn invalid_indices_are_refused() {
    for spec in ["cuda:", "cuda:x", "cuda:-1", "cuda:+1", "cuda:1:2", "cuda: 1"] {
        assert_eq!(
            refusal(PyDevice::parse(spec)),
            format!("Invalid device string: '{spec}'")
        );
    }
    // The index is looked at first.
    assert_eq!(
        refusal(PyDevice::parse("tpu:x")),
        "Invalid device string: 'tpu:x'"
    );
    let beyond = "cuda:9223372036854775808";
    assert_eq!(
        refusal(PyDevice::parse(beyond)),
        format!("Invalid device string: '{beyond}'")
    );
}

#[test]
fn negative_indices_are_refused() {
    assert_eq!(
        refusal(PyDevice::checked(DeviceType::Cuda, Some(-1))),
        "Device index must not be negative, got -1"
    );
    assert_eq!(
        refusal(PyDevice::new(&text("cpu"), Some(i64::MIN))),
        "Device index must not be negative, got -9223372036854775808"
    );
}

#[test]
fn single_devices_take_index_zero_only() {
    assert_eq!(
        refusal(PyDevice::parse("cpu:1")),
        "cpu device index must be 0, got 1"
    );
    assert_eq!(
        refusal(PyDevice::new(&text("mps"), Some(2))),
        "mps device index must be 0, got 2"
    );
    assert!(PyDevice::checked(DeviceType::Mps, Some(0)).is_ok());
}

#[test]
fn an_index_is_given_once() {
    assert_eq!(
        refusal(PyDevice::new(&text("cuda:1"), Some(1))),
        "type (string) must not include an index because index was passed explicitly: cuda:1"
    );
    let r = PyDevice::new(&DeviceArg::Device(device("cuda")), Some(1));
    match &r {
        Ok(_) => panic!("a device takes no index"),
        Err(e) => assert!(e.is_type_error()),
    }
    assert_eq!(refusal(r), "device(device) does not take an index");
}

#[test]
fn other_values_are_no_devices() {
    let r = PyDevice::new(&DeviceArg::Other("int".to_string()), None);
    match &r {
        Ok(_) => panic!("an int is no device"),
        Err(e) => assert!(e.is_type_error()),
    }
    assert_eq!(
        refusal(r),
        "device() expects a string or a device, got int"
    );
    match PyDevice::parse("tpu") {
        Ok(_) => panic!("there is no such type"),
        Err(e) => assert!(!e.is_type_error()),
    }
}

#[test]
fn device_text() {
    assert_eq!(Device::Cpu.to_string(), "cpu");
    assert_eq!(Device::Cuda(0).to_string(), "cuda:0");
    assert_eq!(Device::Cuda(120).to_string(), "cuda:120");
}

#[test]
fn numbers_in_decimal() {
    assert_eq!(decimal_string(0), "0");
    assert_eq!(signed_string(-10), "-10");
    assert_eq!(signed_string(10), "10");
    assert_eq!(signed_string(i64::MIN), "-9223372036854775808");
    assert_eq!(decimal_string(1024), "1024");
    assert_eq!(decimal_string(u64::MAX), "18446744073709551615");
    assert_eq!(parse_decimal("18446744073709551615", u64::MAX), Some(u64::MAX));
    assert_eq!(parse_decimal("18446744073709551616", u64::MAX), None);
    assert_eq!(parse_decimal("100", 99), None);
    assert_eq!(parse_decimal("", 99), None);
    assert_eq!(parse_decimal("1x", 99), None);
    assert_eq!(parse_decimal("0042", 99), Some(42));
}

#[test]
fn texts() {
    assert_eq!(find_char("cuda:1:2", ':'), 4);
    assert_eq!(find_char("cuda", ':'), 4);
    assert_eq!(find_char("", ':'), 0);
    assert!(same_text("cuda", "cuda"));
    assert!(!same_text("cuda", "cudb"));
    assert!(!same_text("cuda", "cud"));
}
