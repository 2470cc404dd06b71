use lumen::text::{ends_with, starts_with};
use lumen::toolkit::{is_cudart, search_places, HomeVar, Place};

fn written(places: &[Place]) -> Vec<String> {
    places
        .iter()
        .map(|p| match p {
            Place::Given => "given".to_string(),
            Place::Below(var, sub) => format!("{}/{sub}", var.name()),
            Place::Common(dir) => dir.clone(),
        })
        .collect()
}

const COMMON: [&str; 6] = [
    "/usr/local/cuda/lib64",
    "/usr/local/cuda/lib/x64",
    "/usr/local/cuda/targets/x86_64-linux/lib",
    "/usr/local/cuda/targets/aarch64-linux/lib",
    "/usr/lib/x86_64-linux-gnu",
    "/usr/lib/aarch64-linux-gnu",
];

#[test]
fn common_locations_are_always_searched() {
    assert_eq!(written(&search_places(false, false, false)), COMMON);
}

#[test]
fn explicit_directories_come_first() {
    let places = search_places(true, true, true);
    let mut expected: Vec<String> = vec!["given".to_string()];
    for var in ["CUDA_HOME", "CUDA_PATH"] {
        for sub in [
            "lib64",
            "lib/x64",
            "lib",
            "lib64/stubs",
            "targets/aarch64-linux/lib",
        ] {
            expected.push(format!("{var}/{sub}"));
        }
    }
    expected.extend(COMMON.iter().map(|d| d.to_string()));
    assert_eq!(written(&places), expected);
    assert_eq!(places[0].source(), "CUDART_LIB_DIR");
    assert_eq!(places[1].source(), "CUDA_HOME");
    assert_eq!(places[6].source(), "CUDA_PATH");
    assert_eq!(places[11].source(), "/usr/local/cuda");
    assert_eq!(HomeVar::CudaPath.name(), "CUDA_PATH");
}

#[test]
fn runtime_libraries_are_recognized() {
    assert!(is_cudart("libcudart.so"));
    assert!(is_cudart("libcudart_static.a"));
    assert!(is_cudart("cudart.lib"));
    assert!(!is_cudart("libcudart.so.12"));
    assert!(!is_cudart("libcuda.so"));
    assert!(!is_cudart("xcudart.lib"));
    assert!(!is_cudart(""));
}

#[test]
fn prefixes_and_suffixes() {
    assert!(starts_with("größe", "grö"));
    assert!(!starts_with("gr", "grö"));
    assert!(ends_with("größe", "öße"));
    assert!(!ends_with("e", "ße"));
    assert!(starts_with("x", ""));
    assert!(ends_with("x", ""));
}
