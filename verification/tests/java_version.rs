use mcgit::java::{
    adoptium_arch, adoptium_os, archive_path, available_releases_url, display_vendor,
    extract_quoted, first_asset, is_java_binary, java_candidates, java_exe_name,
    latest_asset_url, major_from_version_string, parse_java_version, vendor_from_line,
    verify_checksum, version_dir, AssetBinary, AssetPackage, AssetVersion, JavaAsset, JavaError,
};

#[test]
fn parses_temurin_21() {
    let output = "openjdk version \"21.0.4\" 2024-07-16\n\
                   OpenJDK Runtime Environment Temurin-21.0.4+7 (build 21.0.4+7)\n\
                   OpenJDK 64-Bit Server VM Temurin-21.0.4+7 (build 21.0.4+7, mixed mode, sharing)\n";

    let (major, vendor) = parse_java_version(output).unwrap();
    assert_eq!(major, 21);
    assert_eq!(vendor, "Eclipse Temurin");
}

#[test]
fn parses_temurin_8_old_version_scheme() {
    let output = "openjdk version \"1.8.0_412\"\n\
                   OpenJDK Runtime Environment Temurin-8.0.412+8 (build 1.8.0_412-b08)\n\
                   OpenJDK 64-Bit Server VM Temurin-8.0.412+8 (build 25.412-b08, mixed mode)\n";

    let (major, vendor) = parse_java_version(output).unwrap();
    assert_eq!(major, 8);
    assert_eq!(vendor, "Eclipse Temurin");
}

#[test]
fn parses_oracle_jdk() {
    let output = "java version \"17.0.9\" 2023-10-17 LTS\n\
                   Java(TM) SE Runtime Environment (build 17.0.9+11-LTS-201)\n\
                   Java HotSpot(TM) 64-Bit Server VM (build 17.0.9+11-LTS-201, mixed mode, sharing)\n";

    let (major, vendor) = parse_java_version(output).unwrap();
    assert_eq!(major, 17);
    assert_eq!(vendor, "Oracle");
}

#[test]
fn parses_generic_openjdk_debian_build() {
    let output = "openjdk version \"17.0.9\" 2023-10-17\n\
                   OpenJDK Runtime Environment (build 17.0.9+9-Debian-1)\n\
                   OpenJDK 64-Bit Server VM (build 17.0.9+9-Debian-1, mixed mode, sharing)\n";

    let (major, vendor) = parse_java_version(output).unwrap();
    assert_eq!(major, 17);
    assert_eq!(vendor, "OpenJDK");
}

#[test]
fn parses_amazon_corretto() {
    let output = "openjdk version \"21.0.4\" 2024-07-16 LTS\n\
                   OpenJDK Runtime Environment Corretto-21.0.4.7.1 (build 21.0.4+7-LTS)\n\
                   OpenJDK 64-Bit Server VM Corretto-21.0.4.7.1 (build 21.0.4+7-LTS, mixed mode, sharing)\n";

    let (major, vendor) = parse_java_version(output).unwrap();
    assert_eq!(major, 21);
    assert_eq!(vendor, "Amazon Corretto");
}

#[test]
fn rejects_garbage_output() {
    let result = parse_java_version("not actually java output\nsecond line\n");
    assert!(result.is_err());
}

#[test]
fn garbage_output_is_reported_whole() {
    let out = "not actually java output\nsecond line\n";
    assert_eq!(
        parse_java_version(out),
        Err(JavaError::UnrecognizedVersionOutput(out.to_string()))
    );
}

#[test]
fn quoted_text_and_major_versions() {
    assert_eq!(extract_quoted("java version \"17.0.9\" x"), Some("17.0.9".to_string()));
    assert_eq!(extract_quoted("no quotes"), None);
    assert_eq!(extract_quoted("one \" only"), None);
    assert_eq!(major_from_version_string("1.8.0_412"), Some(8));
    assert_eq!(major_from_version_string("21.0.4"), Some(21));
    assert_eq!(major_from_version_string("25"), Some(25));
    assert_eq!(major_from_version_string("abc"), None);
}

#[test]
fn vendors_from_runtime_lines() {
    assert_eq!(vendor_from_line("OpenJDK Runtime Environment Zulu17.46+19-CA"), "Azul Zulu");
    assert_eq!(vendor_from_line("OpenJDK Runtime Environment (build 17)"), "OpenJDK");
    assert_eq!(display_vendor("eclipse"), "Eclipse Temurin");
    assert_eq!(display_vendor("azul"), "azul");
}

#[test]
fn checksum_accepts_the_real_digest_in_any_case() {
    // SHA-256 of "hello mcgit".
    let contents = b"hello mcgit";
    let wrong = "0000000000000000000000000000000000000000000000000000000000000";
    match verify_checksum(contents, wrong) {
        Err(JavaError::ChecksumMismatch { expected, actual }) => {
            assert_eq!(expected, wrong);
            assert_eq!(actual.len(), 64);
            assert!(verify_checksum(contents, &actual).is_ok());
            assert!(verify_checksum(contents, &actual.to_uppercase()).is_ok());
        }
        other => panic!("expected a mismatch, got {other:?}"),
    }
}

#[test]
fn checksum_of_empty_input_is_the_known_digest() {
    let empty = "e3b0c44298fc1c149afbf4c8996fb92427ae41e4649b934ca495991b7852b855";
    assert!(verify_checksum(b"", empty).is_ok());
    assert!(verify_checksum(b"x", empty).is_err());
}

#[test]
fn candidates_are_sorted_and_unique() {
    let found = vec![
        "/usr/bin/java".to_string(),
        "/opt/jdk/bin/java".to_string(),
        "/usr/bin/java".to_string(),
    ];
    assert_eq!(
        java_candidates(&found),
        vec!["/opt/jdk/bin/java".to_string(), "/usr/bin/java".to_string()]
    );
}

#[test]
fn adoptium_names_and_addresses() {
    assert_eq!(adoptium_os("macos"), "mac");
    assert_eq!(adoptium_os("linux"), "linux");
    assert_eq!(adoptium_arch("x86_64"), "x64");
    assert_eq!(adoptium_arch("aarch64"), "aarch64");
    assert_eq!(
        available_releases_url(),
        "https://api.adoptium.net/v3/info/available_releases"
    );
    assert_eq!(
        latest_asset_url(21, "macos", "x86_64"),
        "https://api.adoptium.net/v3/assets/latest/21/hotspot?image_type=jdk&os=mac&architecture=x64"
    );
}

fn asset(vendor: &str) -> JavaAsset {
    JavaAsset {
        vendor: vendor.to_string(),
        version: AssetVersion { openjdk_version: "21.0.4+7".to_string() },
        binary: AssetBinary {
            package: AssetPackage {
                name: "OpenJDK21U-jdk_x64_linux_hotspot_21.0.4_7.tar.gz".to_string(),
                link: "https://example.com/jdk.tar.gz".to_string(),
                checksum: "abc123".to_string(),
                size: 207486543,
            },
        },
    }
}

#[test]
fn first_asset_of_a_list() {
    let got = first_asset(vec![asset("eclipse"), asset("other")]).unwrap();
    assert_eq!(got.vendor, "eclipse");
    assert_eq!(
        first_asset(vec![]),
        Err(JavaError::UnrecognizedApiResponse("empty asset list".to_string()))
    );
}

#[test]
fn install_locations() {
    assert_eq!(archive_path("/data/java", "jdk.tar.gz"), "/data/java/downloads/jdk.tar.gz");
    assert_eq!(version_dir("/data/java", 21), "/data/java/21");
    assert_eq!(java_exe_name(""), "java");
    assert_eq!(java_exe_name(".exe"), "java.exe");
    assert!(is_java_binary(Some("java"), Some("bin"), "java"));
    assert!(!is_java_binary(Some("java"), Some("lib"), "java"));
    assert!(!is_java_binary(Some("javac"), Some("bin"), "java"));
    assert!(!is_java_binary(None, Some("bin"), "java"));
}

#[test]
fn candidates_follow_path_order_and_equality() {
    let found = vec![
        "/opt/jdk-17/bin/java".to_string(),
        "/opt/jdk/bin/java".to_string(),
        "/a//b/java".to_string(),
        "/a/b/java".to_string(),
        "/a/./b/java/".to_string(),
    ];
    let mut expected: Vec<std::path::PathBuf> = found.iter().map(std::path::PathBuf::from).collect();
    expected.sort();
    expected.dedup();
    let expected: Vec<String> = expected.iter().map(|p| p.to_string_lossy().to_string()).collect();
    assert_eq!(java_candidates(&found), expected);
    assert_eq!(
        java_candidates(&found),
        vec!["/a//b/java".to_string(), "/opt/jdk/bin/java".to_string(), "/opt/jdk-17/bin/java".to_string()]
    );
}
