use build_bridge::config::{BuildConfiguration, Profile};
use build_bridge::manifest::PackageManifest;
use build_bridge::planner::{
    check, copy_fingerprints, key_for, plan, triple_for, CacheKey, ConfigFault, Fingerprint,
    KeySpace, Toolchain,
};

const HOST: &str = "x86_64-unknown-linux-gnu";
const CROSS: &str = "aarch64-unknown-linux-gnu";

fn names(list: &[&str]) -> Vec<String> {
    list.iter().map(|s| s.to_string()).collect()
}

fn greet() -> PackageManifest {
    let mut m = PackageManifest::new("greet", "/src/greet");
    m.declare_feature("cli");
    m.declare_feature("net");
    m
}

fn toolchain() -> Toolchain {
    let mut t = Toolchain::new(HOST);
    t.add_target(CROSS);
    t.add_profile("special");
    t
}

#[test]
fn plan_builds_the_argument_vector() {
    let c = BuildConfiguration::new(Profile::Debug).feature("cli");
    let p = plan(&greet(), &c, &toolchain(), &Vec::new()).unwrap();
    assert_eq!(
        p.args,
        names(&[
            "build",
            "--package",
            "greet",
            "--profile",
            "dev",
            "--target",
            HOST,
            "--message-format",
            "json",
            "--features",
            "cli",
        ])
    );
    assert_eq!(p.workdir, "/src/greet");
    assert_eq!(p.triple, HOST);
    assert!(p.env_names.is_empty());
    assert!(p.env_values.is_empty());
}

#[test]
fn plan_puts_features_in_order_and_flags_last() {
    let c = BuildConfiguration::new(Profile::Release)
        .feature("net")
        .feature("cli")
        .flag("--locked")
        .flag("-v")
        .target(CROSS);
    let p = plan(&greet(), &c, &toolchain(), &Vec::new()).unwrap();
    assert_eq!(
        p.args,
        names(&[
            "build",
            "--package",
            "greet",
            "--profile",
            "release",
            "--target",
            CROSS,
            "--message-format",
            "json",
            "--features",
            "cli",
            "--features",
            "net",
            "--locked",
            "-v",
        ])
    );
    assert_eq!(p.triple, CROSS);
}

#[test]
fn plan_names_a_custom_profile() {
    let c = BuildConfiguration::new(Profile::custom("special"));
    let p = plan(&greet(), &c, &toolchain(), &Vec::new()).unwrap();
    assert_eq!(p.args[3], "--profile");
    assert_eq!(p.args[4], "special");
}

#[test]
fn plan_is_the_same_for_every_order_of_features() {
    let marks = vec![Fingerprint::new("/src/greet/lib.rs", 11)];
    let a = BuildConfiguration::new(Profile::Debug).feature("cli").feature("net");
    let b = BuildConfiguration::new(Profile::Debug).feature("net").feature("cli").feature("net");
    let pa = plan(&greet(), &a, &toolchain(), &marks).unwrap();
    let pb = plan(&greet(), &b, &toolchain(), &marks).unwrap();
    assert_eq!(pa.args, pb.args);
    assert_eq!(pa.key, pb.key);
}

#[test]
fn plan_twice_gives_the_same_plan() {
    let marks = vec![Fingerprint::new("/src/greet/lib.rs", 11)];
    let c = BuildConfiguration::new(Profile::Release).feature("cli").flag("-v").env("A", "b");
    let first = plan(&greet(), &c, &toolchain(), &marks).unwrap();
    let second = plan(&greet(), &c, &toolchain(), &marks).unwrap();
    assert_eq!(first.args, second.args);
    assert_eq!(first.env_names, second.env_names);
    assert_eq!(first.env_values, second.env_values);
    assert_eq!(first.workdir, second.workdir);
    assert_eq!(first.key, second.key);
}

#[test]
fn plan_hands_the_environment_on_as_it_is() {
    let c = BuildConfiguration::new(Profile::Debug)
        .env("REQUIRED_VARIABLE", "EXPECTED_VALUE")
        .env("GLOB", "$HOME/*")
        .env("ANOTHER_VARIABLE", "ANOTHER_VALUE");
    let p = plan(&greet(), &c, &toolchain(), &Vec::new()).unwrap();
    assert_eq!(p.env_names, names(&["ANOTHER_VARIABLE", "GLOB", "REQUIRED_VARIABLE"]));
    assert_eq!(p.env_values, names(&["ANOTHER_VALUE", "$HOME/*", "EXPECTED_VALUE"]));
}

#[test]
fn plan_key_digest_is_exact() {
    let c = BuildConfiguration::new(Profile::Debug).feature("cli");
    let marks = vec![Fingerprint::new("/src/greet/manifest", 7)];
    let p = plan(&greet(), &c, &toolchain(), &marks).unwrap();
    assert_eq!(p.key, CacheKey { space: KeySpace::Target, digest: 0xc1b4_c02f_b2cb_1a86 });
    assert_eq!(key_for(&greet(), &c, &toolchain(), &marks), p.key);
}

#[test]
fn plan_key_digest_covers_every_input() {
    let c = BuildConfiguration::new(Profile::Release)
        .feature("net")
        .feature("cli")
        .flag("-v")
        .env("RUSTFLAGS", "--cfg x")
        .env("CC", "clang")
        .target(CROSS);
    let p = plan(&greet(), &c, &toolchain(), &Vec::new()).unwrap();
    assert_eq!(p.key, CacheKey { space: KeySpace::Target, digest: 0xf8fb_cd52_a453_0c75 });
}

#[test]
fn a_changed_fingerprint_changes_the_key() {
    let c = BuildConfiguration::new(Profile::Debug).feature("cli");
    let before = key_for(&greet(), &c, &toolchain(), &vec![Fingerprint::new("/src/greet/manifest", 7)]);
    let after = key_for(&greet(), &c, &toolchain(), &vec![Fingerprint::new("/src/greet/manifest", 8)]);
    assert_eq!(after.digest, 0xc1b4_cb2f_b2cb_2d37);
    assert_ne!(before, after);
}

#[test]
fn host_tool_and_target_builds_have_different_keys() {
    let marks = vec![Fingerprint::new("/src/greet/lib.rs", 11)];
    let host = BuildConfiguration::new(Profile::Debug).host_tool(true);
    let plain = BuildConfiguration::new(Profile::Debug);
    let cross = BuildConfiguration::new(Profile::Debug).target(CROSS);
    let kh = key_for(&greet(), &host, &toolchain(), &marks);
    let kp = key_for(&greet(), &plain, &toolchain(), &marks);
    let kc = key_for(&greet(), &cross, &toolchain(), &marks);
    assert_eq!(kh.space, KeySpace::Host);
    assert_eq!(kp.space, KeySpace::Target);
    assert_eq!(kc.space, KeySpace::Target);
    assert_ne!(kh, kp);
    assert_ne!(kh, kc);
    assert_eq!(kh.digest, kp.digest);
}

#[test]
fn a_host_tool_is_built_for_the_host() {
    let c = BuildConfiguration::new(Profile::Debug).target(CROSS).host_tool(true);
    assert_eq!(triple_for(&c, &toolchain()), HOST);
    let p = plan(&greet(), &c, &toolchain(), &Vec::new()).unwrap();
    assert_eq!(p.triple, HOST);
    assert_eq!(p.args[6], HOST);
    assert_eq!(p.key.space, KeySpace::Host);
    let d = BuildConfiguration::new(Profile::Debug).target(CROSS);
    assert_eq!(triple_for(&d, &toolchain()), CROSS);
    let e = BuildConfiguration::new(Profile::Debug);
    assert_eq!(triple_for(&e, &toolchain()), HOST);
}

#[test]
fn an_undeclared_feature_is_refused() {
    let c = BuildConfiguration::new(Profile::Debug).feature("cli").feature("gui");
    match plan(&greet(), &c, &toolchain(), &Vec::new()) {
        Err(ConfigFault::UndeclaredFeature(name)) => assert_eq!(name, "gui"),
        other => panic!("unexpected: {:?}", other),
    }
}

#[test]
fn the_first_undeclared_feature_is_reported() {
    let c = BuildConfiguration::new(Profile::Debug).feature("zzz").feature("aaa").feature("cli");
    match check(&greet(), &c, &toolchain()) {
        Some(ConfigFault::UndeclaredFeature(name)) => assert_eq!(name, "aaa"),
        other => panic!("unexpected: {:?}", other),
    }
}

#[test]
fn an_unknown_target_is_refused() {
    let c = BuildConfiguration::new(Profile::Debug).target("riscv64gc-unknown-none-elf");
    match plan(&greet(), &c, &toolchain(), &Vec::new()) {
        Err(ConfigFault::UnknownTarget(name)) => assert_eq!(name, "riscv64gc-unknown-none-elf"),
        other => panic!("unexpected: {:?}", other),
    }
}

#[test]
fn the_host_is_always_a_target() {
    let c = BuildConfiguration::new(Profile::Debug).target(HOST);
    assert!(plan(&greet(), &c, &Toolchain::new(HOST), &Vec::new()).is_ok());
}

#[test]
fn an_unknown_profile_is_refused() {
    let c = BuildConfiguration::new(Profile::custom("bench-lto"));
    match plan(&greet(), &c, &toolchain(), &Vec::new()) {
        Err(ConfigFault::UnknownProfile(name)) => assert_eq!(name, "bench-lto"),
        other => panic!("unexpected: {:?}", other),
    }
}

#[test]
fn faults_are_reported_in_a_fixed_order() {
    let c = BuildConfiguration::new(Profile::custom("nope")).target("nowhere").feature("gui");
    assert!(matches!(check(&greet(), &c, &toolchain()), Some(ConfigFault::UndeclaredFeature(_))));
    let d = BuildConfiguration::new(Profile::custom("nope")).target("nowhere");
    assert!(matches!(check(&greet(), &d, &toolchain()), Some(ConfigFault::UnknownTarget(_))));
    let e = BuildConfiguration::new(Profile::custom("nope"));
    assert!(matches!(check(&greet(), &e, &toolchain()), Some(ConfigFault::UnknownProfile(_))));
    let f = BuildConfiguration::new(Profile::custom("special")).target(CROSS).feature("cli");
    assert!(check(&greet(), &f, &toolchain()).is_none());
}

#[test]
fn fingerprints_are_copied_whole() {
    let marks = vec![Fingerprint::new("/a", 1), Fingerprint::new("/b", u64::MAX)];
    let copy = copy_fingerprints(&marks);
    assert_eq!(copy.len(), 2);
    assert_eq!(copy[0].path, "/a");
    assert_eq!(copy[0].stamp, 1);
    assert_eq!(copy[1].path, "/b");
    assert_eq!(copy[1].stamp, u64::MAX);
    assert_eq!(marks[1].duplicate().stamp, u64::MAX);
}
