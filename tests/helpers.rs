use oma_apt::raw::{Provider, SourceFile};
use oma_apt::util::{terminal_height_from, terminal_width_from, time_str, unit_scale, NumSys};
use std::collections::hash_map::DefaultHasher;
use std::hash::{Hash, Hasher};

#[test]
fn time_str_seconds_only() {
    assert_eq!(time_str(0), "0s");
    assert_eq!(time_str(59), "59s");
    assert_eq!(time_str(60), "60s");
}

#[test]
fn time_str_minutes_hours_days() {
    assert_eq!(time_str(61), "1min 1s");
    assert_eq!(time_str(3599), "59min 59s");
    assert_eq!(time_str(3600), "1h 0min 0s");
    assert_eq!(time_str(3661), "1h 1min 1s");
    assert_eq!(time_str(86399), "23h 59min 59s");
    assert_eq!(time_str(86400), "1d 0h 0min 0s");
    assert_eq!(time_str(90061), "1d 1h 1min 1s");
    assert_eq!(time_str(u64::MAX), "213503982334601d 7h 0min 15s");
}

#[test]
fn unit_scale_picks_largest_exceeded_power() {
    assert_eq!(unit_scale(0, NumSys::Binary), (1, "B"));
    assert_eq!(unit_scale(1024, NumSys::Binary), (1, "B"));
    assert_eq!(unit_scale(1025, NumSys::Binary), (1024, "KiB"));
    assert_eq!(unit_scale(1000, NumSys::Decimal), (1, "B"));
    assert_eq!(unit_scale(1001, NumSys::Decimal), (1000, "KB"));
    assert_eq!(unit_scale(5_000_000, NumSys::Decimal), (1_000_000, "MB"));
    assert_eq!(unit_scale(1 << 31, NumSys::Binary), (1 << 30, "GiB"));
    assert_eq!(unit_scale(1_000_000_000_001, NumSys::Decimal), (1_000_000_000_000, "TB"));
    assert_eq!(unit_scale(u64::MAX, NumSys::Binary), (1 << 40, "TiB"));
}

#[test]
fn terminal_size_defaults() {
    assert_eq!(terminal_height_from(None), 24);
    assert_eq!(terminal_width_from(None), 80);
    assert_eq!(terminal_height_from(Some((120, 40))), 40);
    assert_eq!(terminal_width_from(Some((120, 40))), 120);
}

#[test]
fn provider_hash_is_hash_of_name() {
    let p = Provider { name: String::from("mail-transport-agent"), package_id: 7 };
    let q = Provider { name: String::from("mail-transport-agent"), package_id: 9 };
    let mut h = DefaultHasher::new();
    "mail-transport-agent".hash(&mut h);
    assert_eq!(p.hash(), h.finish());
    assert_eq!(p.hash(), q.hash());
    let r = Provider { name: String::from("editor"), package_id: 7 };
    assert_ne!(p.hash(), r.hash());
}

#[test]
fn source_file_description() {
    let s = SourceFile {
        uri: String::from("http://deb.volian.org/volian/dists/scar/InRelease"),
        filename: String::from("deb.volian.org_volian_dists_scar_InRelease"),
    };
    assert_eq!(
        s.describe(),
        "Source< Uri: http://deb.volian.org/volian/dists/scar/InRelease, Filename: deb.volian.org_volian_dists_scar_InRelease>"
    );
}
