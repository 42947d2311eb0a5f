use phones_fyi::hardware::Device;
use phones_fyi::plumbing::iphone::{devices_from_releases, IphoneRelease};
use phones_fyi::plumbing::knox::{rules_from_knox, KnoxEntry, KnoxVersion, KNOX_API_URL};
use phones_fyi::rules::Category;

#[test]
fn iphone_devices_from_releases() {
    let releases = vec![
        IphoneRelease {
            label: "15 Pro Max".to_string(),
            release_date: "2023-09-22".to_string(),
            is_maintained: true,
        },
        IphoneRelease {
            label: "SE (3rd generation)".to_string(),
            release_date: "2022-03-18".to_string(),
            is_maintained: false,
        },
    ];
    let devices = devices_from_releases(&releases);
    assert_eq!(
        devices,
        vec![
            Device {
                codename: "iphone-15-pro-max".to_string(),
                name: "iPhone 15 Pro Max".to_string(),
                vendor_id: "apple".to_string(),
                release_date: "2023-09-22".to_string(),
            },
            Device {
                codename: "iphone-se-(3rd-generation)".to_string(),
                name: "iPhone SE (3rd generation)".to_string(),
                vendor_id: "apple".to_string(),
                release_date: "2022-03-18".to_string(),
            },
        ]
    );
}

fn android(codename: &str, name: &str) -> Device {
    Device {
        codename: codename.to_string(),
        name: name.to_string(),
        vendor_id: "samsung".to_string(),
        release_date: String::new(),
    }
}

fn row(name: &str, group: Option<&str>, attest: bool, vault: bool, major: Option<u32>, minor: Option<u32>) -> KnoxEntry {
    KnoxEntry {
        device_name: name.to_string(),
        device_group: group.map(|g| g.to_string()),
        knox_device_attestation: attest,
        knox_vault: vault,
        android_enterprise_recommended: false,
        version: KnoxVersion { major, minor },
    }
}

#[test]
fn knox_rules_for_known_phones() {
    let devices = vec![
        android("r9s", "Galaxy S21 FE 5G (Snapdragon)"),
        android("dm1q", "Galaxy S23"),
        android("a52q", "Galaxy A52"),
    ];
    let rows = vec![
        row("GALAXY S23", Some("phone"), true, true, Some(3), Some(10)),
        row("Galaxy S21 FE 5G", Some("phone"), true, false, Some(3), None),
        row("Galaxy Tab S9", Some("tablet"), true, true, Some(3), Some(10)),
        row("Galaxy Z Fold", Some("phone"), true, true, Some(3), Some(10)),
        row("Galaxy A52", None, true, true, Some(3), Some(7)),
    ];
    let file = rules_from_knox(&devices, &rows);
    assert_eq!(file.rules.len(), 4);

    let r = &file.rules[0];
    assert_eq!(r.devices, vec!["dm1q".to_string()]);
    assert_eq!(r.categories, vec![Category::SecureBoot]);
    assert_eq!(r.class, "yes");
    assert_eq!(r.conclusion, "Knox 3.10");
    assert_eq!(r.reference.as_deref(), Some(KNOX_API_URL));

    let r = &file.rules[1];
    assert_eq!(r.devices, vec!["dm1q".to_string()]);
    assert_eq!(r.categories, vec![Category::HardwareKeystore]);
    assert_eq!(r.class, "yes");
    assert_eq!(r.conclusion, "Knox 3.10)");

    let r = &file.rules[2];
    assert_eq!(r.devices, vec!["r9s".to_string()]);
    assert_eq!(r.categories, vec![Category::SecureBoot]);
    assert_eq!(r.class, "no");
    assert_eq!(r.conclusion, "No");

    let r = &file.rules[3];
    assert_eq!(r.devices, vec!["r9s".to_string()]);
    assert_eq!(
        r.categories,
        vec![Category::HardwareKeystore, Category::BfuSecure, Category::AfuSecure]
    );
    assert_eq!(r.class, "partial");
    assert_eq!(r.conclusion, "No Knox vault");
    assert_eq!(r.reference.as_deref(), Some(KNOX_API_URL));
}

#[test]
fn knox_takes_the_first_matching_device() {
    let devices = vec![android("first", "Galaxy X (A)"), android("second", "Galaxy X (B)")];
    let rows = vec![row("galaxy x", Some("phone"), false, false, None, None)];
    let file = rules_from_knox(&devices, &rows);
    assert_eq!(file.rules.len(), 2);
    assert_eq!(file.rules[0].devices, vec!["first".to_string()]);
    assert_eq!(file.rules[1].devices, vec!["first".to_string()]);
}

#[test]
fn knox_names_compare_in_unicode_lowercase() {
    let devices = vec![android("x1", "Galaxy ÄÖ Édition (Global)")];
    let rows = vec![row("GALAXY äö ÉDITION", Some("phone"), true, false, Some(2), Some(0))];
    let file = rules_from_knox(&devices, &rows);
    assert_eq!(file.rules.len(), 2);
    assert_eq!(file.rules[0].devices, vec!["x1".to_string()]);
    assert_eq!(file.rules[0].conclusion, "Knox 2.0");
    let rows = vec![row("Galaxy AO Edition", Some("phone"), true, false, Some(2), Some(0))];
    assert!(rules_from_knox(&devices, &rows).rules.is_empty());
}
