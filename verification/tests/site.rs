use phones_fyi::args::log_filter;
use phones_fyi::hardware::{Device, Vendor, VendorMap};
use phones_fyi::rules::{Category, Rule, RuleSet, RulesFile};
use phones_fyi::site::{catalogue, css_file_name, sort_newest_first, vendor_display_name};

fn device(codename: &str, date: &str) -> Device {
    Device {
        codename: codename.to_string(),
        name: codename.to_uppercase(),
        vendor_id: "acme".to_string(),
        release_date: date.to_string(),
    }
}

#[test]
fn sort_is_newest_first_and_stable() {
    let devices = vec![
        device("a", "2021-01-01"),
        device("b", "2023-05-05"),
        device("c", "2021-01-01"),
        device("d", ""),
        device("e", "2023-05-05"),
        device("f", "2022-12-31"),
    ];
    let sorted = sort_newest_first(devices);
    let codenames: Vec<&str> = sorted.iter().map(|d| d.codename.as_str()).collect();
    assert_eq!(codenames, vec!["b", "e", "f", "a", "c", "d"]);
}

#[test]
fn sort_of_nothing() {
    assert!(sort_newest_first(Vec::new()).is_empty());
}

#[test]
fn css_file_name_from_djb2() {
    assert_eq!(css_file_name(""), "style-1505.css");
    let style = "body { color: red; }\n";
    assert_eq!(css_file_name(style), format!("style-{:02x}.css", djb2::hash(style.as_bytes())));
    assert_eq!(css_file_name("Ohai world!"), format!("style-{:02x}.css", 3256904681u32));
}

#[test]
fn vendor_names() {
    let mut vendors = VendorMap::new();
    vendors.insert(Vendor { id: "google".to_string(), name: "Google".to_string() });
    vendors.insert(Vendor { id: "google".to_string(), name: "Google LLC".to_string() });
    assert_eq!(vendors.len(), 1);
    assert_eq!(vendor_display_name(&vendors, &"google".to_string()), "Google LLC");
    assert_eq!(vendor_display_name(&vendors, &"apple".to_string()), "");
    assert!(vendors.contains_key(&"google".to_string()));
    assert!(!vendors.contains_key(&"apple".to_string()));
}

#[test]
fn retain_vendors_with_devices() {
    let mut vendors = VendorMap::new();
    vendors.insert(Vendor { id: "acme".to_string(), name: "Acme".to_string() });
    vendors.insert(Vendor { id: "other".to_string(), name: "Other".to_string() });
    vendors.retain_with_devices(&vec![device("x", "2020")]);
    assert_eq!(vendors.len(), 1);
    assert_eq!(vendors.entries()[0].id, "acme");
}

#[test]
fn catalogue_sorts_and_resolves() {
    let mut rules = RuleSet::new();
    rules
        .add_file(RulesFile {
            rules: vec![Rule {
                devices: vec!["a".to_string()],
                categories: vec![Category::AfuSecure],
                class: "yes".to_string(),
                conclusion: "Encrypted".to_string(),
                reference: None,
            }],
        })
        .unwrap();
    let out = catalogue(&rules, vec![device("a", "2020"), device("b", "2021")]);
    assert_eq!(out.len(), 2);
    assert_eq!(out[0].item.codename, "b");
    assert_eq!(out[0].afu_secure, None);
    assert_eq!(out[1].item.codename, "a");
    assert_eq!(out[1].afu_secure.as_ref().map(|s| s.conclusion.as_str()), Some("Encrypted"));
}

#[test]
fn log_filters() {
    assert_eq!(log_filter(0), "warn");
    assert_eq!(log_filter(1), "info");
    assert_eq!(log_filter(2), "info,phones_fyi=debug");
    assert_eq!(log_filter(3), "info,phones_fyi=trace");
    assert_eq!(log_filter(4), "debug");
    assert_eq!(log_filter(5), "trace");
    assert_eq!(log_filter(200), "trace");
}
