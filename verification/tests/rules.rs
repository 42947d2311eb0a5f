use phones_fyi::hardware::Device;
use phones_fyi::rules::{is_rules_file_name, Category, Rule, RuleError, RuleSet, RulesFile, Status};

fn device(codename: &str) -> Device {
    Device {
        codename: codename.to_string(),
        name: format!("Device {codename}"),
        vendor_id: "acme".to_string(),
        release_date: "2024-01-01".to_string(),
    }
}

fn rule(devices: &[&str], categories: &[Category], class: &str, conclusion: &str) -> Rule {
    Rule {
        devices: devices.iter().map(|d| d.to_string()).collect(),
        categories: categories.to_vec(),
        class: class.to_string(),
        conclusion: conclusion.to_string(),
        reference: None,
    }
}

fn status(class: &str, conclusion: &str) -> Option<Status> {
    Some(Status {
        class: class.to_string(),
        conclusion: conclusion.to_string(),
        reference: None,
    })
}

#[test]
fn resolve_with_no_rules_gives_no_status() {
    let rules = RuleSet::new();
    let d = rules.resolve(device("husky"));
    assert_eq!(d.item, device("husky"));
    assert_eq!(d.secure_boot, None);
    assert_eq!(d.hardware_keystore, None);
    assert_eq!(d.bfu_secure, None);
    assert_eq!(d.afu_secure, None);
}

#[test]
fn resolve_applies_matching_rules_per_category() {
    let mut rules = RuleSet::new();
    let file = RulesFile {
        rules: vec![
            rule(&["husky", "shiba"], &[Category::SecureBoot], "yes", "Verified boot"),
            rule(&["gta*"], &[Category::HardwareKeystore, Category::AfuSecure], "partial", "Some"),
            rule(&["other"], &[Category::BfuSecure], "no", "No"),
        ],
    };
    assert_eq!(rules.add_file(file), Ok(()));

    let husky = rules.resolve(device("husky"));
    assert_eq!(husky.secure_boot, status("yes", "Verified boot"));
    assert_eq!(husky.hardware_keystore, None);
    assert_eq!(husky.bfu_secure, None);

    let gta = rules.resolve(device("gta4xl"));
    assert_eq!(gta.secure_boot, None);
    assert_eq!(gta.hardware_keystore, status("partial", "Some"));
    assert_eq!(gta.afu_secure, status("partial", "Some"));
    assert_eq!(gta.bfu_secure, None);
}

#[test]
fn later_rules_take_precedence() {
    let mut rules = RuleSet::new();
    rules
        .add_file(RulesFile {
            rules: vec![rule(&["*"], &[Category::SecureBoot, Category::BfuSecure], "no", "Unknown")],
        })
        .unwrap();
    rules
        .add_file(RulesFile {
            rules: vec![rule(&["husky"], &[Category::SecureBoot], "yes", "Verified boot")],
        })
        .unwrap();
    let husky = rules.resolve(device("husky"));
    assert_eq!(husky.secure_boot, status("yes", "Verified boot"));
    assert_eq!(husky.bfu_secure, status("no", "Unknown"));
    let other = rules.resolve(device("shiba"));
    assert_eq!(other.secure_boot, status("no", "Unknown"));
}

#[test]
fn invalid_pattern_is_refused_and_nothing_is_loaded() {
    let mut rules = RuleSet::new();
    let file = RulesFile {
        rules: vec![
            rule(&["husky"], &[Category::SecureBoot], "yes", "Verified boot"),
            rule(&["ok", "a***"], &[Category::SecureBoot], "no", "No"),
            rule(&["[abc"], &[Category::SecureBoot], "no", "No"),
        ],
    };
    match rules.add_file(file) {
        Err(RuleError::InvalidPattern { pattern, pos, msg }) => {
            assert_eq!(pattern, "a***");
            assert_eq!(pos, 3);
            assert!(msg.contains("wildcards"));
        }
        other => panic!("unexpected result {other:?}"),
    }
    assert_eq!(rules.resolve(device("husky")).secure_boot, None);
}

#[test]
fn rules_file_names() {
    assert!(is_rules_file_name("android.toml"));
    assert!(is_rules_file_name("..toml"));
    assert!(!is_rules_file_name(".toml"));
    assert!(!is_rules_file_name("android.json"));
    assert!(!is_rules_file_name("toml"));
    assert!(!is_rules_file_name("a.toml.bak"));
}

#[test]
fn status_of_rule_copies_its_fields() {
    let mut r = rule(&["x"], &[Category::SecureBoot], "yes", "Fine");
    r.reference = Some("https://example.org".to_string());
    let s = Status::of_rule(&r);
    assert_eq!(s.class, "yes");
    assert_eq!(s.conclusion, "Fine");
    assert_eq!(s.reference.as_deref(), Some("https://example.org"));
}

#[test]
fn resolve_with_given_marks() {
    let mut rules = RuleSet::new();
    rules
        .add_file(RulesFile {
            rules: vec![
                rule(&["x"], &[Category::SecureBoot, Category::BfuSecure], "a", "first"),
                rule(&["y"], &[Category::SecureBoot], "b", "second"),
                rule(&["z"], &[Category::AfuSecure], "c", "third"),
            ],
        })
        .unwrap();
    let d = rules.resolve_with(device("anything"), &vec![true, true, false]);
    assert_eq!(d.secure_boot, status("b", "second"));
    assert_eq!(d.bfu_secure, status("a", "first"));
    assert_eq!(d.afu_secure, None);
    assert_eq!(d.hardware_keystore, None);
    let d = rules.resolve_with(device("anything"), &vec![true]);
    assert_eq!(d.secure_boot, status("a", "first"));
    let d = rules.resolve_with(device("anything"), &vec![]);
    assert_eq!(d.secure_boot, None);
}

#[test]
fn matching_rules_marks_applying_rules() {
    let mut rules = RuleSet::new();
    rules
        .add_file(RulesFile {
            rules: vec![
                rule(&["gta4*"], &[Category::SecureBoot], "a", "wild"),
                rule(&["husky", "shiba"], &[Category::SecureBoot], "b", "list"),
                rule(&["gta4?"], &[Category::SecureBoot], "c", "single"),
                rule(&[], &[Category::SecureBoot], "d", "none"),
            ],
        })
        .unwrap();
    assert_eq!(rules.matching_rules(&"gta4l".to_string()), vec![true, false, true, false]);
    assert_eq!(rules.matching_rules(&"gta4xl".to_string()), vec![true, false, false, false]);
    assert_eq!(rules.matching_rules(&"shiba".to_string()), vec![false, true, false, false]);
}
