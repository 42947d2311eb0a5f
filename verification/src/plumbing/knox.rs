//! Knox support of Samsung phones, from Samsung's list of supported devices,
//! turned into rules for the devices already known.

use vstd::prelude::*;
use crate::hardware::Device;
use crate::rules::{Category, Rule, RuleView, RulesFile};
use crate::text::{str_concat, decimal, prefix_before, str_prefix_before, to_lowercase, u32_to_decimal, unicode_lowercase};

verus! {

/// Where Samsung publishes the list, and the reference of every rule made from it.
pub const KNOX_API_URL: &'static str = "https://www.samsungknox.com/en/api/supported-devices?&limit=1000";

/// The Knox version of a device, where the list gives it.
#[derive(Debug, Clone, PartialEq, Eq)]
pub struct KnoxVersion {
    pub major: Option<u32>,
    pub minor: Option<u32>,
}

/// One row of the list.
#[derive(Debug, Clone, PartialEq, Eq)]
pub struct KnoxEntry {
    pub device_name: String,
    pub device_group: Option<String>,
    pub knox_device_attestation: bool,
    pub knox_vault: bool,
    pub android_enterprise_recommended: bool,
    pub version: KnoxVersion,
}

/// Whether the row is about a phone.
pub open spec fn is_phone_row(row: KnoxEntry) -> bool {
    row.device_group.deep_view() == Some("phone"@)
}

/// The device name without its parenthesised suffix: the part before the
/// first ` (`.
pub open spec fn base_name(name: Seq<char>) -> Seq<char> {
    prefix_before(name, " ("@)
}

/// Whether `device` is the phone that `row` describes: their names agree in
/// lowercase, the device's name taken without its parenthesised suffix.
pub open spec fn names_row(device: Device, row: KnoxEntry) -> bool {
    unicode_lowercase(base_name(device.name@)) == unicode_lowercase(row.device_name@)
}

/// The index of the first device from `i` on that `row` describes.
pub open spec fn first_named_from(devices: Seq<Device>, row: KnoxEntry, i: int) -> Option<int>
    decreases devices.len() - i,
{
    if i < 0 || i >= devices.len() {
        None
    } else if names_row(devices[i], row) {
        Some(i)
    } else {
        first_named_from(devices, row, i + 1)
    }
}

/// `Knox <major>.<minor>`.
pub open spec fn knox_version_text(major: u32, minor: u32) -> Seq<char> {
    "Knox "@ + decimal(major as nat) + "."@ + decimal(minor as nat)
}

/// The rule on secure boot for the device `codename` from `row`: Knox
/// attestation with a known version, or none.
pub open spec fn secure_boot_rule(codename: Seq<char>, row: KnoxEntry) -> RuleView {
    if row.knox_device_attestation && row.version.major is Some && row.version.minor is Some {
        RuleView {
            devices: seq![codename],
            categories: seq![Category::SecureBoot],
            class: "yes"@,
            conclusion: knox_version_text(row.version.major->0, row.version.minor->0),
            reference: Some(KNOX_API_URL@),
        }
    } else {
        RuleView {
            devices: seq![codename],
            categories: seq![Category::SecureBoot],
            class: "no"@,
            conclusion: "No"@,
            reference: Some(KNOX_API_URL@),
        }
    }
}

/// The rule on the hardware keystore for the device `codename` from `row`:
/// a Knox vault with a known version, or no vault, which also settles both
/// storage-encryption categories as partial.
pub open spec fn keystore_rule(codename: Seq<char>, row: KnoxEntry) -> RuleView {
    if row.knox_vault && row.version.major is Some && row.version.minor is Some {
        RuleView {
            devices: seq![codename],
            categories: seq![Category::HardwareKeystore],
            class: "yes"@,
            conclusion: knox_version_text(row.version.major->0, row.version.minor->0) + ")"@,
            reference: Some(KNOX_API_URL@),
        }
    } else {
        RuleView {
            devices: seq![codename],
            categories: seq![Category::HardwareKeystore, Category::BfuSecure, Category::AfuSecure],
            class: "partial"@,
            conclusion: "No Knox vault"@,
            reference: Some(KNOX_API_URL@),
        }
    }
}

/// The rules made from `rows`: for each phone row, in order, that names a
/// known device, the secure-boot rule and then the keystore rule for the
/// first device it names.
pub open spec fn knox_rules(devices: Seq<Device>, rows: Seq<KnoxEntry>) -> Seq<RuleView>
    decreases rows.len(),
{
    if rows.len() == 0 {
        Seq::empty()
    } else {
        let before = knox_rules(devices, rows.drop_last());
        let row = rows.last();
        if is_phone_row(row) {
            match first_named_from(devices, row, 0) {
                Some(k) => before + seq![
                    secure_boot_rule(devices[k].codename@, row),
                    keystore_rule(devices[k].codename@, row),
                ],
                None => before,
            }
        } else {
            before
        }
    }
}


/// The secure-boot rule is about the one device and secure boot alone and
/// cites the list. It says `yes` with the Knox version (`Knox <major>.<minor>`
/// in decimal) only for a row with Knox attestation and both version
/// numbers, and `no` / `No` otherwise.
pub proof fn lemma_secure_boot_rule_law(codename: Seq<char>, row: KnoxEntry)
    ensures
        secure_boot_rule(codename, row).devices == seq![codename],
        secure_boot_rule(codename, row).categories == seq![Category::SecureBoot],
        secure_boot_rule(codename, row).reference == Some(KNOX_API_URL@),
        !(row.knox_device_attestation && row.version.major is Some && row.version.minor is Some) ==> {
            &&& secure_boot_rule(codename, row).class == "no"@
            &&& secure_boot_rule(codename, row).conclusion == "No"@
        },
        row.knox_device_attestation ==> (row.version.major matches Some(major) ==> (row.version.minor matches Some(minor) ==> {
            &&& secure_boot_rule(codename, row).class == "yes"@
            &&& secure_boot_rule(codename, row).conclusion == "Knox "@ + decimal(major as nat) + "."@ + decimal(minor as nat)
        })),
{
}

/// The keystore rule is about the one device and cites the list. With a
/// Knox vault and both version numbers it settles the hardware keystore
/// alone as `yes` (`Knox <major>.<minor>)`); otherwise it settles the hardware
/// keystore and both storage-encryption categories as `partial`, `No Knox vault`.
pub proof fn lemma_keystore_rule_law(codename: Seq<char>, row: KnoxEntry)
    ensures
        keystore_rule(codename, row).devices == seq![codename],
        keystore_rule(codename, row).reference == Some(KNOX_API_URL@),
        !(row.knox_vault && row.version.major is Some && row.version.minor is Some) ==> {
            &&& keystore_rule(codename, row).class == "partial"@
            &&& keystore_rule(codename, row).conclusion == "No Knox vault"@
            &&& keystore_rule(codename, row).categories == seq![
                Category::HardwareKeystore,
                Category::BfuSecure,
                Category::AfuSecure,
            ]
        },
        row.knox_vault ==> (row.version.major matches Some(major) ==> (row.version.minor matches Some(minor) ==> {
            &&& keystore_rule(codename, row).class == "yes"@
            &&& keystore_rule(codename, row).conclusion == "Knox "@ + decimal(major as nat) + "."@ + decimal(minor as nat) + ")"@
            &&& keystore_rule(codename, row).categories == seq![Category::HardwareKeystore]
        })),
{
}

/// The device a row is matched with is the first known device whose name,
/// without its parenthesised suffix and in Unicode lowercase, equals the
/// row's device name in Unicode lowercase; there is none where no device's does.
pub proof fn lemma_first_named_is_first_match(devices: Seq<Device>, row: KnoxEntry)
    ensures
        match first_named_from(devices, row, 0) {
            Some(k) => 0 <= k < devices.len()
                && unicode_lowercase(prefix_before(devices[k].name@, " ("@)) == unicode_lowercase(row.device_name@)
                && forall|j: int| 0 <= j < k ==> unicode_lowercase(prefix_before((#[trigger] devices[j]).name@, " ("@))
                    != unicode_lowercase(row.device_name@),
            None => forall|j: int| 0 <= j < devices.len() ==> unicode_lowercase(prefix_before((#[trigger] devices[j]).name@, " ("@))
                != unicode_lowercase(row.device_name@),
        },
{
    lemma_first_named_from_law(devices, row, 0);
}

proof fn lemma_first_named_from_law(devices: Seq<Device>, row: KnoxEntry, i: int)
    requires
        0 <= i,
    ensures
        match first_named_from(devices, row, i) {
            Some(k) => i <= k < devices.len() && names_row(devices[k], row)
                && forall|j: int| i <= j < k ==> !names_row(#[trigger] devices[j], row),
            None => forall|j: int| i <= j < devices.len() ==> !names_row(#[trigger] devices[j], row),
        },
    decreases devices.len() - i,
{
    if i < devices.len() && !names_row(devices[i], row) {
        lemma_first_named_from_law(devices, row, i + 1);
    }
}

/// The rules come in pairs, one pair per phone row that names a known
/// device: the row's secure-boot rule and then its keystore rule, about the
/// first device it names; rows of other groups, and rows naming no known
/// device, add nothing.
pub proof fn lemma_knox_rules_per_row(devices: Seq<Device>, rows: Seq<KnoxEntry>)
    ensures
        rows.len() > 0 ==> knox_rules(devices, rows) == knox_rules(devices, rows.drop_last()) + if rows.last().device_group.deep_view()
            == Some("phone"@) {
            match first_named_from(devices, rows.last(), 0) {
                Some(k) => seq![
                    secure_boot_rule(devices[k].codename@, rows.last()),
                    keystore_rule(devices[k].codename@, rows.last()),
                ],
                None => Seq::<RuleView>::empty(),
            }
        } else {
            Seq::<RuleView>::empty()
        },
        knox_rules(devices, rows).len() % 2 == 0,
    decreases rows.len(),
{
    if rows.len() > 0 {
        lemma_knox_rules_per_row(devices, rows.drop_last());
        let before = knox_rules(devices, rows.drop_last());
        assert(before + Seq::<RuleView>::empty() =~= before);
    }
}

/// Every rule made from Samsung's list is about exactly one of the known
/// devices, settles secure boot or the hardware keystore, and cites the
/// list.
pub proof fn lemma_knox_rules_are_about_known_devices(devices: Seq<Device>, rows: Seq<KnoxEntry>)
    ensures
        forall|i: int| #![trigger knox_rules(devices, rows)[i]]
            0 <= i < knox_rules(devices, rows).len() ==> {
                let r = knox_rules(devices, rows)[i];
                &&& r.devices.len() == 1
                &&& exists|k: int| 0 <= k < devices.len() && (#[trigger] devices[k]).codename@ == r.devices[0]
                &&& r.reference == Some(KNOX_API_URL@)
                &&& (r.categories[0] == Category::SecureBoot || r.categories[0] == Category::HardwareKeystore)
            },
    decreases rows.len(),
{
    if rows.len() > 0 {
        lemma_knox_rules_are_about_known_devices(devices, rows.drop_last());
        let before = knox_rules(devices, rows.drop_last());
        let all = knox_rules(devices, rows);
        let row = rows.last();
        if is_phone_row(row) {
            match first_named_from(devices, row, 0) {
                Some(k) => {
                    lemma_first_named_in_range(devices, row, 0);
                    assert forall|i: int| #![trigger all[i]] 0 <= i < all.len() implies {
                        let r = all[i];
                        &&& r.devices.len() == 1
                        &&& exists|k: int| 0 <= k < devices.len() && (#[trigger] devices[k]).codename@ == r.devices[0]
                        &&& r.reference == Some(KNOX_API_URL@)
                        &&& (r.categories[0] == Category::SecureBoot || r.categories[0] == Category::HardwareKeystore)
                    } by {
                        if i < before.len() {
                            assert(all[i] == before[i]);
                        } else {
                            assert(devices[k].codename@ == all[i].devices[0]);
                        }
                    }
                },
                None => {},
            }
        }
    }
}

proof fn lemma_first_named_in_range(devices: Seq<Device>, row: KnoxEntry, i: int)
    ensures
        first_named_from(devices, row, i) matches Some(k) ==> i <= k < devices.len(),
    decreases devices.len() - i,
{
    if 0 <= i < devices.len() && !names_row(devices[i], row) {
        lemma_first_named_in_range(devices, row, i + 1);
    }
}

fn is_phone_group(group: &Option<String>) -> (r: bool)
    ensures
        r == (group.deep_view() == Some("phone"@)),
{
    match group {
        Some(g) => crate::text::str_eq(g.as_str(), "phone"),
        None => false,
    }
}

fn find_named_device(devices: &Vec<Device>, row: &KnoxEntry) -> (r: Option<usize>)
    ensures
        match r {
            Some(k) => k < devices@.len() && first_named_from(devices@, *row, 0) == Some(k as int),
            None => first_named_from(devices@, *row, 0) is None,
        },
{
    let wanted = to_lowercase(row.device_name.as_str());
    let mut i: usize = 0;
    while i < devices.len()
        invariant
            i <= devices@.len(),
            wanted@ == unicode_lowercase(row.device_name@),
            first_named_from(devices@, *row, 0) == first_named_from(devices@, *row, i as int),
        decreases devices.len() - i,
    {
        let base = str_prefix_before(devices[i].name.as_str(), " (");
        let lower = to_lowercase(base.as_str());
        if lower == wanted {
            return Some(i);
        }
        i += 1;
    }
    None
}

fn version_text(major: u32, minor: u32) -> (r: String)
    ensures
        r@ == knox_version_text(major, minor),
{
    let a = str_concat("Knox ", u32_to_decimal(major).as_str());
    let b = str_concat(a.as_str(), ".");
    str_concat(b.as_str(), u32_to_decimal(minor).as_str())
}

fn single_codename(codename: &String) -> (r: Vec<String>)
    ensures
        r.deep_view() == seq![codename@],
{
    let r = vec![codename.clone()];
    assert(r.deep_view() =~= seq![codename@]);
    r
}

fn make_rule(devices: Vec<String>, categories: Vec<Category>, class: &str, conclusion: String) -> (r: Rule)
    ensures
        r@ == (RuleView {
            devices: devices.deep_view(),
            categories: categories@,
            class: class@,
            conclusion: conclusion@,
            reference: Some(KNOX_API_URL@),
        }),
{
    Rule {
        devices,
        categories,
        class: class.to_owned(),
        conclusion,
        reference: Some(KNOX_API_URL.to_owned()),
    }
}

fn secure_boot_rule_for(codename: &String, row: &KnoxEntry) -> (r: Rule)
    ensures
        r@ == secure_boot_rule(codename@, *row),
{
    let devices = single_codename(codename);
    let categories = vec![Category::SecureBoot];
    assert(categories@ =~= seq![Category::SecureBoot]);
    if row.knox_device_attestation && row.version.major.is_some() && row.version.minor.is_some() {
        let major = row.version.major.unwrap();
        let minor = row.version.minor.unwrap();
        make_rule(devices, categories, "yes", version_text(major, minor))
    } else {
        make_rule(devices, categories, "no", "No".to_owned())
    }
}

fn keystore_rule_for(codename: &String, row: &KnoxEntry) -> (r: Rule)
    ensures
        r@ == keystore_rule(codename@, *row),
{
    let devices = single_codename(codename);
    if row.knox_vault && row.version.major.is_some() && row.version.minor.is_some() {
        let major = row.version.major.unwrap();
        let minor = row.version.minor.unwrap();
        let text = version_text(major, minor);
        let categories = vec![Category::HardwareKeystore];
        assert(categories@ =~= seq![Category::HardwareKeystore]);
        make_rule(devices, categories, "yes", str_concat(text.as_str(), ")"))
    } else {
        let categories = vec![Category::HardwareKeystore, Category::BfuSecure, Category::AfuSecure];
        assert(categories@ =~= seq![Category::HardwareKeystore, Category::BfuSecure, Category::AfuSecure]);
        make_rule(devices, categories, "partial", "No Knox vault".to_owned())
    }
}

/// The rules on the known `devices` that Samsung's list `rows` supports.
pub fn rules_from_knox(devices: &Vec<Device>, rows: &Vec<KnoxEntry>) -> (r: RulesFile)
    ensures
        r.rules@.map_values(|rule: Rule| rule@) == knox_rules(devices@, rows@),
{
    let mut rules = RulesFile::new();
    let mut i: usize = 0;
    while i < rows.len()
        invariant
            i <= rows@.len(),
            rules.rules@.map_values(|rule: Rule| rule@) == knox_rules(devices@, rows@.take(i as int)),
        decreases rows.len() - i,
    {
        let row = &rows[i];
        assert(rows@.take(i + 1).drop_last() =~= rows@.take(i as int));
        assert(rows@.take(i + 1).last() == *row);
        let ghost before = rules.rules@;
        if is_phone_group(&row.device_group) {
            match find_named_device(devices, row) {
                Some(k) => {
                    let codename = &devices[k].codename;
                    let sb = secure_boot_rule_for(codename, row);
                    let ks = keystore_rule_for(codename, row);
                    rules.push(sb);
                    rules.push(ks);
                    assert(rules.rules@.map_values(|rule: Rule| rule@) =~= before.map_values(|rule: Rule| rule@) + seq![
                        secure_boot_rule(devices@[k as int].codename@, *row),
                        keystore_rule(devices@[k as int].codename@, *row),
                    ]);
                },
                None => {},
            }
        }
        i += 1;
    }
    assert(rows@.take(i as int) =~= rows@);
    rules
}

} // verus!
