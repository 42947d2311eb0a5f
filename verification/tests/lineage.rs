use phones_fyi::hardware::Vendor;
use phones_fyi::plumbing::lineage::{
    devices_from_groups, extract_device, extract_vendors, is_denied_device, is_denied_vendor,
    parse_lineage, vendors_from_links, DeviceGroup, DeviceItem, VendorLink,
};
use std::collections::BTreeMap;

fn as_btree(vendors: &phones_fyi::hardware::VendorMap) -> BTreeMap<String, Vendor> {
    vendors
        .entries()
        .iter()
        .map(|v| (v.id.clone(), v.clone()))
        .collect()
}

#[test]
fn test_extract_vendors() {
    let html = r##"
<div id="vendor-list">
  Select a vendor to jump to:<br/>

  <div class="vendor-container">
      <div data-vendor="nintendo"><a href="#nintendo" data-vendor="nintendo">Nintendo</a></div>
      <div data-vendor="nokia"><a href="#nokia" data-vendor="nokia">Nokia</a></div>
      <div data-vendor="nothing"><a href="#nothing" data-vendor="nothing">Nothing</a></div>
      <div data-vendor="nubia"><a href="#nubia" data-vendor="nubia">Nubia</a></div>
      <div data-vendor="nvidia"><a href="#nvidia" data-vendor="nvidia">NVIDIA</a></div>
      <div data-vendor="oneplus"><a href="#oneplus" data-vendor="oneplus">OnePlus</a></div>
      <div data-vendor="samsung"><a href="#samsung" data-vendor="samsung">Samsung</a></div>
  </div>
</div>
"##;

    let vendors = extract_vendors(html);
    assert_eq!(
        as_btree(&vendors),
        [
            (
                "nintendo".to_string(),
                Vendor {
                    id: "nintendo".to_string(),
                    name: "Nintendo".to_string(),
                }
            ),
            (
                "nokia".to_string(),
                Vendor {
                    id: "nokia".to_string(),
                    name: "Nokia".to_string(),
                }
            ),
            (
                "nothing".to_string(),
                Vendor {
                    id: "nothing".to_string(),
                    name: "Nothing".to_string(),
                }
            ),
            (
                "nubia".to_string(),
                Vendor {
                    id: "nubia".to_string(),
                    name: "Nubia".to_string(),
                }
            ),
            (
                "nvidia".to_string(),
                Vendor {
                    id: "nvidia".to_string(),
                    name: "NVIDIA".to_string(),
                }
            ),
            (
                "oneplus".to_string(),
                Vendor {
                    id: "oneplus".to_string(),
                    name: "OnePlus".to_string(),
                }
            ),
            (
                "samsung".to_string(),
                Vendor {
                    id: "samsung".to_string(),
                    name: "Samsung".to_string(),
                }
            ),
        ]
        .into_iter()
        .collect()
    );
}

fn link(vendor: Option<&str>, name: &str) -> VendorLink {
    VendorLink {
        vendor: vendor.map(|v| v.to_string()),
        name: name.to_string(),
    }
}

#[test]
fn later_vendor_link_replaces_earlier_one() {
    let links = vec![
        link(Some("google"), "Google"),
        link(None, "No id"),
        link(Some("google"), "Google LLC"),
    ];
    let vendors = vendors_from_links(&links);
    assert_eq!(vendors.len(), 1);
    assert_eq!(vendors.entries()[0].id, "google");
    assert_eq!(vendors.entries()[0].name, "Google LLC");
}

fn item(codename: Option<&str>, hidden: bool, name: Option<&str>) -> DeviceItem {
    DeviceItem {
        codename: codename.map(|c| c.to_string()),
        hidden,
        name: name.map(|n| n.to_string()),
    }
}

#[test]
fn extract_device_skips_incomplete_hidden_and_denied_entries() {
    let vendor = "google".to_string();
    let d = extract_device(&item(Some("husky"), false, Some("Pixel 8 Pro")), &vendor).unwrap();
    assert_eq!(d.codename, "husky");
    assert_eq!(d.name, "Pixel 8 Pro");
    assert_eq!(d.vendor_id, "google");
    assert_eq!(d.release_date, "");
    assert!(extract_device(&item(None, false, Some("x")), &vendor).is_none());
    assert!(extract_device(&item(Some("husky"), true, Some("x")), &vendor).is_none());
    assert!(extract_device(&item(Some("husky"), false, None), &vendor).is_none());
    assert!(extract_device(&item(Some("tangorpro"), false, Some("Pixel Tablet")), &vendor).is_none());
}

#[test]
fn denylists() {
    assert!(is_denied_vendor("nvidia"));
    assert!(is_denied_vendor("banana-pi"));
    assert!(!is_denied_vendor("google"));
    assert!(is_denied_device("gta4xlwifi"));
    assert!(!is_denied_device("gta4xlwif"));
}

#[test]
fn devices_from_groups_takes_listed_allowed_vendors_only() {
    let vendors = vendors_from_links(&vec![
        link(Some("google"), "Google"),
        link(Some("nvidia"), "NVIDIA"),
    ]);
    let groups = vec![
        DeviceGroup {
            vendor: Some("google".to_string()),
            items: vec![
                item(Some("husky"), false, Some("Pixel 8 Pro")),
                item(Some("shiba"), false, Some("Pixel 8")),
            ],
        },
        DeviceGroup {
            vendor: Some("nvidia".to_string()),
            items: vec![item(Some("foster"), false, Some("Shield TV"))],
        },
        DeviceGroup {
            vendor: Some("xiaomi".to_string()),
            items: vec![item(Some("alioth"), false, Some("POCO F3"))],
        },
        DeviceGroup {
            vendor: None,
            items: vec![item(Some("x"), false, Some("X"))],
        },
    ];
    let devices = devices_from_groups(&groups, &vendors);
    let codenames: Vec<&str> = devices.iter().map(|d| d.codename.as_str()).collect();
    assert_eq!(codenames, vec!["husky", "shiba"]);
}

#[test]
fn parse_lineage_page() {
    let html = r##"
<div class="vendor-container">
  <div><a href="#google" data-vendor="google">Google</a></div>
  <div><a href="#fairphone" data-vendor="fairphone">Fairphone</a></div>
  <div><a href="#nvidia" data-vendor="nvidia">NVIDIA</a></div>
  <div><a href="#sony" data-vendor="sony">Sony</a></div>
</div>
<div class="devices" data-vendor="google">
  <div class="item" data-codename="husky"><span class="devicename">Pixel 8 Pro</span></div>
  <div class="item" data-codename="tangorpro"><span class="devicename">Pixel Tablet</span></div>
  <div class="item" data-codename="oriole"><span class="hidden"></span><span class="devicename">Pixel 6</span></div>
</div>
<div class="devices" data-vendor="fairphone">
  <div class="item" data-codename="FP5"><span class="devicename">Fairphone 5</span></div>
</div>
<div class="devices" data-vendor="nvidia">
  <div class="item" data-codename="foster"><span class="devicename">Shield TV</span></div>
</div>
<div class="devices" data-vendor="sony">
  <div class="item" data-codename="pdx234"><span class="hidden"></span><span class="devicename">Xperia 1 V</span></div>
</div>
<div class="devices" data-vendor="unknown">
  <div class="item" data-codename="u1"><span class="devicename">Unknown 1</span></div>
</div>
"##;
    let (vendors, devices) = parse_lineage(html);
    let codenames: Vec<&str> = devices.iter().map(|d| d.codename.as_str()).collect();
    assert_eq!(codenames, vec!["husky", "FP5"]);
    assert_eq!(devices[0].name, "Pixel 8 Pro");
    assert_eq!(devices[0].vendor_id, "google");
    assert_eq!(devices[1].vendor_id, "fairphone");
    let ids: Vec<&str> = vendors.entries().iter().map(|v| v.id.as_str()).collect();
    assert_eq!(ids, vec!["google", "fairphone"]);
    assert_eq!(vendors.entries()[1].name, "Fairphone");
}
