//! LineageOS devices and their vendors, from the LineageOS device wiki page.

use vstd::prelude::*;
use crate::hardware::{device_vendor_ids, Device, DeviceView, Vendor, VendorMap};
use crate::text::str_eq;
use kuchikiki::traits::TendrilSink;

verus! {

/// The page that lists the devices.
pub const LINEAGE_WIKI_URL: &'static str = "https://wiki.lineageos.org/devices/";

/// A vendor link of the page's vendor list: its `data-vendor` attribute, if
/// any, and its text.
#[derive(Debug, Clone, PartialEq, Eq)]
pub struct VendorLink {
    pub vendor: Option<String>,
    pub name: String,
}

/// A device entry of the page: its `data-codename` attribute, if any,
/// whether it is marked hidden, and the text of its device name, if any.
#[derive(Debug, Clone, PartialEq, Eq)]
pub struct DeviceItem {
    pub codename: Option<String>,
    pub hidden: bool,
    pub name: Option<String>,
}

/// A vendor section of the page: its `data-vendor` attribute, if any, and
/// its device entries in page order.
#[derive(Debug, Clone, PartialEq, Eq)]
pub struct DeviceGroup {
    pub vendor: Option<String>,
    pub items: Vec<DeviceItem>,
}

impl View for VendorLink {
    type V = (Option<Seq<char>>, Seq<char>);

    open spec fn view(&self) -> (Option<Seq<char>>, Seq<char>) {
        (self.vendor.deep_view(), self.name@)
    }
}

impl View for DeviceItem {
    type V = (Option<Seq<char>>, bool, Option<Seq<char>>);

    open spec fn view(&self) -> (Option<Seq<char>>, bool, Option<Seq<char>>) {
        (self.codename.deep_view(), self.hidden, self.name.deep_view())
    }
}

impl View for DeviceGroup {
    type V = (Option<Seq<char>>, Seq<(Option<Seq<char>>, bool, Option<Seq<char>>)>);

    open spec fn view(&self) -> (Option<Seq<char>>, Seq<(Option<Seq<char>>, bool, Option<Seq<char>>)>) {
        (self.vendor.deep_view(), self.items@.map_values(|it: DeviceItem| it@))
    }
}

/// The vendor links of an HTML page (the elements that the selector
/// `.vendor-container a[data-vendor]` selects, in document order), as the
/// HTML parser of kuchikiki reads the page.
pub uninterp spec fn html_vendor_links(html: Seq<char>) -> Seq<(Option<Seq<char>>, Seq<char>)>;

/// The device sections of an HTML page (the `div.devices` elements, each
/// with its `.item` elements, in document order; an entry is hidden where it
/// holds a `.hidden` element and named by its first `span.devicename`), as
/// the HTML parser of kuchikiki reads the page.
pub uninterp spec fn html_device_groups(html: Seq<char>) -> Seq<
    (Option<Seq<char>>, Seq<(Option<Seq<char>>, bool, Option<Seq<char>>)>),
>;

/// Wraps `kuchikiki::parse_html` and `NodeRef::select` with the vendor-list
/// selector; each selected element becomes its `data-vendor` attribute and
/// its text. Claims that the result is the one named by `html_vendor_links`
/// for this page: parsing and selection depend on the text alone.
#[verifier::external_body]
fn scrape_vendor_links(html: &str) -> (r: Vec<VendorLink>)
    ensures
        r@.map_values(|l: VendorLink| l@) == html_vendor_links(html@),
{
    let doc = kuchikiki::parse_html().one(html);
    doc.select(".vendor-container a[data-vendor]").unwrap().map(|m| VendorLink {
        vendor: m.attributes.borrow().get("data-vendor").map(|v| v.to_string()),
        name: m.text_contents(),
    }).collect()
}

/// Wraps `kuchikiki::parse_html` and `NodeRef::select` / `select_first` on
/// the device sections and their entries; each element becomes the
/// attributes and texts that `DeviceGroup` and `DeviceItem` hold. Claims that
/// the result is the one named by `html_device_groups` for this page.
#[verifier::external_body]
fn scrape_device_groups(html: &str) -> (r: Vec<DeviceGroup>)
    ensures
        r@.map_values(|g: DeviceGroup| g@) == html_device_groups(html@),
{
    let doc = kuchikiki::parse_html().one(html);
    doc.select("div.devices").unwrap().map(|g| DeviceGroup {
        vendor: g.attributes.borrow().get("data-vendor").map(|v| v.to_string()),
        items: g.as_node().select(".item").unwrap().map(|d| DeviceItem {
            codename: d.attributes.borrow().get("data-codename").map(|v| v.to_string()),
            hidden: d.as_node().select_first(".hidden").is_ok(),
            name: d.as_node().select_first("span.devicename").ok().map(|n| n.text_contents()),
        }).collect(),
    }).collect()
}

/// The vendors that are left out.
pub open spec fn denied_vendors() -> Seq<Seq<char>> {
    seq![
        "banana-pi"@,
        "dynalink"@,
        "hardkernel"@,
        "nintendo"@,
        "nvidia"@,
        "radxa"@,
        "walmart"@,
    ]
}

/// The devices that are left out.
pub open spec fn denied_devices() -> Seq<Seq<char>> {
    seq![
        "baracus"@,
        "baracus_tab"@,
        "deadpool"@,
        "erhai"@,
        "gta4l"@,
        "gta4lwifi"@,
        "gta4xl"@,
        "gta4xlwifi"@,
        "gts4lv"@,
        "gts4lvwifi"@,
        "gts7l"@,
        "gts7lwifi"@,
        "nicole"@,
        "sabrina"@,
        "tangorpro"@,
    ]
}

/// The vendors named by the links: each link with a vendor id puts the
/// link text under that id, a later link replacing an earlier one.
pub open spec fn links_to_map(links: Seq<(Option<Seq<char>>, Seq<char>)>) -> Map<Seq<char>, Seq<char>>
    decreases links.len(),
{
    if links.len() == 0 {
        Map::empty()
    } else {
        let m = links_to_map(links.drop_last());
        match links.last().0 {
            Some(id) => m.insert(id, links.last().1),
            None => m,
        }
    }
}

/// The device that an entry describes in the section of `vendor`: none for
/// an entry without codename or name, hidden, or of a left-out device.
pub open spec fn item_device(item: (Option<Seq<char>>, bool, Option<Seq<char>>), vendor: Seq<char>) -> Option<DeviceView> {
    match (item.0, item.2) {
        (Some(codename), Some(name)) => if denied_devices().contains(codename) || item.1 {
            None
        } else {
            Some(DeviceView { codename, name, vendor_id: vendor, release_date: Seq::empty() })
        },
        _ => None,
    }
}

/// The devices of a section's entries, in order.
pub open spec fn items_devices(items: Seq<(Option<Seq<char>>, bool, Option<Seq<char>>)>, vendor: Seq<char>) -> Seq<DeviceView>
    decreases items.len(),
{
    if items.len() == 0 {
        Seq::empty()
    } else {
        let before = items_devices(items.drop_last(), vendor);
        match item_device(items.last(), vendor) {
            Some(d) => before.push(d),
            None => before,
        }
    }
}

/// Whether a section's devices are taken: it names a vendor that is listed
/// and not left out.
pub open spec fn section_taken(vendor: Option<Seq<char>>, vendors: Map<Seq<char>, Seq<char>>) -> bool {
    match vendor {
        Some(v) => !denied_vendors().contains(v) && vendors.contains_key(v),
        None => false,
    }
}

/// The devices of the sections, in page order.
pub open spec fn groups_devices(
    groups: Seq<(Option<Seq<char>>, Seq<(Option<Seq<char>>, bool, Option<Seq<char>>)>)>,
    vendors: Map<Seq<char>, Seq<char>>,
) -> Seq<DeviceView>
    decreases groups.len(),
{
    if groups.len() == 0 {
        Seq::empty()
    } else {
        let before = groups_devices(groups.drop_last(), vendors);
        let g = groups.last();
        if section_taken(g.0, vendors) {
            before + items_devices(g.1, g.0->0)
        } else {
            before
        }
    }
}

fn is_listed(list: &Vec<&str>, s: &str) -> (r: bool)
    ensures
        r == exists|k: int| 0 <= k < list@.len() && (#[trigger] list@[k])@ == s@,
{
    let mut i: usize = 0;
    while i < list.len()
        invariant
            i <= list@.len(),
            forall|k: int| 0 <= k < i ==> list@[k]@ != s@,
        decreases list.len() - i,
    {
        if str_eq(list[i], s) {
            return true;
        }
        i += 1;
    }
    false
}

/// Whether the vendor is left out.
pub fn is_denied_vendor(vendor: &str) -> (r: bool)
    ensures
        r == denied_vendors().contains(vendor@),
{
    let list: Vec<&str> = vec!["banana-pi", "dynalink", "hardkernel", "nintendo", "nvidia", "radxa", "walmart"];
    let r = is_listed(&list, vendor);
    proof {
        let views = list@.map_values(|x: &str| x@);
        assert(views =~= denied_vendors());
        if r {
            let k = choose|k: int| 0 <= k < list@.len() && (#[trigger] list@[k])@ == vendor@;
            assert(views[k] == vendor@);
        }
        if denied_vendors().contains(vendor@) {
            let k = choose|k: int| 0 <= k < views.len() && views[k] == vendor@;
            assert(list@[k]@ == vendor@);
        }
    }
    r
}

/// Whether the device is left out.
pub fn is_denied_device(codename: &str) -> (r: bool)
    ensures
        r == denied_devices().contains(codename@),
{
    let list: Vec<&str> = vec![
        "baracus",
        "baracus_tab",
        "deadpool",
        "erhai",
        "gta4l",
        "gta4lwifi",
        "gta4xl",
        "gta4xlwifi",
        "gts4lv",
        "gts4lvwifi",
        "gts7l",
        "gts7lwifi",
        "nicole",
        "sabrina",
        "tangorpro",
    ];
    let r = is_listed(&list, codename);
    proof {
        let views = list@.map_values(|x: &str| x@);
        assert(views =~= denied_devices());
        if r {
            let k = choose|k: int| 0 <= k < list@.len() && (#[trigger] list@[k])@ == codename@;
            assert(views[k] == codename@);
        }
        if denied_devices().contains(codename@) {
            let k = choose|k: int| 0 <= k < views.len() && views[k] == codename@;
            assert(list@[k]@ == codename@);
        }
    }
    r
}

/// The vendors that the links name.
pub fn vendors_from_links(links: &Vec<VendorLink>) -> (r: VendorMap)
    ensures
        r@ == links_to_map(links@.map_values(|l: VendorLink| l@)),
{
    let mut vendors = VendorMap::new();
    let mut i: usize = 0;
    while i < links.len()
        invariant
            i <= links@.len(),
            vendors@ == links_to_map(links@.take(i as int).map_values(|l: VendorLink| l@)),
        decreases links.len() - i,
    {
        let link = &links[i];
        assert(links@.take(i + 1).map_values(|l: VendorLink| l@).drop_last() =~= links@.take(i as int).map_values(|l: VendorLink| l@));
        assert(links@.take(i + 1).map_values(|l: VendorLink| l@).last() == link@);
        match &link.vendor {
            Some(id) => {
                vendors.insert(Vendor { id: id.clone(), name: link.name.clone() });
            },
            None => {},
        }
        i += 1;
    }
    assert(links@.take(i as int) =~= links@);
    vendors
}

/// The vendors listed on the page `html`.
pub fn extract_vendors(html: &str) -> (r: VendorMap)
    ensures
        r@ == links_to_map(html_vendor_links(html@)),
{
    let links = scrape_vendor_links(html);
    vendors_from_links(&links)
}

/// The device that `item` describes in the section of `vendor`.
pub fn extract_device(item: &DeviceItem, vendor: &String) -> (r: Option<Device>)
    ensures
        match r {
            Some(d) => item_device(item@, vendor@) == Some(d@),
            None => item_device(item@, vendor@) is None,
        },
{
    let codename = match &item.codename {
        Some(c) => c,
        None => return None,
    };
    if is_denied_device(codename.as_str()) {
        return None;
    }
    if item.hidden {
        return None;
    }
    let name = match &item.name {
        Some(n) => n,
        None => return None,
    };
    let d = Device {
        codename: codename.clone(),
        name: name.clone(),
        vendor_id: vendor.clone(),
        release_date: String::new(),
    };
    assert(d@ == (DeviceView { codename: codename@, name: name@, vendor_id: vendor@, release_date: Seq::empty() }));
    Some(d)
}

/// The devices of the sections, in page order, taken from the sections of
/// listed vendors that are not left out.
pub fn devices_from_groups(groups: &Vec<DeviceGroup>, vendors: &VendorMap) -> (r: Vec<Device>)
    ensures
        r@.map_values(|d: Device| d@) == groups_devices(groups@.map_values(|g: DeviceGroup| g@), vendors@),
{
    let mut devices: Vec<Device> = Vec::new();
    let mut i: usize = 0;
    while i < groups.len()
        invariant
            i <= groups@.len(),
            devices@.map_values(|d: Device| d@) == groups_devices(groups@.take(i as int).map_values(|g: DeviceGroup| g@), vendors@),
        decreases groups.len() - i,
    {
        let group = &groups[i];
        let ghost gviews = groups@.take(i + 1).map_values(|g: DeviceGroup| g@);
        assert(gviews.drop_last() =~= groups@.take(i as int).map_values(|g: DeviceGroup| g@));
        assert(gviews.last() == group@);
        let vendor = match &group.vendor {
            Some(v) => v,
            None => {
                i += 1;
                continue;
            },
        };
        if is_denied_vendor(vendor.as_str()) || !vendors.contains_key(vendor) {
            i += 1;
            continue;
        }
        let ghost before = devices@.map_values(|d: Device| d@);
        let items = &group.items;
        let mut j: usize = 0;
        while j < items.len()
            invariant
                i < groups@.len(),
                *group == groups@[i as int],
                *items == group.items,
                group.vendor.deep_view() == Some(vendor@),
                j <= items@.len(),
                devices@.map_values(|d: Device| d@) == before + items_devices(
                    items@.take(j as int).map_values(|it: DeviceItem| it@),
                    vendor@,
                ),
            decreases items.len() - j,
        {
            let ghost iviews = items@.take(j + 1).map_values(|it: DeviceItem| it@);
            assert(iviews.drop_last() =~= items@.take(j as int).map_values(|it: DeviceItem| it@));
            assert(iviews.last() == items@[j as int]@);
            let ghost prev = devices@.map_values(|d: Device| d@);
            match extract_device(&items[j], vendor) {
                Some(d) => {
                    devices.push(d);
                    assert(devices@.map_values(|d: Device| d@) =~= prev.push(d@));
                },
                None => {},
            }
            j += 1;
        }
        assert(items@.take(j as int) =~= items@);
        assert(group@.1 == items@.map_values(|it: DeviceItem| it@));
        i += 1;
    }
    assert(groups@.take(i as int) =~= groups@);
    devices
}


/// The vendors left out are exactly banana-pi, dynalink, hardkernel,
/// nintendo, nvidia, radxa and walmart.
pub proof fn lemma_denied_vendors_are(x: Seq<char>)
    ensures
        denied_vendors().contains(x) <==> (x == "banana-pi"@ || x == "dynalink"@ || x == "hardkernel"@
            || x == "nintendo"@ || x == "nvidia"@ || x == "radxa"@ || x == "walmart"@),
{
    let l = denied_vendors();
    if l.contains(x) {
        let i = choose|i: int| 0 <= i < l.len() && l[i] == x;
        assert(i == 0 || i == 1 || i == 2 || i == 3 || i == 4 || i == 5 || i == 6);
    }
    if x == "banana-pi"@ { assert(l[0] == x); }
    if x == "dynalink"@ { assert(l[1] == x); }
    if x == "hardkernel"@ { assert(l[2] == x); }
    if x == "nintendo"@ { assert(l[3] == x); }
    if x == "nvidia"@ { assert(l[4] == x); }
    if x == "radxa"@ { assert(l[5] == x); }
    if x == "walmart"@ { assert(l[6] == x); }
}

/// The devices left out are exactly baracus, baracus_tab, deadpool, erhai,
/// gta4l, gta4lwifi, gta4xl, gta4xlwifi, gts4lv, gts4lvwifi, gts7l,
/// gts7lwifi, nicole, sabrina and tangorpro.
pub proof fn lemma_denied_devices_are(x: Seq<char>)
    ensures
        denied_devices().contains(x) <==> (x == "baracus"@ || x == "baracus_tab"@ || x == "deadpool"@
            || x == "erhai"@ || x == "gta4l"@ || x == "gta4lwifi"@ || x == "gta4xl"@ || x == "gta4xlwifi"@
            || x == "gts4lv"@ || x == "gts4lvwifi"@ || x == "gts7l"@ || x == "gts7lwifi"@ || x == "nicole"@
            || x == "sabrina"@ || x == "tangorpro"@),
{
    let l = denied_devices();
    if l.contains(x) {
        let i = choose|i: int| 0 <= i < l.len() && l[i] == x;
        assert(0 <= i < 15);
    }
    if x == "baracus"@ { assert(l[0] == x); }
    if x == "baracus_tab"@ { assert(l[1] == x); }
    if x == "deadpool"@ { assert(l[2] == x); }
    if x == "erhai"@ { assert(l[3] == x); }
    if x == "gta4l"@ { assert(l[4] == x); }
    if x == "gta4lwifi"@ { assert(l[5] == x); }
    if x == "gta4xl"@ { assert(l[6] == x); }
    if x == "gta4xlwifi"@ { assert(l[7] == x); }
    if x == "gts4lv"@ { assert(l[8] == x); }
    if x == "gts4lvwifi"@ { assert(l[9] == x); }
    if x == "gts7l"@ { assert(l[10] == x); }
    if x == "gts7lwifi"@ { assert(l[11] == x); }
    if x == "nicole"@ { assert(l[12] == x); }
    if x == "sabrina"@ { assert(l[13] == x); }
    if x == "tangorpro"@ { assert(l[14] == x); }
}

/// An entry gives a device exactly where it has a codename and a name, is
/// not hidden and is not a left-out device; the device carries that codename
/// and name, the section's vendor, and no release date.
pub proof fn lemma_item_device_law(item: (Option<Seq<char>>, bool, Option<Seq<char>>), vendor: Seq<char>)
    ensures
        item_device(item, vendor) is Some <==> (item.0 is Some && item.2 is Some && !item.1
            && !denied_devices().contains(item.0->0)),
        item_device(item, vendor) matches Some(d) ==> d.codename == item.0->0 && d.name == item.2->0
            && d.vendor_id == vendor && d.release_date.len() == 0,
{
}

/// A vendor id is in the map exactly where some link carries it, and it
/// holds the text of the last such link.
pub proof fn lemma_links_to_map_law(links: Seq<(Option<Seq<char>>, Seq<char>)>)
    ensures
        forall|id: Seq<char>| #[trigger] links_to_map(links).contains_key(id) <==> exists|i: int|
            0 <= i < links.len() && (#[trigger] links[i]).0 == Some(id),
        forall|i: int| #![trigger links[i]]
            0 <= i < links.len() && links[i].0 is Some && (forall|j: int| i < j < links.len() ==> (#[trigger] links[j]).0 != links[i].0)
                ==> links_to_map(links)[links[i].0->0] == links[i].1,
    decreases links.len(),
{
    if links.len() > 0 {
        let shorter = links.drop_last();
        lemma_links_to_map_law(shorter);
        let n = links.len() - 1;
        assert forall|id: Seq<char>| #[trigger] links_to_map(links).contains_key(id) <==> exists|i: int|
            0 <= i < links.len() && (#[trigger] links[i]).0 == Some(id) by {
            if links_to_map(shorter).contains_key(id) {
                let i = choose|i: int| 0 <= i < shorter.len() && (#[trigger] shorter[i]).0 == Some(id);
                assert(links[i] == shorter[i]);
            }
            if exists|i: int| 0 <= i < links.len() && (#[trigger] links[i]).0 == Some(id) {
                let i = choose|i: int| 0 <= i < links.len() && (#[trigger] links[i]).0 == Some(id);
                if i < n {
                    assert(shorter[i] == links[i]);
                }
            }
        }
        assert forall|i: int| #![trigger links[i]]
            0 <= i < links.len() && links[i].0 is Some && (forall|j: int| i < j < links.len() ==> (#[trigger] links[j]).0 != links[i].0)
                implies links_to_map(links)[links[i].0->0] == links[i].1 by {
            if i < n {
                assert(links[i] == shorter[i]);
                assert(links[n].0 != links[i].0);
                assert forall|j: int| i < j < shorter.len() implies (#[trigger] shorter[j]).0 != shorter[i].0 by {
                    assert(shorter[j] == links[j]);
                }
            }
        }
    }
}

/// The devices of a section's entries are exactly the devices of its
/// entries that give one, each at most once per entry: every device comes
/// from an entry, and every entry that gives a device is represented.
pub proof fn lemma_items_devices_law(items: Seq<(Option<Seq<char>>, bool, Option<Seq<char>>)>, vendor: Seq<char>)
    ensures
        forall|k: int| #![trigger items_devices(items, vendor)[k]] 0 <= k < items_devices(items, vendor).len() ==> exists|i: int|
            0 <= i < items.len() && item_device(#[trigger] items[i], vendor) == Some(items_devices(items, vendor)[k]),
        forall|i: int| 0 <= i < items.len() && (#[trigger] item_device(items[i], vendor)) is Some ==> items_devices(
            items,
            vendor,
        ).contains(item_device(items[i], vendor)->0),
        items_devices(items, vendor).len() <= items.len(),
    decreases items.len(),
{
    if items.len() > 0 {
        let shorter = items.drop_last();
        lemma_items_devices_law(shorter, vendor);
        let before = items_devices(shorter, vendor);
        let all = items_devices(items, vendor);
        let n = items.len() - 1;
        assert forall|k: int| #![trigger all[k]] 0 <= k < all.len() implies exists|i: int|
            0 <= i < items.len() && item_device(#[trigger] items[i], vendor) == Some(all[k]) by {
            if k < before.len() {
                assert(all[k] == before[k]);
                let i = choose|i: int| 0 <= i < shorter.len() && item_device(#[trigger] shorter[i], vendor) == Some(before[k]);
                assert(items[i] == shorter[i]);
            } else {
                assert(item_device(items[n], vendor) == Some(all[k]));
            }
        }
        assert forall|i: int| 0 <= i < items.len() && (#[trigger] item_device(items[i], vendor)) is Some implies all.contains(
            item_device(items[i], vendor)->0,
        ) by {
            if i < n {
                assert(items[i] == shorter[i]);
                let d = item_device(items[i], vendor)->0;
                let k = choose|k: int| 0 <= k < before.len() && before[k] == d;
                assert(all[k] == d);
            } else {
                assert(all[all.len() - 1] == item_device(items[i], vendor)->0);
            }
        }
    }
}


/// Every device of the page comes from an entry that gives one in a section
/// of a listed vendor that is not left out, and every such entry's device is
/// among them.
/// Whether device `d` is given by an entry of a section of a listed vendor
/// that is not left out.
pub open spec fn from_taken_entry(
    groups: Seq<(Option<Seq<char>>, Seq<(Option<Seq<char>>, bool, Option<Seq<char>>)>)>,
    vendors: Map<Seq<char>, Seq<char>>,
    d: DeviceView,
) -> bool {
    exists|g: int, i: int|
        0 <= g < groups.len() && 0 <= i < groups[g].1.len() && groups[g].0 is Some
            && vendors.contains_key(groups[g].0->0) && !denied_vendors().contains(groups[g].0->0)
            && item_device(#[trigger] groups[g].1[i], groups[g].0->0) == Some(d)
}

#[verifier::rlimit(50)]
#[verifier::spinoff_prover]
pub proof fn lemma_groups_devices_law(
    groups: Seq<(Option<Seq<char>>, Seq<(Option<Seq<char>>, bool, Option<Seq<char>>)>)>,
    vendors: Map<Seq<char>, Seq<char>>,
)
    ensures
        forall|k: int| #![trigger groups_devices(groups, vendors)[k]]
            0 <= k < groups_devices(groups, vendors).len() ==> from_taken_entry(groups, vendors, groups_devices(groups, vendors)[k]),
        forall|g: int, i: int|
            0 <= g < groups.len() && 0 <= i < groups[g].1.len() && groups[g].0 is Some && vendors.contains_key(
                groups[g].0->0,
            ) && !denied_vendors().contains(groups[g].0->0) && (#[trigger] item_device(groups[g].1[i], groups[g].0->0)) is Some
                ==> groups_devices(groups, vendors).contains(item_device(groups[g].1[i], groups[g].0->0)->0),
    decreases groups.len(),
{
    if groups.len() > 0 {
        let shorter = groups.drop_last();
        lemma_groups_devices_law(shorter, vendors);
        let n = groups.len() - 1;
        let last = groups[n];
        let before = groups_devices(shorter, vendors);
        let all = groups_devices(groups, vendors);
        assert(groups.last() == last);
        if section_taken(last.0, vendors) {
            lemma_items_devices_law(last.1, last.0->0);
        }
        assert forall|k: int| #![trigger all[k]] 0 <= k < all.len() implies from_taken_entry(groups, vendors, all[k]) by {
            if k < before.len() {
                assert(all[k] == before[k]);
                assert(from_taken_entry(shorter, vendors, before[k]));
                let (g, i) = choose|g: int, i: int|
                    0 <= g < shorter.len() && 0 <= i < shorter[g].1.len() && shorter[g].0 is Some
                        && vendors.contains_key(shorter[g].0->0) && !denied_vendors().contains(shorter[g].0->0)
                        && item_device(#[trigger] shorter[g].1[i], shorter[g].0->0) == Some(before[k]);
                assert(groups[g] == shorter[g]);
                assert(item_device(groups[g].1[i], groups[g].0->0) == Some(all[k]));
            } else {
                assert(section_taken(last.0, vendors));
                let tail = items_devices(last.1, last.0->0);
                assert(all == before + tail);
                assert(all[k] == tail[k - before.len()]);
                let i = choose|i: int| 0 <= i < last.1.len() && item_device(#[trigger] last.1[i], last.0->0) == Some(tail[k - before.len()]);
                assert(item_device(groups[n].1[i], groups[n].0->0) == Some(all[k]));
                assert(0 <= n < groups.len() && 0 <= i < groups[n].1.len() && groups[n].0 is Some
                    && vendors.contains_key(groups[n].0->0) && !denied_vendors().contains(groups[n].0->0));
            }
        }
        assert forall|g: int, i: int|
            0 <= g < groups.len() && 0 <= i < groups[g].1.len() && groups[g].0 is Some && vendors.contains_key(
                groups[g].0->0,
            ) && !denied_vendors().contains(groups[g].0->0) && (#[trigger] item_device(groups[g].1[i], groups[g].0->0)) is Some
                implies all.contains(item_device(groups[g].1[i], groups[g].0->0)->0) by {
            let d = item_device(groups[g].1[i], groups[g].0->0)->0;
            if g < n {
                assert(groups[g] == shorter[g]);
                assert(before.contains(d));
                let k = choose|k: int| 0 <= k < before.len() && before[k] == d;
                assert(all[k] == d);
            } else {
                assert(section_taken(last.0, vendors));
                let tail = items_devices(last.1, last.0->0);
                assert(all == before + tail);
                assert(tail.contains(d));
                let k = choose|k: int| 0 <= k < tail.len() && tail[k] == d;
                assert(all[before.len() + k] == d);
            }
        }
    }
}

/// Every device taken from a section is of a listed vendor that is not
/// left out, and is itself not left out.
pub proof fn lemma_groups_devices_admissible(
    groups: Seq<(Option<Seq<char>>, Seq<(Option<Seq<char>>, bool, Option<Seq<char>>)>)>,
    vendors: Map<Seq<char>, Seq<char>>,
)
    ensures
        forall|k: int| #![trigger groups_devices(groups, vendors)[k]]
            0 <= k < groups_devices(groups, vendors).len() ==> {
                let d = groups_devices(groups, vendors)[k];
                &&& vendors.contains_key(d.vendor_id)
                &&& !denied_vendors().contains(d.vendor_id)
                &&& !denied_devices().contains(d.codename)
            },
    decreases groups.len(),
{
    if groups.len() > 0 {
        lemma_groups_devices_admissible(groups.drop_last(), vendors);
        let g = groups.last();
        let before = groups_devices(groups.drop_last(), vendors);
        let all = groups_devices(groups, vendors);
        if section_taken(g.0, vendors) {
            lemma_items_devices_admissible(g.1, g.0->0);
            let tail = items_devices(g.1, g.0->0);
            assert forall|k: int| #![trigger all[k]] 0 <= k < all.len() implies {
                let d = all[k];
                &&& vendors.contains_key(d.vendor_id)
                &&& !denied_vendors().contains(d.vendor_id)
                &&& !denied_devices().contains(d.codename)
            } by {
                if k < before.len() {
                    assert(all[k] == before[k]);
                } else {
                    assert(all[k] == tail[k - before.len()]);
                }
            }
        }
    }
}

proof fn lemma_items_devices_admissible(
    items: Seq<(Option<Seq<char>>, bool, Option<Seq<char>>)>,
    vendor: Seq<char>,
)
    ensures
        forall|k: int| #![trigger items_devices(items, vendor)[k]]
            0 <= k < items_devices(items, vendor).len() ==> {
                let d = items_devices(items, vendor)[k];
                &&& d.vendor_id == vendor
                &&& !denied_devices().contains(d.codename)
                &&& d.release_date.len() == 0
            },
    decreases items.len(),
{
    if items.len() > 0 {
        lemma_items_devices_admissible(items.drop_last(), vendor);
        let before = items_devices(items.drop_last(), vendor);
        let all = items_devices(items, vendor);
        assert forall|k: int| #![trigger all[k]] 0 <= k < all.len() implies {
            let d = all[k];
            &&& d.vendor_id == vendor
            &&& !denied_devices().contains(d.codename)
            &&& d.release_date.len() == 0
        } by {
            if k < before.len() {
                assert(all[k] == before[k]);
            }
        }
    }
}

/// The vendors and devices that the LineageOS device page `html` lists:
/// the devices of the sections of listed vendors that are not left out,
/// and the listed vendors that have at least one of those devices.
#[verifier::spinoff_prover]
pub fn parse_lineage(html: &str) -> (r: (VendorMap, Vec<Device>))
    ensures
        r.1@.map_values(|d: Device| d@) == groups_devices(
            html_device_groups(html@),
            links_to_map(html_vendor_links(html@)),
        ),
        r.0@ == links_to_map(html_vendor_links(html@)).restrict(device_vendor_ids(r.1@)),
        forall|k: int| 0 <= k < r.1@.len() ==> {
            &&& #[trigger] r.0@.contains_key(r.1@[k].vendor_id@)
            &&& !denied_vendors().contains(r.1@[k].vendor_id@)
            &&& !denied_devices().contains(r.1@[k].codename@)
        },
        forall|id: Seq<char>| #[trigger] r.0@.contains_key(id) ==> exists|k: int| 0 <= k < r.1@.len() && (#[trigger] r.1@[k]).vendor_id@ == id,
{
    let mut vendors = extract_vendors(html);
    let groups = scrape_device_groups(html);
    let devices = devices_from_groups(&groups, &vendors);
    let ghost listed = vendors@;
    vendors.retain_with_devices(&devices);
    proof {
        let views = devices@.map_values(|d: Device| d@);
        lemma_groups_devices_admissible(html_device_groups(html@), listed);
        assert forall|k: int| 0 <= k < devices@.len() implies {
            &&& #[trigger] vendors@.contains_key(devices@[k].vendor_id@)
            &&& !denied_vendors().contains(devices@[k].vendor_id@)
            &&& !denied_devices().contains(devices@[k].codename@)
        } by {
            assert(views[k] == devices@[k]@);
            assert(device_vendor_ids(devices@).contains(devices@[k].vendor_id@));
        }
        assert forall|id: Seq<char>| #[trigger] vendors@.contains_key(id) implies exists|k: int| 0 <= k < devices@.len() && (#[trigger] devices@[k]).vendor_id@ == id by {
            assert(device_vendor_ids(devices@).contains(id));
        }
    }
    (vendors, devices)
}

} // verus!
