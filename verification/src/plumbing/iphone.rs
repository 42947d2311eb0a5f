//! iPhone models from the release list of the endoflife.date API.

use vstd::prelude::*;
use crate::hardware::Device;
use crate::text::{
    ascii_lowercase, lemma_ascii_lowercase_law, lemma_replace_char_law, replace_char, replace_char_in,
    str_concat, to_ascii_lowercase,
};

verus! {

/// Where the release list is published.
pub const IPHONE_API_URL: &'static str = "https://endoflife.date/api/v1/products/iphone/";

/// One release entry of the API.
#[derive(Debug, Clone, PartialEq, Eq)]
pub struct IphoneRelease {
    pub label: String,
    pub release_date: String,
    pub is_maintained: bool,
}

/// The codename of the iPhone with this release label: `iphone-` and the
/// label in ASCII lowercase with its spaces made dashes.
pub open spec fn iphone_codename(label: Seq<char>) -> Seq<char> {
    "iphone-"@ + replace_char(ascii_lowercase(label), ' ', '-')
}

/// The codename is `iphone-` followed by the label, character for
/// character: a space becomes `-`, an ASCII uppercase letter becomes its
/// lowercase form, anything else stays; so it holds no ASCII uppercase letter
/// and no space.
pub proof fn lemma_iphone_codename_law(label: Seq<char>)
    ensures
        iphone_codename(label).len() == 7 + label.len(),
        iphone_codename(label).take(7) == "iphone-"@,
        forall|i: int| #![trigger iphone_codename(label)[7 + i]]
            0 <= i < label.len() ==> {
                let c = iphone_codename(label)[7 + i];
                &&& c != ' '
                &&& !('A' <= c && c <= 'Z')
                &&& label[i] == ' ' ==> c == '-'
                &&& ('A' <= label[i] && label[i] <= 'Z') ==> c as u32 == label[i] as u32 + 32
                &&& (label[i] != ' ' && !('A' <= label[i] && label[i] <= 'Z')) ==> c == label[i]
            },
{
    let prefix = "iphone-"@;
    assert(prefix.len() == 7) by {
        reveal_strlit("iphone-");
    }
    let lower = ascii_lowercase(label);
    lemma_ascii_lowercase_law(label);
    lemma_replace_char_law(lower, ' ', '-');
    let code = iphone_codename(label);
    assert(code.take(7) =~= prefix);
    assert forall|i: int| #![trigger iphone_codename(label)[7 + i]] 0 <= i < label.len() implies {
        let c = iphone_codename(label)[7 + i];
        &&& c != ' '
        &&& !('A' <= c && c <= 'Z')
        &&& label[i] == ' ' ==> c == '-'
        &&& ('A' <= label[i] && label[i] <= 'Z') ==> c as u32 == label[i] as u32 + 32
        &&& (label[i] != ' ' && !('A' <= label[i] && label[i] <= 'Z')) ==> c == label[i]
    } by {
        assert(code[7 + i] == replace_char(lower, ' ', '-')[i]);
        assert(lower[i] == ascii_lowercase(label)[i]);
    }
}

/// The device record of a release is named `iPhone <label>`, is made by
/// `apple`, has the release's date, and has the codename derived from the
/// label as `lemma_iphone_codename_law` describes.
pub proof fn lemma_iphone_device_law(d: Device, release: IphoneRelease)
    requires
        is_iphone_device(d, release),
    ensures
        d.name@ == "iPhone "@ + release.label@,
        d.vendor_id@ == "apple"@,
        d.release_date@ == release.release_date@,
        d.codename@ == "iphone-"@ + replace_char(ascii_lowercase(release.label@), ' ', '-'),
{
}

/// Whether `d` is the device record for `release`.
pub open spec fn is_iphone_device(d: Device, release: IphoneRelease) -> bool {
    &&& d.codename@ == iphone_codename(release.label@)
    &&& d.name@ == "iPhone "@ + release.label@
    &&& d.vendor_id@ == "apple"@
    &&& d.release_date@ == release.release_date@
}

/// The device record of one release.
pub fn device_from_release(release: &IphoneRelease) -> (d: Device)
    ensures
        is_iphone_device(d, *release),
{
    let lower = to_ascii_lowercase(release.label.as_str());
    let dashed = replace_char_in(lower.as_str(), ' ', '-');
    Device {
        codename: str_concat("iphone-", dashed.as_str()),
        name: str_concat("iPhone ", release.label.as_str()),
        vendor_id: "apple".to_owned(),
        release_date: release.release_date.clone(),
    }
}

/// One device record per release, in release order.
pub fn devices_from_releases(releases: &Vec<IphoneRelease>) -> (r: Vec<Device>)
    ensures
        r@.len() == releases@.len(),
        forall|i: int| 0 <= i < r@.len() ==> is_iphone_device(#[trigger] r@[i], releases@[i]),
{
    let mut out: Vec<Device> = Vec::new();
    let mut i: usize = 0;
    while i < releases.len()
        invariant
            i <= releases@.len(),
            out@.len() == i,
            forall|k: int| 0 <= k < i ==> is_iphone_device(#[trigger] out@[k], releases@[k]),
        decreases releases.len() - i,
    {
        let d = device_from_release(&releases[i]);
        out.push(d);
        i += 1;
    }
    out
}

} // verus!
