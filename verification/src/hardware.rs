//! Vendors and devices, and a map of vendors keyed by their id.

use vstd::prelude::*;

verus! {

/// A device maker.
#[derive(Debug, Clone, PartialEq, Eq)]
pub struct Vendor {
    pub id: String,
    pub name: String,
}

/// One device model.
#[derive(Debug, Clone, PartialEq, Eq)]
pub struct Device {
    pub codename: String,
    pub name: String,
    pub vendor_id: String,
    pub release_date: String,
}

/// A device's fields as character sequences.
pub struct DeviceView {
    pub codename: Seq<char>,
    pub name: Seq<char>,
    pub vendor_id: Seq<char>,
    pub release_date: Seq<char>,
}

impl View for Device {
    type V = DeviceView;

    open spec fn view(&self) -> DeviceView {
        DeviceView {
            codename: self.codename@,
            name: self.name@,
            vendor_id: self.vendor_id@,
            release_date: self.release_date@,
        }
    }
}

impl Vendor {
    /// A field-by-field copy.
    pub fn duplicate(&self) -> (r: Vendor)
        ensures
            r == *self,
    {
        Vendor { id: self.id.clone(), name: self.name.clone() }
    }
}

impl Device {
    /// A field-by-field copy.
    pub fn duplicate(&self) -> (r: Device)
        ensures
            r == *self,
    {
        Device {
            codename: self.codename.clone(),
            name: self.name.clone(),
            vendor_id: self.vendor_id.clone(),
            release_date: self.release_date.clone(),
        }
    }
}

/// Vendors keyed by id; each vendor is stored under its own id, and an id
/// occurs at most once.
pub struct VendorMap {
    entries: Vec<Vendor>,
}

/// Whether some stored vendor has the id `k`.
pub open spec fn has_id(entries: Seq<Vendor>, k: Seq<char>) -> bool {
    exists|i: int| 0 <= i < entries.len() && (#[trigger] entries[i]).id@ == k
}

/// The vendor ids that the devices name.
pub open spec fn device_vendor_ids(devices: Seq<Device>) -> Set<Seq<char>> {
    Set::new(|k: Seq<char>| exists|i: int| 0 <= i < devices.len() && (#[trigger] devices[i]).vendor_id@ == k)
}

/// The index of the vendor with id `k` among `entries`.
pub open spec fn index_of_id(entries: Seq<Vendor>, k: Seq<char>) -> int {
    choose|i: int| 0 <= i < entries.len() && (#[trigger] entries[i]).id@ == k
}

/// The vendors of `entries` that some device names, in order.
pub open spec fn vendors_with_devices(entries: Seq<Vendor>, devices: Seq<Device>) -> Seq<Vendor>
    decreases entries.len(),
{
    if entries.len() == 0 {
        Seq::empty()
    } else {
        let before = vendors_with_devices(entries.drop_last(), devices);
        if device_vendor_ids(devices).contains(entries.last().id@) {
            before.push(entries.last())
        } else {
            before
        }
    }
}

/// The vendors kept are those of `entries` that some device names, in
/// their order: `entries` filtered by the device vendor ids.
pub proof fn lemma_vendors_with_devices_is_filter(entries: Seq<Vendor>, devices: Seq<Device>)
    ensures
        vendors_with_devices(entries, devices) == entries.filter(
            |v: Vendor| exists|i: int| 0 <= i < devices.len() && (#[trigger] devices[i]).vendor_id@ == v.id@,
        ),
    decreases entries.len(),
{
    reveal(Seq::filter);
    if entries.len() > 0 {
        lemma_vendors_with_devices_is_filter(entries.drop_last(), devices);
    }
}

impl VendorMap {
    #[verifier::type_invariant]
    spec fn inv(self) -> bool {
        forall|i: int, j: int|
            0 <= i < self.entries@.len() && 0 <= j < self.entries@.len() && i != j
                ==> (#[trigger] self.entries@[i]).id@ != (#[trigger] self.entries@[j]).id@
    }

    /// The stored vendors, in the order in which their ids were first inserted.
    pub closed spec fn entries_view(self) -> Seq<Vendor> {
        self.entries@
    }

    /// The map from each vendor id to the name of the vendor stored under it.
    pub closed spec fn view(self) -> Map<Seq<char>, Seq<char>> {
        Map::new(
            |k: Seq<char>| has_id(self.entries@, k),
            |k: Seq<char>|
                self.entries@[choose|i: int|
                    0 <= i < self.entries@.len() && (#[trigger] self.entries@[i]).id@ == k].name@,
        )
    }

    proof fn lemma_keyed_by_id(self)
        requires
            self.inv(),
        ensures
            forall|i: int|
                0 <= i < self.entries_view().len() ==> #[trigger] self@.contains_key(
                    self.entries_view()[i].id@,
                ) && self@[self.entries_view()[i].id@] == self.entries_view()[i].name@,
            forall|i: int, j: int|
                0 <= i < self.entries_view().len() && 0 <= j < self.entries_view().len() && i != j
                    ==> (#[trigger] self.entries_view()[i]).id@ != (#[trigger] self.entries_view()[j]).id@,
    {
        assert forall|i: int| 0 <= i < self.entries_view().len() implies #[trigger] self@.contains_key(
            self.entries_view()[i].id@,
        ) && self@[self.entries_view()[i].id@] == self.entries_view()[i].name@ by {
            let k = self.entries@[i].id@;
            assert(has_id(self.entries@, k));
            let j = choose|j: int| 0 <= j < self.entries@.len() && (#[trigger] self.entries@[j]).id@ == k;
            assert(i == j);
        }
    }

    /// The empty map.
    pub fn new() -> (r: VendorMap)
        ensures
            r@ == Map::<Seq<char>, Seq<char>>::empty(),
            r.entries_view().len() == 0,
    {
        let r = VendorMap { entries: Vec::new() };
        assert(r@ =~= Map::<Seq<char>, Seq<char>>::empty());
        r
    }

    fn index_of(&self, id: &String) -> (r: Option<usize>)
        ensures
            match r {
                Some(i) => i < self.entries@.len() && self.entries@[i as int].id@ == id@,
                None => !has_id(self.entries@, id@),
            },
    {
        let mut i: usize = 0;
        while i < self.entries.len()
            invariant
                i <= self.entries@.len(),
                forall|j: int| 0 <= j < i ==> (#[trigger] self.entries@[j]).id@ != id@,
            decreases self.entries.len() - i,
        {
            if self.entries[i].id == *id {
                return Some(i);
            }
            i += 1;
        }
        None
    }

    /// The name of the vendor stored under `id`, or the empty string where
    /// there is none.
    pub fn name_of(&self, id: &String) -> (r: String)
        ensures
            r@ == if self@.contains_key(id@) { self@[id@] } else { Seq::<char>::empty() },
    {
        proof {
            use_type_invariant(self);
            self.lemma_keyed_by_id();
        }
        match self.index_of(id) {
            Some(i) => self.entries[i].name.clone(),
            None => String::new(),
        }
    }

    /// Whether a vendor is stored under `id`.
    pub fn contains_key(&self, id: &String) -> (r: bool)
        ensures
            r == self@.contains_key(id@),
    {
        self.index_of(id).is_some()
    }

    /// Stores `vendor` under its id, replacing any vendor stored there before.
    /// A new id goes after those stored; a stored one keeps its place.
    pub fn insert(&mut self, vendor: Vendor)
        ensures
            final(self)@ == old(self)@.insert(vendor.id@, vendor.name@),
            !old(self)@.contains_key(vendor.id@) ==> final(self).entries_view() == old(
                self,
            ).entries_view().push(vendor),
            old(self)@.contains_key(vendor.id@) ==> final(self).entries_view() == old(
                self,
            ).entries_view().update(index_of_id(old(self).entries_view(), vendor.id@), vendor),
    {
        proof {
            use_type_invariant(&*self);
        }
        let ghost old_entries = self.entries@;
        let ghost key = vendor.id@;
        let ghost v = vendor;
        match self.index_of(&vendor.id) {
            Some(i) => {
                let mut entries = Vec::new();
                std::mem::swap(&mut entries, &mut self.entries);
                entries.set(i, vendor);
                self.entries = entries;
                assert(self.entries@ == old_entries.update(i as int, v));
                assert forall|a: int, b: int|
                    0 <= a < self.entries@.len() && 0 <= b < self.entries@.len() && a != b
                        implies (#[trigger] self.entries@[a]).id@ != (#[trigger] self.entries@[b]).id@ by {
                    if a != i && b != i {
                        assert(old_entries[a].id@ != old_entries[b].id@);
                    } else if a == i {
                        assert(old_entries[i as int].id@ != old_entries[b].id@);
                    } else {
                        assert(old_entries[a].id@ != old_entries[i as int].id@);
                    }
                }
            },
            None => {
                let mut entries = Vec::new();
                std::mem::swap(&mut entries, &mut self.entries);
                entries.push(vendor);
                self.entries = entries;
                assert(self.entries@ == old_entries.push(v));
                assert forall|a: int, b: int|
                    0 <= a < self.entries@.len() && 0 <= b < self.entries@.len() && a != b
                        implies (#[trigger] self.entries@[a]).id@ != (#[trigger] self.entries@[b]).id@ by {
                    if a < old_entries.len() && b < old_entries.len() {
                        assert(old_entries[a].id@ != old_entries[b].id@);
                    } else if a < old_entries.len() {
                        assert(old_entries[a] == self.entries@[a]);
                    } else {
                        assert(old_entries[b] == self.entries@[b]);
                    }
                }
            },
        }
        proof {
            let new_map = self@;
            let want = old(self)@.insert(key, v.name@);
            assert forall|k: Seq<char>| new_map.contains_key(k) <==> want.contains_key(k) by {
                if k != key && has_id(self.entries@, k) {
                    let j = choose|j: int| 0 <= j < self.entries@.len() && (#[trigger] self.entries@[j]).id@ == k;
                    assert(old_entries[j].id@ == k);
                }
                if k != key && has_id(old_entries, k) {
                    let j = choose|j: int| 0 <= j < old_entries.len() && (#[trigger] old_entries[j]).id@ == k;
                    assert(self.entries@[j].id@ == k);
                }
                if k == key {
                    let j = if self.entries@.len() > old_entries.len() { old_entries.len() as int } else {
                        choose|j: int| 0 <= j < old_entries.len() && (#[trigger] old_entries[j]).id@ == k
                    };
                    assert(self.entries@[j].id@ == k);
                }
            }
            assert forall|k: Seq<char>| new_map.contains_key(k) implies new_map[k] == want[k] by {
                let j = choose|j: int| 0 <= j < self.entries@.len() && (#[trigger] self.entries@[j]).id@ == k;
                if k == key {
                    assert(self.entries@[j] == v);
                } else {
                    assert(old_entries[j].id@ == k);
                    let j2 = choose|j2: int| 0 <= j2 < old_entries.len() && (#[trigger] old_entries[j2]).id@ == k;
                    assert(self.entries@[j2].id@ == k);
                    assert(j == j2);
                }
            }
            assert(new_map =~= want);
        }
    }

    /// Keeps only the vendors that some device in `devices` names as its
    /// vendor; the kept ones stay in their order.
    pub fn retain_with_devices(&mut self, devices: &Vec<Device>)
        ensures
            final(self)@ == old(self)@.restrict(device_vendor_ids(devices@)),
            final(self).entries_view() == vendors_with_devices(old(self).entries_view(), devices@),
    {
        proof {
            use_type_invariant(&*self);
        }
        let ghost old_entries = self.entries@;
        let mut kept: Vec<Vendor> = Vec::new();
        let ghost mut idx: Seq<int> = Seq::empty();
        let mut entries = Vec::new();
        std::mem::swap(&mut entries, &mut self.entries);
        let mut i: usize = 0;
        while i < entries.len()
            invariant
                entries@ == old_entries,
                i <= entries@.len(),
                idx.len() == kept@.len(),
                forall|a: int| 0 <= a < idx.len() ==> 0 <= #[trigger] idx[a] < i,
                forall|a: int, b: int| 0 <= a < b < idx.len() ==> #[trigger] idx[a] < #[trigger] idx[b],
                forall|a: int| 0 <= a < idx.len() ==> kept@[a] == old_entries[#[trigger] idx[a]],
                forall|a: int| 0 <= a < idx.len() ==> device_vendor_ids(devices@).contains(
                    (#[trigger] kept@[a]).id@,
                ),
                forall|j: int|
                    0 <= j < i && device_vendor_ids(devices@).contains((#[trigger] old_entries[j]).id@)
                        ==> exists|a: int| 0 <= a < idx.len() && idx[a] == j,
                forall|x: int, y: int|
                    0 <= x < old_entries.len() && 0 <= y < old_entries.len() && x != y
                        ==> (#[trigger] old_entries[x]).id@ != (#[trigger] old_entries[y]).id@,
                kept@ == vendors_with_devices(old_entries.take(i as int), devices@),
            decreases entries.len() - i,
        {
            let mut used = false;
            let mut d: usize = 0;
            while d < devices.len()
                invariant
                    entries@ == old_entries,
                    i < entries@.len(),
                    d <= devices@.len(),
                    used <==> exists|e: int| 0 <= e < d && (#[trigger] devices@[e]).vendor_id@ == old_entries[i as int].id@,
                decreases devices.len() - d,
            {
                if devices[d].vendor_id == entries[i].id {
                    used = true;
                }
                d += 1;
            }
            let ghost old_idx = idx;
            assert(old_entries.take(i + 1).drop_last() =~= old_entries.take(i as int));
            assert(old_entries.take(i + 1).last() == old_entries[i as int]);
            assert(used <==> device_vendor_ids(devices@).contains(old_entries[i as int].id@));
            if used {
                let v = entries[i].duplicate();
                kept.push(v);
                proof {
                    idx = idx.push(i as int);
                    assert(idx[idx.len() - 1] == i);
                }
            } else {
                assert(!device_vendor_ids(devices@).contains(old_entries[i as int].id@));
            }
            proof {
                assert forall|j: int|
                    0 <= j < i + 1 && device_vendor_ids(devices@).contains((#[trigger] old_entries[j]).id@)
                        implies exists|a: int| 0 <= a < idx.len() && idx[a] == j by {
                    if j < i {
                        let a = choose|a: int| 0 <= a < old_idx.len() && old_idx[a] == j;
                        assert(idx[a] == j);
                    } else {
                        assert(idx[idx.len() - 1] == j);
                    }
                }
            }
            i += 1;
        }
        assert(old_entries.take(i as int) =~= old_entries);
        proof {
            let new_entries = kept@;
            assert forall|a: int, b: int|
                0 <= a < new_entries.len() && 0 <= b < new_entries.len() && a != b
                    implies (#[trigger] new_entries[a]).id@ != (#[trigger] new_entries[b]).id@ by {
                if a < b {
                    assert(idx[a] < idx[b]);
                } else {
                    assert(idx[b] < idx[a]);
                }
            }
        }
        self.entries = kept;
        proof {
            let new_entries = self.entries@;
            let want = old(self)@.restrict(device_vendor_ids(devices@));
            assert forall|k: Seq<char>| self@.contains_key(k) <==> want.contains_key(k) by {
                if has_id(new_entries, k) {
                    let a = choose|a: int| 0 <= a < new_entries.len() && (#[trigger] new_entries[a]).id@ == k;
                    assert(old_entries[idx[a]].id@ == k);
                }
                if want.contains_key(k) {
                    let j = choose|j: int| 0 <= j < old_entries.len() && (#[trigger] old_entries[j]).id@ == k;
                    let a = choose|a: int| 0 <= a < idx.len() && idx[a] == j;
                    assert(new_entries[a].id@ == k);
                }
            }
            assert forall|k: Seq<char>| self@.contains_key(k) implies self@[k] == want[k] by {
                let a = choose|a: int| 0 <= a < new_entries.len() && (#[trigger] new_entries[a]).id@ == k;
                assert(old_entries[idx[a]].id@ == k);
                assert(has_id(old_entries, k));
                let j = choose|j: int| 0 <= j < old_entries.len() && (#[trigger] old_entries[j]).id@ == k;
                assert(idx[a] == j);
            }
            assert(self@ =~= want);
        }
    }

    /// The stored vendors, in the order in which their ids were first inserted.
    /// Each is held in the map under its id, and no id occurs twice.
    pub fn entries(&self) -> (r: &Vec<Vendor>)
        ensures
            r@ == self.entries_view(),
            forall|i: int|
                0 <= i < r@.len() ==> #[trigger] self@.contains_key(r@[i].id@) && self@[r@[i].id@]
                    == r@[i].name@,
            forall|i: int, j: int|
                0 <= i < r@.len() && 0 <= j < r@.len() && i != j ==> (#[trigger] r@[i]).id@
                    != (#[trigger] r@[j]).id@,
            forall|k: Seq<char>| #[trigger] self@.contains_key(k) ==> exists|i: int| 0 <= i < r@.len() && (#[trigger] r@[i]).id@ == k,
    {
        proof {
            use_type_invariant(self);
            self.lemma_keyed_by_id();
        }
        &self.entries
    }

    /// The number of stored vendors.
    pub fn len(&self) -> (r: usize)
        ensures
            r == self.entries_view().len(),
    {
        self.entries.len()
    }
}

} // verus!
