//! The declared devices: each device number with its display name, in the
//! order of declaration. A device's place in that order fixes the five
//! table columns reserved for it.

use vstd::prelude::*;
use crate::text::{cells, parse_small_number, small_number, split, split_fields, trim, trimmed, COLON, COMMA};

verus! {

/// Columns reserved for one device: time, x, y, z and a blank spacer.
pub const BLOCK: usize = 5;

/// A declared device.
#[derive(Debug)]
pub struct Device {
    pub id: u8,
    pub name: Vec<u8>,
}

/// A device as its number and the text of its name.
pub ghost struct DeviceView {
    pub id: u8,
    pub name: Seq<u8>,
}

impl View for Device {
    type V = DeviceView;

    open spec fn view(&self) -> DeviceView {
        DeviceView { id: self.id, name: self.name@ }
    }
}

/// The declared devices in the order of their declaration, no number
/// twice.
#[derive(Debug)]
pub struct Registry {
    devices: Vec<Device>,
}

/// The first place at or after `from` that holds the device `id`.
pub open spec fn index_of(ds: Seq<DeviceView>, id: u8, from: int) -> Option<int>
    decreases ds.len() - from,
{
    if from < 0 || from >= ds.len() {
        None
    } else if ds[from].id == id {
        Some(from)
    } else {
        index_of(ds, id, from + 1)
    }
}

/// No device number is declared twice.
pub open spec fn distinct(ds: Seq<DeviceView>) -> bool {
    forall|i: int, j: int| 0 <= i < j < ds.len() ==> ds[i].id != ds[j].id
}

/// What `index_of` finds is a place of `id`, and it finds nothing only
/// where `id` has no place.
pub proof fn lemma_index_of(ds: Seq<DeviceView>, id: u8, from: int)
    requires
        0 <= from,
    ensures
        match index_of(ds, id, from) {
            Some(p) => from <= p < ds.len() && ds[p].id == id,
            None => forall|i: int| from <= i < ds.len() ==> ds[i].id != id,
        },
    decreases ds.len() - from,
{
    if from < ds.len() && ds[from].id != id {
        lemma_index_of(ds, id, from + 1);
    }
}

/// Distinct numbers below `k` are at most `k` in count.
proof fn lemma_distinct_bound(s: Seq<u8>, k: int)
    requires
        0 <= k <= 256,
        forall|i: int| 0 <= i < s.len() ==> (#[trigger] s[i]) < k,
        forall|i: int, j: int| 0 <= i < j < s.len() ==> s[i] != s[j],
    ensures
        s.len() <= k,
    decreases k,
{
    if k == 0 {
        if s.len() > 0 {
            assert(s[0] < 0);
        }
    } else if exists|p: int| 0 <= p < s.len() && s[p] == k - 1 {
        let p = choose|p: int| 0 <= p < s.len() && s[p] == k - 1;
        let t = s.remove(p);
        assert forall|i: int| 0 <= i < t.len() implies (#[trigger] t[i]) < k - 1 by {
            let j = if i < p { i } else { i + 1 };
            assert(t[i] == s[j]);
            assert(s[j] < k);
            if j < p {
                assert(s[j] != s[p]);
            } else {
                assert(s[p] != s[j]);
            }
        }
        assert forall|i: int, j: int| 0 <= i < j < t.len() implies t[i] != t[j] by {
            let a = if i < p { i } else { i + 1 };
            let b = if j < p { j } else { j + 1 };
            assert(t[i] == s[a] && t[j] == s[b]);
        }
        lemma_distinct_bound(t, k - 1);
    } else {
        assert forall|i: int| 0 <= i < s.len() implies (#[trigger] s[i]) < k - 1 by {
            assert(s[i] < k);
        }
        lemma_distinct_bound(s, k - 1);
    }
}

/// A registry of distinct device numbers holds at most 256 devices.
pub proof fn lemma_registry_bound(ds: Seq<DeviceView>)
    requires
        distinct(ds),
    ensures
        ds.len() <= 256,
{
    let s = ds.map_values(|d: DeviceView| d.id);
    assert forall|i: int, j: int| 0 <= i < j < s.len() implies s[i] != s[j] by {
        assert(s[i] == ds[i].id && s[j] == ds[j].id);
    }
    lemma_distinct_bound(s, 256);
}

impl View for Registry {
    type V = Seq<DeviceView>;

    closed spec fn view(&self) -> Seq<DeviceView> {
        self.devices@.map_values(|d: Device| d@)
    }
}

impl Registry {
    /// No device number is declared at two places.
    pub open spec fn wf(&self) -> bool {
        distinct(self@)
    }

    /// A registry without devices.
    pub fn new() -> (r: Registry)
        ensures
            r.wf(),
            r@.len() == 0,
    {
        Registry { devices: Vec::new() }
    }

    /// The number of declared devices.
    pub fn len(&self) -> (n: usize)
        ensures
            n == self@.len(),
    {
        self.devices.len()
    }

    /// The device declared at place `i`.
    pub fn device(&self, i: usize) -> (d: &Device)
        requires
            i < self@.len(),
        ensures
            d@ == self@[i as int],
    {
        &self.devices[i]
    }

    /// The place at which `id` was declared.
    pub fn position(&self, id: u8) -> (r: Option<usize>)
        ensures
            r.is_some() <==> index_of(self@, id, 0).is_some(),
            r matches Some(p) ==> index_of(self@, id, 0) == Some(p as int),
    {
        let mut i: usize = 0;
        while i < self.devices.len()
            invariant
                i <= self.devices@.len(),
                index_of(self@, id, 0) == index_of(self@, id, i as int),
            decreases self.devices.len() - i,
        {
            if self.devices[i].id == id {
                return Some(i);
            }
            i += 1;
        }
        None
    }

    /// The first of the five columns reserved for `id`: five times its
    /// place in the order of declaration.
    pub fn column_offset(&self, id: u8) -> (r: Option<usize>)
        requires
            self.wf(),
        ensures
            r.is_some() <==> index_of(self@, id, 0).is_some(),
            r matches Some(off) ==> index_of(self@, id, 0) == Some(off as int / 5) && off % 5
                == 0,
    {
        match self.position(id) {
            Some(p) => {
                proof {
                    lemma_index_of(self@, id, 0);
                    lemma_registry_bound(self@);
                }
                Some(p * BLOCK)
            },
            None => None,
        }
    }

    /// Declares a device and gives its place. A number declared before
    /// keeps its place and takes the new name.
    pub fn register(&mut self, id: u8, name: Vec<u8>) -> (place: usize)
        requires
            old(self).wf(),
        ensures
            final(self).wf(),
            match index_of(old(self)@, id, 0) {
                Some(p) => place == p && final(self)@ == old(self)@.update(
                    p,
                    DeviceView { id, name: name@ },
                ),
                None => place == old(self)@.len() && final(self)@ == old(self)@.push(
                    DeviceView { id, name: name@ },
                ),
            },
    {
        let ghost before = self@;
        proof {
            lemma_index_of(before, id, 0);
        }
        match self.position(id) {
            Some(p) => {
                self.devices.set(p, Device { id, name });
                proof {
                    assert(self@ =~= before.update(p as int, DeviceView { id, name: name@ }));
                }
                p
            },
            None => {
                let place: usize = self.devices.len();
                self.devices.push(Device { id, name });
                proof {
                    assert(self@ =~= before.push(DeviceView { id, name: name@ }));
                }
                place
            },
        }
    }
}

/// Why a line of device declarations was refused, with the position of
/// the entry at fault.
#[derive(Debug, PartialEq, Eq)]
pub enum DeclarationError {
    /// The entry does not start with a device number from 0 to 255.
    BadNumber { entry: usize },
    /// The entry has no colon, and so no name.
    NoName { entry: usize },
}

/// What one entry of a declaration line writes.
pub ghost enum Entry {
    Declares(DeviceView),
    BadNumber,
    NoName,
}

/// An entry is a device number, a colon and a name; whitespace around the
/// number and around the name does not count, and what follows a second
/// colon is ignored.
pub open spec fn entry_of(part: Seq<u8>) -> Entry {
    let sub = split(part, COLON);
    match small_number(trimmed(sub[0])) {
        None => Entry::BadNumber,
        Some(id) => if sub.len() < 2 {
            Entry::NoName
        } else {
            Entry::Declares(DeviceView { id, name: trimmed(sub[1]) })
        },
    }
}

/// The devices after `d` was declared.
pub open spec fn declare(ds: Seq<DeviceView>, d: DeviceView) -> Seq<DeviceView> {
    match index_of(ds, d.id, 0) {
        Some(p) => ds.update(p, d),
        None => ds.push(d),
    }
}

/// The devices that the first `n` entries declare, or the first fault
/// among them.
pub open spec fn declared(parts: Seq<Seq<u8>>, n: int) -> Result<
    Seq<DeviceView>,
    DeclarationError,
>
    decreases n,
{
    if n <= 0 {
        Ok(Seq::empty())
    } else {
        match declared(parts, n - 1) {
            Err(e) => Err(e),
            Ok(ds) => match entry_of(parts[n - 1]) {
                Entry::Declares(d) => Ok(declare(ds, d)),
                Entry::BadNumber => Err(DeclarationError::BadNumber { entry: (n - 1) as usize }),
                Entry::NoName => Err(DeclarationError::NoName { entry: (n - 1) as usize }),
            },
        }
    }
}

/// Once an entry is at fault, that fault stands for every longer run.
proof fn lemma_fault_stands(parts: Seq<Seq<u8>>, n: int, m: int)
    requires
        0 <= n <= m,
        declared(parts, n).is_err(),
    ensures
        declared(parts, m) == declared(parts, n),
    decreases m - n,
{
    if n < m {
        lemma_fault_stands(parts, n, m - 1);
    }
}

/// Reads a line of device declarations: entries of the form
/// `number:name`, separated by commas.
pub fn parse_devices(line: &[u8]) -> (r: Result<Registry, DeclarationError>)
    ensures
        match r {
            Ok(registry) => registry.wf() && declared(
                split(line@, COMMA),
                split(line@, COMMA).len() as int,
            ) == Ok::<Seq<DeviceView>, DeclarationError>(registry@),
            Err(e) => declared(split(line@, COMMA), split(line@, COMMA).len() as int) == Err::<
                Seq<DeviceView>,
                DeclarationError,
            >(e),
        },
{
    let parts = split_fields(line, COMMA);
    let mut registry = Registry::new();
    let mut i: usize = 0;
    proof {
        assert(registry@ =~= Seq::empty());
    }
    while i < parts.len()
        invariant
            i <= parts@.len(),
            cells(parts@) == split(line@, COMMA),
            registry.wf(),
            declared(cells(parts@), i as int) == Ok::<Seq<DeviceView>, DeclarationError>(
                registry@,
            ),
        decreases parts.len() - i,
    {
        let sub = split_fields(parts[i].as_slice(), COLON);
        let first = trim(sub[0].as_slice());
        proof {
            assert(cells(parts@)[i as int] == parts@[i as int]@);
            assert(cells(sub@)[0] == sub@[0]@);
        }
        let id: u8 = match parse_small_number(first.as_slice()) {
            Some(v) => v,
            None => {
                proof {
                    lemma_fault_stands(cells(parts@), i + 1, parts@.len() as int);
                }
                return Err(DeclarationError::BadNumber { entry: i });
            },
        };
        if sub.len() < 2 {
            proof {
                lemma_fault_stands(cells(parts@), i + 1, parts@.len() as int);
            }
            return Err(DeclarationError::NoName { entry: i });
        }
        let name = trim(sub[1].as_slice());
        proof {
            assert(cells(sub@)[1] == sub@[1]@);
        }
        registry.register(id, name);
        i += 1;
    }
    Ok(registry)
}

} // verus!
