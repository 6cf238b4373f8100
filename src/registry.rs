//! The registrations that an authority collects for the coming epoch.
use crate::allocation::AllocationRequest;
use crate::apitypes::RelayKey;
use vstd::prelude::*;

verus! {

/// One registered relay: its allocation request and where it listens.
#[derive(Debug)]
pub struct Registration {
    pub request: AllocationRequest,
    pub address: String,
    pub port: u16,
}

/// The registrations, at most one per relay key, in the order in which the keys first came. Each
/// registration takes the next request id.
#[derive(Debug)]
pub struct RelayRegistry {
    entries: Vec<Registration>,
    counter: u32,
}

fn keys_equal(a: &RelayKey, b: &RelayKey) -> (r: bool)
    ensures
        r == (a@ == b@),
{
    let mut i: usize = 0;
    while i < 16
        invariant
            i <= 16,
            a@.len() == 16,
            b@.len() == 16,
            forall|k: int| 0 <= k < i ==> a@[k] == b@[k],
        decreases 16 - i,
    {
        if a[i] != b[i] {
            return false;
        }
        i = i + 1;
    }
    assert(a@ =~= b@);
    true
}

impl RelayRegistry {
    /// The allocation requests, in the order of the registrations.
    pub closed spec fn requests_view(&self) -> Seq<AllocationRequest> {
        self.entries@.map_values(|e: Registration| e.request)
    }

    /// The id that the next registration takes.
    pub closed spec fn next_id(&self) -> nat {
        self.counter as nat
    }

    /// No two registrations share a key.
    pub open spec fn wf(&self) -> bool {
        forall|i: int, j: int|
            0 <= i < j < self.requests_view().len() ==> (#[trigger] self.requests_view()[i]).key@
                != (#[trigger] self.requests_view()[j]).key@
    }

    pub fn new() -> (r: RelayRegistry)
        ensures
            r.wf(),
            r.requests_view().len() == 0,
            r.next_id() == 0,
    {
        let r = RelayRegistry { entries: Vec::new(), counter: 0 };
        assert(r.requests_view() =~= Seq::<AllocationRequest>::empty());
        r
    }

    pub fn len(&self) -> (r: usize)
        ensures
            r == self.requests_view().len(),
    {
        self.entries.len()
    }

    /// The position of the registration with this key.
    pub fn position(&self, key: &RelayKey) -> (r: Option<usize>)
        ensures
            r matches Some(i) ==> i < self.requests_view().len() && self.requests_view()[i as int].key@ == key@,
            r is None ==> forall|i: int|
                0 <= i < self.requests_view().len() ==> (#[trigger] self.requests_view()[i]).key@ != key@,
    {
        let mut i: usize = 0;
        while i < self.entries.len()
            invariant
                i <= self.entries.len(),
                forall|k: int| 0 <= k < i ==> (#[trigger] self.requests_view()[k]).key@ != key@,
            decreases self.entries.len() - i,
        {
            if keys_equal(&self.entries[i].request.key, key) {
                return Some(i);
            }
            i = i + 1;
        }
        None
    }

    /// The registration at a position.
    pub fn entry(&self, i: usize) -> (r: &Registration)
        requires
            i < self.requests_view().len(),
        ensures
            r.request == self.requests_view()[i as int],
    {
        &self.entries[i]
    }

    /// Registers a relay under the next id, replacing an earlier registration with the same key.
    /// Returns false, and changes nothing, when the ids have run out.
    pub fn insert(&mut self, key: RelayKey, address: String, port: u16, weight: u32) -> (r: bool)
        requires
            old(self).wf(),
        ensures
            final(self).wf(),
            !r <==> old(self).next_id() == u32::MAX,
            !r ==> final(self).requests_view() == old(self).requests_view() && final(self).next_id()
                == old(self).next_id(),
            r ==> final(self).next_id() == old(self).next_id() + 1,
            r ==> ({
                let request = AllocationRequest {
                    id: old(self).next_id() as u32,
                    key,
                    weight: weight as u64,
                };
                (exists|i: int|
                    0 <= i < old(self).requests_view().len() && (#[trigger] old(self).requests_view()[i]).key@
                        == key@ && final(self).requests_view() == old(self).requests_view().update(
                        i,
                        request,
                    )) || ((forall|i: int|
                    0 <= i < old(self).requests_view().len() ==> (#[trigger] old(self).requests_view()[i]).key@
                        != key@) && final(self).requests_view() == old(self).requests_view().push(
                    request,
                ))
            }),
    {
        if self.counter == u32::MAX {
            return false;
        }
        let request = AllocationRequest { id: self.counter, key, weight: weight as u64 };
        self.counter = self.counter + 1;
        let registration = Registration { request, address, port };
        assert(self.requests_view() =~= old(self).requests_view());
        let ghost before = old(self).requests_view();
        match self.position(&key) {
            Some(i) => {
                self.entries.set(i, registration);
                assert(self.requests_view() =~= before.update(i as int, request));
                assert(before[i as int].key@ == key@);
                assert forall|a: int, b: int|
                    0 <= a < b < self.requests_view().len() implies (#[trigger] self.requests_view()[a]).key@
                    != (#[trigger] self.requests_view()[b]).key@ by {
                    assert(before[a].key@ != before[b].key@);
                }
            },
            None => {
                self.entries.push(registration);
                assert(self.requests_view() =~= before.push(request));
                assert forall|a: int, b: int|
                    0 <= a < b < self.requests_view().len() implies (#[trigger] self.requests_view()[a]).key@
                    != (#[trigger] self.requests_view()[b]).key@ by {
                    if b < before.len() {
                        assert(before[a].key@ != before[b].key@);
                    } else {
                        assert(before[a].key@ != key@);
                    }
                }
            },
        }
        true
    }

    /// Forgets every registration and starts the ids again from zero.
    pub fn clear(&mut self)
        ensures
            final(self).wf(),
            final(self).requests_view().len() == 0,
            final(self).next_id() == 0,
    {
        self.entries = Vec::new();
        self.counter = 0;
        assert(self.requests_view() =~= Seq::<AllocationRequest>::empty());
    }

    /// The allocation requests, in the order of the registrations.
    pub fn requests(&self) -> (r: Vec<AllocationRequest>)
        ensures
            r@ == self.requests_view(),
    {
        let mut r: Vec<AllocationRequest> = Vec::new();
        let mut i: usize = 0;
        while i < self.entries.len()
            invariant
                i <= self.entries.len(),
                r@ == self.requests_view().take(i as int),
            decreases self.entries.len() - i,
        {
            r.push(self.entries[i].request);
            i = i + 1;
            assert(r@ =~= self.requests_view().take(i as int));
        }
        assert(r@ =~= self.requests_view());
        r
    }
}

} // verus!
