//! The recorder: opens an in-flight record for a request when recording is
//! enabled, handing back the new record's id.
use vstd::prelude::*;

use crate::ids::now_millis;
use crate::storage::{rec_lookup, RecordedRequest, Storage};

verus! {

/// Wraps the storage behind an on/off switch.
pub struct Recorder {
    pub storage: Storage,
    pub enabled: bool,
}

impl Recorder {
    pub open spec fn is_enabled(&self) -> bool {
        self.enabled
    }

    pub fn new(storage: Storage, enabled: bool) -> (r: Self)
        ensures
            r.storage == storage,
            r.is_enabled() == enabled,
    {
        Recorder { storage, enabled }
    }

    /// Opens an in-flight record stamped `now_ms` when recording is enabled,
    /// and returns its id; does nothing when recording is off.
    pub fn record_request_at(
        &mut self,
        method: &str,
        url: &str,
        headers: Vec<(String, String)>,
        body: Option<Vec<u8>>,
        now_ms: u64,
    ) -> (r: Option<String>)
        ensures
            final(self).is_enabled() == old(self).is_enabled(),
            !old(self).is_enabled() ==> r is None && final(self).storage == old(self).storage,
            old(self).is_enabled() ==> r is Some && ({
                let e = rec_lookup(final(self).storage.recs(), r.unwrap()@);
                &&& e is Some
                &&& e.unwrap().timestamp == now_ms
                &&& e.unwrap().method@ == method@
                &&& e.unwrap().url@ == url@
                &&& e.unwrap().headers == headers
                &&& e.unwrap().body == body
                &&& e.unwrap().response is None
                &&& e.unwrap().duration_ms is None
            }),
            old(self).is_enabled() ==> forall|k: Seq<char>|
                k != r.unwrap()@ ==> #[trigger] rec_lookup(final(self).storage.recs(), k)
                    == rec_lookup(old(self).storage.recs(), k),
    {
        if !self.enabled {
            return None;
        }
        let record = RecordedRequest {
            id: String::new(),
            timestamp: now_ms,
            method: method.to_owned(),
            url: url.to_owned(),
            headers,
            body,
            response: None,
            duration_ms: None,
        };
        let id = self.storage.store_request(record);
        Some(id)
    }

    /// Opens an in-flight record stamped with the current time.
    pub fn record_request(
        &mut self,
        method: &str,
        url: &str,
        headers: Vec<(String, String)>,
        body: Option<Vec<u8>>,
    ) -> (r: Option<String>)
        ensures
            final(self).is_enabled() == old(self).is_enabled(),
            !old(self).is_enabled() ==> r is None && final(self).storage == old(self).storage,
            old(self).is_enabled() ==> r is Some && ({
                let e = rec_lookup(final(self).storage.recs(), r.unwrap()@);
                &&& e is Some
                &&& e.unwrap().method@ == method@
                &&& e.unwrap().url@ == url@
                &&& e.unwrap().headers == headers
                &&& e.unwrap().body == body
                &&& e.unwrap().response is None
                &&& e.unwrap().duration_ms is None
            }),
            old(self).is_enabled() ==> forall|k: Seq<char>|
                k != r.unwrap()@ ==> #[trigger] rec_lookup(final(self).storage.recs(), k)
                    == rec_lookup(old(self).storage.recs(), k),
    {
        let now = now_millis();
        self.record_request_at(method, url, headers, body, now)
    }
}

} // verus!
