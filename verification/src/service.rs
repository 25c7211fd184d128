//! Log-source definitions: where a service logs, and how to recognize and
//! attribute an offense in its log.

use vstd::prelude::*;

verus! {

/// One log source: the file to tail, the pattern that recognizes an offense
/// in a line, and the pattern that extracts the offending address from it.
#[derive(Clone, Debug)]
pub struct Service {
    pub log_file: String,
    pub log_trigger: String,
    pub log_ip_regex: String,
}

/// One registered service under its key.
pub struct ServiceEntry {
    pub name: String,
    pub service: Service,
}

/// Whether some entry is registered under `name`.
pub open spec fn has_service(s: Seq<ServiceEntry>, name: Seq<char>) -> bool {
    exists|i: int| 0 <= i < s.len() && s[i].name@ == name
}

/// The index of the entry registered under `name` (meaningful only when
/// `has_service` holds; under `unique_service_names` it is unique).
pub open spec fn service_index(s: Seq<ServiceEntry>, name: Seq<char>) -> int {
    choose|i: int| 0 <= i < s.len() && s[i].name@ == name
}

/// No two entries share a key.
pub open spec fn unique_service_names(s: Seq<ServiceEntry>) -> bool {
    forall|i: int, j: int| 0 <= i < j < s.len() ==> s[i].name@ != s[j].name@
}

/// The set of known services, keyed by name.
pub struct ServiceManager {
    pub services: Vec<ServiceEntry>,
}

impl ServiceManager {
    /// Keys are unique.
    pub open spec fn wf(self) -> bool {
        unique_service_names(self.services@)
    }

    /// An empty registry.
    pub fn new() -> (r: ServiceManager)
        ensures
            r.services@.len() == 0,
            r.wf(),
    {
        ServiceManager { services: Vec::new() }
    }

    /// Registers `service` under `name`; a later registration under the same
    /// key replaces the earlier one.
    pub fn add_service(&mut self, name: String, service: Service)
        requires
            old(self).wf(),
        ensures
            final(self).wf(),
            has_service(old(self).services@, name@) ==> final(self).services@ == old(
                self,
            ).services@.update(
                service_index(old(self).services@, name@),
                ServiceEntry { name: name, service: service },
            ),
            !has_service(old(self).services@, name@) ==> final(self).services@ == old(
                self,
            ).services@.push(ServiceEntry { name: name, service: service }),
    {
        let ghost s0 = self.services@;
        let n = self.services.len();
        let mut i: usize = 0;
        while i < n && !(self.services[i].name == name)
            invariant
                n == self.services.len(),
                i <= n,
                forall|j: int| 0 <= j < i ==> self.services@[j].name@ != name@,
            decreases n - i,
        {
            i += 1;
        }
        if i < n {
            proof {
                assert(has_service(s0, name@));
                let k = service_index(s0, name@);
                assert(0 <= k < s0.len() && s0[k].name@ == name@);
                assert(k == i as int) by {
                    if k < i as int {
                        assert(s0[k].name@ != name@);
                    } else if k > i as int {
                        assert(s0[i as int].name@ != s0[k].name@);
                    }
                }
            }
            self.services.remove(i);
            self.services.insert(i, ServiceEntry { name, service });
            proof {
                assert(self.services@ =~= s0.update(
                    service_index(s0, name@),
                    self.services@[i as int],
                ));
            }
        } else {
            proof {
                assert(!has_service(s0, name@));
            }
            self.services.push(ServiceEntry { name, service });
        }
    }

    /// Looks a service up by key; returns it exactly when the key is
    /// registered.
    pub fn get_service(&self, type_: &str) -> (r: Option<&Service>)
        requires
            self.wf(),
        ensures
            match r {
                Some(s) => has_service(self.services@, type_@) && *s == self.services@[
                    service_index(self.services@, type_@)
                ].service,
                None => !has_service(self.services@, type_@),
            },
    {
        let key = type_.to_owned();
        let n = self.services.len();
        let mut i: usize = 0;
        while i < n && !(self.services[i].name == key)
            invariant
                n == self.services.len(),
                i <= n,
                key@ == type_@,
                forall|j: int| 0 <= j < i ==> self.services@[j].name@ != type_@,
            decreases n - i,
        {
            i += 1;
        }
        if i < n {
            proof {
                assert(has_service(self.services@, type_@));
                let k = service_index(self.services@, type_@);
                assert(0 <= k < self.services@.len() && self.services@[k].name@ == type_@);
                assert(k == i as int) by {
                    if k < i as int {
                        assert(self.services@[k].name@ != type_@);
                    } else if k > i as int {
                        assert(self.services@[i as int].name@ != self.services@[k].name@);
                    }
                }
            }
            Some(&self.services[i].service)
        } else {
            None
        }
    }
}

} // verus!
