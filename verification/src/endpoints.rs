//! The coordinator's HTTP endpoints, as URLs built from a server address.

use vstd::prelude::*;
use vstd::string::StringExecFns;
use crate::numbers::{nat_to_str, u64_to_string};
use crate::strutil::chars_to_string;

verus! {

/// Where the coordinator's HTTP surface lives.
pub struct Endpoints {
    pub address: String,
    pub port: u16,
    pub https: bool,
}

pub open spec fn protocol_spec(https: bool) -> Seq<char> {
    if https {
        "https://"@
    } else {
        "http://"@
    }
}

/// `<protocol><address>:<port>/`
pub open spec fn base_spec(address: Seq<char>, port: int, https: bool) -> Seq<char> {
    protocol_spec(https) + address + ":"@ + nat_to_str(port) + "/"@
}

/// `<base><path>`
pub open spec fn url_spec(e: Endpoints, path: Seq<char>) -> Seq<char> {
    base_spec(e.address@, e.port as int, e.https) + path
}

impl Endpoints {
    fn protocol(&self) -> (r: &'static str)
        ensures
            r@ == protocol_spec(self.https),
    {
        if self.https {
            "https://"
        } else {
            "http://"
        }
    }

    fn base(&self) -> (r: String)
        ensures
            r@ == base_spec(self.address@, self.port as int, self.https),
    {
        let mut r = self.protocol().to_owned();
        r.append(self.address.as_str());
        r.append(":");
        let digits = u64_to_string(self.port as u64);
        r.append(chars_to_string(&digits).as_str());
        r.append("/");
        proof {
            assert(r@ =~= base_spec(self.address@, self.port as int, self.https));
        }
        r
    }

    fn url(&self, path: &str) -> (r: String)
        ensures
            r@ == url_spec(*self, path@),
    {
        let mut base = self.base();
        base.append(path);
        base
    }

    /// Where a worker uploads its artifacts.
    pub fn artifacts(&self) -> (r: String)
        ensures
            r@ == url_spec(*self, "artifacts"@),
    {
        self.url("artifacts")
    }

    pub fn add_packages(&self) -> (r: String)
        ensures
            r@ == url_spec(*self, "packages/add"@),
    {
        self.url("packages/add")
    }

    pub fn add_package_url(&self) -> (r: String)
        ensures
            r@ == url_spec(*self, "packages/add-url"@),
    {
        self.url("packages/add-url")
    }

    pub fn remove_packages(&self) -> (r: String)
        ensures
            r@ == url_spec(*self, "packages/remove"@),
    {
        self.url("packages/remove")
    }

    pub fn rebuilt_packages(&self) -> (r: String)
        ensures
            r@ == url_spec(*self, "packages/rebuild"@),
    {
        self.url("packages/rebuild")
    }

    /// Where a worker fetches the signing key.
    pub fn key(&self) -> (r: String)
        ensures
            r@ == url_spec(*self, "key"@),
    {
        self.url("key")
    }

    pub fn status(&self) -> (r: String)
        ensures
            r@ == url_spec(*self, "status"@),
    {
        self.url("status")
    }

    pub fn list_logs(&self) -> (r: String)
        ensures
            r@ == url_spec(*self, "logs"@),
    {
        self.url("logs")
    }

    pub fn get_log(&self, index: usize) -> (r: String)
        ensures
            r@ == url_spec(*self, "logs/"@ + nat_to_str(index as int)),
    {
        let mut path = String::from_str("logs/");
        let digits = u64_to_string(index as u64);
        path.append(chars_to_string(&digits).as_str());
        self.url(path.as_str())
    }
}

impl Default for Endpoints {
    /// The default talks HTTPS to the standard port with no address filled
    /// in yet.
    fn default() -> (r: Endpoints)
        ensures
            r.port == 3200,
            r.address@.len() == 0,
            r.https == true,
    {
        Endpoints { port: 3200, address: String::new(), https: true }
    }
}

} // verus!
