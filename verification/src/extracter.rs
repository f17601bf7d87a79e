//! Fetching an index or a chunk from a remote store.

use vstd::prelude::*;
use vstd::string::StringExecFns;

verus! {

/// A client that downloads files from a server.
pub trait ClientAdapter: Sized {
    /// A new client.
    fn new() -> Self;

    /// Downloads `resource` from `server_url` into a local file, after
    /// creating the directory `dir`.
    fn download_file(&self, server_url: &mut String, resource: String, dir: String);
}

/// Where a download of `resource` from `server_url` goes: the local path is
/// `./<resource>`, and `server_url` is extended with `/` and that path to
/// give the URL that is fetched.
pub fn resource_location(server_url: &mut String, resource: &str) -> (resource_path: String)
    ensures
        resource_path@ == "./"@ + resource@,
        final(server_url)@ == old(server_url)@ + "/"@ + resource_path@,
{
    let mut resource_path = String::from_str("./");
    resource_path.append(resource);
    server_url.append("/");
    server_url.append(resource_path.as_str());
    resource_path
}

} // verus!
