use vstd::prelude::*;

verus! {

/// The discovery details a request carries: the mDNS service to browse.
#[derive(Clone, Debug)]
pub struct MdnsDiscoveryDetails {
    pub service_name: String,
}

/// Why a discovery request was refused. Both kinds are reported to the
/// caller as an invalid argument.
#[derive(Clone, Debug)]
pub enum DiscoverError {
    /// The configuration blob did not have the shape `{ serviceName: string }`;
    /// carries the parser's message.
    InvalidDetails(String),
    /// The browser refused the (normalized) service name.
    InvalidServiceName,
}

/// A service name made fully qualified: a trailing `.` is appended when absent.
pub open spec fn normalized(name: Seq<char>) -> Seq<char> {
    if name.len() > 0 && name.last() == '.' {
        name
    } else {
        name.push('.')
    }
}

/// Normalizing an already normalized name changes nothing.
pub proof fn normalization_is_idempotent(name: Seq<char>)
    ensures
        normalized(normalized(name)) == normalized(name),
{
}

/// Returns the service name with a trailing `.` appended when it lacks one.
pub fn normalize_service_name(name: &str) -> (r: String)
    ensures
        r@ == normalized(name@),
{
    let n = name.unicode_len();
    let mut r = name.to_owned();
    if n > 0 && name.get_char(n - 1) == '.' {
        r
    } else {
        r.append(".");
        proof {
            reveal_strlit(".");
        }
        assert(r@ =~= name@.push('.'));
        r
    }
}

/// Request intake: given what parsing the configuration blob produced (the
/// details, or the parser's message), yields the normalized service name to
/// browse, or refuses the request before any browse is started.
pub fn service_name_for_request(parsed: Result<MdnsDiscoveryDetails, String>) -> (r: Result<
    String,
    DiscoverError,
>)
    ensures
        match parsed {
            Ok(d) => r is Ok && r->Ok_0@ == normalized(d.service_name@),
            Err(msg) => r is Err && r->Err_0 is InvalidDetails && r->Err_0->InvalidDetails_0@
                == msg@,
        },
{
    match parsed {
        Ok(d) => Ok(normalize_service_name(d.service_name.as_str())),
        Err(msg) => Err(DiscoverError::InvalidDetails(msg)),
    }
}

/// Maps the browser's answer to a browse request: a refusal becomes
/// `InvalidServiceName`, an accepted subscription passes through.
pub fn check_browse_result<T>(browse: Result<T, ()>) -> (r: Result<T, DiscoverError>)
    ensures
        browse is Ok <==> r is Ok,
        browse is Ok ==> r->Ok_0 == browse->Ok_0,
        browse is Err ==> r->Err_0 is InvalidServiceName,
{
    match browse {
        Ok(t) => Ok(t),
        Err(_) => Err(DiscoverError::InvalidServiceName),
    }
}

} // verus!
