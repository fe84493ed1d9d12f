//! The fixed filesystem locations of the managed nginx installation.

use vstd::prelude::*;
use vstd::string::StringExecFns;

verus! {

/// Where the nginx binary, config and logs live. The values are fixed:
/// nothing is looked up in the environment.
#[derive(Debug, Clone)]
pub struct NginxPaths {
    pub bin: String,
    pub conf: String,
    pub conf_dir: String,
    pub log_dir: String,
    pub run_dir: String,
}

impl Default for NginxPaths {
    fn default() -> (r: NginxPaths)
        ensures
            r.bin@ == "/usr/local/bin/nginx"@,
            r.conf@ == "/usr/local/nginx/conf/nginx.conf"@,
            r.conf_dir@ == "/usr/local/nginx/conf"@,
            r.log_dir@ == "/usr/local/nginx/logs"@,
            r.run_dir@ == "/usr/local/nginx"@,
    {
        NginxPaths {
            bin: String::from_str("/usr/local/bin/nginx"),
            conf: String::from_str("/usr/local/nginx/conf/nginx.conf"),
            conf_dir: String::from_str("/usr/local/nginx/conf"),
            log_dir: String::from_str("/usr/local/nginx/logs"),
            run_dir: String::from_str("/usr/local/nginx"),
        }
    }
}

} // verus!
