//! The registry of services that a deployment of the tool knows. It is a
//! fixed table, made once, and takes no part in the pipeline.

use vstd::prelude::*;
use vstd::string::StringExecFns;

verus! {

/// How one service is reached.
#[derive(Debug, Clone)]
pub struct ServiceConfig {
    pub url: String,
    pub data: Option<String>,
    /// The headers of a request, each a name and a value.
    pub headers: Vec<(String, String)>,
    pub service: String,
}

/// The configuration of a deployment.
#[derive(Debug)]
pub struct OrchestrateConfig {
    pub service_host: String,
    pub service_port: u16,
    pub service_db_path: String,
    /// The services by name. No name occurs twice.
    pub config_services: Vec<(String, ServiceConfig)>,
}

/// The address of the tuberculosis service where none is given.
pub open spec fn default_tuberculosis_url() -> Seq<char> {
    "http://tuberculosis_service:50001/deep-learning/service/tuberculosis/image_binary"@
}

/// The entry of the tuberculosis service with the given address.
pub open spec fn is_tuberculosis_entry(entry: (String, ServiceConfig), url: Seq<char>) -> bool {
    &&& entry.0@ == "tuberculosis_service"@
    &&& entry.1.service@ == "tuberculosis_service"@
    &&& entry.1.url@ == url
    &&& entry.1.data is None
    &&& entry.1.headers@.len() == 1
    &&& entry.1.headers@[0].0@ == "Content-Type"@
    &&& entry.1.headers@[0].1@ == "application/x-image"@
}

/// The address that is used: the given one, or the default.
pub open spec fn chosen_url(given: Option<String>) -> Seq<char> {
    match given {
        Some(url) => url@,
        None => default_tuberculosis_url(),
    }
}

impl OrchestrateConfig {
    /// No service name occurs twice.
    pub open spec fn wf(&self) -> bool {
        forall|i: int, j: int|
            0 <= i < j < self.config_services@.len() ==> self.config_services@[i].0@
                != self.config_services@[j].0@
    }

    /// The configuration with its fixed values and the tuberculosis
    /// service. `tuberculosis_url` is the address of that service where the
    /// environment names one.
    pub fn new(tuberculosis_url: Option<String>) -> (r: OrchestrateConfig)
        ensures
            r.wf(),
            r.service_host@ == "0.0.0.0"@,
            r.service_port == 50011,
            r.service_db_path@ == "config/service_db_v8.csv"@,
            r.config_services@.len() == 1,
            is_tuberculosis_entry(r.config_services@[0], chosen_url(tuberculosis_url)),
    {
        let mut config = OrchestrateConfig {
            service_host: String::from_str("0.0.0.0"),
            service_port: 50011,
            service_db_path: String::from_str("config/service_db_v8.csv"),
            config_services: Vec::new(),
        };
        config.setup_service_config(tuberculosis_url);
        config
    }

    /// Enters the tuberculosis service into a configuration without
    /// services.
    fn setup_service_config(&mut self, tuberculosis_url: Option<String>)
        requires
            old(self).config_services@.len() == 0,
        ensures
            final(self).wf(),
            final(self).service_host == old(self).service_host,
            final(self).service_port == old(self).service_port,
            final(self).service_db_path == old(self).service_db_path,
            final(self).config_services@.len() == 1,
            is_tuberculosis_entry(final(self).config_services@[0], chosen_url(tuberculosis_url)),
    {
        let url: String = match tuberculosis_url {
            Some(url) => url,
            None => String::from_str(
                "http://tuberculosis_service:50001/deep-learning/service/tuberculosis/image_binary",
            ),
        };
        let mut headers: Vec<(String, String)> = Vec::new();
        headers.push((String::from_str("Content-Type"), String::from_str("application/x-image")));
        self.config_services.push(
            (
                String::from_str("tuberculosis_service"),
                ServiceConfig {
                    url,
                    data: None,
                    headers,
                    service: String::from_str("tuberculosis_service"),
                },
            ),
        );
    }
}

} // verus!
