use vstd::prelude::*;

verus! {

/// How a request to the metrics endpoint is answered.
#[derive(Clone, Copy, Debug, PartialEq, Eq, Structural)]
pub enum MetricsReply {
    /// The gathered metrics in the Prometheus text format.
    Prometheus,
    /// The gathered metrics as JSON.
    Json,
    /// Status 404 with an empty body.
    NotFound,
}

/// The routing state of the metrics endpoint: the path that serves the
/// Prometheus text format and the path that serves JSON.
pub struct MetricServer {
    path_for_prom: String,
    path_for_http: String,
}

impl MetricServer {
    /// The path answered with the Prometheus text format.
    pub closed spec fn prom_path(self) -> Seq<char> {
        self.path_for_prom@
    }

    /// The path answered with JSON.
    pub closed spec fn http_path(self) -> Seq<char> {
        self.path_for_http@
    }

    /// Routing state for the two given paths.
    pub fn new(path_for_prom: String, path_for_http: String) -> (r: Self)
        ensures
            r.prom_path() == path_for_prom@,
            r.http_path() == path_for_http@,
    {
        MetricServer { path_for_prom, path_for_http }
    }

    /// Decides the answer to a request: only a GET on one of the two paths
    /// is served, the Prometheus path first.
    pub fn route(&self, is_get: bool, path: &String) -> (r: MetricsReply)
        ensures
            r == (if !is_get {
                MetricsReply::NotFound
            } else if path@ == self.prom_path() {
                MetricsReply::Prometheus
            } else if path@ == self.http_path() {
                MetricsReply::Json
            } else {
                MetricsReply::NotFound
            }),
    {
        if !is_get {
            MetricsReply::NotFound
        } else if *path == self.path_for_prom {
            MetricsReply::Prometheus
        } else if *path == self.path_for_http {
            MetricsReply::Json
        } else {
            MetricsReply::NotFound
        }
    }
}

} // verus!
