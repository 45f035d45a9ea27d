//! Configuration and statistics of the VXLAN control-plane server, and of the
//! management daemon.
use vstd::prelude::*;

verus! {

/// VXLAN standard UDP port
pub const VXLAN_PORT: u16 = 4789;

/// VXLAN header size in bytes
pub const VXLAN_HEADER_SIZE: usize = 8;

/// Server configuration
#[derive(Debug, Clone)]
pub struct ServerConfig {
    /// VXLAN UDP bind address
    pub vxlan_bind: String,
    /// VXLAN UDP port (default 4789)
    pub vxlan_port: u16,
    /// HTTP API bind address
    pub http_bind: String,
    /// HTTP API port
    pub http_port: u16,
    /// Cache size in bytes
    pub cache_size: usize,
    /// Max concurrent connections
    pub max_connections: usize,
}

impl Default for ServerConfig {
    fn default() -> (r: Self)
        ensures
            r.vxlan_bind@ == "0.0.0.0"@,
            r.vxlan_port == 4789,
            r.http_bind@ == "0.0.0.0"@,
            r.http_port == 8080,
            r.cache_size == 268435456,
            r.max_connections == 10000,
    {
        Self {
            vxlan_bind: String::from_str("0.0.0.0"),
            vxlan_port: 4789,
            http_bind: String::from_str("0.0.0.0"),
            http_port: 8080,
            cache_size: 256 * 1024 * 1024,  // 256 MB
            max_connections: 10000,
        }
    }
}

/// Server counters
#[derive(Debug, Clone, Copy, PartialEq, Eq, Structural)]
pub struct ServerStats {
    pub commands_processed: u64,
    pub vxlan_packets: u64,
    pub http_requests: u64,
    pub cache_hits: u64,
    pub cache_misses: u64,
    pub total_latency_ns: u64,
    pub start_time: i64,
}

impl ServerStats {
    /// Count a processed command and add its latency.
    pub fn record_command(&mut self, latency_ns: u64)
        requires
            old(self).commands_processed < u64::MAX,
            old(self).total_latency_ns + latency_ns <= u64::MAX,
        ensures
            *final(self) == (ServerStats {
                commands_processed: (old(self).commands_processed + 1) as u64,
                total_latency_ns: (old(self).total_latency_ns + latency_ns) as u64,
                ..*old(self)
            }),
    {
        self.commands_processed += 1;
        self.total_latency_ns += latency_ns;
    }

    /// Count an HTTP request (or a WebSocket connection, which the server counts the same).
    pub fn record_http_request(&mut self)
        requires
            old(self).http_requests < u64::MAX,
        ensures
            *final(self) == (ServerStats { http_requests: (old(self).http_requests + 1) as u64, ..*old(self) }),
    {
        self.http_requests += 1;
    }

    /// Count a cache lookup that found its key.
    pub fn record_cache_hit(&mut self)
        requires
            old(self).cache_hits < u64::MAX,
        ensures
            *final(self) == (ServerStats { cache_hits: (old(self).cache_hits + 1) as u64, ..*old(self) }),
    {
        self.cache_hits += 1;
    }

    /// Count a cache lookup that missed.
    pub fn record_cache_miss(&mut self)
        requires
            old(self).cache_misses < u64::MAX,
        ensures
            *final(self) == (ServerStats { cache_misses: (old(self).cache_misses + 1) as u64, ..*old(self) }),
    {
        self.cache_misses += 1;
    }
}

impl Default for ServerStats {
    fn default() -> (r: Self)
        ensures
            r == (ServerStats {
                commands_processed: 0,
                vxlan_packets: 0,
                http_requests: 0,
                cache_hits: 0,
                cache_misses: 0,
                total_latency_ns: 0,
                start_time: 0,
            }),
    {
        ServerStats {
            commands_processed: 0,
            vxlan_packets: 0,
            http_requests: 0,
            cache_hits: 0,
            cache_misses: 0,
            total_latency_ns: 0,
            start_time: 0,
        }
    }
}

/// Management interface configuration of the daemon
#[derive(Debug, Clone)]
pub struct NetworkConfig {
    /// Management interface bind address
    pub bind_address: String,
    /// Management interface port
    pub port: u16,
    /// Enable TLS for management interface
    pub enable_tls: bool,
    /// TLS certificate path
    pub tls_cert_path: Option<String>,
    /// TLS private key path
    pub tls_key_path: Option<String>,
}

/// Monitoring configuration of the daemon
#[derive(Debug, Clone, Copy, PartialEq, Eq, Structural)]
pub struct MonitoringConfig {
    /// Enable performance monitoring
    pub enable_monitoring: bool,
    /// Monitoring data collection interval (seconds)
    pub collection_interval: u64,
    /// Enable cohomology computation monitoring
    pub monitor_cohomology: bool,
    /// Enable mathematical operation profiling
    pub profile_math_ops: bool,
}

/// Standard GPU benchmark categories
#[derive(Debug, Clone, Copy, PartialEq, Eq, Structural)]
pub enum GpuBenchmarkCategory {
    /// Matrix operations (GEMM, matrix-vector, etc.)
    MatrixOperations,
    /// Deep learning inference
    DeepLearningInference,
    /// Deep learning training workloads
    DeepLearningTraining,
    /// Signal processing (FFT, convolution, etc.)
    SignalProcessing,
    /// Memory bandwidth and latency tests
    MemoryBandwidth,
    /// Compute shader workloads
    ComputeShaders,
}

/// The bytes of `b` from `start` on.
fn bytes_from(b: &[u8], start: usize) -> (r: Vec<u8>)
    requires
        start <= b@.len(),
    ensures
        r@ == b@.subrange(start as int, b@.len() as int),
{
    let mut r: Vec<u8> = Vec::new();
    let mut i = start;
    while i < b.len()
        invariant
            start <= i <= b@.len(),
            r@ == b@.subrange(start as int, i as int),
        decreases b.len() - i,
    {
        r.push(b[i]);
        i = i + 1;
        assert(r@ =~= b@.subrange(start as int, i as int));
    }
    r
}

/// The command bytes of a VXLAN packet: what follows its header; `None` for a packet
/// shorter than the header, which the server ignores.
pub fn vxlan_payload(packet: &[u8]) -> (r: Option<Vec<u8>>)
    ensures
        packet@.len() < VXLAN_HEADER_SIZE ==> r is None,
        packet@.len() >= VXLAN_HEADER_SIZE ==> (r matches Some(p) && p@ == packet@.subrange(
            VXLAN_HEADER_SIZE as int,
            packet@.len() as int,
        )),
{
    if packet.len() < VXLAN_HEADER_SIZE {
        None
    } else {
        Some(bytes_from(packet, VXLAN_HEADER_SIZE))
    }
}

/// The command bytes of a binary WebSocket message, framed like a VXLAN packet: what
/// follows the header, for a message longer than the header; `None` for any other,
/// which the server ignores.
pub fn websocket_binary_payload(data: &[u8]) -> (r: Option<Vec<u8>>)
    ensures
        data@.len() <= VXLAN_HEADER_SIZE ==> r is None,
        data@.len() > VXLAN_HEADER_SIZE ==> (r matches Some(p) && p@ == data@.subrange(
            VXLAN_HEADER_SIZE as int,
            data@.len() as int,
        )),
{
    if data.len() > VXLAN_HEADER_SIZE {
        Some(bytes_from(data, VXLAN_HEADER_SIZE))
    } else {
        None
    }
}

} // verus!
