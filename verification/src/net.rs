//! Settings and decisions of network connections.
use vstd::prelude::*;

verus! {

/// What to do after handling a message.
#[derive(Copy, Clone, Debug, Eq, Ord, PartialEq, PartialOrd)]
pub enum MessageHandlerOutcome {
    /// Continue reading messages from the stream.
    ContinueHandling,
    /// Gracefully shut down by flushing any enqueued messages.
    GracefulShutdown,
    /// Immediately throw out the connection.
    ImmediateShutdown,
}

/// Limits of a network connection.  Durations are in milliseconds.
#[derive(Debug, Clone)]
pub struct NetworkConnectionConfig {
    max_auth_message_size: usize,
    auth_message_timeout_ms: u64,
    /// Maximum number of pending bytes which may be unsent before the
    /// connection is shut down, ungracefully.
    max_unsent_bytes: usize,
    /// The longest time to go without seeing a message before giving up.
    max_message_interval_ms: u64,
    /// Maximum length of an incoming message.
    max_incoming_message_length: Option<u64>,
    /// Timeout on individual write calls.
    write_timeout_ms: u64,
}

impl NetworkConnectionConfig {
    pub closed spec fn spec_max_auth_message_size(&self) -> usize {
        self.max_auth_message_size
    }

    pub closed spec fn spec_auth_message_timeout_ms(&self) -> u64 {
        self.auth_message_timeout_ms
    }

    pub closed spec fn spec_max_unsent_bytes(&self) -> usize {
        self.max_unsent_bytes
    }

    pub closed spec fn spec_max_message_interval_ms(&self) -> u64 {
        self.max_message_interval_ms
    }

    pub closed spec fn spec_max_incoming_message_length(&self) -> Option<u64> {
        self.max_incoming_message_length
    }

    pub closed spec fn spec_write_timeout_ms(&self) -> u64 {
        self.write_timeout_ms
    }

    /// The largest first (authentication) message accepted.
    pub fn max_auth_message_size(&self) -> (r: usize)
        ensures
            r == self.spec_max_auth_message_size(),
    {
        self.max_auth_message_size
    }

    /// How long to wait for the first (authentication) message.
    pub fn auth_message_timeout_ms(&self) -> (r: u64)
        ensures
            r == self.spec_auth_message_timeout_ms(),
    {
        self.auth_message_timeout_ms
    }

    /// How many bytes may wait unsent before the connection is dropped.
    pub fn max_unsent_bytes(&self) -> (r: usize)
        ensures
            r == self.spec_max_unsent_bytes(),
    {
        self.max_unsent_bytes
    }

    /// The longest time to go without a message.
    pub fn max_message_interval_ms(&self) -> (r: u64)
        ensures
            r == self.spec_max_message_interval_ms(),
    {
        self.max_message_interval_ms
    }

    /// The limit on the length of incoming messages, if any.
    pub fn max_incoming_message_length(&self) -> (r: Option<u64>)
        ensures
            r == self.spec_max_incoming_message_length(),
    {
        self.max_incoming_message_length
    }

    /// The timeout on each write.
    pub fn write_timeout_ms(&self) -> (r: u64)
        ensures
            r == self.spec_write_timeout_ms(),
    {
        self.write_timeout_ms
    }

    /// How many bytes of the first (authentication) message may be read next,
    /// into a buffer of `buf_len` bytes, once `auth_bytes` bytes have arrived:
    /// the rest of the allowance, at most a buffer's worth; none once the
    /// allowance is used up.
    pub fn auth_read_size(&self, auth_bytes: usize, buf_len: usize) -> (n: usize)
        ensures
            auth_bytes >= self.spec_max_auth_message_size() ==> n == 0,
            auth_bytes < self.spec_max_auth_message_size() ==> n == (if buf_len
                < self.spec_max_auth_message_size() - auth_bytes {
                buf_len as int
            } else {
                self.spec_max_auth_message_size() - auth_bytes
            }),
    {
        if auth_bytes >= self.max_auth_message_size {
            0
        } else {
            let left = self.max_auth_message_size - auth_bytes;
            if buf_len < left {
                buf_len
            } else {
                left
            }
        }
    }
}

impl Default for NetworkConnectionConfig {
    /// 8 KiB first messages within half a second, 1 MiB unsent, a message at
    /// least every second, no length limit, half a second per write.
    fn default() -> (c: Self)
        ensures
            c.spec_max_auth_message_size() == 8192,
            c.spec_auth_message_timeout_ms() == 500,
            c.spec_max_unsent_bytes() == 1048576,
            c.spec_max_message_interval_ms() == 1000,
            c.spec_max_incoming_message_length() == None::<u64>,
            c.spec_write_timeout_ms() == 500,
    {
        NetworkConnectionConfig {
            max_auth_message_size: 8192,
            auth_message_timeout_ms: 500,
            max_unsent_bytes: 1048576,
            max_message_interval_ms: 1000,
            max_incoming_message_length: None,
            write_timeout_ms: 500,
        }
    }
}

} // verus!
