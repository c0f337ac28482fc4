//! Admission control: a sliding-window limiter over message count, byte
//! volume and a short burst window, and a token-bucket limiter.
//!
//! Both limiters read the process clock. The decision logic is verified for
//! every possible clock value: the public entry points read the clock once
//! and delegate to `_at` variants that take the reading as an argument and
//! carry the exact contracts.

use vstd::prelude::*;

use crate::clock::now_micros;
use crate::error::LinkError;
use crate::text::u64_to_string;
use vstd::string::StringExecFns;

verus! {

/// The burst check looks at the last tenth of a second, in microseconds.
pub const BURST_WINDOW_MICROS: u64 = 100000;

#[derive(Debug, Clone, Copy, PartialEq, Eq, Structural)]
pub struct RateLimitConfig {
    pub max_messages_per_second: u32,
    pub max_bytes_per_second: u64,
    pub burst_size: u32,
    /// Length of the sliding window, in microseconds.
    pub window_duration: u64,
}

impl Default for RateLimitConfig {
    fn default() -> (c: Self)
        ensures
            c == (RateLimitConfig {
                max_messages_per_second: 1000,
                max_bytes_per_second: 10485760,
                burst_size: 100,
                window_duration: 1000000,
            }),
    {
        RateLimitConfig {
            max_messages_per_second: 1000,
            max_bytes_per_second: 10485760,
            burst_size: 100,
            window_duration: 1000000,
        }
    }
}

impl RateLimitConfig {
    pub fn new() -> (c: Self)
        ensures
            c == (RateLimitConfig {
                max_messages_per_second: 1000,
                max_bytes_per_second: 10485760,
                burst_size: 100,
                window_duration: 1000000,
            }),
    {
        Self::default()
    }

    pub fn with_max_messages(self, max: u32) -> (c: Self)
        ensures
            c == (RateLimitConfig { max_messages_per_second: max, ..self }),
    {
        RateLimitConfig { max_messages_per_second: max, ..self }
    }

    pub fn with_max_bytes(self, max: u64) -> (c: Self)
        ensures
            c == (RateLimitConfig { max_bytes_per_second: max, ..self }),
    {
        RateLimitConfig { max_bytes_per_second: max, ..self }
    }

    pub fn with_burst_size(self, size: u32) -> (c: Self)
        ensures
            c == (RateLimitConfig { burst_size: size, ..self }),
    {
        RateLimitConfig { burst_size: size, ..self }
    }

    /// The window length is given in microseconds.
    pub fn with_window_duration(self, duration_micros: u64) -> (c: Self)
        ensures
            c == (RateLimitConfig { window_duration: duration_micros, ..self }),
    {
        RateLimitConfig { window_duration: duration_micros, ..self }
    }
}

/// One admitted message: when it was admitted (microseconds) and how large
/// it was.
#[derive(Debug, Clone, Copy, PartialEq, Eq, Structural)]
pub struct MessageRecord {
    pub timestamp: u64,
    pub size: u64,
}

/// The instant before which window records are stale.
pub open spec fn spec_cutoff(now: u64, window: u64) -> u64 {
    if now >= window {
        (now - window) as u64
    } else {
        0
    }
}

/// Drop stale records from the front, stopping at the first fresh one.
pub open spec fn evict_old(h: Seq<MessageRecord>, cutoff: u64) -> Seq<MessageRecord>
    decreases h.len(),
{
    if h.len() == 0 {
        h
    } else if h.first().timestamp < cutoff {
        evict_old(h.drop_first(), cutoff)
    } else {
        h
    }
}

/// How many records fall inside the window.
pub open spec fn count_in_window(h: Seq<MessageRecord>, cutoff: u64) -> int
    decreases h.len(),
{
    if h.len() == 0 {
        0
    } else {
        count_in_window(h.drop_last(), cutoff) + if h.last().timestamp >= cutoff {
            1int
        } else {
            0int
        }
    }
}

/// How many bytes the records inside the window account for.
pub open spec fn bytes_in_window(h: Seq<MessageRecord>, cutoff: u64) -> int
    decreases h.len(),
{
    if h.len() == 0 {
        0
    } else {
        bytes_in_window(h.drop_last(), cutoff) + if h.last().timestamp >= cutoff {
            h.last().size as int
        } else {
            0int
        }
    }
}

/// The bytes of all records, window or not.
pub open spec fn sum_sizes(h: Seq<MessageRecord>) -> int
    decreases h.len(),
{
    if h.len() == 0 {
        0
    } else {
        sum_sizes(h.drop_last()) + h.last().size as int
    }
}

/// The message-rate check, on the evicted history.
pub open spec fn spec_msgs_exceeded(cfg: RateLimitConfig, mh: Seq<MessageRecord>, now: u64) -> bool {
    let cut = spec_cutoff(now, cfg.window_duration);
    count_in_window(evict_old(mh, cut), cut) >= cfg.max_messages_per_second
}

/// The byte-rate check, on the evicted history.
pub open spec fn spec_bytes_exceeded(
    cfg: RateLimitConfig,
    bh: Seq<MessageRecord>,
    now: u64,
    size: u64,
) -> bool {
    let cut = spec_cutoff(now, cfg.window_duration);
    bytes_in_window(evict_old(bh, cut), cut) + size > cfg.max_bytes_per_second
}

/// The burst check: admitted messages in the last tenth of a second.
pub open spec fn spec_burst_exceeded(cfg: RateLimitConfig, mh: Seq<MessageRecord>, now: u64) -> bool {
    let cut = spec_cutoff(now, cfg.window_duration);
    let bcut = spec_cutoff(now, BURST_WINDOW_MICROS);
    count_in_window(evict_old(mh, cut), bcut) >= cfg.burst_size
}

/// Whether a message of `size` is admitted at `now`: none of the three
/// checks fires.
pub open spec fn spec_admitted(
    cfg: RateLimitConfig,
    mh: Seq<MessageRecord>,
    bh: Seq<MessageRecord>,
    now: u64,
    size: u64,
) -> bool {
    &&& !spec_msgs_exceeded(cfg, mh, now)
    &&& !spec_bytes_exceeded(cfg, bh, now, size)
    &&& !spec_burst_exceeded(cfg, mh, now)
}

/// Saturating add on the lifetime counters.
pub open spec fn sat_add(a: u64, b: u64) -> u64 {
    if a + b > u64::MAX {
        u64::MAX
    } else {
        (a + b) as u64
    }
}

/// The full state transition of one sliding-window admission decision read
/// at instant `now`: stale records leave, the decision is `spec_admitted`,
/// and either the message is recorded or only the rejection counter moves.
pub open spec fn spec_window_transition(
    pre: RateLimiter,
    post: RateLimiter,
    now: u64,
    size: u64,
    admitted: bool,
) -> bool {
    let cut = spec_cutoff(now, pre.spec_config().window_duration);
    let mh = evict_old(pre.spec_history(), cut);
    let bh = evict_old(pre.spec_byte_history(), cut);
    &&& admitted == spec_admitted(
        pre.spec_config(),
        pre.spec_history(),
        pre.spec_byte_history(),
        now,
        size,
    )
    &&& post.spec_config() == pre.spec_config()
    &&& if admitted {
        &&& post.spec_history() == mh.push(MessageRecord { timestamp: now, size })
        &&& post.spec_byte_history() == bh.push(MessageRecord { timestamp: now, size })
        &&& post.spec_total_messages() == sat_add(pre.spec_total_messages(), 1)
        &&& post.spec_total_bytes() == sat_add(pre.spec_total_bytes(), size)
        &&& post.spec_total_rejected() == pre.spec_total_rejected()
    } else {
        &&& post.spec_history() == mh
        &&& post.spec_byte_history() == bh
        &&& post.spec_total_messages() == pre.spec_total_messages()
        &&& post.spec_total_bytes() == pre.spec_total_bytes()
        &&& post.spec_total_rejected() == sat_add(pre.spec_total_rejected(), 1)
    }
}

/// Sliding-window rate limiter over both message and byte throughput.
pub struct RateLimiter {
    config: RateLimitConfig,
    message_history: Vec<MessageRecord>,
    byte_history: Vec<MessageRecord>,
    total_messages: u64,
    total_bytes: u64,
    total_rejected: u64,
}

#[derive(Debug, Clone, Copy, PartialEq, Eq, Structural)]
pub struct RateLimitStats {
    pub total_messages: u64,
    pub total_bytes: u64,
    pub total_rejected: u64,
    pub messages_in_window: u32,
    pub bytes_in_window: u64,
}

impl RateLimiter {
    pub closed spec fn spec_config(&self) -> RateLimitConfig {
        self.config
    }

    pub closed spec fn spec_history(&self) -> Seq<MessageRecord> {
        self.message_history@
    }

    pub closed spec fn spec_byte_history(&self) -> Seq<MessageRecord> {
        self.byte_history@
    }

    pub closed spec fn spec_total_messages(&self) -> u64 {
        self.total_messages
    }

    pub closed spec fn spec_total_bytes(&self) -> u64 {
        self.total_bytes
    }

    pub closed spec fn spec_total_rejected(&self) -> u64 {
        self.total_rejected
    }

    pub fn new(config: RateLimitConfig) -> (l: RateLimiter)
        ensures
            l.spec_config() == config,
            l.spec_history() == Seq::<MessageRecord>::empty(),
            l.spec_byte_history() == Seq::<MessageRecord>::empty(),
            l.spec_total_messages() == 0,
            l.spec_total_bytes() == 0,
            l.spec_total_rejected() == 0,
    {
        let l = RateLimiter {
            config,
            message_history: Vec::new(),
            byte_history: Vec::new(),
            total_messages: 0,
            total_bytes: 0,
            total_rejected: 0,
        };
        proof {
            assert(l.spec_history() =~= Seq::<MessageRecord>::empty());
            assert(l.spec_byte_history() =~= Seq::<MessageRecord>::empty());
        }
        l
    }

    /// Admission decision and bookkeeping at an explicit clock reading.
    /// Exactly one of three things happens: the message is admitted and
    /// recorded, or the first failing check rejects it and only the
    /// rejection counter moves. Stale records are evicted either way.
    #[verifier::loop_isolation(false)]
    pub fn check_and_record_at(&mut self, message_size: u64, now: u64) -> (r: Result<
        (),
        LinkError,
    >)
        ensures
            final(self).spec_config() == old(self).spec_config(),
            r is Ok <==> spec_admitted(
                old(self).spec_config(),
                old(self).spec_history(),
                old(self).spec_byte_history(),
                now,
                message_size,
            ),
            r matches Err(e) ==> e is RateLimitExceeded,
            spec_msgs_exceeded(old(self).spec_config(), old(self).spec_history(), now) ==> (r
                matches Err(e) && (e matches LinkError::RateLimitExceeded(m) && m@
                == "Message rate limit exceeded: "@ + crate::text::spec_u64_chars(
                old(self).spec_config().max_messages_per_second as u64,
            ) + " msgs/sec"@)),
            !spec_msgs_exceeded(old(self).spec_config(), old(self).spec_history(), now)
                && spec_bytes_exceeded(
                old(self).spec_config(),
                old(self).spec_byte_history(),
                now,
                message_size,
            ) ==> (r matches Err(e) && (e matches LinkError::RateLimitExceeded(m) && m@
                == "Byte rate limit exceeded: "@ + crate::text::spec_u64_chars(
                old(self).spec_config().max_bytes_per_second,
            ) + " bytes/sec"@)),
            !spec_msgs_exceeded(old(self).spec_config(), old(self).spec_history(), now)
                && !spec_bytes_exceeded(
                old(self).spec_config(),
                old(self).spec_byte_history(),
                now,
                message_size,
            ) && spec_burst_exceeded(old(self).spec_config(), old(self).spec_history(), now) ==> (
            r matches Err(e) && (e matches LinkError::RateLimitExceeded(m) && m@
                == "Burst limit exceeded: "@ + crate::text::spec_u64_chars(
                old(self).spec_config().burst_size as u64,
            ) + " msgs"@)),
            ({
                let cut = spec_cutoff(now, old(self).spec_config().window_duration);
                let mh = evict_old(old(self).spec_history(), cut);
                let bh = evict_old(old(self).spec_byte_history(), cut);
                if spec_admitted(
                    old(self).spec_config(),
                    old(self).spec_history(),
                    old(self).spec_byte_history(),
                    now,
                    message_size,
                ) {
                    &&& final(self).spec_history() == mh.push(
                        MessageRecord { timestamp: now, size: message_size },
                    )
                    &&& final(self).spec_byte_history() == bh.push(
                        MessageRecord { timestamp: now, size: message_size },
                    )
                    &&& final(self).spec_total_messages() == sat_add(
                        old(self).spec_total_messages(),
                        1,
                    )
                    &&& final(self).spec_total_bytes() == sat_add(
                        old(self).spec_total_bytes(),
                        message_size,
                    )
                    &&& final(self).spec_total_rejected() == old(self).spec_total_rejected()
                } else {
                    &&& final(self).spec_history() == mh
                    &&& final(self).spec_byte_history() == bh
                    &&& final(self).spec_total_messages() == old(self).spec_total_messages()
                    &&& final(self).spec_total_bytes() == old(self).spec_total_bytes()
                    &&& final(self).spec_total_rejected() == sat_add(
                        old(self).spec_total_rejected(),
                        1,
                    )
                }
            }),
    {
        let ghost cfg = self.config;
        self.cleanup_old_records(now);
        let cutoff = if now >= self.config.window_duration {
            now - self.config.window_duration
        } else {
            0
        };
        let messages_in_window = self.count_records_from(cutoff);
        let bytes_in_window = self.count_bytes_from(cutoff);

        if messages_in_window >= self.config.max_messages_per_second as u64 {
            self.total_rejected = if self.total_rejected < u64::MAX {
                self.total_rejected + 1
            } else {
                u64::MAX
            };
            let mut msg = String::from_str("Message rate limit exceeded: ");
            let n = u64_to_string(self.config.max_messages_per_second as u64);
            msg.append(n.as_str());
            msg.append(" msgs/sec");
            return Err(LinkError::RateLimitExceeded(msg));
        }

        let room = u128::MAX - message_size as u128;
        if bytes_in_window > room || bytes_in_window + message_size as u128
            > self.config.max_bytes_per_second as u128 {
            self.total_rejected = if self.total_rejected < u64::MAX {
                self.total_rejected + 1
            } else {
                u64::MAX
            };
            let mut msg = String::from_str("Byte rate limit exceeded: ");
            let n = u64_to_string(self.config.max_bytes_per_second);
            msg.append(n.as_str());
            msg.append(" bytes/sec");
            return Err(LinkError::RateLimitExceeded(msg));
        }

        let burst_cutoff = if now >= BURST_WINDOW_MICROS {
            now - BURST_WINDOW_MICROS
        } else {
            0
        };
        let burst_count = self.count_records_from(burst_cutoff);
        if burst_count >= self.config.burst_size as u64 {
            self.total_rejected = if self.total_rejected < u64::MAX {
                self.total_rejected + 1
            } else {
                u64::MAX
            };
            let mut msg = String::from_str("Burst limit exceeded: ");
            let n = u64_to_string(self.config.burst_size as u64);
            msg.append(n.as_str());
            msg.append(" msgs");
            return Err(LinkError::RateLimitExceeded(msg));
        }

        self.record_message(now, message_size);
        Ok(())
    }

    /// Admission at the current instant. Whatever the clock reads: the two
    /// lifetime counters together move by exactly one per call (until they
    /// saturate), and a fresh limiter whose limits allow even one message of
    /// this size admits it.
    pub fn check_and_record(&mut self, message_size: u64) -> (r: Result<(), LinkError>)
        ensures
            final(self).spec_config() == old(self).spec_config(),
            r matches Err(e) ==> e is RateLimitExceeded,
            r is Ok ==> final(self).spec_total_messages() == sat_add(
                old(self).spec_total_messages(),
                1,
            ) && final(self).spec_total_rejected() == old(self).spec_total_rejected(),
            r is Err ==> final(self).spec_total_rejected() == sat_add(
                old(self).spec_total_rejected(),
                1,
            ) && final(self).spec_total_messages() == old(self).spec_total_messages(),
            old(self).spec_history().len() == 0 && old(self).spec_byte_history().len() == 0
                && old(self).spec_config().max_messages_per_second >= 1 && old(
                self,
            ).spec_config().burst_size >= 1 && message_size <= old(
                self,
            ).spec_config().max_bytes_per_second ==> r is Ok,
            exists|now: u64|
                #[trigger] spec_window_transition(
                    *old(self),
                    *final(self),
                    now,
                    message_size,
                    r is Ok,
                ),
    {
        let now = now_micros();
        proof {
            if self.spec_history().len() == 0 && self.spec_byte_history().len() == 0
                && self.spec_config().max_messages_per_second >= 1
                && self.spec_config().burst_size >= 1 && message_size
                <= self.spec_config().max_bytes_per_second {
                assert(self.spec_history() =~= Seq::<MessageRecord>::empty());
                assert(self.spec_byte_history() =~= Seq::<MessageRecord>::empty());
                lemma_fresh_admission(self.spec_config(), now, message_size);
            }
        }
        let ghost pre = *self;
        let r = self.check_and_record_at(message_size, now);
        proof {
            assert(spec_window_transition(pre, *self, now, message_size, r is Ok));
        }
        r
    }

    /// Like `check_and_record`, reporting only whether the message passed.
    pub fn check(&mut self, message_size: u64) -> (r: bool)
        ensures
            final(self).spec_config() == old(self).spec_config(),
            r ==> final(self).spec_total_messages() == sat_add(
                old(self).spec_total_messages(),
                1,
            ) && final(self).spec_total_rejected() == old(self).spec_total_rejected(),
            !r ==> final(self).spec_total_rejected() == sat_add(
                old(self).spec_total_rejected(),
                1,
            ) && final(self).spec_total_messages() == old(self).spec_total_messages(),
            old(self).spec_history().len() == 0 && old(self).spec_byte_history().len() == 0
                && old(self).spec_config().max_messages_per_second >= 1 && old(
                self,
            ).spec_config().burst_size >= 1 && message_size <= old(
                self,
            ).spec_config().max_bytes_per_second ==> r,
            exists|now: u64|
                #[trigger] spec_window_transition(*old(self), *final(self), now, message_size, r),
    {
        self.check_and_record(message_size).is_ok()
    }

    /// Record an admitted message in both histories and move the lifetime
    /// counters.
    fn record_message(&mut self, timestamp: u64, size: u64)
        ensures
            final(self).spec_config() == old(self).spec_config(),
            final(self).spec_history() == old(self).spec_history().push(
                MessageRecord { timestamp, size },
            ),
            final(self).spec_byte_history() == old(self).spec_byte_history().push(
                MessageRecord { timestamp, size },
            ),
            final(self).spec_total_messages() == sat_add(old(self).spec_total_messages(), 1),
            final(self).spec_total_bytes() == sat_add(old(self).spec_total_bytes(), size),
            final(self).spec_total_rejected() == old(self).spec_total_rejected(),
    {
        let record = MessageRecord { timestamp, size };
        self.message_history.push(record);
        self.byte_history.push(record);
        self.total_messages = if self.total_messages < u64::MAX {
            self.total_messages + 1
        } else {
            u64::MAX
        };
        self.total_bytes = if size <= u64::MAX - self.total_bytes {
            self.total_bytes + size
        } else {
            u64::MAX
        };
    }

    /// Drop stale records from the front of both histories.
    #[verifier::loop_isolation(false)]
    fn cleanup_old_records(&mut self, now: u64)
        ensures
            final(self).spec_config() == old(self).spec_config(),
            final(self).spec_history() == evict_old(
                old(self).spec_history(),
                spec_cutoff(now, old(self).spec_config().window_duration),
            ),
            final(self).spec_byte_history() == evict_old(
                old(self).spec_byte_history(),
                spec_cutoff(now, old(self).spec_config().window_duration),
            ),
            final(self).spec_total_messages() == old(self).spec_total_messages(),
            final(self).spec_total_bytes() == old(self).spec_total_bytes(),
            final(self).spec_total_rejected() == old(self).spec_total_rejected(),
    {
        let cutoff = if now >= self.config.window_duration {
            now - self.config.window_duration
        } else {
            0
        };
        proof {
            assert(cutoff == spec_cutoff(now, self.config.window_duration));
        }
        loop
            invariant
                self.config == old(self).spec_config(),
                self.total_messages == old(self).spec_total_messages(),
                self.total_bytes == old(self).spec_total_bytes(),
                self.total_rejected == old(self).spec_total_rejected(),
                self.byte_history@ == old(self).spec_byte_history(),
                evict_old(self.message_history@, cutoff) == evict_old(
                    old(self).spec_history(),
                    cutoff,
                ),
            decreases self.message_history@.len(),
        {
            if self.message_history.len() > 0 {
                let ts = self.message_history[0].timestamp;
                if ts < cutoff {
                    let ghost before = self.message_history@;
                    let _ = self.message_history.remove(0);
                    proof {
                        assert(self.message_history@ =~= before.drop_first());
                    }
                    continue ;
                }
            }
            break ;
        }
        proof {
            assert(evict_old(self.message_history@, cutoff) == self.message_history@);
        }
        loop
            invariant
                self.config == old(self).spec_config(),
                self.total_messages == old(self).spec_total_messages(),
                self.total_bytes == old(self).spec_total_bytes(),
                self.total_rejected == old(self).spec_total_rejected(),
                self.message_history@ == evict_old(old(self).spec_history(), cutoff),
                evict_old(self.byte_history@, cutoff) == evict_old(
                    old(self).spec_byte_history(),
                    cutoff,
                ),
            decreases self.byte_history@.len(),
        {
            if self.byte_history.len() > 0 {
                let ts = self.byte_history[0].timestamp;
                if ts < cutoff {
                    let ghost before = self.byte_history@;
                    let _ = self.byte_history.remove(0);
                    proof {
                        assert(self.byte_history@ =~= before.drop_first());
                    }
                    continue ;
                }
            }
            break ;
        }
        proof {
            assert(evict_old(self.byte_history@, cutoff) == self.byte_history@);
        }
    }

    /// Count the records at or after `cutoff`.
    #[verifier::loop_isolation(false)]
    fn count_records_from(&self, cutoff: u64) -> (n: u64)
        ensures
            n == count_in_window(self.spec_history(), cutoff),
    {
        let ghost h = self.message_history@;
        let len = self.message_history.len();
        let mut n: u64 = 0;
        let mut i: usize = 0;
        while i < len
            invariant
                0 <= i <= h.len(),
                h.len() == len,
                n <= i,
                n == count_in_window(h.take(i as int), cutoff),
            decreases h.len() - i,
        {
            proof {
                lemma_count_bounds(h.take(i as int), cutoff);
                assert(h.take(i + 1).drop_last() =~= h.take(i as int));
                assert(h.take(i + 1).last() == h[i as int]);
                assert(h.take(i as int).len() == i);
            }
            if self.message_history[i].timestamp >= cutoff {
                n = n + 1;
            }
            i = i + 1;
        }
        proof {
            assert(h.take(h.len() as int) =~= h);
        }
        n
    }

    /// Sum the sizes of the byte-history records at or after `cutoff`.
    #[verifier::loop_isolation(false)]
    fn count_bytes_from(&self, cutoff: u64) -> (n: u128)
        ensures
            n == bytes_in_window(self.spec_byte_history(), cutoff),
    {
        let ghost h = self.byte_history@;
        let len = self.byte_history.len();
        let mut n: u128 = 0;
        let mut i: usize = 0;
        while i < len
            invariant
                0 <= i <= h.len(),
                h.len() == len,
                n <= i as int * (u64::MAX as int),
                n == bytes_in_window(h.take(i as int), cutoff),
            decreases h.len() - i,
        {
            proof {
                lemma_bytes_bounds(h.take(i as int), cutoff);
                assert(h.take(i + 1).drop_last() =~= h.take(i as int));
                assert(h.take(i + 1).last() == h[i as int]);
                assert(h.take(i as int).len() == i);
                assert((i + 1) as int * (u64::MAX as int) == i as int * (u64::MAX as int) + (
                u64::MAX as int));
                assert((i + 1) as int * (u64::MAX as int) < u128::MAX) by (nonlinear_arith)
                    requires
                        0 <= i + 1 <= 0x10000000000000000,
                ;
            }
            if self.byte_history[i].timestamp >= cutoff {
                n = n + self.byte_history[i].size as u128;
            }
            i = i + 1;
        }
        proof {
            assert(h.take(h.len() as int) =~= h);
        }
        n
    }

    /// Forget the windows; the lifetime counters stay.
    pub fn reset(&mut self)
        ensures
            final(self).spec_config() == old(self).spec_config(),
            final(self).spec_history() == Seq::<MessageRecord>::empty(),
            final(self).spec_byte_history() == Seq::<MessageRecord>::empty(),
            final(self).spec_total_messages() == old(self).spec_total_messages(),
            final(self).spec_total_bytes() == old(self).spec_total_bytes(),
            final(self).spec_total_rejected() == old(self).spec_total_rejected(),
    {
        self.message_history.clear();
        self.byte_history.clear();
        proof {
            assert(self.message_history@ =~= Seq::<MessageRecord>::empty());
            assert(self.byte_history@ =~= Seq::<MessageRecord>::empty());
        }
    }

    /// The lifetime counters and the current window occupancy.
    pub fn get_stats(&self) -> (s: RateLimitStats)
        ensures
            s.total_messages == self.spec_total_messages(),
            s.total_bytes == self.spec_total_bytes(),
            s.total_rejected == self.spec_total_rejected(),
            s.messages_in_window == self.spec_history().len() as u32,
            s.bytes_in_window == sum_sizes(self.spec_byte_history()) as u64,
    {
        let ghost h = self.byte_history@;
        let len = self.byte_history.len();
        let mut n: u128 = 0;
        let mut i: usize = 0;
        while i < len
            invariant
                0 <= i <= h.len(),
                h.len() == len,
                h == self.byte_history@,
                n <= i as int * (u64::MAX as int),
                n == sum_sizes(h.take(i as int)),
            decreases h.len() - i,
        {
            proof {
                assert(h.take(i + 1).drop_last() =~= h.take(i as int));
                assert(h.take(i + 1).last() == h[i as int]);
                assert(h.take(i as int).len() == i);
                lemma_sum_nonneg(h.take(i as int));
                assert((i + 1) as int * (u64::MAX as int) == i as int * (u64::MAX as int) + (
                u64::MAX as int));
                assert((i + 1) as int * (u64::MAX as int) < u128::MAX) by (nonlinear_arith)
                    requires
                        0 <= i + 1 <= 0x10000000000000000,
                ;
            }
            n = n + self.byte_history[i].size as u128;
            i = i + 1;
        }
        proof {
            assert(h.take(h.len() as int) =~= h);
        }
        RateLimitStats {
            total_messages: self.total_messages,
            total_bytes: self.total_bytes,
            total_rejected: self.total_rejected,
            messages_in_window: self.message_history.len() as u32,
            bytes_in_window: n as u64,
        }
    }

    pub fn get_config(&self) -> (c: &RateLimitConfig)
        ensures
            c == self.spec_config(),
    {
        &self.config
    }

    pub fn set_config(&mut self, config: RateLimitConfig)
        ensures
            final(self).spec_config() == config,
            final(self).spec_history() == old(self).spec_history(),
            final(self).spec_byte_history() == old(self).spec_byte_history(),
            final(self).spec_total_messages() == old(self).spec_total_messages(),
            final(self).spec_total_bytes() == old(self).spec_total_bytes(),
            final(self).spec_total_rejected() == old(self).spec_total_rejected(),
    {
        self.config = config;
    }
}

/// A fresh window admits a message whatever the clock reads, provided the
/// limits allow even one message of that size.
pub proof fn lemma_fresh_admission(cfg: RateLimitConfig, now: u64, size: u64)
    requires
        cfg.max_messages_per_second >= 1,
        cfg.burst_size >= 1,
        size <= cfg.max_bytes_per_second,
    ensures
        spec_admitted(
            cfg,
            Seq::<MessageRecord>::empty(),
            Seq::<MessageRecord>::empty(),
            now,
            size,
        ),
{
    let cut = spec_cutoff(now, cfg.window_duration);
    let bcut = spec_cutoff(now, BURST_WINDOW_MICROS);
    assert(evict_old(Seq::<MessageRecord>::empty(), cut) == Seq::<MessageRecord>::empty());
    assert(count_in_window(Seq::<MessageRecord>::empty(), cut) == 0);
    assert(count_in_window(Seq::<MessageRecord>::empty(), bcut) == 0);
    assert(bytes_in_window(Seq::<MessageRecord>::empty(), cut) == 0);
}

/// The in-window count is between zero and the history length.
pub proof fn lemma_count_bounds(h: Seq<MessageRecord>, cutoff: u64)
    ensures
        0 <= count_in_window(h, cutoff) <= h.len(),
    decreases h.len(),
{
    if h.len() > 0 {
        lemma_count_bounds(h.drop_last(), cutoff);
    }
}

/// The in-window byte total is nonnegative.
pub proof fn lemma_bytes_bounds(h: Seq<MessageRecord>, cutoff: u64)
    ensures
        0 <= bytes_in_window(h, cutoff),
    decreases h.len(),
{
    if h.len() > 0 {
        lemma_bytes_bounds(h.drop_last(), cutoff);
    }
}


/// A plain size total is nonnegative.
pub proof fn lemma_sum_nonneg(h: Seq<MessageRecord>)
    ensures
        0 <= sum_sizes(h),
    decreases h.len(),
{
    if h.len() > 0 {
        lemma_sum_nonneg(h.drop_last());
    }
}



/// Tokens added by a refill at `now`: one token per full refill interval
/// elapsed, with no fractional carry between calls.
pub open spec fn spec_refill_amount(rate: u32, last_refill: u64, now: u64) -> int {
    let elapsed: int = if now >= last_refill {
        now - last_refill
    } else {
        0
    };
    (elapsed * rate) / 1000000
}

/// The token count after a refill at `now`.
pub open spec fn spec_refilled_tokens(tokens: u32, capacity: u32, rate: u32, last_refill: u64, now: u64) -> int {
    let add = spec_refill_amount(rate, last_refill, now);
    if add > 0 {
        if tokens + add >= capacity {
            capacity as int
        } else {
            tokens + add
        }
    } else {
        tokens as int
    }
}

/// The refill instant after a refill at `now`: it moves only when at least
/// one token was added.
pub open spec fn spec_refilled_last(tokens: u32, capacity: u32, rate: u32, last_refill: u64, now: u64) -> u64 {
    if spec_refill_amount(rate, last_refill, now) > 0 {
        now
    } else {
        last_refill
    }
}

/// The full state transition of one token-bucket decision read at instant
/// `now`: the bucket refills, the call is admitted iff a token is there,
/// and either a token is consumed or only the rejection counter moves.
pub open spec fn spec_bucket_transition(
    pre: TokenBucketRateLimiter,
    post: TokenBucketRateLimiter,
    now: u64,
    admitted: bool,
) -> bool {
    let refilled = spec_refilled_tokens(
        pre.spec_tokens(),
        pre.spec_capacity(),
        pre.spec_rate(),
        pre.spec_last_refill(),
        now,
    );
    &&& admitted == (refilled > 0)
    &&& post.spec_capacity() == pre.spec_capacity()
    &&& post.spec_rate() == pre.spec_rate()
    &&& post.spec_last_refill() == spec_refilled_last(
        pre.spec_tokens(),
        pre.spec_capacity(),
        pre.spec_rate(),
        pre.spec_last_refill(),
        now,
    )
    &&& if admitted {
        &&& post.spec_tokens() == refilled - 1
        &&& post.spec_total_messages() == sat_add(pre.spec_total_messages(), 1)
        &&& post.spec_total_rejected() == pre.spec_total_rejected()
    } else {
        &&& post.spec_tokens() == 0
        &&& post.spec_total_messages() == pre.spec_total_messages()
        &&& post.spec_total_rejected() == sat_add(pre.spec_total_rejected(), 1)
    }
}

/// Token-bucket limiter: capacity `C`, refill `R` tokens per second, one
/// token consumed per admitted message.
pub struct TokenBucketRateLimiter {
    capacity: u32,
    tokens: u32,
    refill_rate: u32,
    last_refill: u64,
    total_messages: u64,
    total_rejected: u64,
}

impl TokenBucketRateLimiter {
    /// The bucket never holds more than its capacity.
    #[verifier::type_invariant]
    pub closed spec fn wf(&self) -> bool {
        self.tokens <= self.capacity
    }

    pub closed spec fn spec_capacity(&self) -> u32 {
        self.capacity
    }

    pub closed spec fn spec_tokens(&self) -> u32 {
        self.tokens
    }

    pub closed spec fn spec_rate(&self) -> u32 {
        self.refill_rate
    }

    pub closed spec fn spec_last_refill(&self) -> u64 {
        self.last_refill
    }

    pub closed spec fn spec_total_messages(&self) -> u64 {
        self.total_messages
    }

    pub closed spec fn spec_total_rejected(&self) -> u64 {
        self.total_rejected
    }

    /// A fresh bucket is full. Its refill clock starts at the current
    /// instant, whatever that is.
    pub fn new(capacity: u32, refill_rate: u32) -> (l: TokenBucketRateLimiter)
        ensures
            l.spec_capacity() == capacity,
            l.spec_tokens() == capacity,
            l.spec_rate() == refill_rate,
            l.spec_total_messages() == 0,
            l.spec_total_rejected() == 0,
    {
        TokenBucketRateLimiter {
            capacity,
            tokens: capacity,
            refill_rate,
            last_refill: now_micros(),
            total_messages: 0,
            total_rejected: 0,
        }
    }

    /// Advance the bucket to `now`: add one token per full refill interval
    /// elapsed, clamp at capacity, and move the refill clock only when at
    /// least one token was added.
    fn refill_at(&mut self, now: u64)
        ensures
            final(self).spec_capacity() == old(self).spec_capacity(),
            final(self).spec_rate() == old(self).spec_rate(),
            final(self).spec_total_messages() == old(self).spec_total_messages(),
            final(self).spec_total_rejected() == old(self).spec_total_rejected(),
            final(self).spec_tokens() == spec_refilled_tokens(
                old(self).spec_tokens(),
                old(self).spec_capacity(),
                old(self).spec_rate(),
                old(self).spec_last_refill(),
                now,
            ),
            final(self).spec_last_refill() == spec_refilled_last(
                old(self).spec_tokens(),
                old(self).spec_capacity(),
                old(self).spec_rate(),
                old(self).spec_last_refill(),
                now,
            ),
    {
        proof {
            use_type_invariant(&*self);
        }
        let elapsed: u64 = if now >= self.last_refill {
            now - self.last_refill
        } else {
            0
        };
        proof {
            assert((elapsed as int) * (self.refill_rate as int) < u128::MAX) by (nonlinear_arith)
                requires
                    elapsed <= u64::MAX,
                    self.refill_rate <= u32::MAX,
            ;
        }
        let add: u128 = (elapsed as u128) * (self.refill_rate as u128) / 1000000;
        if add > 0 {
            if add >= (self.capacity - self.tokens) as u128 {
                self.tokens = self.capacity;
            } else {
                self.tokens = self.tokens + (add as u32);
            }
            self.last_refill = now;
        }
    }

    /// Refill at `now`, then consume one token; rejected exactly when the
    /// refilled bucket is empty.
    pub fn check_and_consume_at(&mut self, now: u64) -> (r: Result<(), LinkError>)
        ensures
            final(self).spec_capacity() == old(self).spec_capacity(),
            final(self).spec_rate() == old(self).spec_rate(),
            r is Ok <==> spec_refilled_tokens(
                old(self).spec_tokens(),
                old(self).spec_capacity(),
                old(self).spec_rate(),
                old(self).spec_last_refill(),
                now,
            ) > 0,
            r matches Err(e) ==> e is RateLimitExceeded,
            final(self).spec_last_refill() == spec_refilled_last(
                old(self).spec_tokens(),
                old(self).spec_capacity(),
                old(self).spec_rate(),
                old(self).spec_last_refill(),
                now,
            ),
            r is Ok ==> final(self).spec_tokens() == spec_refilled_tokens(
                old(self).spec_tokens(),
                old(self).spec_capacity(),
                old(self).spec_rate(),
                old(self).spec_last_refill(),
                now,
            ) - 1 && final(self).spec_total_messages() == sat_add(
                old(self).spec_total_messages(),
                1,
            ) && final(self).spec_total_rejected() == old(self).spec_total_rejected(),
            r is Err ==> final(self).spec_tokens() == 0 && final(self).spec_total_rejected()
                == sat_add(old(self).spec_total_rejected(), 1)
                && final(self).spec_total_messages() == old(self).spec_total_messages(),
    {
        self.refill_at(now);
        if self.tokens == 0 {
            self.total_rejected = if self.total_rejected < u64::MAX {
                self.total_rejected + 1
            } else {
                u64::MAX
            };
            let mut msg = String::from_str("Token bucket empty (capacity: ");
            let n = u64_to_string(self.capacity as u64);
            msg.append(n.as_str());
            msg.append(")");
            return Err(LinkError::RateLimitExceeded(msg));
        }
        proof {
            use_type_invariant(&*self);
        }
        self.tokens = self.tokens - 1;
        self.total_messages = if self.total_messages < u64::MAX {
            self.total_messages + 1
        } else {
            u64::MAX
        };
        Ok(())
    }

    /// Consume one token at the current instant. Whatever the clock reads:
    /// the two lifetime counters together move by exactly one per call
    /// (until they saturate), and a bucket holding at least one token
    /// admits the call, since a refill never removes tokens.
    pub fn check_and_consume(&mut self) -> (r: Result<(), LinkError>)
        ensures
            final(self).spec_capacity() == old(self).spec_capacity(),
            final(self).spec_rate() == old(self).spec_rate(),
            r matches Err(e) ==> e is RateLimitExceeded,
            r is Ok ==> final(self).spec_total_messages() == sat_add(
                old(self).spec_total_messages(),
                1,
            ) && final(self).spec_total_rejected() == old(self).spec_total_rejected(),
            r is Err ==> final(self).spec_total_rejected() == sat_add(
                old(self).spec_total_rejected(),
                1,
            ) && final(self).spec_total_messages() == old(self).spec_total_messages(),
            old(self).spec_tokens() >= 1 ==> r is Ok,
            exists|now: u64|
                #[trigger] spec_bucket_transition(*old(self), *final(self), now, r is Ok),
    {
        let now = now_micros();
        proof {
            use_type_invariant(&*self);
            if self.spec_tokens() >= 1 {
                lemma_tokens_admit(
                    self.spec_tokens(),
                    self.spec_capacity(),
                    self.spec_rate(),
                    self.spec_last_refill(),
                    now,
                );
            }
        }
        let ghost pre = *self;
        let r = self.check_and_consume_at(now);
        proof {
            assert(spec_bucket_transition(pre, *self, now, r is Ok));
        }
        r
    }

    /// Like `check_and_consume`, reporting only whether a token was taken.
    pub fn check(&mut self) -> (r: bool)
        ensures
            final(self).spec_capacity() == old(self).spec_capacity(),
            final(self).spec_rate() == old(self).spec_rate(),
            r ==> final(self).spec_total_messages() == sat_add(
                old(self).spec_total_messages(),
                1,
            ) && final(self).spec_total_rejected() == old(self).spec_total_rejected(),
            !r ==> final(self).spec_total_rejected() == sat_add(
                old(self).spec_total_rejected(),
                1,
            ) && final(self).spec_total_messages() == old(self).spec_total_messages(),
            old(self).spec_tokens() >= 1 ==> r,
            exists|now: u64| #[trigger] spec_bucket_transition(*old(self), *final(self), now, r),
    {
        self.check_and_consume().is_ok()
    }

    /// Refill the bucket to capacity and restart its clock at `now`.
    pub fn reset_at(&mut self, now: u64)
        ensures
            final(self).spec_capacity() == old(self).spec_capacity(),
            final(self).spec_rate() == old(self).spec_rate(),
            final(self).spec_tokens() == old(self).spec_capacity(),
            final(self).spec_last_refill() == now,
            final(self).spec_total_messages() == old(self).spec_total_messages(),
            final(self).spec_total_rejected() == old(self).spec_total_rejected(),
    {
        self.tokens = self.capacity;
        self.last_refill = now;
    }

    /// Refill the bucket to capacity and restart its clock now.
    pub fn reset(&mut self)
        ensures
            final(self).spec_capacity() == old(self).spec_capacity(),
            final(self).spec_rate() == old(self).spec_rate(),
            final(self).spec_tokens() == old(self).spec_capacity(),
            final(self).spec_total_messages() == old(self).spec_total_messages(),
            final(self).spec_total_rejected() == old(self).spec_total_rejected(),
    {
        let now = now_micros();
        self.reset_at(now);
    }

    pub fn get_available_tokens(&self) -> (t: u32)
        ensures
            t == self.spec_tokens(),
            t <= self.spec_capacity(),
    {
        proof {
            use_type_invariant(&*self);
        }
        self.tokens
    }

    pub fn get_stats(&self) -> (s: (u64, u64))
        ensures
            s.0 == self.spec_total_messages(),
            s.1 == self.spec_total_rejected(),
    {
        (self.total_messages, self.total_rejected)
    }
}

/// A bucket holding at least one token admits the next call whatever the
/// clock reads: a refill never removes tokens.
pub proof fn lemma_tokens_admit(tokens: u32, capacity: u32, rate: u32, last_refill: u64, now: u64)
    requires
        tokens >= 1,
        tokens <= capacity,
    ensures
        spec_refilled_tokens(tokens, capacity, rate, last_refill, now) >= 1,
{
    let elapsed: int = if now >= last_refill {
        now - last_refill
    } else {
        0
    };
    assert(elapsed * rate >= 0) by (nonlinear_arith)
        requires
            elapsed >= 0,
            rate >= 0,
    ;
    assert(spec_refill_amount(rate, last_refill, now) >= 0);
}

/// Token bucket steady state: once at least one refill interval has passed
/// since the last refill, the next call is admitted, and the refill clock
/// moves to the call's instant — so calls that keep at most the refill rate
/// succeed indefinitely.
pub proof fn lemma_token_bucket_steady(tokens: u32, capacity: u32, rate: u32, last_refill: u64, now: u64)
    requires
        capacity >= 1,
        rate >= 1,
        now >= last_refill,
        (now - last_refill) * rate >= 1000000,
    ensures
        spec_refilled_tokens(tokens, capacity, rate, last_refill, now) > 0,
        spec_refilled_last(tokens, capacity, rate, last_refill, now) == now,
{
    let elapsed: int = now - last_refill;
    let add = (elapsed * rate) / 1000000;
    assert(add >= 1) by (nonlinear_arith)
        requires
            elapsed * rate >= 1000000,
            add == (elapsed * rate) / 1000000,
    ;
}

/// All records strictly older than the window are evicted.
pub proof fn lemma_evict_all_stale(h: Seq<MessageRecord>, cutoff: u64)
    requires
        forall|i: int| 0 <= i < h.len() ==> #[trigger] h[i].timestamp < cutoff,
    ensures
        evict_old(h, cutoff) == Seq::<MessageRecord>::empty(),
    decreases h.len(),
{
    if h.len() > 0 {
        assert(h.first() == h[0]);
        assert forall|i: int| 0 <= i < h.drop_first().len() implies #[trigger] h.drop_first()[i].timestamp
            < cutoff by {
            assert(h.drop_first()[i] == h[i + 1]);
        }
        lemma_evict_all_stale(h.drop_first(), cutoff);
    } else {
        assert(h =~= Seq::<MessageRecord>::empty());
    }
}

/// `k` identical records, all admitted at the same instant.
pub open spec fn uniform_records(now: u64, size: u64, k: nat) -> Seq<MessageRecord> {
    Seq::new(k, |i: int| MessageRecord { timestamp: now, size })
}

proof fn lemma_uniform_counts(now: u64, size: u64, k: nat, cutoff: u64)
    requires
        now >= cutoff,
    ensures
        count_in_window(uniform_records(now, size, k), cutoff) == k,
        bytes_in_window(uniform_records(now, size, k), cutoff) == k * size,
        evict_old(uniform_records(now, size, k), cutoff) == uniform_records(now, size, k),
    decreases k,
{
    let h = uniform_records(now, size, k);
    if k == 0 {
        assert(h.len() == 0);
    } else {
        assert(h.drop_last() =~= uniform_records(now, size, (k - 1) as nat));
        lemma_uniform_counts(now, size, (k - 1) as nat, cutoff);
        assert(h.last().timestamp == now);
        assert(count_in_window(h, cutoff) == (k - 1) + 1);
        assert(bytes_in_window(h, cutoff) == (k - 1) * size + size);
        assert((k - 1) * size + size == k * size) by (nonlinear_arith);
        assert(h.first().timestamp == now);
    }
}

/// Can `n` consecutive messages of `size` be admitted at `now`, starting
/// from the given histories?
pub open spec fn spec_admit_run(
    cfg: RateLimitConfig,
    mh: Seq<MessageRecord>,
    bh: Seq<MessageRecord>,
    now: u64,
    size: u64,
    n: nat,
) -> bool
    decreases n,
{
    n == 0 || {
        let cut = spec_cutoff(now, cfg.window_duration);
        let rec = MessageRecord { timestamp: now, size };
        &&& spec_admitted(cfg, mh, bh, now, size)
        &&& spec_admit_run(
            cfg,
            evict_old(mh, cut).push(rec),
            evict_old(bh, cut).push(rec),
            now,
            size,
            (n - 1) as nat,
        )
    }
}

proof fn lemma_uniform_burst(cfg: RateLimitConfig, now: u64, size: u64, k: nat, n: nat)
    requires
        k + n <= cfg.max_messages_per_second,
        k + n <= cfg.burst_size,
        (k + n) * size <= cfg.max_bytes_per_second,
    ensures
        spec_admit_run(
            cfg,
            uniform_records(now, size, k),
            uniform_records(now, size, k),
            now,
            size,
            n,
        ),
    decreases n,
{
    if n > 0 {
        let cut = spec_cutoff(now, cfg.window_duration);
        let bcut = spec_cutoff(now, BURST_WINDOW_MICROS);
        let h = uniform_records(now, size, k);
        lemma_uniform_counts(now, size, k, cut);
        lemma_uniform_counts(now, size, k, bcut);
        assert(k * size + size <= (k + n) * size) by (nonlinear_arith)
            requires
                n >= 1,
                size >= 0,
        ;
        assert(spec_admitted(cfg, h, h, now, size));
        let rec = MessageRecord { timestamp: now, size };
        assert(evict_old(h, cut).push(rec) =~= uniform_records(now, size, k + 1));
        lemma_uniform_burst(cfg, now, size, k + 1, (n - 1) as nat);
    }
}

/// Sliding-window boundary law: once every recorded message is strictly
/// older than the window, a full burst of `n` messages is admissible again,
/// up to the message, burst and byte limits.
pub proof fn lemma_window_boundary(
    cfg: RateLimitConfig,
    mh: Seq<MessageRecord>,
    bh: Seq<MessageRecord>,
    now: u64,
    size: u64,
    n: nat,
)
    requires
        forall|i: int| 0 <= i < mh.len() ==> #[trigger] mh[i].timestamp + cfg.window_duration
            < now,
        forall|i: int| 0 <= i < bh.len() ==> #[trigger] bh[i].timestamp + cfg.window_duration
            < now,
        n <= cfg.max_messages_per_second,
        n <= cfg.burst_size,
        n * size <= cfg.max_bytes_per_second,
    ensures
        spec_admit_run(cfg, mh, bh, now, size, n),
{
    if n > 0 {
        let cut = spec_cutoff(now, cfg.window_duration);
        let bcut = spec_cutoff(now, BURST_WINDOW_MICROS);
        assert forall|i: int| 0 <= i < mh.len() implies #[trigger] mh[i].timestamp < cut by {}
        assert forall|i: int| 0 <= i < bh.len() implies #[trigger] bh[i].timestamp < cut by {}
        lemma_evict_all_stale(mh, cut);
        lemma_evict_all_stale(bh, cut);
        lemma_uniform_counts(now, size, 0, cut);
        lemma_uniform_counts(now, size, 0, bcut);
        assert(evict_old(mh, cut) =~= uniform_records(now, size, 0));
        assert(evict_old(bh, cut) =~= uniform_records(now, size, 0));
        assert(1 * size <= n * size) by (nonlinear_arith)
            requires
                n >= 1,
                size >= 0,
        ;
        assert(spec_admitted(cfg, mh, bh, now, size));
        let rec = MessageRecord { timestamp: now, size };
        assert(evict_old(mh, cut).push(rec) =~= uniform_records(now, size, 1));
        assert(evict_old(bh, cut).push(rec) =~= uniform_records(now, size, 1));
        lemma_uniform_burst(cfg, now, size, 1, (n - 1) as nat);
    }
}

} // verus!

