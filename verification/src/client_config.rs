//! What a client is configured with.

use vstd::prelude::*;

verus! {

/// Whether and how a lost connection is taken up again.
#[derive(Debug, Clone, Copy, PartialEq, Eq, Structural)]
pub struct ReconnectPolicy {
    /// Whether to connect again at all.
    pub enabled: bool,
    /// The wait before the first try, in milliseconds.
    pub min_backoff: u64,
    /// The longest wait between two tries, in milliseconds.
    pub max_backoff: u64,
}

/// The configuration of a client.
#[derive(Debug, Clone, PartialEq, Eq)]
pub struct Config {
    /// Where the server is.
    pub address: String,
    /// The name by which the client tells itself to the server.
    pub client_name: String,
    /// How long the handshake may take, in milliseconds.
    pub connect_timeout: u64,
    pub reconnect: ReconnectPolicy,
    /// How many frames and waiting values the engine holds at most.
    pub queue_capacity: usize,
}

/// The wait before try number `attempt` (from 0), before it is bounded: the
/// first wait, doubled with each try.
pub open spec fn doubled(first: nat, attempt: nat) -> nat
    decreases attempt,
{
    if attempt == 0 {
        first
    } else {
        2 * doubled(first, (attempt - 1) as nat)
    }
}

/// The wait before try number `attempt` (from 0): the first wait doubled
/// with each try, but no longer than the longest wait and no shorter than
/// the first.
pub open spec fn backoff(policy: ReconnectPolicy, attempt: nat) -> nat {
    if doubled(policy.min_backoff as nat, attempt) >= policy.max_backoff {
        if policy.max_backoff >= policy.min_backoff {
            policy.max_backoff as nat
        } else {
            policy.min_backoff as nat
        }
    } else {
        doubled(policy.min_backoff as nat, attempt)
    }
}

/// Doubling never shortens a wait.
pub proof fn lemma_doubled_grows(first: nat, a: nat, b: nat)
    requires
        a <= b,
    ensures
        doubled(first, a) <= doubled(first, b),
    decreases b,
{
    if a < b {
        lemma_doubled_grows(first, a, (b - 1) as nat);
    }
}

/// The wait lies between the first wait and the longest, where the longest
/// is no shorter than the first, and never shrinks from one try to the
/// next.
pub proof fn lemma_backoff_bounds(policy: ReconnectPolicy, a: nat, b: nat)
    requires
        a <= b,
    ensures
        backoff(policy, a) <= backoff(policy, b),
        policy.min_backoff <= backoff(policy, a),
        policy.min_backoff <= policy.max_backoff ==> backoff(policy, a) <= policy.max_backoff,
{
    lemma_doubled_grows(policy.min_backoff as nat, a, b);
    lemma_doubled_grows(policy.min_backoff as nat, 0, a);
    lemma_doubled_grows(policy.min_backoff as nat, 0, b);
}

impl ReconnectPolicy {
    /// The wait before try number `attempt` (from 0), in milliseconds; none
    /// where the policy is not to connect again.
    pub fn delay(&self, attempt: u32) -> (r: Option<u64>)
        ensures
            r.is_some() == self.enabled,
            r matches Some(d) ==> d == backoff(*self, attempt as nat),
    {
        if !self.enabled {
            return None;
        }
        let cap: u64 = if self.max_backoff >= self.min_backoff {
            self.max_backoff
        } else {
            self.min_backoff
        };
        let mut wait: u64 = self.min_backoff;
        let mut i: u32 = 0;
        while i < attempt
            invariant
                i <= attempt,
                self.enabled,
                cap == if self.max_backoff >= self.min_backoff {
                    self.max_backoff
                } else {
                    self.min_backoff
                },
                wait == doubled(self.min_backoff as nat, i as nat),
            decreases attempt - i,
        {
            if wait >= self.max_backoff {
                proof {
                    lemma_doubled_grows(self.min_backoff as nat, i as nat, attempt as nat);
                }
                return Some(cap);
            }
            if wait > self.max_backoff / 2 {
                proof {
                    assert(doubled(self.min_backoff as nat, (i + 1) as nat) == 2 * wait);
                    lemma_doubled_grows(self.min_backoff as nat, (i + 1) as nat, attempt as nat);
                }
                return Some(cap);
            }
            wait = 2 * wait;
            i += 1;
        }
        if wait >= self.max_backoff {
            Some(cap)
        } else {
            Some(wait)
        }
    }
}

} // verus!
