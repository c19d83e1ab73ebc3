//! Ephemeral ports: the range they come from and how a free one is found.

use rand::Rng;
use vstd::prelude::*;

verus! {

/// The lowest ephemeral port.
pub const EPHEMERAL_MIN: u16 = 1024;

/// The bound above the ephemeral ports; it is not one of them.
pub const EPHEMERAL_END: u16 = 65535;

/// `port` is one that the multiplexor picks by itself.
pub open spec fn ephemeral(port: u16) -> bool {
    EPHEMERAL_MIN <= port < EPHEMERAL_END
}

/// How many steps lead from `start` up to `port` when the ephemeral ports
/// are walked upwards and the lowest follows the highest.
pub open spec fn probe_offset(start: u16, port: u16) -> int {
    if port >= start {
        port - start
    } else {
        port - start + (EPHEMERAL_END - EPHEMERAL_MIN)
    }
}

/// Some ephemeral port is not in `taken`.
pub open spec fn has_free(taken: Set<u16>) -> bool {
    exists|port: u16| ephemeral(port) && !taken.contains(port)
}

/// `port` is the first ephemeral port outside `taken` on the walk that
/// begins at `start`.
pub open spec fn is_first_free(taken: Set<u16>, start: u16, port: u16) -> bool {
    &&& ephemeral(port)
    &&& !taken.contains(port)
    &&& forall|other: u16|
        ephemeral(other) && !taken.contains(other) ==> probe_offset(start, port) <= probe_offset(
            start,
            other,
        )
}

/// The first ephemeral port outside `taken` on the walk from `start`.
pub open spec fn first_free(taken: Set<u16>, start: u16) -> u16 {
    choose|port: u16| is_first_free(taken, start, port)
}

/// The walk from an ephemeral `start` meets only one first free port.
pub proof fn lemma_first_free_unique(taken: Set<u16>, start: u16, port: u16)
    requires
        ephemeral(start),
        is_first_free(taken, start, port),
    ensures
        has_free(taken),
        first_free(taken, start) == port,
{
    let chosen = first_free(taken, start);
    assert(is_first_free(taken, start, chosen));
    assert(probe_offset(start, chosen) == probe_offset(start, port));
}

/// `rand::thread_rng().gen_range(low..high)`: a number drawn from the
/// half-open range. Nothing is known of it but that it lies in the range.
/// The call panics on an empty range, which `requires` rules out.
#[verifier::external_body]
pub(crate) fn random_in_range(low: u16, high: u16) -> (port: u16)
    requires
        low < high,
    ensures
        low <= port < high,
{
    rand::thread_rng().gen_range(low..high)
}

/// Whether `port` is among `ports`.
fn listed(ports: &Vec<u16>, port: u16) -> (found: bool)
    ensures
        found == ports@.contains(port),
{
    let mut i: usize = 0;
    while i < ports.len()
        invariant
            i <= ports.len(),
            forall|j: int| 0 <= j < i ==> ports@[j] != port,
        decreases ports.len() - i,
    {
        if ports[i] == port {
            return true;
        }
        i += 1;
    }
    false
}

/// Walks the ephemeral ports upwards from `start`, the lowest after the
/// highest, and returns the first that is not among `taken`; `None` when
/// every one of them is taken.
pub fn probe(taken: &Vec<u16>, start: u16) -> (found: Option<u16>)
    requires
        ephemeral(start),
    ensures
        match found {
            Some(port) => is_first_free(taken@.to_set(), start, port),
            None => !has_free(taken@.to_set()),
        },
{
    let span: u32 = (EPHEMERAL_END - EPHEMERAL_MIN) as u32;
    let mut k: u32 = 0;
    while k < span
        invariant
            ephemeral(start),
            span == EPHEMERAL_END - EPHEMERAL_MIN,
            k <= span,
            forall|other: u16|
                ephemeral(other) && probe_offset(start, other) < k ==> taken@.contains(other),
        decreases span - k,
    {
        let raw: u32 = start as u32 + k;
        let port: u16 = if raw < EPHEMERAL_END as u32 {
            raw as u16
        } else {
            (raw - span) as u16
        };
        assert(ephemeral(port) && probe_offset(start, port) == k);
        if !listed(taken, port) {
            return Some(port);
        }
        assert forall|other: u16|
            ephemeral(other) && probe_offset(start, other) < k + 1 implies taken@.contains(
            other,
        ) by {
            if probe_offset(start, other) == k {
                assert(other == port);
            }
        }
        k += 1;
    }
    None
}

} // verus!
