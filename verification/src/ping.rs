//! Round-trip times to peers. The echoes themselves are the caller's.
use crate::assoc::Assoc;
use vstd::prelude::*;

verus! {

/// How long an echo is waited for, in milliseconds.
pub const PROBE_TIMEOUT: u64 = 1_000;

/// An echo: whom it was sent to, and how long it took, in milliseconds, if it came back.
pub struct Echo {
    pub ip: u32,
    pub rtt_ms: Option<u64>,
}

/// The round-trip time that an echo tells.
pub open spec fn told(e: Echo) -> Option<u32> {
    match e.rtt_ms {
        Some(t) => if t <= PROBE_TIMEOUT {
            Some(t as u32)
        } else {
            None
        },
        None => None,
    }
}

/// The round-trip times that echoes tell; the last one for an address counts.
pub open spec fn latencies(es: Seq<Echo>) -> Map<u32, u32>
    decreases es.len(),
{
    if es.len() == 0 {
        Map::empty()
    } else {
        let before = latencies(es.drop_last());
        match told(es.last()) {
            Some(t) => before.insert(es.last().ip, t),
            None => before,
        }
    }
}

/// The round-trip time to each address that answered in time. An address that did not has none.
pub fn probe(echoes: &Vec<Echo>) -> (r: Assoc<u32, u32>)
    ensures
        r.wf(),
        r@ == latencies(echoes@),
{
    let mut out: Assoc<u32, u32> = Assoc::new();
    let mut i: usize = 0;
    assert(out@ =~= latencies(echoes@.take(0)));
    while i < echoes.len()
        invariant
            i <= echoes.len(),
            out.wf(),
            out@ == latencies(echoes@.take(i as int)),
        decreases echoes.len() - i,
    {
        assert(echoes@.take(i + 1).drop_last() =~= echoes@.take(i as int));
        if let Some(t) = echoes[i].rtt_ms {
            if t <= PROBE_TIMEOUT {
                out.insert(echoes[i].ip, t as u32);
            }
        }
        i += 1;
    }
    assert(echoes@.take(i as int) =~= echoes@);
    out
}

/// The round-trip time of an address is that of its last echo that came in time; an address without one
/// has none.
pub proof fn law_last_echo_in_time_counts(es: Seq<Echo>, ip: u32)
    ensures
        (forall|i: int|
            0 <= i < es.len() && (#[trigger] es[i]).ip == ip ==> es[i].rtt_ms is None
                || es[i].rtt_ms->0 > 1_000) ==> !latencies(es).contains_key(ip),
        forall|i: int|
            0 <= i < es.len() && (#[trigger] es[i]).ip == ip && es[i].rtt_ms is Some
                && es[i].rtt_ms->0 <= 1_000 && (forall|j: int|
                i < j < es.len() && (#[trigger] es[j]).ip == ip ==> es[j].rtt_ms is None
                    || es[j].rtt_ms->0 > 1_000) ==> latencies(es).contains_key(ip)
                && latencies(es)[ip] == es[i].rtt_ms->0,
{
    if forall|i: int|
        0 <= i < es.len() && (#[trigger] es[i]).ip == ip ==> es[i].rtt_ms is None
            || es[i].rtt_ms->0 > 1_000 {
        lemma_none_in_time(es, ip);
    }
    assert forall|i: int|
        0 <= i < es.len() && (#[trigger] es[i]).ip == ip && es[i].rtt_ms is Some && es[i].rtt_ms->0
            <= 1_000 && (forall|j: int|
            i < j < es.len() && (#[trigger] es[j]).ip == ip ==> es[j].rtt_ms is None
                || es[j].rtt_ms->0 > 1_000) implies latencies(es).contains_key(ip)
        && latencies(es)[ip] == es[i].rtt_ms->0 by {
        lemma_last_in_time(es, ip, i);
    }
}

proof fn lemma_none_in_time(es: Seq<Echo>, ip: u32)
    requires
        forall|i: int|
            0 <= i < es.len() && (#[trigger] es[i]).ip == ip ==> es[i].rtt_ms is None
                || es[i].rtt_ms->0 > 1_000,
    ensures
        !latencies(es).contains_key(ip),
    decreases es.len(),
{
    if es.len() > 0 {
        let f = es.drop_last();
        assert forall|i: int| 0 <= i < f.len() && (#[trigger] f[i]).ip == ip implies f[i].rtt_ms
            is None || f[i].rtt_ms->0 > 1_000 by {
            assert(es[i].ip == ip);
        }
        lemma_none_in_time(f, ip);
        assert(es[es.len() - 1] == es.last());
    }
}

proof fn lemma_last_in_time(es: Seq<Echo>, ip: u32, i: int)
    requires
        0 <= i < es.len(),
        es[i].ip == ip,
        es[i].rtt_ms is Some,
        es[i].rtt_ms->0 <= 1_000,
        forall|j: int|
            i < j < es.len() && (#[trigger] es[j]).ip == ip ==> es[j].rtt_ms is None
                || es[j].rtt_ms->0 > 1_000,
    ensures
        latencies(es).contains_key(ip),
        latencies(es)[ip] == es[i].rtt_ms->0,
    decreases es.len(),
{
    if i < es.len() - 1 {
        let f = es.drop_last();
        assert forall|j: int| i < j < f.len() && (#[trigger] f[j]).ip == ip implies f[j].rtt_ms
            is None || f[j].rtt_ms->0 > 1_000 by {
            assert(es[j].ip == ip);
        }
        lemma_last_in_time(f, ip, i);
        assert(es[es.len() - 1] == es.last());
    }
}

} // verus!
