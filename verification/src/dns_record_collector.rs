//! One collection cycle: fetching the records of every configured source in
//! order, and storing the normalised batch of each source that answered.

use crate::config::{
    decode_trust_anchor, standard_base64_decoding, Config, ConfigError, ExternalSource,
    ExternalSourceView,
};
use crate::dns_record::{batch_view, DnsRecord, DnsRecordView};
use crate::normalizer::{
    fqdns, fqdns_among, lemma_sort_keeps_fqdns, met_before, normalize_batch, normalized_batch,
    SeenFqdns,
};
use crate::sorting::{lemma_sort_len, sort_by_fqdn};
use vstd::hash_map::StringHashMap;
use vstd::prelude::*;

verus! {

/// Why a source gave no records in a cycle. The source is left out of the
/// cycle's result and asked again in the next cycle.
#[derive(Debug, PartialEq, Eq)]
pub struct SourceFetchError {
    pub message: String,
}

/// The capability to fetch the records of one source.
///
/// Nothing is assumed of an implementation: a cycle is specified for whatever
/// its fetches return.
pub trait DnsRecordFetcher {
    /// Fetches the records that `source` reports, trusting the certificate
    /// `trust_anchor` for the connection.
    fn fetch_dns_records(&self, source: &ExternalSource, trust_anchor: &[u8]) -> Result<
        Vec<DnsRecord>,
        SourceFetchError,
    >;
}

/// One source of a cycle and what its fetch gave: the records, or `None`
/// where the fetch failed.
pub struct FetchAttempt {
    pub source: ExternalSourceView,
    pub outcome: Option<Seq<DnsRecordView>>,
}

/// What a fetch gave, as a plain value.
pub open spec fn outcome_view(outcome: Result<Vec<DnsRecord>, SourceFetchError>) -> Option<
    Seq<DnsRecordView>,
> {
    match outcome {
        Ok(records) => Some(batch_view(records@)),
        Err(_) => None,
    }
}

/// The batch that an attempt contributes when the names in `seen` were met
/// before it: nothing where the fetch failed.
pub open spec fn attempt_batch(attempt: FetchAttempt, seen: Set<Seq<char>>) -> Seq<DnsRecordView> {
    match attempt.outcome {
        Some(records) => normalized_batch(records, attempt.source.domain_name, seen),
        None => Seq::empty(),
    }
}

/// The names met once `attempt` is done, having met `seen` before it.
pub open spec fn seen_with(seen: Set<Seq<char>>, attempt: FetchAttempt) -> Set<Seq<char>> {
    match attempt.outcome {
        Some(records) => seen.union(fqdns(records)),
        None => seen,
    }
}

/// The collection once `attempt` is done: a successful attempt replaces the
/// entry under its source's name, a failed one changes nothing.
pub open spec fn collection_with(
    collection: Map<Seq<char>, Seq<DnsRecordView>>,
    seen: Set<Seq<char>>,
    attempt: FetchAttempt,
) -> Map<Seq<char>, Seq<DnsRecordView>> {
    match attempt.outcome {
        Some(_) => collection.insert(attempt.source.source_name, attempt_batch(attempt, seen)),
        None => collection,
    }
}

/// The names met in a cycle that made `attempts`, in that order.
pub open spec fn seen_after(attempts: Seq<FetchAttempt>) -> Set<Seq<char>>
    decreases attempts.len(),
{
    if attempts.len() == 0 {
        Set::empty()
    } else {
        seen_with(seen_after(attempts.drop_last()), attempts.last())
    }
}

/// The result of a cycle that made `attempts`, in that order: for each source
/// name, the batch of the last successful attempt under that name.
pub open spec fn collected(attempts: Seq<FetchAttempt>) -> Map<Seq<char>, Seq<DnsRecordView>>
    decreases attempts.len(),
{
    if attempts.len() == 0 {
        Map::empty()
    } else {
        collection_with(
            collected(attempts.drop_last()),
            seen_after(attempts.drop_last()),
            attempts.last(),
        )
    }
}

/// Every record that a cycle processed, in processing order: source after
/// source as attempted, and within a source by ascending FQDN.
pub open spec fn processed(attempts: Seq<FetchAttempt>) -> Seq<DnsRecordView>
    decreases attempts.len(),
{
    if attempts.len() == 0 {
        Seq::empty()
    } else {
        processed(attempts.drop_last()) + attempt_batch(
            attempts.last(),
            seen_after(attempts.drop_last()),
        )
    }
}

/// `attempts` are one attempt for each of `sources`, in order.
pub open spec fn attempts_cover(
    attempts: Seq<FetchAttempt>,
    sources: Seq<ExternalSourceView>,
) -> bool {
    &&& attempts.len() == sources.len()
    &&& forall|k: int| 0 <= k < attempts.len() ==> (#[trigger] attempts[k]).source == sources[k]
}

/// The batches of a collection as plain values.
pub open spec fn collection_view(collection: Map<Seq<char>, Vec<DnsRecord>>) -> Map<
    Seq<char>,
    Seq<DnsRecordView>,
> {
    collection.map_values(|records: Vec<DnsRecord>| batch_view(records@))
}

/// Takes in what the fetch of `source` gave: a fetched batch is normalised
/// against `seen` and stored under the source's name, a failure leaves
/// `collection` and `seen` as they are.
pub fn store_fetch_outcome(
    collection: &mut StringHashMap<Vec<DnsRecord>>,
    seen: &mut SeenFqdns,
    source: &ExternalSource,
    outcome: Result<Vec<DnsRecord>, SourceFetchError>,
)
    ensures
        collection_view(final(collection)@) == collection_with(
            collection_view(old(collection)@),
            old(seen)@,
            FetchAttempt { source: source@, outcome: outcome_view(outcome) },
        ),
        final(seen)@ == seen_with(
            old(seen)@,
            FetchAttempt { source: source@, outcome: outcome_view(outcome) },
        ),
{
    match outcome {
        Ok(records) => {
            let batch = normalize_batch(records, source.domain_name.as_str(), seen);
            collection.insert(source.source_name.clone(), batch);
            proof {
                assert(collection_view(collection@) =~= collection_view(old(collection)@).insert(
                    source.source_name@,
                    batch_view(batch@),
                ));
            }
        },
        Err(_) => {},
    }
}

/// Collects the records of the configured sources, cycle by cycle.
pub struct DnsRecordCollector {
    config: Config,
    dns_records_by_source: StringHashMap<Vec<DnsRecord>>,
    fetcher: Box<dyn DnsRecordFetcher>,
}

impl View for DnsRecordCollector {
    type V = Map<Seq<char>, Seq<DnsRecordView>>;

    /// The result of the last cycle: for each source name, its batch.
    closed spec fn view(&self) -> Map<Seq<char>, Seq<DnsRecordView>> {
        collection_view(self.dns_records_by_source@)
    }
}

impl DnsRecordCollector {
    /// The configuration that this collector was made with.
    pub closed spec fn config(&self) -> Config {
        self.config
    }

    /// The sources that a cycle of this collector asks, in order.
    pub open spec fn sources(&self) -> Seq<ExternalSourceView> {
        self.config()@.external_sources
    }

    /// The configuration that this collector was made with.
    pub fn get_config(&self) -> (config: &Config)
        ensures
            *config == self.config(),
    {
        &self.config
    }

    /// A collector for `config` that fetches with `fetcher`. It has collected
    /// nothing yet.
    pub fn new(config: Config, fetcher: Box<dyn DnsRecordFetcher>) -> (collector:
        DnsRecordCollector)
        ensures
            collector.config() == config,
            collector@ == Map::<Seq<char>, Seq<DnsRecordView>>::empty(),
    {
        let collector = DnsRecordCollector {
            config,
            dns_records_by_source: StringHashMap::new(),
            fetcher,
        };
        proof {
            assert(collector@ =~= Map::<Seq<char>, Seq<DnsRecordView>>::empty());
        }
        collector
    }

    /// Runs one cycle with the decoded trust anchor: asks every configured
    /// source in order and stores what the successful ones gave.
    ///
    /// The result of an earlier cycle is dropped first, so a source that fails
    /// in this cycle is absent from the result.
    pub fn collect_with_trust_anchor(&mut self, trust_anchor: &[u8])
        ensures
            final(self).config() == old(self).config(),
            exists|attempts: Seq<FetchAttempt>|
                attempts_cover(attempts, old(self).sources()) && final(self)@
                    == #[trigger] collected(attempts),
    {
        self.dns_records_by_source.clear();
        let mut seen = SeenFqdns::new();
        let ghost mut attempts: Seq<FetchAttempt> = Seq::empty();
        let mut i: usize = 0;
        proof {
            assert(self@ =~= collected(attempts));
        }
        while i < self.config.external_sources.len()
            invariant
                self.config() == old(self).config(),
                i <= self.config.external_sources.len(),
                attempts.len() == i,
                forall|k: int| 0 <= k < i ==> (#[trigger] attempts[k]).source == self.sources()[k],
                self@ == collected(attempts),
                seen@ == seen_after(attempts),
            decreases self.config.external_sources.len() - i,
        {
            let outcome = self.fetcher.fetch_dns_records(
                &self.config.external_sources[i],
                trust_anchor,
            );
            let ghost attempt = FetchAttempt {
                source: self.config.external_sources[i as int]@,
                outcome: outcome_view(outcome),
            };
            store_fetch_outcome(
                &mut self.dns_records_by_source,
                &mut seen,
                &self.config.external_sources[i],
                outcome,
            );
            proof {
                let longer = attempts.push(attempt);
                assert(longer.drop_last() =~= attempts);
                attempts = longer;
            }
            i += 1;
        }
        proof {
            assert(attempts_cover(attempts, old(self).sources()));
        }
    }

    /// Runs one cycle: decodes the configured CA certificate, then asks every
    /// configured source in order.
    ///
    /// Fails, without asking any source and without touching the last result,
    /// exactly where the certificate cannot be decoded.
    pub fn collect_dns_records(&mut self) -> (done: Result<(), ConfigError>)
        ensures
            final(self).config() == old(self).config(),
            match done {
                Ok(_) => {
                    &&& standard_base64_decoding(old(self).config().ca_cert_base64@) is Some
                    &&& exists|attempts: Seq<FetchAttempt>|
                        attempts_cover(attempts, old(self).sources()) && final(self)@
                            == #[trigger] collected(attempts)
                },
                Err(error) => {
                    &&& standard_base64_decoding(old(self).config().ca_cert_base64@) is None
                    &&& error == ConfigError::UndecodableTrustAnchor
                    &&& final(self)@ == old(self)@
                },
            },
    {
        match decode_trust_anchor(self.config.ca_cert_base64.as_str()) {
            Ok(trust_anchor) => {
                self.collect_with_trust_anchor(trust_anchor.as_slice());
                Ok(())
            },
            Err(error) => Err(error),
        }
    }

    /// The result of the last cycle: for each source name, its batch.
    pub fn get_dns_records_by_source(&self) -> (collection: &StringHashMap<Vec<DnsRecord>>)
        ensures
            collection_view(collection@) == self@,
    {
        &self.dns_records_by_source
    }
}

/// Every record of `log` is marked a duplicate exactly where an earlier
/// record of `log` carries its name.
pub open spec fn marks_repeats(log: Seq<DnsRecordView>) -> bool {
    forall|at: int|
        0 <= at < log.len() ==> ((#[trigger] log[at]).is_duplicate <==> fqdns_among(
            log,
            at,
        ).contains(log[at].fqdn))
}

/// First occurrence wins: in the processing order of a cycle, the first
/// record that carries a name is never marked a duplicate, and every later
/// record with that name is. The names met in the cycle are those of the
/// records processed.
pub proof fn lemma_first_occurrence_wins(attempts: Seq<FetchAttempt>)
    ensures
        marks_repeats(processed(attempts)),
        seen_after(attempts) == fqdns(processed(attempts)),
    decreases attempts.len(),
{
    let log = processed(attempts);
    if attempts.len() == 0 {
        assert(seen_after(attempts) =~= fqdns(log));
    } else {
        let earlier = attempts.drop_last();
        let before = processed(earlier);
        let seen = seen_after(earlier);
        let batch = attempt_batch(attempts.last(), seen);
        lemma_first_occurrence_wins(earlier);
        assert(log == before + batch);
        match attempts.last().outcome {
            Some(records) => {
                let sorted = sort_by_fqdn(records);
                lemma_sort_len(records);
                lemma_sort_keeps_fqdns(records);
                assert forall|at: int| 0 <= at < log.len() implies ((
                #[trigger] log[at]).is_duplicate <==> fqdns_among(log, at).contains(
                    log[at].fqdn,
                )) by {
                    let fqdn = log[at].fqdn;
                    if at < before.len() {
                        assert(log[at] == before[at]);
                        if fqdns_among(log, at).contains(fqdn) {
                            let j = choose|j: int| 0 <= j < at && #[trigger] log[j].fqdn == fqdn;
                            assert(before[j].fqdn == fqdn);
                        }
                        if fqdns_among(before, at).contains(fqdn) {
                            let j = choose|j: int| 0 <= j < at && #[trigger] before[j].fqdn == fqdn;
                            assert(log[j].fqdn == fqdn);
                        }
                    } else {
                        let i = at - before.len();
                        assert(log[at] == batch[i]);
                        assert(batch[i].fqdn == sorted[i].fqdn);
                        assert(batch[i].is_duplicate == met_before(sorted, i, seen));
                        if fqdns_among(log, at).contains(fqdn) {
                            let j = choose|j: int| 0 <= j < at && #[trigger] log[j].fqdn == fqdn;
                            if j < before.len() {
                                assert(before[j].fqdn == fqdn);
                                assert(fqdns(before).contains(fqdn));
                            } else {
                                assert(log[j] == batch[j - before.len()]);
                                assert(sorted[j - before.len()].fqdn == fqdn);
                                assert(fqdns_among(sorted, i).contains(fqdn));
                            }
                        }
                        if seen.contains(fqdn) {
                            let j = choose|j: int|
                                0 <= j < before.len() && #[trigger] before[j].fqdn == fqdn;
                            assert(log[j].fqdn == fqdn);
                        }
                        if fqdns_among(sorted, i).contains(fqdn) {
                            let j = choose|j: int| 0 <= j < i && #[trigger] sorted[j].fqdn == fqdn;
                            assert(log[before.len() + j] == batch[j]);
                            assert(log[before.len() + j].fqdn == fqdn);
                        }
                    }
                }
                assert forall|fqdn: Seq<char>| fqdns(log).contains(fqdn) <==> seen.union(
                    fqdns(sorted),
                ).contains(fqdn) by {
                    if fqdns(log).contains(fqdn) {
                        let j = choose|j: int| 0 <= j < log.len() && #[trigger] log[j].fqdn == fqdn;
                        if j < before.len() {
                            assert(before[j].fqdn == fqdn);
                        } else {
                            assert(log[j] == batch[j - before.len()]);
                            assert(sorted[j - before.len()].fqdn == fqdn);
                        }
                    }
                    if seen.contains(fqdn) {
                        let j = choose|j: int|
                            0 <= j < before.len() && #[trigger] before[j].fqdn == fqdn;
                        assert(log[j].fqdn == fqdn);
                    }
                    if fqdns(sorted).contains(fqdn) {
                        let j = choose|j: int|
                            0 <= j < sorted.len() && #[trigger] sorted[j].fqdn == fqdn;
                        assert(log[before.len() + j] == batch[j]);
                        assert(log[before.len() + j].fqdn == fqdn);
                    }
                }
                assert(seen_after(attempts) =~= fqdns(log));
            },
            None => {
                assert(log =~= before);
            },
        }
    }
}

/// `batch` stands in `log` as one unbroken run of records.
pub open spec fn is_run_of(batch: Seq<DnsRecordView>, log: Seq<DnsRecordView>) -> bool {
    exists|start: int|
        0 <= start && start + batch.len() <= log.len() && #[trigger] log.subrange(
            start,
            start + batch.len(),
        ) == batch
}

/// Every batch in the result of a cycle is a run of the cycle's processing
/// order, so its duplicate marks are those that first-occurrence-wins gives.
pub proof fn lemma_collected_batches_are_runs(attempts: Seq<FetchAttempt>, source_name: Seq<char>)
    requires
        collected(attempts).contains_key(source_name),
    ensures
        is_run_of(collected(attempts)[source_name], processed(attempts)),
    decreases attempts.len(),
{
    if attempts.len() > 0 {
        let earlier = attempts.drop_last();
        let before = processed(earlier);
        let last = attempts.last();
        let batch = attempt_batch(last, seen_after(earlier));
        let log = processed(attempts);
        if last.outcome is Some && last.source.source_name == source_name {
            assert(log.subrange(before.len() as int, before.len() as int + batch.len()) =~= batch);
        } else {
            lemma_collected_batches_are_runs(earlier, source_name);
            let stored = collected(earlier)[source_name];
            let start = choose|start: int|
                0 <= start && start + stored.len() <= before.len() && #[trigger] before.subrange(
                    start,
                    start + stored.len(),
                ) == stored;
            assert(log.subrange(start, start + stored.len()) =~= stored);
        }
    }
}

} // verus!
