//! Trusted boundary to the external equivalence-class resolver. A mapper
//! artifact, built once per run from a feature-to-gene (or -transcript)
//! mapping, resolves each equivalence class to a set of candidate ids; a
//! record group is consistent when one candidate is shared by all of its
//! records. The resolution call and the mapper type are taken on trust; the
//! contracts state what the resolver's source shows, over the two named
//! views of the mapper's content.

use vstd::prelude::*;
use bustools::consistent_genes::Ec2GeneMapper;
use bustools::consistent_genes::MappingResult;
use bustools::consistent_genes::find_consistent;
use bustools::consistent_transcripts::Ec2TranscriptMapper;
use bustools::consistent_transcripts::MappingResultTranscript;
use bustools::consistent_transcripts::find_consistent_transcripts;
use bustools::io::BusRecord;
use crate::records::Record;

verus! {

#[verifier::external_type_specification]
#[verifier::external_body]
pub struct ExEc2GeneMapper(Ec2GeneMapper);

#[verifier::external_type_specification]
#[verifier::external_body]
pub struct ExEc2TranscriptMapper(Ec2TranscriptMapper);

/// What the gene mapper holds: for each known equivalence class, the set of
/// gene ids consistent with it.
pub uninterp spec fn gene_sets_of(m: Ec2GeneMapper) -> Map<u32, Set<u32>>;

/// The gene mapper's ordered name list: the name of each gene id.
pub uninterp spec fn gene_names_of(m: Ec2GeneMapper) -> Seq<Seq<char>>;

/// What the transcript mapper holds: for each known equivalence class, the
/// set of transcript ids consistent with it.
pub uninterp spec fn transcript_sets_of(m: Ec2TranscriptMapper) -> Map<u32, Set<u32>>;

/// The transcript mapper's ordered name list: the name of each transcript
/// id.
pub uninterp spec fn transcript_names_of(m: Ec2TranscriptMapper) -> Seq<Seq<char>>;

/// Outcome of resolving one record group against a mapper.
pub enum ResolvedClass {
    /// Every record of the group is consistent with exactly this id.
    Single(u32),
    /// The group is consistent with each of these ids (no duplicates, order
    /// unspecified).
    Multi(Vec<u32>),
    /// No id is consistent with every record of the group.
    Inconsistent,
}

/// The candidate ids shared by every record of the group: the intersection
/// of the per-equivalence-class candidate sets.
pub open spec fn candidate_intersection(recs: Seq<Record>, sets: Map<u32, Set<u32>>) -> Set<
    u32,
>
    decreases recs.len(),
{
    if recs.len() == 0 {
        Set::empty()
    } else if recs.len() == 1 {
        sets[recs[0].equivalence_class]
    } else {
        candidate_intersection(recs.drop_last(), sets).intersect(
            sets[recs.last().equivalence_class],
        )
    }
}

/// How an outcome relates to the candidate intersection `g` of a group of
/// `nrecs` records, as the resolver's source decides it: one shared
/// candidate is a single assignment; none, over several records, is
/// inconsistent; anything else is multimapped.
pub open spec fn outcome_matches(r: ResolvedClass, g: Set<u32>, nrecs: int) -> bool {
    &&& (r matches ResolvedClass::Single(id) ==> g == Set::empty().insert(id))
    &&& (r matches ResolvedClass::Multi(ids) ==> ids@.no_duplicates() && ids@.to_set() == g && (
    nrecs >= 2 ==> ids@.len() >= 2))
    &&& (r is Inconsistent ==> nrecs >= 2 && g.is_empty())
    &&& (g.len() == 1 ==> r is Single)
    &&& (nrecs >= 2 && g.is_empty() ==> r is Inconsistent)
    &&& (g.len() != 1 && !(nrecs >= 2 && g.is_empty()) ==> r is Multi)
}

/// Relies on bustools' `find_consistent`: intersects the gene sets of the
/// group's equivalence classes and classifies by the intersection's size
/// (one shared record keeps its whole set when not a singleton). Panics on
/// an empty group or an equivalence class the mapper does not know, so both
/// are excluded here.
#[verifier::external_body]
fn resolve_gene_group(records: &Vec<Record>, mapper: &Ec2GeneMapper) -> (r: ResolvedClass)
    requires
        records@.len() >= 1,
        forall|i: int|
            0 <= i < records@.len() ==> gene_sets_of(*mapper).dom().contains(
                (#[trigger] records@[i]).equivalence_class,
            ),
    ensures
        outcome_matches(
            r,
            candidate_intersection(records@, gene_sets_of(*mapper)),
            records@.len() as int,
        ),
{
    let bus: Vec<BusRecord> = records.iter().map(
        |r: &Record| BusRecord { CB: r.barcode, UMI: r.umi, EC: r.equivalence_class, COUNT: r.read_count, FLAG: 0 },
    ).collect();
    match find_consistent(&bus, mapper) {
        MappingResult::SingleGene(g) => ResolvedClass::Single(g.0),
        MappingResult::Multimapped(gs) => ResolvedClass::Multi(
            gs.into_iter().map(|g: bustools::consistent_genes::GeneId| g.0).collect(),
        ),
        MappingResult::Inconsistent => ResolvedClass::Inconsistent,
    }
}

/// Relies on bustools' `find_consistent_transcripts`: same decision as the
/// gene resolver, over the transcript sets. Panics on an empty group or an
/// unknown equivalence class, so both are excluded here.
#[verifier::external_body]
fn resolve_transcript_group(records: &Vec<Record>, mapper: &Ec2TranscriptMapper) -> (r:
    ResolvedClass)
    requires
        records@.len() >= 1,
        forall|i: int|
            0 <= i < records@.len() ==> transcript_sets_of(*mapper).dom().contains(
                (#[trigger] records@[i]).equivalence_class,
            ),
    ensures
        outcome_matches(
            r,
            candidate_intersection(records@, transcript_sets_of(*mapper)),
            records@.len() as int,
        ),
{
    let bus: Vec<BusRecord> = records.iter().map(
        |r: &Record| BusRecord { CB: r.barcode, UMI: r.umi, EC: r.equivalence_class, COUNT: r.read_count, FLAG: 0 },
    ).collect();
    match find_consistent_transcripts(&bus, mapper) {
        MappingResultTranscript::SingleTranscript(t) => ResolvedClass::Single(t.0),
        MappingResultTranscript::Multimapped(ts) => ResolvedClass::Multi(
            ts.into_iter().map(|t: bustools::consistent_transcripts::TranscriptId| t.0).collect(),
        ),
        MappingResultTranscript::Inconsistent => ResolvedClass::Inconsistent,
    }
}

/// Relies on `Ec2GeneMapper::get_gene_list`: the gene names in gene-id
/// order; every id the mapper assigns indexes this list.
#[verifier::external_body]
fn gene_list(mapper: &Ec2GeneMapper) -> (r: Vec<String>)
    ensures
        r@.map_values(|s: String| s@) == gene_names_of(*mapper),
{
    mapper.get_gene_list().into_iter().map(
        |g: bustools::consistent_genes::Genename| g.0,
    ).collect()
}

/// Relies on `Ec2TranscriptMapper::get_transcript_list`: the transcript
/// names in transcript-id order.
#[verifier::external_body]
fn transcript_list(mapper: &Ec2TranscriptMapper) -> (r: Vec<String>)
    ensures
        r@.map_values(|s: String| s@) == transcript_names_of(*mapper),
{
    mapper.get_transcript_list().into_iter().map(
        |t: bustools::consistent_transcripts::Transcriptname| t.0,
    ).collect()
}

/// Resolve every group of a single sample's stream, in order.
pub fn resolve_gene_groups(groups: &Vec<crate::records::KeyedGroup>, mapper: &Ec2GeneMapper) -> (r:
    Vec<ResolvedClass>)
    requires
        forall|j: int| 0 <= j < groups@.len() ==> (#[trigger] groups@[j]).records@.len() >= 1,
        forall|j: int, i: int|
            0 <= j < groups@.len() && 0 <= i < groups@[j].records@.len() ==> gene_sets_of(
                *mapper,
            ).dom().contains((#[trigger] groups@[j].records@[i]).equivalence_class),
    ensures
        r@.len() == groups@.len(),
        forall|j: int|
            0 <= j < groups@.len() ==> outcome_matches(
                #[trigger] r@[j],
                candidate_intersection(groups@[j].records@, gene_sets_of(*mapper)),
                groups@[j].records@.len() as int,
            ),
{
    let n = groups.len();
    let mut out: Vec<ResolvedClass> = Vec::new();
    let mut j: usize = 0;
    while j < n
        invariant
            0 <= j <= n,
            n == groups@.len(),
            out@.len() == j,
            forall|t: int| 0 <= t < groups@.len() ==> (#[trigger] groups@[t]).records@.len() >= 1,
            forall|t: int, i: int|
                0 <= t < groups@.len() && 0 <= i < groups@[t].records@.len() ==> gene_sets_of(
                    *mapper,
                ).dom().contains((#[trigger] groups@[t].records@[i]).equivalence_class),
            forall|t: int|
                0 <= t < j ==> outcome_matches(
                    #[trigger] out@[t],
                    candidate_intersection(groups@[t].records@, gene_sets_of(*mapper)),
                    groups@[t].records@.len() as int,
                ),
        decreases n - j,
    {
        let rc = resolve_gene_group(&groups[j].records, mapper);
        out.push(rc);
        j = j + 1;
    }
    out
}

/// Resolve every group of a single sample's stream against the transcript
/// mapper, in order.
pub fn resolve_transcript_groups(
    groups: &Vec<crate::records::KeyedGroup>,
    mapper: &Ec2TranscriptMapper,
) -> (r: Vec<ResolvedClass>)
    requires
        forall|j: int| 0 <= j < groups@.len() ==> (#[trigger] groups@[j]).records@.len() >= 1,
        forall|j: int, i: int|
            0 <= j < groups@.len() && 0 <= i < groups@[j].records@.len() ==> transcript_sets_of(
                *mapper,
            ).dom().contains((#[trigger] groups@[j].records@[i]).equivalence_class),
    ensures
        r@.len() == groups@.len(),
        forall|j: int|
            0 <= j < groups@.len() ==> outcome_matches(
                #[trigger] r@[j],
                candidate_intersection(groups@[j].records@, transcript_sets_of(*mapper)),
                groups@[j].records@.len() as int,
            ),
{
    let n = groups.len();
    let mut out: Vec<ResolvedClass> = Vec::new();
    let mut j: usize = 0;
    while j < n
        invariant
            0 <= j <= n,
            n == groups@.len(),
            out@.len() == j,
            forall|t: int| 0 <= t < groups@.len() ==> (#[trigger] groups@[t]).records@.len() >= 1,
            forall|t: int, i: int|
                0 <= t < groups@.len() && 0 <= i < groups@[t].records@.len()
                    ==> transcript_sets_of(*mapper).dom().contains(
                    (#[trigger] groups@[t].records@[i]).equivalence_class,
                ),
            forall|t: int|
                0 <= t < j ==> outcome_matches(
                    #[trigger] out@[t],
                    candidate_intersection(groups@[t].records@, transcript_sets_of(*mapper)),
                    groups@[t].records@.len() as int,
                ),
        decreases n - j,
    {
        let rc = resolve_transcript_group(&groups[j].records, mapper);
        out.push(rc);
        j = j + 1;
    }
    out
}

/// The gene mapper's name list as owned strings, in gene-id order.
pub fn gene_names(mapper: &Ec2GeneMapper) -> (r: Vec<String>)
    ensures
        r@.map_values(|s: String| s@) == gene_names_of(*mapper),
{
    gene_list(mapper)
}

/// The transcript mapper's name list as owned strings, in transcript-id
/// order.
pub fn transcript_names(mapper: &Ec2TranscriptMapper) -> (r: Vec<String>)
    ensures
        r@.map_values(|s: String| s@) == transcript_names_of(*mapper),
{
    transcript_list(mapper)
}

} // verus!
