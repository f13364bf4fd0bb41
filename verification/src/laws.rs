//! The pipeline's guarantees, stated and proved once over the specs of the
//! other modules.

use vstd::prelude::*;
use crate::names::{
    extension_of, html_ext, is_html_name, lemma_ext_dot_of_append, lemma_html_stem_injective,
    merged_output, pdf_dot_ext, pdf_ext, stem_of, DOT,
};
use crate::pipeline::{
    cleanup_victims, conversion_succeeded, html_names, job_pdfs, kept_pdfs, step_spec,
    ConvertOutcome, Event, Job, Stage,
};

verus! {

/// Law: when every conversion succeeds, the merge list keeps every job — it
/// is exactly the jobs' PDF names, one per `.html` entry, in job order.
/// (`plan_merge` then hands them to the merge tool sorted.)
pub proof fn lemma_all_converted_keeps_all(jobs: Seq<Job>, outcomes: Seq<ConvertOutcome>)
    requires
        jobs.len() == outcomes.len(),
        forall|i: int| 0 <= i < outcomes.len() ==> conversion_succeeded(#[trigger] outcomes[i]),
    ensures
        kept_pdfs(jobs, outcomes) == job_pdfs(jobs),
        kept_pdfs(jobs, outcomes).len() == jobs.len(),
    decreases jobs.len(),
{
    if jobs.len() == 0 {
        assert(kept_pdfs(jobs, outcomes) =~= job_pdfs(jobs));
    } else {
        lemma_all_converted_keeps_all(jobs.drop_last(), outcomes.drop_last());
        assert(kept_pdfs(jobs, outcomes) =~= job_pdfs(jobs));
    }
}

/// Every name in the merge list is the PDF of some job whose conversion
/// succeeded.
pub proof fn lemma_kept_pdfs_source(jobs: Seq<Job>, outcomes: Seq<ConvertOutcome>, w: int)
    requires
        jobs.len() == outcomes.len(),
        0 <= w < kept_pdfs(jobs, outcomes).len(),
    ensures
        exists|j: int|
            0 <= j < jobs.len() && conversion_succeeded(outcomes[j]) && kept_pdfs(
                jobs,
                outcomes,
            )[w] == #[trigger] jobs[j].pdf@,
    decreases jobs.len(),
{
    if w < kept_pdfs(jobs.drop_last(), outcomes.drop_last()).len() {
        lemma_kept_pdfs_source(jobs.drop_last(), outcomes.drop_last(), w);
        assert(kept_pdfs(jobs, outcomes)[w] == kept_pdfs(
            jobs.drop_last(),
            outcomes.drop_last(),
        )[w]);
        let j = choose|j: int|
            0 <= j < jobs.drop_last().len() && conversion_succeeded(outcomes.drop_last()[j])
                && kept_pdfs(jobs.drop_last(), outcomes.drop_last())[w] == #[trigger] jobs.drop_last(
            )[j].pdf@;
        assert(0 <= j < jobs.len() && conversion_succeeded(outcomes[j]) && kept_pdfs(
            jobs,
            outcomes,
        )[w] == jobs[j].pdf@);
    } else {
        let j: int = jobs.len() - 1;
        assert(0 <= j < jobs.len() && conversion_succeeded(outcomes[j]) && kept_pdfs(
            jobs,
            outcomes,
        )[w] == jobs[j].pdf@);
    }
}

/// Law: a job whose conversion succeeded has its PDF in the merge list.
pub proof fn lemma_converted_included(jobs: Seq<Job>, outcomes: Seq<ConvertOutcome>, i: int)
    requires
        jobs.len() == outcomes.len(),
        0 <= i < jobs.len(),
        conversion_succeeded(outcomes[i]),
    ensures
        kept_pdfs(jobs, outcomes).contains(jobs[i].pdf@),
    decreases jobs.len(),
{
    let kept = kept_pdfs(jobs, outcomes);
    if i == jobs.len() - 1 {
        assert(kept[kept.len() - 1] == jobs[i].pdf@);
    } else {
        lemma_converted_included(jobs.drop_last(), outcomes.drop_last(), i);
        let pre = kept_pdfs(jobs.drop_last(), outcomes.drop_last());
        let w = choose|w: int| 0 <= w < pre.len() && pre[w] == jobs.drop_last()[i].pdf@;
        assert(kept[w] == jobs[i].pdf@);
    }
}

/// Law: when the jobs' PDF names are pairwise distinct — as they are for the
/// distinct entries of one directory — a job whose conversion failed in any
/// way has its PDF excluded from the merge list.  The stage machine still
/// moves on over `ConversionsFinished`, which carries only whether any PDF
/// was kept: failures of a strict subset never fail the run.
pub proof fn lemma_failed_excluded(jobs: Seq<Job>, outcomes: Seq<ConvertOutcome>, i: int)
    requires
        jobs.len() == outcomes.len(),
        0 <= i < jobs.len(),
        !conversion_succeeded(outcomes[i]),
        forall|k: int, l: int|
            0 <= k < jobs.len() && 0 <= l < jobs.len() && k != l ==> #[trigger] jobs[k].pdf@
                != #[trigger] jobs[l].pdf@,
    ensures
        !kept_pdfs(jobs, outcomes).contains(jobs[i].pdf@),
{
    if kept_pdfs(jobs, outcomes).contains(jobs[i].pdf@) {
        let w = choose|w: int|
            0 <= w < kept_pdfs(jobs, outcomes).len() && kept_pdfs(jobs, outcomes)[w]
                == jobs[i].pdf@;
        assert(0 <= w < kept_pdfs(jobs, outcomes).len() && kept_pdfs(jobs, outcomes)[w]
            == jobs[i].pdf@);
        lemma_kept_pdfs_source(jobs, outcomes, w);
        let j = choose|j: int|
            0 <= j < jobs.len() && conversion_succeeded(outcomes[j]) && kept_pdfs(
                jobs,
                outcomes,
            )[w] == #[trigger] jobs[j].pdf@;
        assert(j != i);
        assert(false);
    }
}

/// Well-formed jobs built from pairwise-distinct `.html` names have
/// pairwise-distinct PDF names.
pub proof fn lemma_job_pdfs_distinct(jobs: Seq<Job>)
    requires
        forall|k: int| 0 <= k < jobs.len() ==> (#[trigger] jobs[k]).wf(),
        forall|k: int, l: int|
            0 <= k < jobs.len() && 0 <= l < jobs.len() && k != l ==> #[trigger] jobs[k].html@
                != #[trigger] jobs[l].html@,
    ensures
        forall|k: int, l: int|
            0 <= k < jobs.len() && 0 <= l < jobs.len() && k != l ==> #[trigger] jobs[k].pdf@
                != #[trigger] jobs[l].pdf@,
{
    assert forall|k: int, l: int|
        0 <= k < jobs.len() && 0 <= l < jobs.len() && k != l implies #[trigger] jobs[k].pdf@
        != #[trigger] jobs[l].pdf@ by {
        if jobs[k].pdf@ == jobs[l].pdf@ {
            assert(jobs[k].wf());
            assert(jobs[l].wf());
            let sk = stem_of(jobs[k].html@);
            let sl = stem_of(jobs[l].html@);
            assert((sk + pdf_dot_ext()).len() == sk.len() + pdf_dot_ext().len());
            assert((sl + pdf_dot_ext()).len() == sl.len() + pdf_dot_ext().len());
            assert(sk.len() == sl.len());
            assert(sk =~= (sk + pdf_dot_ext()).take(sk.len() as int));
            assert(sl =~= (sl + pdf_dot_ext()).take(sl.len() as int));
            lemma_html_stem_injective(jobs[k].html@, jobs[l].html@);
        }
    }
}

/// Every selected `.html` name is one of the directory's entries.
pub proof fn lemma_html_names_source(entries: Seq<Seq<u8>>, w: int)
    requires
        0 <= w < html_names(entries).len(),
    ensures
        exists|j: int| 0 <= j < entries.len() && #[trigger] entries[j] == html_names(entries)[w],
        is_html_name(html_names(entries)[w]),
    decreases entries.len(),
{
    if w < html_names(entries.drop_last()).len() {
        lemma_html_names_source(entries.drop_last(), w);
        assert(html_names(entries)[w] == html_names(entries.drop_last())[w]);
        let j = choose|j: int|
            0 <= j < entries.drop_last().len() && #[trigger] entries.drop_last()[j] == html_names(
                entries.drop_last(),
            )[w];
        assert(entries[j] == html_names(entries)[w]);
    } else {
        let j: int = entries.len() - 1;
        assert(entries[j] == html_names(entries)[w]);
    }
}

/// Pairwise-distinct directory entries select pairwise-distinct `.html`
/// names, so the jobs of one directory never collide.
pub proof fn lemma_html_names_distinct(entries: Seq<Seq<u8>>)
    requires
        forall|k: int, l: int|
            0 <= k < entries.len() && 0 <= l < entries.len() && k != l ==> #[trigger] entries[k]
                != #[trigger] entries[l],
    ensures
        forall|k: int, l: int|
            0 <= k < html_names(entries).len() && 0 <= l < html_names(entries).len() && k != l
                ==> #[trigger] html_names(entries)[k] != #[trigger] html_names(entries)[l],
    decreases entries.len(),
{
    if entries.len() > 0 {
        lemma_html_names_distinct(entries.drop_last());
        let pre: int = html_names(entries.drop_last()).len() as int;
        assert forall|k: int, l: int|
            0 <= k < html_names(entries).len() && 0 <= l < html_names(entries).len() && k
                != l implies #[trigger] html_names(entries)[k] != #[trigger] html_names(
            entries,
        )[l] by {
            if k < pre && l < pre {
                assert(html_names(entries)[k] == html_names(entries.drop_last())[k]);
                assert(html_names(entries)[l] == html_names(entries.drop_last())[l]);
            } else if k < pre && l >= pre {
                lemma_html_names_source(entries.drop_last(), k);
                let j = choose|j: int|
                    0 <= j < entries.drop_last().len() && #[trigger] entries.drop_last()[j]
                        == html_names(entries.drop_last())[k];
                assert(entries[j] != entries[entries.len() - 1]);
                assert(html_names(entries)[l] == entries.last());
                assert(html_names(entries)[k] == html_names(entries.drop_last())[k]);
            } else if l < pre && k >= pre {
                lemma_html_names_source(entries.drop_last(), l);
                let j = choose|j: int|
                    0 <= j < entries.drop_last().len() && #[trigger] entries.drop_last()[j]
                        == html_names(entries.drop_last())[l];
                assert(entries[j] != entries[entries.len() - 1]);
                assert(html_names(entries)[k] == entries.last());
                assert(html_names(entries)[l] == html_names(entries.drop_last())[l]);
            }
        }
    }
}

/// Law: a directory without `.html` entries yields no conversion jobs; the
/// merge list is empty, `plan_merge` answers `NothingToMerge`, and the run
/// steps from `Converting` straight to `Done` — no merge, no cleanup, no
/// error.
pub proof fn lemma_no_html_nothing_to_merge(entries: Seq<Seq<u8>>)
    requires
        forall|i: int| 0 <= i < entries.len() ==> !is_html_name(#[trigger] entries[i]),
    ensures
        html_names(entries) == Seq::<Seq<u8>>::empty(),
        step_spec(Stage::Converting, Event::ConversionsFinished { any_pdfs: false }) == Some(
            Stage::Done,
        ),
    decreases entries.len(),
{
    if entries.len() == 0 {
        assert(html_names(entries) =~= Seq::<Seq<u8>>::empty());
    } else {
        lemma_no_html_nothing_to_merge(entries.drop_last());
        assert(html_names(entries) =~= Seq::<Seq<u8>>::empty());
    }
}

/// Law: cleanup is reachable only through a merge that reported success; a
/// non-zero merge exit drives the run to `PartialFailure` instead, so no
/// deletion pass is ever planned for a failed merge.
pub proof fn lemma_cleanup_only_after_merged(s: Stage, e: Event)
    ensures
        step_spec(s, e) == Some(Stage::CleaningUp) ==> s == Stage::Merging && e == (
        Event::MergeFinished { merged: true }),
        step_spec(Stage::Merging, Event::MergeFinished { merged: false }) == Some(
            Stage::PartialFailure,
        ),
{
}

/// Law: a cleanup pass selects every matching entry — one whose extension is
/// exactly `ext` and which is not the excluded name is in the pass's list.
pub proof fn lemma_cleanup_victims_complete(
    entries: Seq<Seq<u8>>,
    ext: Seq<u8>,
    exclude: Option<Seq<u8>>,
    i: int,
)
    requires
        0 <= i < entries.len(),
        extension_of(entries[i]) == Some(ext),
        Some(entries[i]) != exclude,
    ensures
        cleanup_victims(entries, ext, exclude).contains(entries[i]),
    decreases entries.len(),
{
    if i == entries.len() - 1 {
        let v = cleanup_victims(entries, ext, exclude);
        assert(v[v.len() - 1] == entries[i]);
    } else {
        lemma_cleanup_victims_complete(entries.drop_last(), ext, exclude, i);
        let pre = cleanup_victims(entries.drop_last(), ext, exclude);
        let w: int = choose|w: int| 0 <= w < pre.len() && pre[w] == entries.drop_last()[i];
        assert(cleanup_victims(entries, ext, exclude)[w] == entries[i]);
    }
}

/// Law: a cleanup pass selects nothing else — every selected name is one of
/// the entries, carries exactly the pass's extension, and is not the
/// excluded name.
pub proof fn lemma_cleanup_victims_sound(
    entries: Seq<Seq<u8>>,
    ext: Seq<u8>,
    exclude: Option<Seq<u8>>,
    w: int,
)
    requires
        0 <= w < cleanup_victims(entries, ext, exclude).len(),
    ensures
        exists|j: int|
            0 <= j < entries.len() && #[trigger] entries[j] == cleanup_victims(
                entries,
                ext,
                exclude,
            )[w],
        extension_of(cleanup_victims(entries, ext, exclude)[w]) == Some(ext),
        Some(cleanup_victims(entries, ext, exclude)[w]) != exclude,
    decreases entries.len(),
{
    if w < cleanup_victims(entries.drop_last(), ext, exclude).len() {
        lemma_cleanup_victims_sound(entries.drop_last(), ext, exclude, w);
        assert(cleanup_victims(entries, ext, exclude)[w] == cleanup_victims(
            entries.drop_last(),
            ext,
            exclude,
        )[w]);
        let j = choose|j: int|
            0 <= j < entries.drop_last().len() && #[trigger] entries.drop_last()[j]
                == cleanup_victims(entries.drop_last(), ext, exclude)[w];
        assert(entries[j] == cleanup_victims(entries, ext, exclude)[w]);
    } else {
        let j: int = entries.len() - 1;
        assert(entries[j] == cleanup_victims(entries, ext, exclude)[w]);
    }
}

/// The merged output's name splits into the stem `merged_output` and the
/// extension `pdf`.
pub proof fn lemma_merged_output_extension()
    ensures
        extension_of(merged_output()) == Some(pdf_ext()),
{
    let stem = merged_output().take(13);
    assert forall|i: int| 0 <= i < pdf_ext().len() implies pdf_ext()[i] != DOT by {
        if i == 0 {
        } else if i == 1 {
        } else {
        }
    }
    assert(merged_output() =~= stem + seq![DOT] + pdf_ext());
    lemma_ext_dot_of_append(stem, pdf_ext());
}

/// Law: neither cleanup pass ever selects `merged_output.pdf`: the HTML pass
/// skips it because its extension is `pdf`, and the PDF pass excludes it by
/// name.  Re-running on an already-cleaned directory (no `.html` entries
/// left) therefore plans nothing to merge, reaches no cleanup stage, and
/// could not touch the merged output even if it did.
pub proof fn lemma_merged_output_survives(entries: Seq<Seq<u8>>)
    ensures
        !cleanup_victims(entries, html_ext(), None).contains(merged_output()),
        !cleanup_victims(
            entries,
            pdf_ext(),
            Some(merged_output()),
        ).contains(merged_output()),
    decreases entries.len(),
{
    lemma_merged_output_extension();
    if entries.len() > 0 {
        lemma_merged_output_survives(entries.drop_last());
        let m = merged_output();
        let html_pass = cleanup_victims(entries, html_ext(), None);
        let pre_html = cleanup_victims(entries.drop_last(), html_ext(), None);
        if html_pass.contains(m) {
            let w = choose|w: int| 0 <= w < html_pass.len() && html_pass[w] == m;
            if w < pre_html.len() {
                assert(pre_html.contains(m));
            } else {
                assert(entries.last() == m);
                assert(extension_of(m) != Some(html_ext()));
            }
            assert(false);
        }
        let pdf_pass = cleanup_victims(entries, pdf_ext(), Some(m));
        let pre_pdf = cleanup_victims(entries.drop_last(), pdf_ext(), Some(m));
        if pdf_pass.contains(m) {
            let w = choose|w: int| 0 <= w < pdf_pass.len() && pdf_pass[w] == m;
            if w < pre_pdf.len() {
                assert(pre_pdf.contains(m));
            } else {
                assert(entries.last() == m);
                assert(Some(entries.last()) == Some(m));
            }
            assert(false);
        }
    }
}

} // verus!
