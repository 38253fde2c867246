//! The order of the steps of an ingest: what is done next with which document, and what follows from
//! its outcome. Files, models and the engine are elsewhere; whoever drives a pipeline does what it
//! asks for and hands the outcome back.

use vstd::prelude::*;

use crate::config::EMBED_BATCH;
use crate::ingest::{
    a_second_run_skips_what_is_indexed, caption_piece, counts_caption, finishes, is_known,
    pending_data, queued_pages, same_counts, CaptionOutcome, CaptionTally, IngestOutcome,
    IngestProgress, IngestReport, IngestRun, Stage,
};
use crate::store::{chunk_data, file_hashes, text_values, Index};
use crate::text::strings;

verus! {

/// A document to index.
#[derive(Debug)]
pub struct SourceFile {
    pub filename: String,
    pub path: String,
    pub is_pdf: bool,
}

/// What is to be learned next.
#[derive(Clone, Copy, Debug, PartialEq, Eq, Structural)]
pub enum IngestStep {
    /// The hash of a file.
    Hash,
    /// The text of its pages.
    Pages,
    /// The figure pages of a PDF.
    Figures,
    /// The caption of a figure page.
    Caption,
    /// That the captions are kept.
    Keep,
    /// The vectors of the pieces of all files.
    Embed,
}

/// What is to be done next.
#[derive(Clone, Copy, Debug, PartialEq, Eq, Structural)]
pub enum IngestAction {
    /// Hash the file with this number.
    Hash(usize),
    /// Read the pages of the file with this number.
    Pages(usize),
    /// Look for figure pages in the file with this number.
    Figures(usize),
    /// Caption a page, counted from zero, of the file with this number.
    Caption(usize, usize),
    /// Keep the captions that were made.
    Keep,
    /// Embed the waiting pieces from one position to before another.
    Embed(usize, usize),
    /// Put the index together.
    Finish,
}

/// A report tells of the file: it was indexed or skipped.
pub open spec fn tells_of(report: IngestReport, filename: Seq<char>) -> bool {
    ||| strings(report.indexed_files@).contains(filename)
    ||| strings(report.skipped_files@).contains(filename)
}

/// An ingest on its way through its files.
pub struct Pipeline {
    pub files: Vec<SourceFile>,
    /// Figures are captioned.
    pub captions: bool,
    pub run: IngestRun,
    /// The file that is looked at.
    pub at: usize,
    pub step: IngestStep,
    /// The hash of that file.
    pub fhash: String,
    /// The figure pages of that file, counted from zero.
    pub figures: Vec<usize>,
    pub tally: CaptionTally,
    /// How many of the waiting pieces have their vectors.
    pub embedded: usize,
}

impl Pipeline {
    /// A file was found to need indexing and is not done yet.
    pub open spec fn inside_file(&self) -> bool {
        self.step is Pages || self.step is Figures || self.step is Caption
    }

    /// How many files were found to be indexed already or to need indexing.
    pub open spec fn looked_at(&self) -> int {
        if self.inside_file() {
            self.at + 1
        } else {
            self.at as int
        }
    }

    /// The figures of the file that have not been looked at.
    pub open spec fn figures_left(&self) -> int {
        if self.step is Caption {
            self.tally.figures - self.tally.done
        } else {
            0
        }
    }

    /// The parts of the pipeline fit together: the files before `at` are done, each indexed or
    /// skipped; captions are asked for of PDFs alone, and every figure that was found is captioned,
    /// failed, known or still to come.
    pub open spec fn well_formed(&self) -> bool {
        &&& self.run.well_formed()
        &&& self.at <= self.files@.len()
        &&& (self.step is Keep || self.step is Embed <==> self.at == self.files@.len())
        &&& (self.inside_file() ==> strings(self.run.changed@).contains(
            self.files@[self.at as int].filename@,
        ))
        &&& (self.step is Figures || self.step is Caption ==> self.captions
            && self.files@[self.at as int].is_pdf)
        &&& (self.step is Caption ==> {
            &&& self.tally.balanced()
            &&& !self.tally.stopped
            &&& self.tally.done < self.tally.figures
            &&& self.tally.figures == self.figures@.len()
            &&& forall|i: int| 0 <= i < self.figures@.len() ==> #[trigger] self.figures@[i]
                < i32::MAX
        })
        &&& self.run.report.captions_made + self.run.report.caption_failures + self.figures_left()
            <= self.run.report.figures_found
        &&& self.embedded <= self.run.pending@.len()
        &&& (!(self.step is Embed) ==> self.embedded == 0)
        &&& self.run.report.indexed_files@.len() + self.run.report.skipped_files@.len()
            == self.looked_at()
        &&& forall|i: int|
            0 <= i < self.looked_at() ==> tells_of(
                self.run.report,
                (#[trigger] self.files@[i]).filename@,
            )
    }

    /// What is to be done next.
    pub open spec fn action(&self) -> IngestAction {
        match self.step {
            IngestStep::Hash => IngestAction::Hash(self.at),
            IngestStep::Pages => IngestAction::Pages(self.at),
            IngestStep::Figures => IngestAction::Figures(self.at),
            IngestStep::Caption => IngestAction::Caption(
                self.at,
                self.figures@[self.tally.done as int],
            ),
            IngestStep::Keep => IngestAction::Keep,
            IngestStep::Embed => if self.embedded == self.run.pending@.len() {
                IngestAction::Finish
            } else if self.run.pending@.len() - self.embedded <= EMBED_BATCH {
                IngestAction::Embed(self.embedded, self.run.pending@.len() as usize)
            } else {
                IngestAction::Embed(self.embedded, (self.embedded + EMBED_BATCH) as usize)
            },
        }
    }

    /// The pipeline goes on with the file behind the one that the other looks at.
    pub open spec fn behind(&self, before: Pipeline) -> bool {
        &&& self.at == before.at + 1
        &&& self.step == (if before.at + 1 < before.files@.len() {
            IngestStep::Hash
        } else {
            IngestStep::Keep
        })
    }

    /// The pipeline has the same task as the other.
    pub open spec fn same_task(&self, before: Pipeline) -> bool {
        &&& self.files == before.files
        &&& self.captions == before.captions
        &&& self.run.known == before.run.known
    }

    /// The pipeline has just been made for the files, on top of the index.
    pub open spec fn begins(&self, existing: Index, files: Vec<SourceFile>, captions: bool) -> bool {
        &&& self.well_formed()
        &&& self.files == files
        &&& self.captions == captions
        &&& self.at == 0
        &&& self.step == (if files@.len() > 0 {
            IngestStep::Hash
        } else {
            IngestStep::Keep
        })
        &&& self.run.pending@.len() == 0
        &&& self.run.changed@.len() == 0
        &&& self.run.report.figures_found == 0
        &&& text_values(self.run.known@) == file_hashes(
            chunk_data(existing.chunks@),
            existing.chunks@.len() as int,
        )
    }

    /// The pipeline is the other one after the hash of its file was taken in.
    pub open spec fn has_hashed(&self, before: Pipeline, fhash: Seq<char>) -> bool {
        let filename = before.files@[before.at as int].filename@;
        &&& self.well_formed()
        &&& self.same_task(before)
        &&& self.run.pending == before.run.pending
        &&& same_counts(self.run.report, before.run.report)
        &&& if is_known(text_values(before.run.known@), filename, fhash) {
            &&& self.behind(before)
            &&& strings(self.run.changed@) == strings(before.run.changed@)
            &&& strings(self.run.report.skipped_files@) == strings(
                before.run.report.skipped_files@,
            ).push(filename)
            &&& strings(self.run.report.indexed_files@) == strings(
                before.run.report.indexed_files@,
            )
        } else {
            &&& self.at == before.at
            &&& self.step is Pages
            &&& self.fhash@ == fhash
            &&& strings(self.run.changed@) == strings(before.run.changed@).push(filename)
            &&& strings(self.run.report.indexed_files@) == strings(
                before.run.report.indexed_files@,
            ).push(filename)
            &&& strings(self.run.report.skipped_files@) == strings(
                before.run.report.skipped_files@,
            )
        }
    }

    /// An ingest of the given files on top of an index.
    pub fn new(existing: &Index, files: Vec<SourceFile>, captions: bool) -> (r: Self)
        ensures
            r.begins(*existing, files, captions),
            r.files == files,
            r.captions == captions,
            r.at == 0,
            files@.len() > 0 ==> r.step is Hash,
            files@.len() == 0 ==> r.step is Keep,
            r.run.pending@.len() == 0,
            r.run.changed@.len() == 0,
            r.run.report.indexed_files@.len() == 0,
            r.run.report.skipped_files@.len() == 0,
            r.run.report.figures_found == 0,
            r.run.report.captions_made == 0,
            r.run.report.caption_failures == 0,
            r.embedded == 0,
    {
        let step = if files.len() > 0 {
            IngestStep::Hash
        } else {
            IngestStep::Keep
        };
        Pipeline {
            files,
            captions,
            run: IngestRun::new(existing),
            at: 0,
            step,
            fhash: String::new(),
            figures: Vec::new(),
            tally: CaptionTally::new(0),
            embedded: 0,
        }
    }

    /// What is to be done next.
    pub fn next(&self) -> (r: IngestAction)
        requires
            self.well_formed(),
        ensures
            r == self.action(),
            self.step is Hash ==> r == IngestAction::Hash(self.at),
            self.step is Pages ==> r == IngestAction::Pages(self.at),
            self.step is Figures ==> r == IngestAction::Figures(self.at),
            self.step is Caption ==> r == IngestAction::Caption(
                self.at,
                self.figures@[self.tally.done as int],
            ),
            self.step is Keep ==> r is Keep,
            self.step is Embed ==> (r is Finish <==> self.embedded == self.run.pending@.len()),
            self.step is Embed ==> r is Finish || r is Embed,
            r matches IngestAction::Embed(start, end) ==> start == self.embedded && start < end
                && end <= self.run.pending@.len() && end - start <= 32 && (end
                < self.run.pending@.len() ==> end - start == 32),
    {
        match self.step {
            IngestStep::Hash => IngestAction::Hash(self.at),
            IngestStep::Pages => IngestAction::Pages(self.at),
            IngestStep::Figures => IngestAction::Figures(self.at),
            IngestStep::Caption => IngestAction::Caption(self.at, self.figures[self.tally.done]),
            IngestStep::Keep => IngestAction::Keep,
            IngestStep::Embed => match self.run.next_batch(self.embedded) {
                Some((start, end)) => IngestAction::Embed(start, end),
                None => IngestAction::Finish,
            },
        }
    }

    fn leave_file(&mut self)
        requires
            old(self).at < old(self).files@.len(),
        ensures
            final(self).behind(*old(self)),
            final(self).same_task(*old(self)),
            final(self).run == old(self).run,
            final(self).embedded == old(self).embedded,
            final(self).tally == old(self).tally,
    {
        let total: usize = self.files.len();
        self.at = self.at + 1;
        self.step = if self.at < total {
            IngestStep::Hash
        } else {
            IngestStep::Keep
        };
    }

    /// Takes in the hash of a file: one whose content is indexed is left, and of another one the
    /// pages are wanted.
    pub fn hashed(&mut self, fhash: String)
        requires
            old(self).well_formed(),
            old(self).step is Hash,
        ensures
            final(self).has_hashed(*old(self), fhash@),
            final(self).files == old(self).files,
            final(self).captions == old(self).captions,
            final(self).run.known == old(self).run.known,
            final(self).run.pending == old(self).run.pending,
            ({
                let filename = old(self).files@[old(self).at as int].filename@;
                let known = text_values(old(self).run.known@);
                &&& known.contains_key(filename) && known[filename] == fhash@ ==> {
                    &&& final(self).at == old(self).at + 1
                    &&& strings(final(self).run.report.skipped_files@) == strings(
                        old(self).run.report.skipped_files@,
                    ).push(filename)
                    &&& strings(final(self).run.changed@) == strings(old(self).run.changed@)
                }
                &&& !(known.contains_key(filename) && known[filename] == fhash@) ==> {
                    &&& final(self).at == old(self).at
                    &&& final(self).step is Pages
                    &&& final(self).fhash@ == fhash@
                    &&& strings(final(self).run.report.indexed_files@) == strings(
                        old(self).run.report.indexed_files@,
                    ).push(filename)
                    &&& strings(final(self).run.changed@) == strings(old(self).run.changed@).push(
                        filename,
                    )
                }
            }),
    {
        let ghost filename = self.files@[self.at as int].filename@;
        let ghost names = strings(self.run.changed@);
        let ghost indexed = strings(self.run.report.indexed_files@);
        let ghost skipped = strings(self.run.report.skipped_files@);
        assert(indexed.len() == self.run.report.indexed_files@.len());
        assert(skipped.len() == self.run.report.skipped_files@.len());
        let wanted = self.run.needs_indexing(
            self.files[self.at].filename.as_str(),
            fhash.as_str(),
        );
        assert(strings(self.run.report.indexed_files@).len()
            == self.run.report.indexed_files@.len());
        assert(strings(self.run.report.skipped_files@).len()
            == self.run.report.skipped_files@.len());
        if wanted {
            assert(strings(self.run.changed@)[names.len() as int] == filename);
            self.fhash = fhash;
            self.step = IngestStep::Pages;
        } else {
            self.leave_file();
        }
        proof {
            let now_indexed = strings(self.run.report.indexed_files@);
            let now_skipped = strings(self.run.report.skipped_files@);
            assert forall|i: int| 0 <= i < self.looked_at() implies tells_of(
                self.run.report,
                (#[trigger] self.files@[i]).filename@,
            ) by {
                let name = self.files@[i].filename@;
                if i == old(self).at {
                    if wanted {
                        assert(now_indexed[indexed.len() as int] == name);
                    } else {
                        assert(now_skipped[skipped.len() as int] == name);
                    }
                } else {
                    assert(tells_of(old(self).run.report, old(self).files@[i].filename@));
                    if indexed.contains(name) {
                        let k = indexed.index_of(name);
                        assert(now_indexed[k] == name);
                    } else {
                        let k = skipped.index_of(name);
                        assert(now_skipped[k] == name);
                    }
                }
            }
        }
    }

    /// Takes in the text of a file's pages; of a PDF the figures are wanted next, where they are
    /// captioned.
    pub fn extracted(&mut self, pages: &[String])
        requires
            old(self).well_formed(),
            old(self).step is Pages,
            pages@.len() <= i32::MAX,
        ensures
            final(self).well_formed(),
            final(self).same_task(*old(self)),
            final(self).run.changed == old(self).run.changed,
            final(self).run.report == old(self).run.report,
            ({
                let file = old(self).files@[old(self).at as int];
                &&& pending_data(final(self).run.pending@) == pending_data(old(self).run.pending@)
                    + queued_pages(
                    file.filename@,
                    file.path@,
                    old(self).fhash@,
                    strings(pages@),
                    file.is_pdf,
                    pages@.len() as int,
                )
                &&& if old(self).captions && file.is_pdf {
                    &&& final(self).at == old(self).at
                    &&& final(self).step is Figures
                    &&& final(self).fhash == old(self).fhash
                } else {
                    final(self).behind(*old(self))
                }
            }),
    {
        let is_pdf: bool = self.files[self.at].is_pdf;
        self.run.add_pages(
            self.files[self.at].filename.as_str(),
            self.files[self.at].path.as_str(),
            self.fhash.as_str(),
            pages,
            is_pdf,
        );
        if self.captions && is_pdf {
            self.step = IngestStep::Figures;
        } else {
            self.leave_file();
        }
    }

    /// Takes in the figure pages of a PDF, counted from zero; each is to be captioned.
    pub fn scanned(&mut self, figures: Vec<usize>)
        requires
            old(self).well_formed(),
            old(self).step is Figures,
            old(self).run.report.figures_found + figures@.len() <= usize::MAX,
            forall|i: int| 0 <= i < figures@.len() ==> #[trigger] figures@[i] < i32::MAX,
        ensures
            final(self).well_formed(),
            final(self).same_task(*old(self)),
            final(self).run.changed == old(self).run.changed,
            final(self).run.pending == old(self).run.pending,
            final(self).run.report == (IngestReport {
                figures_found: (old(self).run.report.figures_found + figures@.len()) as usize,
                ..old(self).run.report
            }),
            if figures@.len() > 0 {
                &&& final(self).at == old(self).at
                &&& final(self).step is Caption
                &&& final(self).fhash == old(self).fhash
                &&& final(self).figures == figures
                &&& final(self).tally.figures == figures@.len()
                &&& final(self).tally.done == 0
            } else {
                final(self).behind(*old(self))
            },
    {
        self.run.found_figures(figures.len());
        if figures.len() > 0 {
            self.tally = CaptionTally::new(figures.len());
            self.figures = figures;
            self.step = IngestStep::Caption;
        } else {
            self.leave_file();
        }
    }

    /// Takes in what came of a figure page. The file is left with its last figure, or where captions
    /// failed some times in a row.
    pub fn captioned(&mut self, outcome: CaptionOutcome)
        requires
            old(self).well_formed(),
            old(self).step is Caption,
        ensures
            final(self).well_formed(),
            final(self).same_task(*old(self)),
            final(self).run.changed == old(self).run.changed,
            counts_caption(
                final(self).run.report,
                old(self).run.report,
                old(self).tally,
                outcome.kind(),
            ),
            final(self).tally == old(self).tally.after(outcome.kind()),
            ({
                let file = old(self).files@[old(self).at as int];
                let page = old(self).figures@[old(self).tally.done as int];
                pending_data(final(self).run.pending@) == (match outcome {
                    CaptionOutcome::Known(text) | CaptionOutcome::Made(text) => pending_data(
                        old(self).run.pending@,
                    ).push(
                        caption_piece(
                            file.filename@,
                            file.path@,
                            old(self).fhash@,
                            page as int,
                            text@,
                        ),
                    ),
                    CaptionOutcome::Failed => pending_data(old(self).run.pending@),
                })
            }),
            if !final(self).tally.stopped && final(self).tally.done < final(self).tally.figures {
                &&& final(self).at == old(self).at
                &&& final(self).step is Caption
                &&& final(self).fhash == old(self).fhash
                &&& final(self).figures == old(self).figures
            } else {
                final(self).behind(*old(self))
            },
    {
        let page: usize = self.figures[self.tally.done];
        self.run.caption(
            &mut self.tally,
            self.files[self.at].filename.as_str(),
            self.files[self.at].path.as_str(),
            self.fhash.as_str(),
            page,
            outcome,
        );
        if !self.tally.goes_on() {
            self.leave_file();
        }
    }

    /// Notes that the captions are kept.
    pub fn captions_kept(&mut self)
        requires
            old(self).well_formed(),
            old(self).step is Keep,
        ensures
            final(self).well_formed(),
            final(self).same_task(*old(self)),
            final(self).run == old(self).run,
            final(self).at == old(self).at,
            final(self).step is Embed,
            final(self).embedded == 0,
    {
        self.step = IngestStep::Embed;
    }

    /// Notes that the next batch has its vectors.
    pub fn batch_embedded(&mut self)
        requires
            old(self).well_formed(),
            old(self).action() is Embed,
        ensures
            final(self).well_formed(),
            final(self).same_task(*old(self)),
            final(self).run == old(self).run,
            final(self).at == old(self).at,
            final(self).step is Embed,
            old(self).action() == IngestAction::Embed(old(self).embedded, final(self).embedded),
    {
        if let Some((start, end)) = self.run.next_batch(self.embedded) {
            self.embedded = end;
        }
    }

    /// What is told before the next step: which file is read, which figure is captioned, or that the
    /// index is saved.
    pub fn progress(&self) -> (r: Option<IngestProgress>)
        requires
            self.well_formed(),
        ensures
            match self.action() {
                IngestAction::Hash(at) => r matches Some(told) && told.stage is Extracting
                    && told.done == at + 1 && told.total == self.files@.len() && told.current@
                    == self.files@[at as int].filename@,
                IngestAction::Caption(at, page) => r matches Some(told) && told.stage is Captioning
                    && told.done == self.tally.done + 1 && told.total == self.tally.figures
                    && told.current@ == self.files@[at as int].filename@,
                IngestAction::Finish => r matches Some(told) && told.current@.len() == 0
                    && told.done == self.run.pending@.len() && told.total
                    == self.run.pending@.len() && told.stage == (if self.run.pending@.len() > 0 {
                    Stage::Saving
                } else {
                    Stage::Done
                }),
                _ => r is None,
            },
    {
        let n: usize = self.run.pending.len();
        let total: usize = self.files.len();
        match self.next() {
            IngestAction::Hash(at) => Some(
                IngestProgress {
                    stage: Stage::Extracting,
                    done: at + 1,
                    total,
                    current: self.files[at].filename.clone(),
                },
            ),
            IngestAction::Caption(at, _) => Some(
                IngestProgress {
                    stage: Stage::Captioning,
                    done: self.tally.done + 1,
                    total: self.tally.figures,
                    current: self.files[at].filename.clone(),
                },
            ),
            IngestAction::Finish => Some(
                IngestProgress {
                    stage: if n > 0 {
                        Stage::Saving
                    } else {
                        Stage::Done
                    },
                    done: n,
                    total: n,
                    current: String::new(),
                },
            ),
            _ => None,
        }
    }

    /// What is told once a batch has its vectors.
    pub fn embedding_progress(&self) -> (r: Option<IngestProgress>)
        requires
            self.well_formed(),
        ensures
            match r {
                Some(told) => {
                    &&& self.embedded > 0
                    &&& told.stage is Embedding
                    &&& told.done == self.embedded
                    &&& told.total == self.run.pending@.len()
                    &&& told.current@ == self.run.pending@[self.embedded - 1].filename@
                },
                None => self.embedded == 0,
            },
    {
        if self.embedded == 0 {
            return None;
        }
        Some(
            IngestProgress {
                stage: Stage::Embedding,
                done: self.embedded,
                total: self.run.pending.len(),
                current: self.run.pending[self.embedded - 1].filename.clone(),
            },
        )
    }
}

/// When the index is put together, every file has been looked at once: it was indexed or skipped.
/// Every piece has its vector, and no more figures are captioned or failed than were found.
pub proof fn nothing_is_left_at_the_end(pipeline: Pipeline)
    requires
        pipeline.well_formed(),
        pipeline.action() is Finish,
    ensures
        pipeline.run.report.indexed_files@.len() + pipeline.run.report.skipped_files@.len()
            == pipeline.files@.len(),
        forall|i: int|
            0 <= i < pipeline.files@.len() ==> tells_of(
                pipeline.run.report,
                (#[trigger] pipeline.files@[i]).filename@,
            ),
        pipeline.embedded == pipeline.run.pending@.len(),
        pipeline.run.report.captions_made + pipeline.run.report.caption_failures
            <= pipeline.run.report.figures_found,
{
}

/// Captions are asked for only where they were wanted, and of PDFs alone.
pub proof fn only_figures_of_pdfs_are_captioned(pipeline: Pipeline, at: usize, page: usize)
    requires
        pipeline.well_formed(),
        pipeline.action() == IngestAction::Caption(at, page),
    ensures
        pipeline.captions,
        at < pipeline.files@.len(),
        pipeline.files@[at as int].is_pdf,
        pipeline.figures@.contains(page),
{
    assert(pipeline.figures@[pipeline.tally.done as int] == page);
}

/// The names of the files, in order.
pub open spec fn names_of_files(files: Seq<SourceFile>) -> Seq<Seq<char>> {
    Seq::new(files.len(), |i: int| files[i].filename@)
}

/// The states that a pipeline on top of the index goes through while the hashes of its files are
/// taken in, one after the other.
pub open spec fn hashes_all(trace: Seq<Pipeline>, existing: Index, hashes: Seq<Seq<char>>) -> bool {
    &&& trace.len() == hashes.len() + 1
    &&& trace[0].begins(existing, trace[0].files, trace[0].captions)
    &&& trace[0].files@.len() == hashes.len()
    &&& forall|i: int, j: int|
        0 <= i && j == i + 1 && j < trace.len() ==> (#[trigger] trace[j]).has_hashed(
            #[trigger] trace[i],
            hashes[i],
        )
}

proof fn lemma_known_files(
    trace: Seq<Pipeline>,
    existing: Index,
    hashes: Seq<Seq<char>>,
    k: int,
)
    requires
        hashes_all(trace, existing, hashes),
        0 <= k < trace.len(),
        forall|i: int|
            0 <= i < hashes.len() ==> is_known(
                text_values(trace[0].run.known@),
                (#[trigger] trace[0].files@[i]).filename@,
                hashes[i],
            ),
    ensures
        ({
            let now = trace[k];
            let names = names_of_files(trace[0].files@);
            &&& now.files == trace[0].files
            &&& now.run.known == trace[0].run.known
            &&& now.at == k
            &&& now.step == (if k < hashes.len() {
                IngestStep::Hash
            } else {
                IngestStep::Keep
            })
            &&& now.run.pending@.len() == 0
            &&& strings(now.run.report.indexed_files@).len() == 0
            &&& strings(now.run.report.skipped_files@) == names.take(k)
        }),
    decreases k,
{
    let names = names_of_files(trace[0].files@);
    if k == 0 {
        let report = trace[0].run.report;
        assert(report.indexed_files@.len() + report.skipped_files@.len() == 0);
        assert(strings(report.skipped_files@) =~= names.take(0));
    } else {
        lemma_known_files(trace, existing, hashes, k - 1);
        let i = k - 1;
        assert(trace[k].has_hashed(trace[i], hashes[i]));
        assert(is_known(
            text_values(trace[0].run.known@),
            trace[0].files@[i].filename@,
            hashes[i],
        ));
        assert(names.take(k) =~= names.take(i).push(names[i]));
    }
}

/// A run over files whose contents are all indexed does nothing: nothing waits to be embedded, the
/// index is not saved anew, the report names every file as skipped, in order, and its totals are
/// those of the index.
pub proof fn known_files_change_nothing(
    existing: Index,
    trace: Seq<Pipeline>,
    hashes: Seq<Seq<char>>,
    vectors: Seq<Vec<u32>>,
    outcome: IngestOutcome,
)
    requires
        hashes_all(trace, existing, hashes),
        forall|i: int|
            0 <= i < hashes.len() ==> is_known(
                file_hashes(chunk_data(existing.chunks@), existing.chunks@.len() as int),
                (#[trigger] trace[0].files@[i]).filename@,
                hashes[i],
            ),
        finishes(trace.last().run, existing, vectors, outcome),
    ensures
        trace.last().step is Keep,
        trace.last().run.pending@.len() == 0,
        outcome matches IngestOutcome::Unchanged(report) && {
            &&& report.indexed_files@.len() == 0
            &&& strings(report.skipped_files@) == names_of_files(trace[0].files@)
            &&& report.new_chunks == 0
            &&& report.total_chunks == existing.metadata.chunks
            &&& report.total_documents == existing.metadata.documents
        },
{
    lemma_known_files(trace, existing, hashes, hashes.len() as int);
    let names = names_of_files(trace[0].files@);
    assert(names.take(hashes.len() as int) =~= names);
    let report = trace.last().run.report;
    assert(strings(report.indexed_files@).len() == report.indexed_files@.len());
}

/// Running again over files that have not changed does nothing: it leaves the index that the first
/// run saved, skips every file, and reports the totals of the first run. Each file gave the first
/// run a piece or was found indexed by it, and no two files of one name differ.
pub proof fn a_second_run_changes_nothing(
    first: IngestRun,
    before: Index,
    first_vectors: Seq<Vec<u32>>,
    index: Index,
    first_report: IngestReport,
    trace: Seq<Pipeline>,
    hashes: Seq<Seq<char>>,
    vectors: Seq<Vec<u32>>,
    outcome: IngestOutcome,
)
    requires
        finishes(
            first,
            before,
            first_vectors,
            (IngestOutcome::Save { index, report: first_report }),
        ),
        hashes_all(trace, index, hashes),
        forall|i: int|
            0 <= i < hashes.len() ==> indexed_or_known(
                first,
                before,
                (#[trigger] trace[0].files@[i]).filename@,
                hashes[i],
            ),
        finishes(trace.last().run, index, vectors, outcome),
    ensures
        trace.last().step is Keep,
        trace.last().run.pending@.len() == 0,
        outcome matches IngestOutcome::Unchanged(report) && {
            &&& report.indexed_files@.len() == 0
            &&& strings(report.skipped_files@) == names_of_files(trace[0].files@)
            &&& report.new_chunks == 0
            &&& report.total_chunks == first_report.total_chunks
            &&& report.total_documents == first_report.total_documents
        },
{
    let olds = chunk_data(before.chunks@);
    let pending = pending_data(first.pending@);
    let changed = strings(first.changed@);
    assert forall|i: int| 0 <= i < hashes.len() implies is_known(
        file_hashes(chunk_data(index.chunks@), index.chunks@.len() as int),
        (#[trigger] trace[0].files@[i]).filename@,
        hashes[i],
    ) by {
        let f = trace[0].files@[i].filename@;
        assert(indexed_or_known(first, before, f, hashes[i]));
        a_second_run_skips_what_is_indexed(olds, changed, pending, f, hashes[i]);
        assert(chunk_data(index.chunks@).len() == index.chunks@.len());
    }
    known_files_change_nothing(index, trace, hashes, vectors, outcome);
}

/// The run has a piece of the file with this hash, or found the file indexed with it; and it has no
/// piece of the file with another hash.
pub open spec fn indexed_or_known(
    run: IngestRun,
    existing: Index,
    f: Seq<char>,
    h: Seq<char>,
) -> bool {
    let pending = pending_data(run.pending@);
    let olds = chunk_data(existing.chunks@);
    &&& forall|i: int|
        0 <= i < pending.len() && (#[trigger] pending[i]).filename == f ==> pending[i].fhash == h
    &&& (exists|i: int| 0 <= i < pending.len() && (#[trigger] pending[i]).filename == f) || (
    !strings(run.changed@).contains(f) && is_known(file_hashes(olds, olds.len() as int), f, h))
}

} // verus!
