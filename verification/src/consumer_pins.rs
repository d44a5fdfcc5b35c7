//! Where a consumer's pins are read from: the forge, the cache, or a local checkout.

use vstd::prelude::*;
use vstd::string::*;

use crate::forge::{ConsumerHead, ForgeError};
use crate::forge_cache::{ConsumerCache, CONSUMER_SCHEMA_VERSION};
use crate::order::{lookup, OrdMap, Ordered};
use crate::pins::Pin;
use crate::seqs::{group_seqs, lemma_filter_map_has, pointee, view_of, views};
use crate::text::{decimal, decimal_text, lemma_ranks_injective, prefix, ranks, same, shortened};

verus! {

broadcast use group_seqs;

/// What was found in a consumer's pin files.
#[derive(Debug, PartialEq, Eq)]
pub struct ConsumerScan {
    pub pins: Vec<Pin>,
    pub notes: Vec<String>,
    pub problems: Vec<String>,
}

/// What a scan says.
#[verifier::ext_equal]
pub struct ScanView {
    pub pins: Seq<Pin>,
    pub notes: Seq<Seq<char>>,
    pub problems: Seq<Seq<char>>,
}

impl View for ConsumerScan {
    type V = ScanView;

    open spec fn view(&self) -> ScanView {
        ScanView { pins: self.pins@, notes: views(self.notes@), problems: views(self.problems@) }
    }
}

impl ScanView {
    /// The scan that found nothing.
    pub open spec fn empty() -> ScanView {
        ScanView { pins: Seq::empty(), notes: Seq::empty(), problems: Seq::empty() }
    }

    /// What two scans found, one after the other.
    pub open spec fn then_also(self, other: ScanView) -> ScanView {
        ScanView {
            pins: self.pins + other.pins,
            notes: self.notes + other.notes,
            problems: self.problems + other.problems,
        }
    }
}

impl Default for ConsumerScan {
    fn default() -> (scan: Self)
        ensures
            scan@ == ScanView::empty(),
    {
        let scan = ConsumerScan { pins: Vec::new(), notes: Vec::new(), problems: Vec::new() };
        assert(scan@ =~= ScanView::empty());
        scan
    }
}

impl ConsumerScan {
    /// Adds what another scan found.
    pub fn extend(&mut self, other: ConsumerScan)
        ensures
            final(self)@ == old(self)@.then_also(other@),
    {
        let mut rest = other;
        self.pins.append(&mut rest.pins);
        self.notes.append(&mut rest.notes);
        self.problems.append(&mut rest.problems);
        assert(self@ =~= old(self)@.then_also(other@));
    }
}

/// What one run knows of the default-branch heads of consumers.
#[derive(Debug)]
pub struct ConsumerHeadMemo {
    pub heads: OrdMap<String, ConsumerHead>,
}

impl ConsumerHeadMemo {
    /// The head that is known of a consumer.
    pub open spec fn head(self, slug: Seq<char>) -> Option<ConsumerHead> {
        lookup(self.heads@, ranks(slug))
    }

    /// A memo that knows nothing.
    pub fn new() -> (memo: Self)
        ensures
            memo.heads@.len() == 0,
    {
        ConsumerHeadMemo { heads: OrdMap::new() }
    }

    /// The head that is known of a consumer.
    pub fn known(&self, slug: &str) -> (head: Option<&ConsumerHead>)
        ensures
            pointee(head) == self.head(slug@),
    {
        let key = slug.to_owned();
        assert(key.rank() == ranks(slug@));
        self.heads.get(&key)
    }
}

/// The head of a consumer: the one that is known, else what the forge answered, which is then known.
pub fn consumer_head(
    memo: &mut ConsumerHeadMemo,
    slug: &str,
    answer: Result<ConsumerHead, ForgeError>,
) -> (head: Result<ConsumerHead, ForgeError>)
    ensures
        head == (match old(memo).head(slug@) {
            Some(known) => Ok(known),
            None => answer,
        }),
        forall|other: Seq<char>| #[trigger]
            final(memo).head(other) == (if other == slug@ && old(memo).head(slug@) is None && answer is Ok {
                Some(answer->Ok_0)
            } else {
                old(memo).head(other)
            }),
{
    if let Some(known) = memo.known(slug) {
        return Ok(known.clone());
    }
    match answer {
        Ok(head) => {
            let key = slug.to_owned();
            assert(key.rank() == ranks(slug@));
            memo.heads.insert(key, head.clone());
            proof {
                assert forall|other: Seq<char>| #[trigger]
                    memo.head(other) == (if other == slug@ {
                        Some(head)
                    } else {
                        old(memo).head(other)
                    }) by {
                    lemma_ranks_injective(other, slug@);
                }
            }
            Ok(head)
        },
        Err(error) => Err(error),
    }
}

/// Where the pin files of a consumer are read.
#[derive(Debug, Clone, Copy, PartialEq, Eq, Structural)]
pub enum PinSource {
    /// In the cache, which holds them at the consumer's head.
    Cache,
    /// At the forge.
    Forge,
    /// In the cache, because the forge could not be reached.
    StaleCache,
    /// Nowhere: the forge could not be reached, and nothing is cached.
    Nowhere,
}

/// Where the pin files of a consumer are read.
pub open spec fn chosen_source(
    head: Result<ConsumerHead, ForgeError>,
    cache: Option<ConsumerCache>,
) -> PinSource {
    match head {
        Ok(head) => match cache {
            Some(cache) => if cache.commit@ == head.commit@ {
                PinSource::Cache
            } else {
                PinSource::Forge
            },
            None => PinSource::Forge,
        },
        Err(_) => if cache is Some {
            PinSource::StaleCache
        } else {
            PinSource::Nowhere
        },
    }
}

/// Where the pin files of a consumer are read. A cache at the same commit answers without asking for
/// a single file.
pub fn pin_source(
    head: &Result<ConsumerHead, ForgeError>,
    cache: Option<&ConsumerCache>,
) -> (source: PinSource)
    ensures
        source == chosen_source(*head, pointee(cache)),
{
    match head {
        Ok(head) => match cache {
            Some(cache) => if same(cache.commit.as_str(), head.commit.as_str()) {
                PinSource::Cache
            } else {
                PinSource::Forge
            },
            None => PinSource::Forge,
        },
        Err(_) => if cache.is_some() {
            PinSource::StaleCache
        } else {
            PinSource::Nowhere
        },
    }
}

/// What came of reading one pin file at the forge.
#[derive(Debug, PartialEq, Eq)]
pub struct FileRead {
    pub file: String,
    /// The file's text; absent where the consumer has no such file.
    pub text: Result<Option<String>, ForgeError>,
}

/// The text of the last read of a file that found it.
pub open spec fn text_read(reads: Seq<FileRead>, file: Seq<char>) -> Option<Seq<char>>
    decreases reads.len(),
{
    if reads.len() == 0 {
        None
    } else if reads.last().file@ == file && reads.last().text is Ok && reads.last().text->Ok_0 is Some {
        view_of(reads.last().text->Ok_0)
    } else {
        text_read(reads.drop_last(), file)
    }
}

/// Whether some file could not be read.
pub open spec fn some_unread(reads: Seq<FileRead>) -> bool {
    exists|i: int| 0 <= i < reads.len() && (#[trigger] reads[i]).text is Err
}

fn any_unread(reads: &Vec<FileRead>) -> (r: bool)
    ensures
        r == some_unread(reads@),
{
    let mut i: usize = 0;
    while i < reads.len()
        invariant
            i <= reads@.len(),
            forall|j: int| 0 <= j < i ==> (#[trigger] reads@[j]).text is Ok,
        decreases reads@.len() - i,
    {
        if reads[i].text.is_err() {
            return true;
        }
        i += 1;
    }
    false
}

/// The pin files that were found, by name.
pub fn files_found(reads: &Vec<FileRead>) -> (files: OrdMap<String, String>)
    ensures
        forall|file: Seq<char>| #[trigger]
            view_of(lookup(files@, ranks(file))) == text_read(reads@, file),
{
    let mut files: OrdMap<String, String> = OrdMap::new();
    let mut i: usize = 0;
    while i < reads.len()
        invariant
            i <= reads@.len(),
            forall|file: Seq<char>| #[trigger]
                view_of(lookup(files@, ranks(file))) == text_read(reads@.take(i as int), file),
        decreases reads@.len() - i,
    {
        let ghost before = files@;
        let ghost more = reads@.take(i + 1);
        assert(more.drop_last() =~= reads@.take(i as int));
        if let Ok(Some(text)) = &reads[i].text {
            files.insert(reads[i].file.clone(), text.clone());
        }
        proof {
            assert forall|file: Seq<char>| #[trigger]
                view_of(lookup(files@, ranks(file))) == text_read(more, file) by {
                lemma_ranks_injective(file, reads@[i as int].file@);
                assert(view_of(lookup(before, ranks(file))) == text_read(reads@.take(i as int), file));
            }
        }
        i += 1;
    }
    assert(reads@.take(i as int) =~= reads@);
    files
}

/// What is cached of a consumer after its files were read: nothing where one could not be.
pub fn cache_entry(
    slug: &str,
    head: &ConsumerHead,
    reads: &Vec<FileRead>,
    fetched_at: &str,
) -> (entry: Option<ConsumerCache>)
    ensures
        match entry {
            Some(cache) => {
                &&& !some_unread(reads@)
                &&& cache.schema == CONSUMER_SCHEMA_VERSION
                &&& cache.slug@ == slug@
                &&& cache.branch == head.branch
                &&& cache.commit == head.commit
                &&& cache.fetched_at@ == fetched_at@
                &&& forall|file: Seq<char>| #[trigger]
                    view_of(lookup(cache.files@, ranks(file))) == text_read(reads@, file)
            },
            None => some_unread(reads@),
        },
{
    if any_unread(reads) {
        return None;
    }
    Some(
        ConsumerCache {
            schema: CONSUMER_SCHEMA_VERSION,
            slug: slug.to_owned(),
            branch: head.branch.clone(),
            commit: head.commit.clone(),
            fetched_at: fetched_at.to_owned(),
            files: files_found(reads),
        },
    )
}

/// What came of asking for a consumer's pins.
pub struct SlugScan<'a> {
    pub slug: &'a str,
    pub head: &'a Result<ConsumerHead, ForgeError>,
    /// What is cached of the consumer.
    pub cache: Option<&'a ConsumerCache>,
    /// What came of reading the pin files at the forge, where they were read there.
    pub reads: &'a Vec<FileRead>,
    /// What came of writing the cache, where it was written.
    pub written: &'a Result<(), String>,
}

/// A file that could not be read, in words.
pub open spec fn unread(slug: Seq<char>, commit: Seq<char>) -> spec_fn(FileRead) -> Option<Seq<char>> {
    |read: FileRead|
        match read.text {
            Ok(_) => None,
            Err(error) => Some(
                "could not read "@ + read.file@ + " at "@ + slug + "@"@ + commit + ": "@ + error.text(),
            ),
        }
}

/// What is said of a cache that could not be written.
pub open spec fn unwritten(input: SlugScan) -> Seq<Seq<char>> {
    match *input.written {
        Err(error) => if some_unread(input.reads@) {
            Seq::empty()
        } else {
            seq![input.slug@ + ": could not write consumer cache: "@ + error@]
        },
        Ok(_) => Seq::empty(),
    }
}

/// What the forge's failure is called.
pub open spec fn unreachable_problem(slug: Seq<char>, error: ForgeError) -> Seq<char> {
    slug + ": forge unreachable: "@ + error.text()
}

/// What is found of a consumer's pins.
pub open spec fn slug_scan(input: SlugScan, scanned: ScanView) -> ScanView {
    match *input.head {
        Ok(head) => if chosen_source(*input.head, pointee(input.cache)) == PinSource::Cache {
            scanned
        } else {
            ScanView {
                pins: scanned.pins,
                notes: unwritten(input) + scanned.notes,
                problems: input.reads@.filter_map(unread(input.slug@, head.commit@)) + scanned.problems,
            }
        },
        Err(error) => match input.cache {
            Some(cache) => ScanView {
                pins: scanned.pins,
                notes: scanned.notes.push(
                    input.slug@ + ": forge unreachable; pins answered from cache at "@ + prefix(cache.commit@, 12),
                ),
                problems: scanned.problems.push(unreachable_problem(input.slug@, error)),
            },
            None => ScanView {
                pins: Seq::empty(),
                notes: Seq::empty(),
                problems: seq![unreachable_problem(input.slug@, error)],
            },
        },
    }
}

fn unreadable(reads: &Vec<FileRead>, slug: &str, commit: &str) -> (problems: Vec<String>)
    ensures
        views(problems@) == reads@.filter_map(unread(slug@, commit@)),
{
    let mut problems: Vec<String> = Vec::new();
    let mut i: usize = 0;
    while i < reads.len()
        invariant
            i <= reads@.len(),
            views(problems@) == reads@.take(i as int).filter_map(unread(slug@, commit@)),
        decreases reads@.len() - i,
    {
        proof {
            reads@.lemma_filter_map_take_succ(unread(slug@, commit@), i as int);
        }
        if let Err(error) = &reads[i].text {
            let mut problem = "could not read ".to_owned();
            problem.append(reads[i].file.as_str());
            problem.append(" at ");
            problem.append(slug);
            problem.append("@");
            problem.append(commit);
            problem.append(": ");
            problem.append(error.message().as_str());
            problems.push(problem);
        }
        assert(views(problems@) =~= reads@.take(i + 1).filter_map(unread(slug@, commit@)));
        i += 1;
    }
    problems
}

/// What is found of a consumer's pins, from where they were read.
///
/// `scanned` is what the texts of the chosen source hold. A forge that could not be reached is a
/// problem even where the cache still answers.
pub fn scan_consumer_slug_with_heads(input: SlugScan, scanned: ConsumerScan) -> (scan: ConsumerScan)
    ensures
        scan@ == slug_scan(input, scanned@),
{
    match input.head {
        Ok(head) => {
            if pin_source(input.head, input.cache) == PinSource::Cache {
                return scanned;
            }
            let mut scan = ConsumerScan {
                pins: Vec::new(),
                notes: Vec::new(),
                problems: unreadable(input.reads, input.slug, head.commit.as_str()),
            };
            if let Err(error) = input.written {
                if !any_unread(input.reads) {
                    let mut note = input.slug.to_owned();
                    note.append(": could not write consumer cache: ");
                    note.append(error.as_str());
                    scan.notes.push(note);
                }
            }
            assert(scan@.notes =~= unwritten(input));
            scan.extend(scanned);
            assert(scan@ =~= slug_scan(input, scanned@));
            scan
        },
        Err(error) => {
            let mut problem = input.slug.to_owned();
            problem.append(": forge unreachable: ");
            problem.append(error.message().as_str());
            match input.cache {
                Some(cache) => {
                    let mut scan = scanned;
                    let mut note = input.slug.to_owned();
                    note.append(": forge unreachable; pins answered from cache at ");
                    note.append(shortened(cache.commit.as_str(), 12).as_str());
                    scan.notes.push(note);
                    scan.problems.push(problem);
                    assert(scan@ =~= slug_scan(input, scanned@));
                    scan
                },
                None => {
                    let mut scan = ConsumerScan::default();
                    scan.problems.push(problem);
                    assert(scan@ =~= slug_scan(input, scanned@));
                    scan
                },
            }
        },
    }
}

/// A forge that could not be reached is never an empty success.
pub proof fn lemma_unreachable_is_a_problem(input: SlugScan, scanned: ScanView)
    requires
        *input.head is Err,
    ensures
        slug_scan(input, scanned).problems.len() > 0,
{
}

/// A cache at the consumer's head answers alone: what is found does not depend on the files at the
/// forge.
pub proof fn lemma_warm_cache_answers_alone(input: SlugScan, scanned: ScanView)
    requires
        chosen_source(*input.head, pointee(input.cache)) == PinSource::Cache,
    ensures
        slug_scan(input, scanned) == scanned,
{
}

/// What is said first of a local checkout: where its pins are read.
#[derive(Debug, PartialEq, Eq)]
pub enum OriginTrunk {
    /// At the trunk of its origin.
    Reference(String),
    /// It has no origin trunk.
    Missing,
    NotRepository,
    /// It could not be told.
    Failed(String),
}

/// What came of reading one pin file of a local checkout.
#[derive(Debug, PartialEq, Eq)]
pub enum LocalOutcome {
    /// What the text holds, and how many commits the checkout is behind where it was read.
    Scanned { scan: ConsumerScan, behind: u64 },
    Absent,
    Failed(String),
}

/// A pin file of a local checkout, and what came of reading it.
#[derive(Debug, PartialEq, Eq)]
pub struct LocalRead {
    pub name: String,
    pub outcome: LocalOutcome,
}

/// Where a file could not be read: at the trunk of the origin, or in the working copy.
pub open spec fn read_place(trunk: OriginTrunk) -> Seq<char> {
    match trunk {
        OriginTrunk::Reference(branch) => " at "@ + branch@ + ": "@,
        _ => ": "@,
    }
}

/// What one read adds.
pub open spec fn read_scan(read: LocalRead, trunk: OriginTrunk) -> ScanView {
    match read.outcome {
        LocalOutcome::Scanned { scan, .. } => scan@,
        LocalOutcome::Absent => ScanView::empty(),
        LocalOutcome::Failed(error) => ScanView {
            pins: Seq::empty(),
            notes: Seq::empty(),
            problems: seq!["could not read "@ + read.name@ + read_place(trunk) + error@],
        },
    }
}

/// What several reads add.
pub open spec fn reads_scan(reads: Seq<LocalRead>, trunk: OriginTrunk) -> ScanView
    decreases reads.len(),
{
    if reads.len() == 0 {
        ScanView::empty()
    } else {
        reads_scan(reads.drop_last(), trunk).then_also(read_scan(reads.last(), trunk))
    }
}

/// How far the checkout is behind: the first read that says so.
pub open spec fn checkout_lag(reads: Seq<LocalRead>) -> Option<u64>
    decreases reads.len(),
{
    if reads.len() == 0 {
        None
    } else {
        match checkout_lag(reads.drop_last()) {
            Some(behind) => Some(behind),
            None => match reads.last().outcome {
                LocalOutcome::Scanned { behind, .. } => if behind > 0 {
                    Some(behind)
                } else {
                    None
                },
                _ => None,
            },
        }
    }
}

/// What is said of where the pins of a checkout were read.
pub open spec fn checkout_note(consumer: Seq<char>, trunk: OriginTrunk, lag: Option<u64>) -> Seq<Seq<char>> {
    match trunk {
        OriginTrunk::Reference(branch) => match lag {
            Some(behind) => seq![
                consumer + " checkout is "@ + decimal_text(behind as nat) + " commit(s) behind its "@ + branch@,
            ],
            None => Seq::empty(),
        },
        OriginTrunk::Missing => seq![
            consumer + ": no origin trunk resolved; pins read from the working copy"@,
        ],
        OriginTrunk::NotRepository => seq![consumer + ": not a repository; pins read from the working copy"@],
        OriginTrunk::Failed(error) => seq![
            consumer + ": could not resolve its origin trunk ("@ + error@ + "); pins read from the working copy"@,
        ],
    }
}

/// What is found in a local checkout.
pub open spec fn checkout_scan(consumer: Seq<char>, trunk: OriginTrunk, reads: Seq<LocalRead>) -> ScanView {
    let found = reads_scan(reads, trunk);
    ScanView {
        pins: found.pins,
        notes: found.notes + checkout_note(consumer, trunk, checkout_lag(reads)),
        problems: found.problems + (match trunk {
            OriginTrunk::Failed(error) => seq!["could not resolve origin trunk: "@ + error@],
            _ => Seq::empty(),
        }),
    }
}

/// What is found in a local checkout of one repository's pins.
pub fn scan_consumer_for(consumer: &str, trunk: &OriginTrunk, reads: Vec<LocalRead>) -> (scan: ConsumerScan)
    ensures
        scan@ == checkout_scan(consumer@, *trunk, reads@),
{
    let ghost all = reads@;
    let mut scan = ConsumerScan::default();
    let mut lag: Option<u64> = None;
    for read in it: reads
        invariant
            it.seq() == all,
            scan@ == reads_scan(all.take(it.index()), *trunk),
            lag == checkout_lag(all.take(it.index())),
    {
        let ghost i = it.index();
        let ghost before = scan@;
        proof {
            assert(all.take(i + 1).drop_last() =~= all.take(i));
            assert(all.take(i + 1).last() == read);
        }
        match read.outcome {
            LocalOutcome::Scanned { scan: found, behind } => {
                scan.extend(found);
                if lag.is_none() && behind > 0 {
                    lag = Some(behind);
                }
            },
            LocalOutcome::Absent => {
                assert(before.then_also(ScanView::empty()) =~= before);
            },
            LocalOutcome::Failed(error) => {
                let mut problem = "could not read ".to_owned();
                problem.append(read.name.as_str());
                let mut place = ": ".to_owned();
                if let OriginTrunk::Reference(branch) = trunk {
                    place = " at ".to_owned();
                    place.append(branch.as_str());
                    place.append(": ");
                }
                problem.append(place.as_str());
                problem.append(error.as_str());
                scan.problems.push(problem);
                assert(scan@ =~= before.then_also(read_scan(read, *trunk)));
            },
        }
    }
    assert(all.take(all.len() as int) =~= all);
    let ghost found = scan@;
    match trunk {
        OriginTrunk::Reference(branch) => {
            if let Some(behind) = lag {
                let mut note = consumer.to_owned();
                note.append(" checkout is ");
                note.append(decimal(behind).as_str());
                note.append(" commit(s) behind its ");
                note.append(branch.as_str());
                scan.notes.push(note);
            }
        },
        OriginTrunk::Missing => {
            let mut note = consumer.to_owned();
            note.append(": no origin trunk resolved; pins read from the working copy");
            scan.notes.push(note);
        },
        OriginTrunk::NotRepository => {
            let mut note = consumer.to_owned();
            note.append(": not a repository; pins read from the working copy");
            scan.notes.push(note);
        },
        OriginTrunk::Failed(error) => {
            let mut note = consumer.to_owned();
            note.append(": could not resolve its origin trunk (");
            note.append(error.as_str());
            note.append("); pins read from the working copy");
            scan.notes.push(note);
            let mut problem = "could not resolve origin trunk: ".to_owned();
            problem.append(error.as_str());
            scan.problems.push(problem);
        },
    }
    assert(scan@ =~= checkout_scan(consumer@, *trunk, all));
    scan
}

/// Where a consumer's pins are read: from the cache exactly if its head is known and the cache is of that
/// commit, from the forge exactly if its head is known and the cache is not. Without its head a cache
/// answers as it was, and without either nothing does.
pub proof fn lemma_source_of_pins(head: Result<ConsumerHead, ForgeError>, cache: Option<ConsumerCache>)
    ensures
        chosen_source(head, cache) == PinSource::Cache <==> head is Ok && cache is Some && cache->0.commit@
            == head->Ok_0.commit@,
        chosen_source(head, cache) == PinSource::Forge <==> head is Ok && (cache is None || cache->0.commit@
            != head->Ok_0.commit@),
        chosen_source(head, cache) == PinSource::StaleCache <==> head is Err && cache is Some,
        chosen_source(head, cache) == PinSource::Nowhere <==> head is Err && cache is None,
{
}

/// What a scan of a consumer tells: the pins that were scanned, unless nothing could be; a problem for each
/// file that could not be read at a head that is known; one problem, and that alone, more than what was
/// scanned where the head is not.
pub proof fn lemma_scan_of_consumer(input: SlugScan, scanned: ScanView)
    ensures
        ({
            let scan = slug_scan(input, scanned);
            let cached = *input.head is Ok && input.cache is Some && input.cache->0.commit@
                == input.head->Ok_0.commit@;
            &&& *input.head is Ok || input.cache is Some ==> scan.pins == scanned.pins
            &&& *input.head is Err && input.cache is None ==> scan.pins.len() == 0 && scan.notes.len() == 0
                && scan.problems.len() == 1
            &&& cached ==> scan == scanned
            &&& *input.head is Ok && !cached && !some_unread(input.reads@) ==> scan.problems == scanned.problems
            &&& *input.head is Ok && !cached && some_unread(input.reads@) ==> scan.problems.len()
                > scanned.problems.len()
            &&& *input.head is Err && input.cache is Some ==> scan.problems.len() == scanned.problems.len() + 1
                && scan.notes.len() == scanned.notes.len() + 1
        }),
{
    if let Ok(head) = *input.head {
        let f = unread(input.slug@, head.commit@);
        let list = input.reads@.filter_map(f);
        if some_unread(input.reads@) {
            let i = choose|i: int| 0 <= i < input.reads@.len() && (#[trigger] input.reads@[i]).text is Err;
            let said = f(input.reads@[i])->0;
            lemma_filter_map_has(input.reads@, f, said);
            assert(list.contains(said));
        } else {
            if list.len() > 0 {
                assert(list.contains(list[0]));
                lemma_filter_map_has(input.reads@, f, list[0]);
            }
            assert(list + scanned.problems =~= scanned.problems);
        }
    }
}

/// That a cache could not be written is noted exactly if it could not and every file was read: an entry
/// with a hole is not written at all.
pub proof fn lemma_unwritten_cache(input: SlugScan)
    ensures
        unwritten(input).len() > 0 <==> *input.written is Err && forall|i: int|
            0 <= i < input.reads@.len() ==> (#[trigger] input.reads@[i]).text is Ok,
{
}

/// What a checkout tells beside its pins: how far behind it is exactly if its trunk is known and some read
/// says so, and where its pins were read exactly if its trunk is not known.
pub proof fn lemma_note_on_checkout(consumer: Seq<char>, trunk: OriginTrunk, reads: Seq<LocalRead>)
    ensures
        ({
            let scan = checkout_scan(consumer, trunk, reads);
            let found = reads_scan(reads, trunk);
            &&& scan.pins == found.pins
            &&& scan.notes.len() == found.notes.len() + (if trunk is Reference && checkout_lag(reads) is None {
                0int
            } else {
                1int
            })
            &&& scan.problems.len() == found.problems.len() + (if trunk is Failed {
                1int
            } else {
                0int
            })
        }),
        checkout_lag(reads) is Some <==> exists|i: int|
            0 <= i < reads.len() && ((#[trigger] reads[i]).outcome matches LocalOutcome::Scanned { behind, .. } && behind
                > 0),
{
    lemma_checkout_lag(reads);
}

proof fn lemma_checkout_lag(reads: Seq<LocalRead>)
    ensures
        checkout_lag(reads) is Some <==> exists|i: int|
            0 <= i < reads.len() && ((#[trigger] reads[i]).outcome matches LocalOutcome::Scanned { behind, .. } && behind
                > 0),
    decreases reads.len(),
{
    if reads.len() > 0 {
        let rest = reads.drop_last();
        lemma_checkout_lag(rest);
        if exists|i: int|
            0 <= i < rest.len() && ((#[trigger] rest[i]).outcome matches LocalOutcome::Scanned { behind, .. } && behind
                > 0) {
            let i = choose|i: int|
                0 <= i < rest.len() && ((#[trigger] rest[i]).outcome matches LocalOutcome::Scanned { behind, .. }
                    && behind > 0);
            assert(reads[i] == rest[i]);
        }
        if exists|i: int|
            0 <= i < reads.len() && ((#[trigger] reads[i]).outcome matches LocalOutcome::Scanned { behind, .. } && behind
                > 0) {
            let i = choose|i: int|
                0 <= i < reads.len() && ((#[trigger] reads[i]).outcome matches LocalOutcome::Scanned { behind, .. }
                    && behind > 0);
            if i < rest.len() {
                assert(rest[i] == reads[i]);
            }
        }
        assert(reads[reads.len() - 1] == reads.last());
    }
}

/// What one read adds: what it scanned, nothing where the file is absent, a problem where it failed.
pub proof fn lemma_read_of_checkout(reads: Seq<LocalRead>, trunk: OriginTrunk, read: LocalRead)
    ensures
        ({
            let before = reads_scan(reads, trunk);
            let after = reads_scan(reads.push(read), trunk);
            &&& read.outcome is Absent ==> after == before
            &&& read.outcome is Failed ==> after.pins == before.pins && after.notes == before.notes
                && after.problems.len() == before.problems.len() + 1
            &&& read.outcome matches LocalOutcome::Scanned { scan, .. } ==> after.pins == before.pins + scan.pins@
                && after.problems == before.problems + views(scan.problems@)
        }),
        reads_scan(Seq::empty(), trunk).pins.len() == 0,
{
    assert(reads.push(read).drop_last() =~= reads);
    let before = reads_scan(reads, trunk);
    assert(before.pins + Seq::<Pin>::empty() =~= before.pins);
    assert(before.notes + Seq::<Seq<char>>::empty() =~= before.notes);
    assert(before.problems + Seq::<Seq<char>>::empty() =~= before.problems);
}

/// What was read of a file is the text of a read of that file that found one; a file that no read found has
/// none.
pub proof fn lemma_text_read(reads: Seq<FileRead>, file: Seq<char>)
    ensures
        text_read(reads, file) is Some <==> exists|i: int|
            0 <= i < reads.len() && (#[trigger] reads[i]).file@ == file && (reads[i].text matches Ok(Some(_))),
        text_read(reads, file) matches Some(text) ==> exists|i: int|
            0 <= i < reads.len() && (#[trigger] reads[i]).file@ == file && (reads[i].text matches Ok(Some(found))
                && found@ == text),
    decreases reads.len(),
{
    if reads.len() > 0 {
        let rest = reads.drop_last();
        let last = reads.len() - 1;
        lemma_text_read(rest, file);
        assert(reads[last] == reads.last());
        assert forall|i: int| 0 <= i < rest.len() implies rest[i] == #[trigger] reads[i] by {}
        if let Some(text) = text_read(rest, file) {
            let i = choose|i: int|
                0 <= i < rest.len() && (#[trigger] rest[i]).file@ == file && (rest[i].text matches Ok(Some(found))
                    && found@ == text);
            assert(reads[i] == rest[i]);
        }
        if exists|i: int|
            0 <= i < reads.len() && (#[trigger] reads[i]).file@ == file && (reads[i].text matches Ok(Some(_))) {
            let i = choose|i: int|
                0 <= i < reads.len() && (#[trigger] reads[i]).file@ == file && (reads[i].text matches Ok(Some(_)));
            if i < last {
                assert(rest[i] == reads[i]);
            }
        }
    }
}

/// How far a checkout is behind is what the first read that finds it behind says.
pub proof fn lemma_first_lag_is_told(reads: Seq<LocalRead>, i: int)
    requires
        0 <= i < reads.len(),
        reads[i].outcome matches LocalOutcome::Scanned { behind, .. } && behind > 0,
        forall|j: int|
            0 <= j < i ==> !((#[trigger] reads[j]).outcome matches LocalOutcome::Scanned { behind, .. } && behind > 0),
    ensures
        checkout_lag(reads) == Some(reads[i].outcome->behind),
    decreases reads.len(),
{
    let rest = reads.drop_last();
    let last = reads.len() - 1;
    assert(reads[last] == reads.last());
    assert forall|j: int| 0 <= j < rest.len() implies rest[j] == #[trigger] reads[j] by {}
    if i < last {
        assert(rest[i] == reads[i]);
        assert forall|j: int| 0 <= j < i implies !((#[trigger] rest[j]).outcome matches LocalOutcome::Scanned {
            behind,
            ..
        } && behind > 0) by {
            assert(rest[j] == reads[j]);
        }
        lemma_first_lag_is_told(rest, i);
    } else {
        lemma_checkout_lag(rest);
        if checkout_lag(rest) is Some {
            let j = choose|j: int|
                0 <= j < rest.len() && ((#[trigger] rest[j]).outcome matches LocalOutcome::Scanned { behind, .. }
                    && behind > 0);
            assert(rest[j] == reads[j]);
        }
    }
}

} // verus!
