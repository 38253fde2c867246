//! The command line.

use vstd::prelude::*;

use crate::config::DEFAULT_K;
use crate::ingest::{counted, IngestProgress, IngestReport, Stage};
use crate::text::{
    begins, chars_of, decimal, optional, owned, parse_number, push_decimal, read_number, same_text,
    starts_with, strings,
};

verus! {

pub const USAGE: &'static str = "corpus — local hybrid retrieval (RAG) over your documents

  corpus probe                       Embed test texts with the pinned model and print scores
  corpus index <documents dir>       Extract, chunk, embed, and store documents
                                  (text only; add --vision for figures)
  corpus index <documents dir> --vision
                                  Also rasterise figure pages and index a vision
                                  model's caption of each. Slow: seconds per page
                                  on the first run, cached afterwards.
                                  Config: RAG_VISION_URL, RAG_VISION_MODEL.
  corpus search <query> [-k n] [--file <filename>] [--no-rerank]
  corpus list                        List indexed documents with chunk and page counts
";

/// What the user asks for.
#[derive(Debug)]
pub enum Command {
    Usage,
    Probe,
    Index { source: String, vision: bool },
    Search { query: String, k: usize, file: Option<String>, rerank: bool },
    List,
}

pub enum CommandData {
    Usage,
    Probe,
    Index { source: Seq<char>, vision: bool },
    Search { query: Seq<char>, k: nat, file: Option<Seq<char>>, rerank: bool },
    List,
}

impl View for Command {
    type V = CommandData;

    open spec fn view(&self) -> CommandData {
        match self {
            Command::Usage => CommandData::Usage,
            Command::Probe => CommandData::Probe,
            Command::Index { source, vision } => CommandData::Index {
                source: source@,
                vision: *vision,
            },
            Command::Search { query, k, file, rerank } => CommandData::Search {
                query: query@,
                k: *k as nat,
                file: optional(*file),
                rerank: *rerank,
            },
            Command::List => CommandData::List,
        }
    }
}

/// Two commands with the same contents are of the same kind and ask for the same.
pub proof fn contents_tell_commands_apart(a: Command, b: Command)
    requires
        a@ == b@,
    ensures
        a is Usage ==> b is Usage,
        a is Probe ==> b is Probe,
        a is List ==> b is List,
        a matches Command::Index { source, vision } ==> b matches Command::Index {
            source: s,
            vision: v,
        } && source@ == s@ && vision == v,
        a matches Command::Search { query, k, file, rerank } ==> b matches Command::Search {
            query: q,
            k: n,
            file: f,
            rerank: r,
        } && query@ == q@ && k == n && optional(file) == optional(f) && rerank == r,
{
}

/// The options of a search.
pub struct SearchOptions {
    pub k: nat,
    pub file: Option<Seq<char>>,
    pub rerank: bool,
}

/// The options that the arguments from `i` on give, on top of those given before; nothing where a
/// number of passages is asked for and none is given.
pub open spec fn options_from(
    args: Seq<Seq<char>>,
    i: int,
    given: SearchOptions,
) -> Option<SearchOptions>
    decreases args.len() - i,
{
    if i >= args.len() {
        Some(given)
    } else if args[i] == "-k"@ {
        if i + 1 < args.len() && parse_number(args[i + 1], usize::MAX as nat) is Some {
            options_from(
                args,
                i + 2,
                SearchOptions { k: parse_number(args[i + 1], usize::MAX as nat)->0, ..given },
            )
        } else {
            None
        }
    } else if args[i] == "--file"@ {
        if i + 1 < args.len() {
            options_from(args, i + 2, SearchOptions { file: Some(args[i + 1]), ..given })
        } else {
            Some(SearchOptions { file: None, ..given })
        }
    } else if args[i] == "--no-rerank"@ {
        options_from(args, i + 1, SearchOptions { rerank: false, ..given })
    } else {
        options_from(args, i + 1, given)
    }
}

/// The word is no option of a search.
pub open spec fn plain_word(word: Seq<char>) -> bool {
    word != "-k"@ && word != "--file"@ && word != "--no-rerank"@
}

proof fn lemma_plain_words(args: Seq<Seq<char>>, i: int, end: int, given: SearchOptions)
    requires
        0 <= i <= end <= args.len(),
        forall|j: int| i <= j < end ==> plain_word(#[trigger] args[j]),
    ensures
        options_from(args, i, given) == options_from(args, end, given),
    decreases end - i,
{
    if i < end {
        assert(plain_word(args[i]));
        lemma_plain_words(args, i + 1, end, given);
    }
}

/// An option counts wherever it stands among words that are none: a number of passages, a document,
/// or the wish for no reranking; what is not asked for stays as it was. Where no number follows
/// `-k`, there are no options.
pub proof fn options_count_wherever_they_stand(
    args: Seq<Seq<char>>,
    i: int,
    at: int,
    given: SearchOptions,
    n: nat,
)
    requires
        0 <= i <= at < args.len(),
        forall|j: int| i <= j < at ==> plain_word(#[trigger] args[j]),
        forall|j: int| at + 1 < j < args.len() ==> plain_word(#[trigger] args[j]),
        n <= usize::MAX,
    ensures
        args[at] == "-k"@ && at + 1 < args.len() && args[at + 1] == decimal(n) ==> options_from(
            args,
            i,
            given,
        ) == Some(SearchOptions { k: n, file: given.file, rerank: given.rerank }),
        args[at] == "-k"@ && (at + 1 == args.len() || parse_number(
            args[at + 1],
            usize::MAX as nat,
        ) is None) ==> options_from(args, i, given) is None,
        args[at] == "--file"@ && at + 1 < args.len() ==> options_from(args, i, given) == Some(
            SearchOptions { k: given.k, file: Some(args[at + 1]), rerank: given.rerank },
        ),
        args[at] == "--no-rerank"@ && (at + 1 == args.len() || plain_word(args[at + 1]))
            ==> options_from(args, i, given) == Some(
            SearchOptions { k: given.k, file: given.file, rerank: false },
        ),
        plain_word(args[at]) && (at + 1 == args.len() || plain_word(args[at + 1])) ==> options_from(
            args,
            i,
            given,
        ) == Some(given),
{
    reveal_strlit("-k");
    reveal_strlit("--file");
    reveal_strlit("--no-rerank");
    assert("-k"@[1] != "--file"@[1] && "-k"@[1] != "--no-rerank"@[1]);
    assert("--file"@[2] != "--no-rerank"@[2]);
    let size = args.len() as int;
    crate::text::decimals_have_base_ten(n, 0, usize::MAX as nat);
    lemma_plain_words(args, i, at, given);
    if args[at] == "-k"@ && at + 1 < size && args[at + 1] == decimal(n) {
        lemma_plain_words(args, at + 2, size, SearchOptions { k: n, ..given });
    }
    if args[at] == "--file"@ && at + 1 < size {
        lemma_plain_words(
            args,
            at + 2,
            size,
            SearchOptions { file: Some(args[at + 1]), ..given },
        );
    }
    if args[at] == "--no-rerank"@ && (at + 1 == size || plain_word(args[at + 1])) {
        let asked = SearchOptions { rerank: false, ..given };
        assert forall|j: int| at + 1 <= j < size implies plain_word(#[trigger] args[j]) by {}
        lemma_plain_words(args, at + 1, size, asked);
        assert(args[at] != "-k"@ && args[at] != "--file"@);
        assert(options_from(args, at, given) == options_from(args, at + 1, asked));
        assert(options_from(args, size, asked) == Some(asked));
    }
    if plain_word(args[at]) && (at + 1 == size || plain_word(args[at + 1])) {
        lemma_plain_words(args, at, size, given);
    }
}

/// The first component of the path is `--`. A directory whose name merely begins with two dashes is
/// a directory like any other.
pub open spec fn begins_with_dashes(path: Seq<char>) -> bool {
    path == "--"@ || starts_with(path, "--/"@)
}

/// What the arguments ask for, or what is wrong with them.
pub open spec fn asked_for(args: Seq<Seq<char>>) -> Result<CommandData, Seq<char>> {
    if args.len() == 0 {
        Ok(CommandData::Usage)
    } else if args[0] == "probe"@ {
        Ok(CommandData::Probe)
    } else if args[0] == "index"@ {
        if args.len() > 1 && !begins_with_dashes(args[1]) {
            Ok(CommandData::Index { source: args[1], vision: args.contains("--vision"@) })
        } else {
            Err("index needs a documents directory"@)
        }
    } else if args[0] == "search"@ {
        if args.len() > 1 && !(args[1].len() > 0 && args[1][0] == '-') {
            match options_from(
                args,
                2,
                SearchOptions { k: DEFAULT_K as nat, file: None, rerank: true },
            ) {
                Some(options) => Ok(
                    CommandData::Search {
                        query: args[1],
                        k: options.k,
                        file: options.file,
                        rerank: options.rerank,
                    },
                ),
                None => Err("-k expects a number"@),
            }
        } else {
            Err("search needs a query"@)
        }
    } else if args[0] == "list"@ {
        Ok(CommandData::List)
    } else if args[0] == "--help"@ || args[0] == "-h"@ || args[0] == "help"@ {
        Ok(CommandData::Usage)
    } else {
        Err("unknown command: "@ + args[0] + "\n\n"@ + USAGE@)
    }
}

fn holds(args: &[String], wanted: &str) -> (r: bool)
    ensures
        r == strings(args@).contains(wanted@),
{
    let mut i: usize = 0;
    while i < args.len()
        invariant
            i <= args@.len(),
            forall|j: int| 0 <= j < i ==> strings(args@)[j] != wanted@,
        decreases args.len() - i,
    {
        if same_text(args[i].as_str(), wanted) {
            assert(strings(args@)[i as int] == wanted@);
            return true;
        }
        i += 1;
    }
    false
}

fn dashes(path: &str) -> (r: bool)
    ensures
        r == begins_with_dashes(path@),
{
    let chars = chars_of(path);
    let prefix = chars_of("--/");
    same_text(path, "--") || begins(chars.as_slice(), prefix.as_slice())
}

fn search_command(args: &[String]) -> (r: Result<Command, String>)
    requires
        args@.len() > 1,
    ensures
        ({
            let all = strings(args@);
            let options = options_from(
                all,
                2,
                SearchOptions { k: DEFAULT_K as nat, file: None, rerank: true },
            );
            match r {
                Ok(command) => options matches Some(o) && command@ == (CommandData::Search {
                    query: all[1],
                    k: o.k,
                    file: o.file,
                    rerank: o.rerank,
                }),
                Err(reason) => options is None && reason@ == "-k expects a number"@,
            }
        }),
{
    let ghost all = strings(args@);
    let ghost start = SearchOptions { k: DEFAULT_K as nat, file: None, rerank: true };
    let mut k: usize = DEFAULT_K;
    let mut file: Option<String> = None;
    let mut rerank: bool = true;
    let mut i: usize = 2;
    while i < args.len()
        invariant
            2 <= i <= args@.len(),
            all == strings(args@),
            options_from(
                all,
                i as int,
                SearchOptions { k: k as nat, file: optional(file), rerank },
            ) == options_from(all, 2, start),
            start == (SearchOptions { k: DEFAULT_K as nat, file: None, rerank: true }),
        decreases args.len() - i,
    {
        let size: usize = args.len();
        assert(all[i as int] == args@[i as int]@);
        if same_text(args[i].as_str(), "-k") {
            if size - i == 1 {
                return Err(owned("-k expects a number"));
            }
            assert(all[i + 1] == args@[i + 1]@);
            let chars = chars_of(args[i + 1].as_str());
            match read_number(chars.as_slice(), usize::MAX as u64) {
                Some(n) => {
                    k = n as usize;
                },
                None => {
                    return Err(owned("-k expects a number"));
                },
            }
            i += 2;
        } else if same_text(args[i].as_str(), "--file") {
            if size - i == 1 {
                return Ok(Command::Search { query: args[1].clone(), k, file: None, rerank });
            }
            assert(all[i + 1] == args@[i + 1]@);
            file = Some(args[i + 1].clone());
            i += 2;
        } else if same_text(args[i].as_str(), "--no-rerank") {
            rerank = false;
            i += 1;
        } else {
            i += 1;
        }
    }
    Ok(Command::Search { query: args[1].clone(), k, file, rerank })
}

/// The commands are different words.
proof fn lemma_command_words()
    ensures
        "probe"@ != "index"@,
        "probe"@ != "search"@,
        "probe"@ != "list"@,
        "index"@ != "search"@,
        "index"@ != "list"@,
        "search"@ != "list"@,
{
    reveal_strlit("probe");
    reveal_strlit("index");
    reveal_strlit("search");
    reveal_strlit("list");
    assert("probe"@[0] == 'p' && "index"@[0] == 'i' && "search"@[0] == 's' && "list"@[0] == 'l');
}

/// Reads the arguments of the program, without its name.
pub fn parse(args: &[String]) -> (r: Result<Command, String>)
    ensures
        match r {
            Ok(command) => asked_for(strings(args@)) == Ok::<CommandData, Seq<char>>(command@),
            Err(reason) => asked_for(strings(args@)) == Err::<CommandData, Seq<char>>(reason@),
        },
        r matches Ok(Command::Index { source, vision }) ==> {
            &&& args@.len() > 1
            &&& args@[0]@ == "index"@
            &&& source@ == args@[1]@
            &&& vision <==> exists|i: int|
                0 <= i < args@.len() && (#[trigger] args@[i])@ == "--vision"@
        },
        r matches Ok(Command::Search { query, .. }) ==> args@.len() > 1 && args@[0]@ == "search"@
            && query@ == args@[1]@,
        r matches Ok(Command::Search { k, file, rerank, .. }) ==> (args@.len() == 2 ==> k == 6
            && file is None && rerank),
        r matches Ok(Command::Probe) ==> args@.len() > 0 && args@[0]@ == "probe"@,
        r matches Ok(Command::List) ==> args@.len() > 0 && args@[0]@ == "list"@,
        r matches Ok(Command::Usage) ==> args@.len() == 0 || args@[0]@ == "--help"@ || args@[0]@
            == "-h"@ || args@[0]@ == "help"@,
        args@.len() > 0 && args@[0]@ == "probe"@ ==> r matches Ok(Command::Probe),
        args@.len() > 0 && args@[0]@ == "list"@ ==> r matches Ok(Command::List),
        args@.len() > 1 && args@[0]@ == "index"@ && args@[1]@ != "--"@ && (args@[1]@.len() < 3
            || args@[1]@.take(3) != "--/"@) ==> r is Ok,
        args@.len() > 0 && args@[0]@ == "index"@ && (args@.len() == 1 || args@[1]@ == "--"@)
            ==> (r matches Err(reason) && reason@ == "index needs a documents directory"@),
        args@.len() > 0 && args@[0]@ == "search"@ && (args@.len() == 1 || (args@[1]@.len() > 0
            && args@[1]@[0] == '-')) ==> (r matches Err(reason) && reason@
            == "search needs a query"@),
        args@.len() == 2 && args@[0]@ == "search"@ && (args@[1]@.len() == 0 || args@[1]@[0] != '-')
            ==> r is Ok,
{
    let ghost all = strings(args@);
    proof {
        lemma_command_words();
    }
    if args.len() == 0 {
        return Ok(Command::Usage);
    }
    assert(all[0] == args@[0]@);
    let command = args[0].as_str();
    if same_text(command, "probe") {
        return Ok(Command::Probe);
    }
    if same_text(command, "index") {
        if args.len() > 1 {
            assert(all[1] == args@[1]@);
            proof {
                if starts_with(args@[1]@, "--/"@) {
                    reveal_strlit("--/");
                    assert(args@[1]@.take(3) =~= args@[1]@.subrange(0, 3));
                }
            }
            if !dashes(args[1].as_str()) {
                proof {
                    if all.contains("--vision"@) {
                        let i = choose|i: int| 0 <= i < all.len() && all[i] == "--vision"@;
                        assert(args@[i]@ == "--vision"@);
                    }
                    if exists|i: int| 0 <= i < args@.len() && (#[trigger] args@[i])@ == "--vision"@ {
                        let i = choose|i: int|
                            0 <= i < args@.len() && (#[trigger] args@[i])@ == "--vision"@;
                        assert(all[i] == "--vision"@);
                    }
                }
                return Ok(
                    Command::Index { source: args[1].clone(), vision: holds(args, "--vision") },
                );
            }
        }
        return Err(owned("index needs a documents directory"));
    }
    if same_text(command, "search") {
        if args.len() > 1 {
            assert(all[1] == args@[1]@);
            let query = chars_of(args[1].as_str());
            if query.len() == 0 || query[0] != '-' {
                return search_command(args);
            }
        }
        return Err(owned("search needs a query"));
    }
    if same_text(command, "list") {
        return Ok(Command::List);
    }
    if same_text(command, "--help") || same_text(command, "-h") || same_text(command, "help") {
        return Ok(Command::Usage);
    }
    let mut reason = owned("unknown command: ");
    reason.push_str(command);
    reason.push_str("\n\n");
    reason.push_str(USAGE);
    Err(reason)
}

/// How far an ingest is, in a line of the command line; nothing where it is over.
pub open spec fn told_progress(
    stage: Stage,
    done: nat,
    total: nat,
    current: Seq<char>,
) -> Option<Seq<char>> {
    match stage {
        Stage::Extracting => Some(
            "extracting "@ + decimal(done) + seq!['/'] + decimal(total) + " — "@ + current,
        ),
        Stage::Captioning => Some(
            "captioning "@ + decimal(done) + seq!['/'] + decimal(total) + " figures — "@ + current,
        ),
        Stage::Embedding => Some(
            "embedded "@ + decimal(done) + seq!['/'] + decimal(total) + " chunks"@,
        ),
        Stage::Saving => Some("saving index"@),
        Stage::Done => None,
    }
}

/// The line that tells on the command line how far an ingest is.
pub fn progress_line(progress: &IngestProgress) -> (r: Option<String>)
    ensures
        optional(r) == told_progress(
            progress.stage,
            progress.done as nat,
            progress.total as nat,
            progress.current@,
        ),
        r is None <==> progress.stage is Done,
        progress.stage is Extracting ==> optional(r) == Some(
            "extracting "@ + decimal(progress.done as nat) + seq!['/'] + decimal(
                progress.total as nat,
            ) + " — "@ + progress.current@,
        ),
        progress.stage is Captioning ==> optional(r) == Some(
            "captioning "@ + decimal(progress.done as nat) + seq!['/'] + decimal(
                progress.total as nat,
            ) + " figures — "@ + progress.current@,
        ),
        progress.stage is Embedding ==> optional(r) == Some(
            "embedded "@ + decimal(progress.done as nat) + seq!['/'] + decimal(
                progress.total as nat,
            ) + " chunks"@,
        ),
        progress.stage is Saving ==> optional(r) == Some("saving index"@),
{
    match progress.stage {
        Stage::Extracting => {
            let mut out = counted("extracting ", progress.done, progress.total, " — ");
            out.push_str(progress.current.as_str());
            Some(out)
        },
        Stage::Captioning => {
            let mut out = counted("captioning ", progress.done, progress.total, " figures — ");
            out.push_str(progress.current.as_str());
            Some(out)
        },
        Stage::Embedding => Some(counted("embedded ", progress.done, progress.total, " chunks")),
        Stage::Saving => Some(owned("saving index")),
        Stage::Done => None,
    }
}

/// The lines that name the files.
pub open spec fn file_lines(names: Seq<Seq<char>>, end: int) -> Seq<char>
    decreases end,
{
    if end <= 0 {
        Seq::empty()
    } else {
        file_lines(names, end - 1) + "  + "@ + names[end - 1] + seq!['\n']
    }
}

/// Every file has a line of its own, in the order of the files.
pub proof fn files_are_listed_in_order(a: Seq<Seq<char>>, b: Seq<Seq<char>>, name: Seq<char>)
    ensures
        ({
            let all = a + b;
            &&& file_lines(all, all.len() as int) == file_lines(a, a.len() as int) + file_lines(
                b,
                b.len() as int,
            )
            &&& file_lines(seq![name], 1) == "  + "@ + name + "\n"@
        }),
{
    lemma_file_lines(a, b, b.len() as int);
    reveal_strlit("\n");
    let one = seq![name];
    assert(file_lines(one, 0) =~= Seq::<char>::empty());
    assert(file_lines(one, 1) =~= "  + "@ + name + "\n"@);
}

proof fn lemma_file_lines(a: Seq<Seq<char>>, b: Seq<Seq<char>>, n: int)
    requires
        0 <= n <= b.len(),
    ensures
        file_lines(a + b, a.len() + n) == file_lines(a, a.len() as int) + file_lines(b, n),
    decreases n,
{
    if n > 0 {
        lemma_file_lines(a, b, n - 1);
        assert((a + b)[a.len() + n - 1] == b[n - 1]);
        assert(file_lines(a + b, a.len() + n) =~= file_lines(a, a.len() as int) + file_lines(b, n));
    } else {
        lemma_file_lines_front(a, b, a.len() as int);
        assert(file_lines(a, a.len() as int) + file_lines(b, 0) =~= file_lines(a, a.len() as int));
    }
}

proof fn lemma_file_lines_front(a: Seq<Seq<char>>, b: Seq<Seq<char>>, n: int)
    requires
        0 <= n <= a.len(),
    ensures
        file_lines(a + b, n) == file_lines(a, n),
    decreases n,
{
    if n > 0 {
        lemma_file_lines_front(a, b, n - 1);
        assert((a + b)[n - 1] == a[n - 1]);
    }
}

/// A report tells how many files were indexed and how many were unchanged, how many chunks are new,
/// with captions how many figures were found, captioned and failed, and what the index holds now.
pub proof fn reports_tell_every_count(report: IngestReport)
    ensures
        ({
            let first = "\n"@ + decimal(report.indexed_files@.len()) + " file(s) indexed, "@ + decimal(
                report.skipped_files@.len(),
            ) + " unchanged, "@ + decimal(report.new_chunks as nat) + " new chunks\n"@;
            let figures = decimal(report.figures_found as nat) + " figure page(s): "@ + decimal(
                report.captions_made as nat,
            ) + " captioned, "@ + decimal(report.caption_failures as nat) + " failed\n"@;
            let last = "index now holds "@ + decimal(report.total_chunks as nat)
                + " chunks across "@ + decimal(report.total_documents as nat) + " documents"@;
            let files = file_lines(
                strings(report.indexed_files@),
                report.indexed_files@.len() as int,
            );
            &&& report_text(report, false) == first + (files + last)
            &&& report_text(report, true) == first + figures + (files + last)
        }),
{
    let first = "\n"@ + decimal(report.indexed_files@.len()) + " file(s) indexed, "@ + decimal(
        report.skipped_files@.len(),
    ) + " unchanged, "@ + decimal(report.new_chunks as nat) + " new chunks\n"@;
    let figures = decimal(report.figures_found as nat) + " figure page(s): "@ + decimal(
        report.captions_made as nat,
    ) + " captioned, "@ + decimal(report.caption_failures as nat) + " failed\n"@;
    let last = "index now holds "@ + decimal(report.total_chunks as nat) + " chunks across "@
        + decimal(report.total_documents as nat) + " documents"@;
    let files = file_lines(strings(report.indexed_files@), report.indexed_files@.len() as int);
    assert(report_text(report, false) =~= first + (files + last));
    assert(report_text(report, true) =~= first + figures + (files + last));
}

/// What an ingest did, in lines.
pub open spec fn report_text(report: IngestReport, with_vision: bool) -> Seq<char> {
    let files = strings(report.indexed_files@);
    let figures = if with_vision {
        decimal(report.figures_found as nat) + " figure page(s): "@ + decimal(
            report.captions_made as nat,
        ) + " captioned, "@ + decimal(report.caption_failures as nat) + " failed\n"@
    } else {
        Seq::empty()
    };
    "\n"@ + decimal(files.len()) + " file(s) indexed, "@ + decimal(
        report.skipped_files@.len(),
    ) + " unchanged, "@ + decimal(report.new_chunks as nat) + " new chunks\n"@ + figures
        + file_lines(files, files.len() as int) + "index now holds "@ + decimal(
        report.total_chunks as nat,
    ) + " chunks across "@ + decimal(report.total_documents as nat) + " documents"@
}

/// What an ingest did, as it is told to the user.
pub fn report_lines(report: &IngestReport, with_vision: bool) -> (r: String)
    ensures
        r@ == report_text(*report, with_vision),
{
    let ghost files = strings(report.indexed_files@);
    let mut out = owned("\n");
    push_decimal(&mut out, report.indexed_files.len() as u128);
    out.push_str(" file(s) indexed, ");
    push_decimal(&mut out, report.skipped_files.len() as u128);
    out.push_str(" unchanged, ");
    push_decimal(&mut out, report.new_chunks as u128);
    out.push_str(" new chunks\n");
    let ghost first = out@;
    let ghost figures: Seq<char> = if with_vision {
        decimal(report.figures_found as nat) + " figure page(s): "@ + decimal(
            report.captions_made as nat,
        ) + " captioned, "@ + decimal(report.caption_failures as nat) + " failed\n"@
    } else {
        Seq::empty()
    };
    if with_vision {
        push_decimal(&mut out, report.figures_found as u128);
        out.push_str(" figure page(s): ");
        push_decimal(&mut out, report.captions_made as u128);
        out.push_str(" captioned, ");
        push_decimal(&mut out, report.caption_failures as u128);
        out.push_str(" failed\n");
    }
    assert(out@ =~= first + figures);
    let ghost head = out@;
    let mut i: usize = 0;
    assert(head + file_lines(files, 0) =~= head);
    while i < report.indexed_files.len()
        invariant
            i <= report.indexed_files@.len(),
            files == strings(report.indexed_files@),
            out@ == head + file_lines(files, i as int),
        decreases report.indexed_files.len() - i,
    {
        out.push_str("  + ");
        out.push_str(report.indexed_files[i].as_str());
        out.push('\n');
        assert(out@ =~= head + file_lines(files, i + 1));
        i += 1;
    }
    out.push_str("index now holds ");
    push_decimal(&mut out, report.total_chunks as u128);
    out.push_str(" chunks across ");
    push_decimal(&mut out, report.total_documents as u128);
    out.push_str(" documents");
    out
}

} // verus!
