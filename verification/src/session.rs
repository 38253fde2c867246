//! Saved conversations.

use vstd::prelude::*;
use vstd::slice::slice_subrange;

use crate::chat::{answer_turn, question_turn, turn_data, ChatTurn, TurnData};
use crate::config::DEFAULT_K;
use crate::text::{
    chars_of, drop_leading, drop_trailing, find_back, last_position, lemma_find_back, optional,
    occurs_at, owned, same_text, spaces, string_of, trim, trim_end, trim_end_slice, trim_slice,
};
use crate::text_map::{
    lemma_before_irreflexive, lemma_before_total, lemma_before_transitive, side, text_before, Side,
};

verus! {

// ---------------------------------------------------------------------------------------------
// Titles

/// A character of a title: line ends are spaces there.
pub open spec fn flat_char(c: char) -> char {
    if c == '\n' || c == '\r' {
        ' '
    } else {
        c
    }
}

/// A question on one line, without white space around it.
pub open spec fn flat(question: Seq<char>) -> Seq<char> {
    trim(Seq::new(question.len(), |i: int| flat_char(question[i])))
}

/// The title of a chat: its first question on one line, cut at a word boundary where it is long.
pub open spec fn title_text(question: Seq<char>) -> Seq<char> {
    let line = flat(question);
    if line.len() <= 48 {
        line
    } else {
        let cut = line.take(48);
        match find_back(cut, seq![' '], 48) {
            Some(space) => if vstd::utf8::encode_utf8(cut.take(space)).len() > 16 {
                cut.take(space).push('…')
            } else {
                trim_end(cut).push('…')
            },
            None => trim_end(cut).push('…'),
        }
    }
}

fn cut_title(cut: &[char]) -> (r: String)
    requires
        cut@.len() == 48,
    ensures
        r@ == (match find_back(cut@, seq![' '], 48) {
            Some(space) => if vstd::utf8::encode_utf8(cut@.take(space)).len() > 16 {
                cut@.take(space).push('…')
            } else {
                trim_end(cut@).push('…')
            },
            None => trim_end(cut@).push('…'),
        }),
{
    let blank: [char; 1] = [' '];
    assert(blank@ =~= seq![' ']);
    if let Some(space) = last_position(cut, blank.as_slice()) {
        let head = slice_subrange(cut, 0, space);
        assert(head@ =~= cut@.take(space as int));
        let mut title = string_of(head);
        if title.as_str().as_bytes().len() > 16 {
            title.push('…');
            return title;
        }
    }
    let mut title = string_of(trim_end_slice(cut));
    title.push('…');
    title
}

proof fn lemma_drop_leading_part(s: Seq<char>)
    ensures
        exists|a: int| 0 <= a <= s.len() && #[trigger] s.skip(a) == drop_leading(s, spaces()),
    decreases s.len(),
{
    if s.len() > 0 && spaces()(s[0]) {
        lemma_drop_leading_part(s.skip(1));
        let a = choose|a: int|
            0 <= a <= s.skip(1).len() && #[trigger] s.skip(1).skip(a) == drop_leading(
                s.skip(1),
                spaces(),
            );
        assert(s.skip(1).skip(a) =~= s.skip(a + 1));
    } else {
        assert(s.skip(0) =~= s);
    }
}

proof fn lemma_drop_trailing_part(s: Seq<char>)
    ensures
        exists|b: int| 0 <= b <= s.len() && #[trigger] s.take(b) == drop_trailing(s, spaces()),
    decreases s.len(),
{
    if s.len() > 0 && spaces()(s.last()) {
        lemma_drop_trailing_part(s.drop_last());
        let b = choose|b: int|
            0 <= b <= s.drop_last().len() && #[trigger] s.drop_last().take(b) == drop_trailing(
                s.drop_last(),
                spaces(),
            );
        assert(s.drop_last().take(b) =~= s.take(b));
    } else {
        assert(s.take(s.len() as int) =~= s);
    }
}

/// A text without line ends.
pub open spec fn one_line(s: Seq<char>) -> bool {
    forall|i: int| 0 <= i < s.len() ==> (#[trigger] s[i]) != '\n' && s[i] != '\r'
}

/// A title is a single line of at most 49 characters.
pub proof fn titles_are_short_lines(question: Seq<char>)
    ensures
        title_text(question).len() <= 49,
        one_line(title_text(question)),
{
    let raw = Seq::new(question.len(), |i: int| flat_char(question[i]));
    assert(one_line(raw));
    lemma_drop_leading_part(raw);
    let left = drop_leading(raw, spaces());
    let a = choose|a: int| 0 <= a <= raw.len() && #[trigger] raw.skip(a) == left;
    assert(one_line(left)) by {
        assert forall|i: int| 0 <= i < left.len() implies (#[trigger] left[i]) != '\n' && left[i]
            != '\r' by {
            assert(left[i] == raw[i + a]);
        }
    }
    lemma_drop_trailing_part(left);
    let line = flat(question);
    let b = choose|b: int| 0 <= b <= left.len() && #[trigger] left.take(b) == line;
    assert(one_line(line)) by {
        assert forall|i: int| 0 <= i < line.len() implies (#[trigger] line[i]) != '\n' && line[i]
            != '\r' by {
            assert(line[i] == left[i]);
        }
    }
    if line.len() > 48 {
        let cut = line.take(48);
        lemma_find_back(cut, seq![' '], 48);
        lemma_drop_trailing_part(cut);
        let c = choose|c: int| 0 <= c <= cut.len() && #[trigger] cut.take(c) == trim_end(cut);
        let title = title_text(question);
        assert forall|i: int| 0 <= i < title.len() implies (#[trigger] title[i]) != '\n' && title[i]
            != '\r' by {
            if i < title.len() - 1 {
                assert(title[i] == line[i]);
            }
        }
    }
}

/// A question without line ends is only trimmed, and a line end counts as a space.
pub proof fn line_ends_are_spaces(question: Seq<char>, front: Seq<char>, behind: Seq<char>)
    ensures
        one_line(question) ==> flat(question) == trim(question),
        flat(front + seq!['\n'] + behind) == flat(front + seq![' '] + behind),
        flat(front + seq!['\r'] + behind) == flat(front + seq![' '] + behind),
{
    let raw = Seq::new(question.len(), |i: int| flat_char(question[i]));
    if one_line(question) {
        assert(raw =~= question);
    }
    let a = front + seq!['\n'] + behind;
    let b = front + seq!['\r'] + behind;
    let c = front + seq![' '] + behind;
    assert(Seq::new(a.len(), |i: int| flat_char(a[i])) =~= Seq::new(
        c.len(),
        |i: int| flat_char(c[i]),
    ));
    assert(Seq::new(b.len(), |i: int| flat_char(b[i])) =~= Seq::new(
        c.len(),
        |i: int| flat_char(c[i]),
    ));
}

/// The title of a short question is the question. That of a long one is its beginning with an
/// ellipsis behind it: up to the last space among its first 48 characters where more than 16 bytes
/// stand before that, else all 48 without white space at their end.
pub proof fn titles_begin_the_question(question: Seq<char>, space: int)
    ensures
        ({
            let line = flat(question);
            let title = title_text(question);
            &&& line.len() <= 48 ==> title == line
            &&& line.len() > 48 ==> {
                &&& title.len() > 0
                &&& title.last() == '…'
                &&& title.drop_last() == line.take(title.len() - 1)
            }
            &&& line.len() > 48 && 0 <= space < 48 && line[space] == ' ' && (forall|j: int|
                space < j < 48 ==> (#[trigger] line[j]) != ' ') ==> title == (if vstd::utf8::encode_utf8(
                line.take(space),
            ).len() > 16 {
                line.take(space).push('…')
            } else {
                trim_end(line.take(48)).push('…')
            })
            &&& line.len() > 48 && (forall|j: int| 0 <= j < 48 ==> (#[trigger] line[j]) != ' ')
                ==> title == trim_end(line.take(48)).push('…')
        }),
{
    let line = flat(question);
    let title = title_text(question);
    if line.len() > 48 {
        let cut = line.take(48);
        let blank = seq![' '];
        lemma_find_back(cut, blank, 48);
        lemma_drop_trailing_part(cut);
        let c = choose|c: int| 0 <= c <= cut.len() && #[trigger] cut.take(c) == trim_end(cut);
        assert(title.drop_last() =~= line.take(title.len() - 1));
        assert forall|j: int| 0 <= j < 48 implies occurs_at(cut, blank, j) == (#[trigger] line[j]
            == ' ') by {
            assert(cut.subrange(j, j + 1)[0] == line[j]);
            if line[j] == ' ' {
                assert(cut.subrange(j, j + 1) =~= blank);
            }
        }
        if 0 <= space < 48 && line[space] == ' ' && (forall|j: int|
            space < j < 48 ==> (#[trigger] line[j]) != ' ') {
            assert(occurs_at(cut, blank, space));
            let k = find_back(cut, blank, 48)->0;
            assert(find_back(cut, blank, 48) is Some);
            assert(k == space) by {
                assert(occurs_at(cut, blank, k));
                assert(line[k] == ' ');
            }
            assert(cut.take(space) =~= line.take(space));
        }
        if forall|j: int| 0 <= j < 48 ==> (#[trigger] line[j]) != ' ' {
            if let Some(k) = find_back(cut, blank, 48) {
                assert(occurs_at(cut, blank, k));
                assert(line[k] == ' ');
            }
        }
    }
}

// ---------------------------------------------------------------------------------------------
// Sessions

/// A saved conversation. Each is a file of its own, so that a corrupt one cannot take the others
/// with it.
#[derive(Debug)]
pub struct ChatSession {
    pub id: String,
    /// Shown in the picker; made from the first question.
    pub title: String,
    pub created_at: String,
    pub updated_at: String,
    /// The model that answers, remembered so that switching engines does not rewrite old chats.
    pub model: String,
    /// The document that the chat is limited to.
    pub filename: Option<String>,
    pub passages: usize,
    pub turns: Vec<ChatTurn>,
    /// The citations of each answer, so that they survive without the passages themselves.
    pub sources: Vec<serde_json::Value>,
    pub state: String,
}

/// The question that was asked last.
pub open spec fn last_asked(turns: Seq<TurnData>) -> Option<Seq<char>>
    decreases turns.len(),
{
    if turns.len() == 0 {
        None
    } else if turns.last().role == "user"@ {
        Some(turns.last().content)
    } else {
        last_asked(turns.drop_last())
    }
}

/// `chrono::Utc::now`, written by `DateTime::to_rfc3339_opts` in seconds and with `Z` for the zone:
/// the time of the call. Nothing more is said of it, as it depends on the clock.
#[verifier::external_body]
fn now_iso() -> (r: String)
    ensures
        r@.len() >= 20,
        r@.last() == 'Z',
{
    chrono::Utc::now().to_rfc3339_opts(chrono::SecondsFormat::Secs, true)
}

impl ChatSession {
    /// The session is a new one, begun at the given time.
    pub open spec fn begun(&self, id: Seq<char>, model: Seq<char>, now: Seq<char>) -> bool {
        &&& self.id@ == id
        &&& self.title@ == "New chat"@
        &&& self.created_at@ == now
        &&& self.updated_at@ == now
        &&& self.model@ == model
        &&& self.filename is None
        &&& self.passages == DEFAULT_K
        &&& self.turns@.len() == 0
        &&& self.sources@.len() == 0
        &&& self.state@ == "active"@
    }

    /// Everything but the transcript and its citations is as in the other session.
    pub open spec fn same_record(&self, other: ChatSession) -> bool {
        &&& self.id == other.id
        &&& self.created_at == other.created_at
        &&& self.updated_at == other.updated_at
        &&& self.model == other.model
        &&& self.filename == other.filename
        &&& self.passages == other.passages
        &&& self.state == other.state
    }

    /// The session is the other one with one more answer and its citations.
    pub open spec fn got_an_answer(
        &self,
        before: ChatSession,
        answer: Seq<char>,
        sources: serde_json::Value,
    ) -> bool {
        &&& self.same_record(before)
        &&& self.title == before.title
        &&& turn_data(self.turns@) == turn_data(before.turns@).push(answer_turn(answer))
        &&& self.sources@ == before.sources@.push(sources)
    }

    /// The session is the other one without the answer that it ended in, where it ended in one.
    pub open spec fn lost_its_answer(&self, before: ChatSession) -> bool {
        &&& self.same_record(before)
        &&& self.title == before.title
        &&& if before.turns@.len() > 0 && before.turns@.last().role@ == "assistant"@ {
            &&& self.turns@ == before.turns@.drop_last()
            &&& self.sources@ == (if before.sources@.len() > 0 {
                before.sources@.drop_last()
            } else {
                before.sources@
            })
        } else {
            &&& self.turns@ == before.turns@
            &&& self.sources@ == before.sources@
        }
    }

    /// A new session, begun at the given time.
    pub fn begin(id: String, model: &str, now: String) -> (r: Self)
        ensures
            r.begun(id@, model@, now@),
            r.id@ == id@,
            r.title@ == "New chat"@,
            r.created_at@ == now@,
            r.updated_at@ == now@,
            r.model@ == model@,
            r.filename is None,
            r.passages == 6,
            r.turns@.len() == 0,
            r.sources@.len() == 0,
            r.state@ == "active"@,
    {
        ChatSession {
            id,
            title: owned("New chat"),
            created_at: now.clone(),
            updated_at: now,
            model: owned(model),
            filename: None,
            passages: DEFAULT_K,
            turns: Vec::new(),
            sources: Vec::new(),
            state: owned("active"),
        }
    }

    /// A new session, begun now.
    pub fn new(id: String, model: &str) -> (r: Self)
        ensures
            r.begun(id@, model@, r.created_at@),
            r.id@ == id@,
            r.title@ == "New chat"@,
            r.updated_at@ == r.created_at@,
            r.model@ == model@,
            r.filename is None,
            r.passages == 6,
            r.turns@.len() == 0,
            r.sources@.len() == 0,
            r.state@ == "active"@,
            r.created_at@.len() >= 20,
            r.created_at@.last() == 'Z',
    {
        Self::begin(id, model, now_iso())
    }

    /// The title that a first question gives a chat.
    pub fn title_from(question: &str) -> (r: String)
        ensures
            r@ == title_text(question@),
    {
        let chars = chars_of(question);
        let ghost raw = Seq::new(question@.len(), |i: int| flat_char(question@[i]));
        let mut line: Vec<char> = Vec::new();
        let mut i: usize = 0;
        while i < chars.len()
            invariant
                i <= chars.len(),
                chars@ == question@,
                raw == Seq::new(question@.len(), |i: int| flat_char(question@[i])),
                line@ == raw.take(i as int),
            decreases chars.len() - i,
        {
            let c = chars[i];
            line.push(if c == '\n' || c == '\r' {
                ' '
            } else {
                c
            });
            assert(line@ =~= raw.take(i + 1));
            i += 1;
        }
        assert(line@ =~= raw);
        let text = trim_slice(line.as_slice());
        if text.len() <= 48 {
            return string_of(text);
        }
        let cut = slice_subrange(text, 0, 48);
        assert(cut@ =~= text@.take(48));
        cut_title(cut)
    }

    /// The last question of the transcript, to answer it again.
    pub fn last_question(&self) -> (r: Option<&str>)
        ensures
            match r {
                Some(question) => last_asked(turn_data(self.turns@)) == Some(question@),
                None => last_asked(turn_data(self.turns@)) is None,
            },
            match r {
                Some(question) => exists|i: int|
                    0 <= i < self.turns@.len() && (#[trigger] self.turns@[i]).role@ == "user"@
                        && self.turns@[i].content@ == question@ && forall|j: int|
                        i < j < self.turns@.len() ==> (#[trigger] self.turns@[j]).role@
                            != "user"@,
                None => forall|i: int|
                    0 <= i < self.turns@.len() ==> (#[trigger] self.turns@[i]).role@ != "user"@,
            },
    {
        let ghost all = turn_data(self.turns@);
        let mut n: usize = self.turns.len();
        assert(all.take(n as int) =~= all);
        while n > 0
            invariant
                n <= self.turns@.len(),
                all == turn_data(self.turns@),
                last_asked(all.take(n as int)) == last_asked(all),
                forall|j: int|
                    n <= j < self.turns@.len() ==> (#[trigger] self.turns@[j]).role@ != "user"@,
            decreases n,
        {
            assert(all.take(n as int).last() == self.turns@[n - 1]@);
            assert(all.take(n as int).drop_last() =~= all.take(n - 1));
            if same_text(self.turns[n - 1].role.as_str(), "user") {
                return Some(self.turns[n - 1].content.as_str());
            }
            n -= 1;
        }
        None
    }

    /// Drops the answer that the transcript ends in, and its citations, to answer again.
    pub fn pop_assistant_turn(&mut self)
        ensures
            final(self).lost_its_answer(*old(self)),
            final(self).id == old(self).id,
            final(self).title == old(self).title,
            final(self).created_at == old(self).created_at,
            final(self).updated_at == old(self).updated_at,
            final(self).model == old(self).model,
            final(self).filename == old(self).filename,
            final(self).passages == old(self).passages,
            final(self).state == old(self).state,
            old(self).turns@.len() > 0 && old(self).turns@.last().role@ == "assistant"@ ==> {
                &&& final(self).turns@ == old(self).turns@.drop_last()
                &&& old(self).sources@.len() > 0 ==> final(self).sources@
                    == old(self).sources@.drop_last()
                &&& old(self).sources@.len() == 0 ==> final(self).sources@.len() == 0
            },
            old(self).turns@.len() == 0 || old(self).turns@.last().role@ != "assistant"@ ==> {
                &&& final(self).turns@ == old(self).turns@
                &&& final(self).sources@ == old(self).sources@
            },
    {
        let n: usize = self.turns.len();
        if n > 0 && same_text(self.turns[n - 1].role.as_str(), "assistant") {
            self.turns.pop();
            self.sources.pop();
        }
    }

    /// Adds the user's question; the first one makes the title.
    pub fn push_question(&mut self, question: &str)
        ensures
            final(self).same_record(*old(self)),
            final(self).sources == old(self).sources,
            turn_data(final(self).turns@) == turn_data(old(self).turns@).push(
                question_turn(question@),
            ),
            final(self).title@ == (if old(self).turns@.len() == 0 {
                title_text(question@)
            } else {
                old(self).title@
            }),
            final(self).id == old(self).id,
            final(self).created_at == old(self).created_at,
            final(self).updated_at == old(self).updated_at,
            final(self).model == old(self).model,
            final(self).filename == old(self).filename,
            final(self).passages == old(self).passages,
            final(self).state == old(self).state,
            final(self).turns@.len() == old(self).turns@.len() + 1,
            forall|i: int|
                0 <= i < old(self).turns@.len() ==> (#[trigger] final(self).turns@[i])
                    == old(self).turns@[i],
            final(self).turns@.last().role@ == "user"@,
            final(self).turns@.last().content@ == question@,
    {
        if self.turns.len() == 0 {
            self.title = Self::title_from(question);
        }
        let turn = ChatTurn { role: owned("user"), content: owned(question) };
        let ghost before = turn_data(self.turns@);
        self.turns.push(turn);
        assert(turn_data(self.turns@) =~= before.push(turn@));
    }

    /// Adds an answer with its citations.
    pub fn push_answer(&mut self, answer: &str, sources: serde_json::Value)
        ensures
            final(self).got_an_answer(*old(self), answer@, sources),
            final(self).title == old(self).title,
            final(self).id == old(self).id,
            final(self).created_at == old(self).created_at,
            final(self).updated_at == old(self).updated_at,
            final(self).model == old(self).model,
            final(self).filename == old(self).filename,
            final(self).passages == old(self).passages,
            final(self).state == old(self).state,
            final(self).turns@.len() == old(self).turns@.len() + 1,
            forall|i: int|
                0 <= i < old(self).turns@.len() ==> (#[trigger] final(self).turns@[i])
                    == old(self).turns@[i],
            final(self).turns@.last().role@ == "assistant"@,
            final(self).turns@.last().content@ == answer@,
            final(self).sources@ == old(self).sources@.push(sources),
    {
        let turn = ChatTurn { role: owned("assistant"), content: owned(answer) };
        let ghost before = turn_data(self.turns@);
        self.turns.push(turn);
        assert(turn_data(self.turns@) =~= before.push(turn@));
        self.sources.push(sources);
    }

    /// The name of the file that a session is kept in.
    pub fn file_name(id: &str) -> (r: String)
        ensures
            r@ == id@ + ".json"@,
    {
        let mut out = owned(id);
        out.push_str(".json");
        out
    }
}

/// Dropping an answer undoes adding it.
pub proof fn dropping_undoes_answering(
    before: ChatSession,
    answered: ChatSession,
    after: ChatSession,
    answer: Seq<char>,
    sources: serde_json::Value,
)
    requires
        answered.got_an_answer(before, answer, sources),
        after.lost_its_answer(answered),
    ensures
        after.same_record(before),
        after.title == before.title,
        turn_data(after.turns@) == turn_data(before.turns@),
        after.sources@ == before.sources@,
{
    let a = turn_data(answered.turns@);
    let b = turn_data(before.turns@);
    assert(a.last() == answer_turn(answer));
    assert(answered.turns@.last()@ == a.last());
    assert(turn_data(after.turns@) =~= a.drop_last());
    assert(a.drop_last() =~= b);
    assert(after.sources@ =~= before.sources@);
}

/// What the picker shows of a session.
#[derive(Debug)]
pub struct ChatMeta {
    pub id: String,
    pub title: String,
    pub created_at: String,
    pub updated_at: String,
    pub model: String,
    pub filename: Option<String>,
    pub turns: usize,
}

#[verifier::ext_equal]
pub struct MetaData {
    pub id: Seq<char>,
    pub title: Seq<char>,
    pub created_at: Seq<char>,
    pub updated_at: Seq<char>,
    pub model: Seq<char>,
    pub filename: Option<Seq<char>>,
    pub turns: usize,
}

impl View for ChatMeta {
    type V = MetaData;

    open spec fn view(&self) -> MetaData {
        MetaData {
            id: self.id@,
            title: self.title@,
            created_at: self.created_at@,
            updated_at: self.updated_at@,
            model: self.model@,
            filename: optional(self.filename),
            turns: self.turns,
        }
    }
}

/// Two entries with the same contents agree in every field.
pub proof fn contents_tell_entries_apart(a: ChatMeta, b: ChatMeta)
    requires
        a@ == b@,
    ensures
        a.id@ == b.id@,
        a.title@ == b.title@,
        a.created_at@ == b.created_at@,
        a.updated_at@ == b.updated_at@,
        a.model@ == b.model@,
        optional(a.filename) == optional(b.filename),
        a.turns == b.turns,
{
}

/// The contents of picker entries.
pub open spec fn meta_data(metas: Seq<ChatMeta>) -> Seq<MetaData> {
    Seq::new(metas.len(), |i: int| metas[i]@)
}

/// What the picker shows of a session.
pub open spec fn meta_of(session: ChatSession) -> MetaData {
    MetaData {
        id: session.id@,
        title: session.title@,
        created_at: session.created_at@,
        updated_at: session.updated_at@,
        model: session.model@,
        filename: optional(session.filename),
        turns: session.turns@.len() as usize,
    }
}

/// Where an entry with the time `at` goes in a list that runs from the newest to the oldest: behind
/// everything that is as new.
pub open spec fn time_slot(list: Seq<MetaData>, at: Seq<char>) -> int
    decreases list.len(),
{
    if list.len() == 0 || !text_before(list.last().updated_at, at) {
        list.len() as int
    } else {
        time_slot(list.drop_last(), at)
    }
}

/// The active sessions among the first `end`, from the newest to the oldest.
pub open spec fn newest_first(sessions: Seq<ChatSession>, end: int) -> Seq<MetaData>
    decreases end,
{
    if end <= 0 {
        Seq::empty()
    } else {
        let front = newest_first(sessions, end - 1);
        let meta = meta_of(sessions[end - 1]);
        if sessions[end - 1].state@ == "active"@ {
            front.insert(time_slot(front, meta.updated_at), meta)
        } else {
            front
        }
    }
}

proof fn lemma_time_slot_bounds(list: Seq<MetaData>, at: Seq<char>)
    ensures
        0 <= time_slot(list, at) <= list.len(),
    decreases list.len(),
{
    if list.len() > 0 {
        lemma_time_slot_bounds(list.drop_last(), at);
    }
}

/// No entry of the list is older than one behind it.
pub open spec fn runs_to_the_oldest(list: Seq<MetaData>) -> bool {
    forall|i: int, j: int|
        0 <= i < j < list.len() ==> !text_before(
            (#[trigger] list[i]).updated_at,
            (#[trigger] list[j]).updated_at,
        )
}

proof fn lemma_time_slot(list: Seq<MetaData>, at: Seq<char>)
    requires
        runs_to_the_oldest(list),
    ensures
        0 <= time_slot(list, at) <= list.len(),
        forall|i: int|
            0 <= i < time_slot(list, at) ==> !text_before((#[trigger] list[i]).updated_at, at),
        forall|i: int|
            time_slot(list, at) <= i < list.len() ==> text_before(
                (#[trigger] list[i]).updated_at,
                at,
            ),
    decreases list.len(),
{
    if list.len() > 0 {
        let last = list.last();
        if text_before(last.updated_at, at) {
            let front = list.drop_last();
            assert forall|i: int, j: int| 0 <= i < j < front.len() implies !text_before(
                (#[trigger] front[i]).updated_at,
                (#[trigger] front[j]).updated_at,
            ) by {
                assert(front[i] == list[i] && front[j] == list[j]);
            }
            lemma_time_slot(front, at);
            assert forall|i: int| 0 <= i < time_slot(list, at) implies !text_before(
                (#[trigger] list[i]).updated_at,
                at,
            ) by {
                assert(front[i] == list[i]);
            }
            assert forall|i: int| time_slot(list, at) <= i < list.len() implies text_before(
                (#[trigger] list[i]).updated_at,
                at,
            ) by {
                if i < front.len() {
                    assert(front[i] == list[i]);
                }
            }
        } else {
            assert forall|i: int| 0 <= i < list.len() implies !text_before(
                (#[trigger] list[i]).updated_at,
                at,
            ) by {
                if i < list.len() - 1 && text_before(list[i].updated_at, at) {
                    lemma_before_total(last.updated_at, at);
                    if last.updated_at != at {
                        lemma_before_transitive(list[i].updated_at, at, last.updated_at);
                    }
                    assert(!text_before(list[i].updated_at, list[list.len() - 1].updated_at));
                }
            }
        }
    }
}

/// The picker shows the newest chats first.
pub proof fn the_newest_come_first(sessions: Seq<ChatSession>, end: int)
    ensures
        runs_to_the_oldest(newest_first(sessions, end)),
    decreases end,
{
    if end > 0 {
        the_newest_come_first(sessions, end - 1);
        let front = newest_first(sessions, end - 1);
        let meta = meta_of(sessions[end - 1]);
        if sessions[end - 1].state@ == "active"@ {
            let k = time_slot(front, meta.updated_at);
            lemma_time_slot(front, meta.updated_at);
            let out = front.insert(k, meta);
            assert forall|i: int, j: int| 0 <= i < j < out.len() implies !text_before(
                (#[trigger] out[i]).updated_at,
                (#[trigger] out[j]).updated_at,
            ) by {
                if i < k {
                    assert(out[i] == front[i]);
                } else if i > k {
                    assert(out[i] == front[i - 1]);
                }
                if j < k {
                    assert(out[j] == front[j]);
                } else if j > k {
                    assert(out[j] == front[j - 1]);
                }
                if i == k && text_before(meta.updated_at, out[j].updated_at) {
                    lemma_before_transitive(
                        meta.updated_at,
                        out[j].updated_at,
                        meta.updated_at,
                    );
                    lemma_before_irreflexive(meta.updated_at);
                }
            }
        }
    }
}

/// How many of the first `end` sessions are active.
pub open spec fn active_count(sessions: Seq<ChatSession>, end: int) -> nat
    decreases end,
{
    if end <= 0 {
        0
    } else {
        active_count(sessions, end - 1) + (if sessions[end - 1].state@ == "active"@ {
            1nat
        } else {
            0nat
        })
    }
}

/// The picker shows every active session, and no other.
pub proof fn every_active_chat_is_listed(sessions: Seq<ChatSession>, end: int)
    requires
        0 <= end <= sessions.len(),
    ensures
        newest_first(sessions, end).len() == active_count(sessions, end),
        forall|i: int|
            0 <= i < end && (#[trigger] sessions[i]).state@ == "active"@ ==> newest_first(
                sessions,
                end,
            ).contains(meta_of(sessions[i])),
        forall|k: int|
            0 <= k < newest_first(sessions, end).len() ==> exists|i: int|
                0 <= i < end && (#[trigger] sessions[i]).state@ == "active"@ && meta_of(sessions[i])
                    == #[trigger] newest_first(sessions, end)[k],
    decreases end,
{
    if end > 0 {
        every_active_chat_is_listed(sessions, end - 1);
        let front = newest_first(sessions, end - 1);
        let meta = meta_of(sessions[end - 1]);
        let out = newest_first(sessions, end);
        if sessions[end - 1].state@ == "active"@ {
            let k = time_slot(front, meta.updated_at);
            lemma_time_slot_bounds(front, meta.updated_at);
            assert(out == front.insert(k, meta));
            assert(out[k] == meta);
            assert forall|i: int| 0 <= i < end && (#[trigger] sessions[i]).state@ == "active"@ implies
                out.contains(meta_of(sessions[i])) by {
                if i < end - 1 {
                    let m = meta_of(sessions[i]);
                    let j = choose|j: int| 0 <= j < front.len() && front[j] == m;
                    if j < k {
                        assert(out[j] == m);
                    } else {
                        assert(out[j + 1] == m);
                    }
                }
            }
            assert forall|j: int| 0 <= j < out.len() implies exists|i: int|
                0 <= i < end && (#[trigger] sessions[i]).state@ == "active"@ && meta_of(sessions[i])
                    == #[trigger] out[j] by {
                if j == k {
                    assert(sessions[end - 1].state@ == "active"@);
                } else {
                    let m = if j < k {
                        j
                    } else {
                        j - 1
                    };
                    assert(out[j] == front[m]);
                    let i = choose|i: int|
                        0 <= i < end - 1 && (#[trigger] sessions[i]).state@ == "active"@ && meta_of(
                            sessions[i],
                        ) == front[m];
                    assert(meta_of(sessions[i]) == out[j]);
                }
            }
        } else {
            assert(out == front);
            assert forall|j: int| 0 <= j < out.len() implies exists|i: int|
                0 <= i < end && (#[trigger] sessions[i]).state@ == "active"@ && meta_of(sessions[i])
                    == #[trigger] out[j] by {
                let i = choose|i: int|
                    0 <= i < end - 1 && (#[trigger] sessions[i]).state@ == "active"@ && meta_of(
                        sessions[i],
                    ) == front[j];
                assert(meta_of(sessions[i]) == out[j]);
            }
        }
    }
}

fn copied_name(name: &Option<String>) -> (r: Option<String>)
    ensures
        optional(r) == optional(*name),
{
    match name {
        Some(text) => Some(text.clone()),
        None => None,
    }
}

/// The list shows, entry by entry, the sessions among the first `end` at the given positions: every
/// active one once and no other, with its own fields, the newest first and, where two are equally
/// new, in the order in which they stand.
pub open spec fn picks(
    list: Seq<ChatMeta>,
    sessions: Seq<ChatSession>,
    end: int,
    from: Seq<int>,
) -> bool {
    &&& from.len() == list.len()
    &&& forall|k: int|
        0 <= k < list.len() ==> {
            let session = sessions[#[trigger] from[k]];
            &&& 0 <= from[k] < end
            &&& session.state@ == "active"@
            &&& list[k].id@ == session.id@
            &&& list[k].title@ == session.title@
            &&& list[k].created_at@ == session.created_at@
            &&& list[k].updated_at@ == session.updated_at@
            &&& list[k].model@ == session.model@
            &&& optional(list[k].filename) == optional(session.filename)
            &&& list[k].turns == session.turns@.len()
        }
    &&& forall|i: int|
        0 <= i < end && (#[trigger] sessions[i]).state@ == "active"@ ==> from.contains(i)
    &&& forall|k: int, l: int|
        0 <= k < l < list.len() ==> {
            &&& from[k] != from[l]
            &&& !text_before((#[trigger] list[k]).updated_at@, (#[trigger] list[l]).updated_at@)
            &&& list[k].updated_at@ == list[l].updated_at@ ==> from[k] < from[l]
        }
}

#[verifier::spinoff_prover]
#[verifier::rlimit(40)]
proof fn lemma_picked(
    list: Seq<ChatMeta>,
    sessions: Seq<ChatSession>,
    end: int,
    from: Seq<int>,
    at: int,
    meta: ChatMeta,
)
    requires
        0 <= end < sessions.len(),
        picks(list, sessions, end, from),
        0 <= at <= list.len(),
        sessions[end].state@ == "active"@,
        meta.id@ == sessions[end].id@,
        meta.title@ == sessions[end].title@,
        meta.created_at@ == sessions[end].created_at@,
        meta.updated_at@ == sessions[end].updated_at@,
        meta.model@ == sessions[end].model@,
        optional(meta.filename) == optional(sessions[end].filename),
        meta.turns == sessions[end].turns@.len(),
        forall|j: int|
            0 <= j < list.len() ==> (j < at ==> !text_before(
                (#[trigger] list[j]).updated_at@,
                meta.updated_at@,
            )) && (j >= at ==> text_before(list[j].updated_at@, meta.updated_at@)),
    ensures
        picks(list.insert(at, meta), sessions, end + 1, from.insert(at, end)),
{
    let out = list.insert(at, meta);
    let f = from.insert(at, end);
    assert forall|k: int| 0 <= k < out.len() implies {
        let session = sessions[#[trigger] f[k]];
        &&& 0 <= f[k] < end + 1
        &&& session.state@ == "active"@
        &&& out[k].id@ == session.id@
        &&& out[k].title@ == session.title@
        &&& out[k].created_at@ == session.created_at@
        &&& out[k].updated_at@ == session.updated_at@
        &&& out[k].model@ == session.model@
        &&& optional(out[k].filename) == optional(session.filename)
        &&& out[k].turns == session.turns@.len()
    } by {
        if k < at {
            assert(f[k] == from[k] && out[k] == list[k]);
        } else if k > at {
            assert(f[k] == from[k - 1] && out[k] == list[k - 1]);
        }
    }
    assert forall|i: int| 0 <= i < end + 1 && (#[trigger] sessions[i]).state@
        == "active"@ implies f.contains(i) by {
        if i == end {
            assert(f[at] == i);
        } else {
            let k = choose|k: int| 0 <= k < from.len() && from[k] == i;
            if k < at {
                assert(f[k] == i);
            } else {
                assert(f[k + 1] == i);
            }
        }
    }
    assert forall|k: int, l: int| 0 <= k < l < out.len() implies {
        &&& f[k] != f[l]
        &&& !text_before((#[trigger] out[k]).updated_at@, (#[trigger] out[l]).updated_at@)
        &&& out[k].updated_at@ == out[l].updated_at@ ==> f[k] < f[l]
    } by {
        let a = if k < at {
            k
        } else {
            k - 1
        };
        let b = if l < at {
            l
        } else {
            l - 1
        };
        if k != at {
            assert(f[k] == from[a] && out[k] == list[a]);
            assert(0 <= from[a] < end);
        }
        if l != at {
            assert(f[l] == from[b] && out[l] == list[b]);
            assert(0 <= from[b] < end);
        }
        if k == at {
            lemma_before_irreflexive(meta.updated_at@);
            assert(text_before(list[b].updated_at@, meta.updated_at@));
            if text_before(meta.updated_at@, list[b].updated_at@) {
                lemma_before_transitive(
                    meta.updated_at@,
                    list[b].updated_at@,
                    meta.updated_at@,
                );
            }
        } else if l == at {
            assert(!text_before(list[a].updated_at@, meta.updated_at@));
        } else {
            assert(list[a] == list[a] && list[b] == list[b]);
        }
    }
}

impl ChatSession {
    /// What the picker shows: the active ones of the sessions that could be read, the newest first.
    /// A session that could not be read hides no other.
    pub fn list(sessions: &[ChatSession]) -> (r: Vec<ChatMeta>)
        ensures
            meta_data(r@) == newest_first(sessions@, sessions@.len() as int),
            exists|from: Seq<int>| #[trigger] picks(
                r@,
                sessions@,
                sessions@.len() as int,
                from,
            ),
    {
        let mut out: Vec<ChatMeta> = Vec::new();
        let mut i: usize = 0;
        assert(meta_data(out@) =~= newest_first(sessions@, 0));
        let ghost mut from: Seq<int> = Seq::empty();
        while i < sessions.len()
            invariant
                i <= sessions.len(),
                meta_data(out@) == newest_first(sessions@, i as int),
                picks(out@, sessions@, i as int, from),
            decreases sessions.len() - i,
        {
            let session = &sessions[i];
            if same_text(session.state.as_str(), "active") {
                let meta = ChatMeta {
                    id: session.id.clone(),
                    title: session.title.clone(),
                    created_at: session.created_at.clone(),
                    updated_at: session.updated_at.clone(),
                    model: session.model.clone(),
                    filename: copied_name(&session.filename),
                    turns: session.turns.len(),
                };
                let ghost data = meta@;
                assert(data == meta_of(*session));
                let ghost before = meta_data(out@);
                let mut k: usize = out.len();
                assert(before.take(k as int) =~= before);
                while k > 0 && side(
                    out[k - 1].updated_at.as_str(),
                    meta.updated_at.as_str(),
                ) == Side::Before
                    invariant
                        k <= out@.len(),
                        before == meta_data(out@),
                        data == meta@,
                        time_slot(before.take(k as int), data.updated_at) == time_slot(
                            before,
                            data.updated_at,
                        ),
                    decreases k,
                {
                    assert(before.take(k as int).drop_last() =~= before.take(k - 1));
                    assert(before.take(k as int).last() == out@[k - 1]@);
                    proof {
                        lemma_before_irreflexive(data.updated_at);
                    }
                    k -= 1;
                }
                proof {
                    lemma_before_irreflexive(data.updated_at);
                    if k > 0 {
                        assert(before.take(k as int).last() == out@[k - 1]@);
                    }
                    assert(time_slot(before, data.updated_at) == k);
                }
                proof {
                    the_newest_come_first(sessions@, i as int);
                    lemma_time_slot(before, data.updated_at);
                    assert forall|j: int| 0 <= j < out@.len() implies (j < k ==> !text_before(
                        (#[trigger] out@[j]).updated_at@,
                        meta.updated_at@,
                    )) && (j >= k ==> text_before(out@[j].updated_at@, meta.updated_at@)) by {
                        assert(before[j] == out@[j]@);
                    }
                    lemma_picked(out@, sessions@, i as int, from, k as int, meta);
                    from = from.insert(k as int, i as int);
                }
                out.insert(k, meta);
                assert(meta_data(out@) =~= before.insert(k as int, data));
            }
            i += 1;
        }
        out
    }
}

} // verus!
