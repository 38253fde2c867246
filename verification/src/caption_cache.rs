//! Captions of figure pages, kept outside the index because each costs seconds of a vision model.

use sha2::Digest;
use vstd::prelude::*;

use crate::text::{hex_string, hex_text, hex_text_is_injective, owned, same_text};
use crate::text_map::{
    ascending, has_key, key_position, lemma_map_of, lemma_map_size, map_of, text_before, TextMap,
};

verus! {

/// The SHA-256 digest of some bytes.
pub uninterp spec fn sha256_of(bytes: Seq<u8>) -> Seq<u8>;

/// `sha2::Sha256::digest`: the digest of the bytes, always 32 bytes long.
#[verifier::external_body]
pub(crate) fn sha256(bytes: &[u8]) -> (r: Vec<u8>)
    ensures
        r@ == sha256_of(bytes@),
        r@.len() == 32,
{
    sha2::Sha256::digest(bytes).to_vec()
}

/// The key of a rendered page image: its digest in hexadecimal notation.
pub open spec fn key_of(png: Seq<u8>) -> Seq<char> {
    hex_text(sha256_of(png))
}

/// The hash of a rendered page image, which is the stable identity of a figure. A page that renders
/// identically hits the cache; a different image is captioned again.
pub fn image_key(png: &[u8]) -> (r: String)
    ensures
        r@ == key_of(png@),
        r@.len() == 64,
{
    let digest = sha256(png);
    hex_string(digest.as_slice())
}

/// Images have the same key exactly when they have the same digest.
pub proof fn keys_follow_digests(a: Seq<u8>, b: Seq<u8>)
    ensures
        key_of(a) == key_of(b) <==> sha256_of(a) == sha256_of(b),
{
    if key_of(a) == key_of(b) {
        hex_text_is_injective(sha256_of(a), sha256_of(b));
    }
}

/// A caption with what made it.
#[derive(Debug)]
pub struct CaptionEntry {
    /// The model that wrote the caption.
    pub model: String,
    pub prompt_version: String,
    pub caption: String,
}

#[verifier::ext_equal]
pub struct EntryData {
    pub model: Seq<char>,
    pub prompt_version: Seq<char>,
    pub caption: Seq<char>,
}

impl View for CaptionEntry {
    type V = EntryData;

    open spec fn view(&self) -> EntryData {
        EntryData {
            model: self.model@,
            prompt_version: self.prompt_version@,
            caption: self.caption@,
        }
    }
}

/// Two captions with the same contents agree in every field.
pub proof fn contents_tell_captions_apart(a: CaptionEntry, b: CaptionEntry)
    requires
        a@ == b@,
    ensures
        a.model@ == b.model@,
        a.prompt_version@ == b.prompt_version@,
        a.caption@ == b.caption@,
{
}

impl Clone for CaptionEntry {
    fn clone(&self) -> (r: Self)
        ensures
            r@ == self@,
    {
        CaptionEntry {
            model: self.model.clone(),
            prompt_version: self.prompt_version.clone(),
            caption: self.caption.clone(),
        }
    }
}

/// The captions that are known. A caption made by another model or an older prompt is a miss, and
/// is replaced.
pub struct CaptionCache {
    entries: TextMap<CaptionEntry>,
    dirty: bool,
}

/// What a stored line says, where it can be read: the key of an image and its caption. A line that
/// was cut off while it was written says nothing.
pub type StoredLine = Option<(String, CaptionEntry)>;

/// The contents of the lines that can be read, in order.
pub open spec fn readable(lines: Seq<StoredLine>) -> Seq<(Seq<char>, EntryData)>
    decreases lines.len(),
{
    if lines.len() == 0 {
        Seq::empty()
    } else {
        let front = readable(lines.drop_last());
        match lines.last() {
            Some(record) => front.push((record.0@, record.1@)),
            None => front,
        }
    }
}

/// The contents of records, in order.
pub open spec fn record_data(records: Seq<(String, CaptionEntry)>) -> Seq<(Seq<char>, EntryData)> {
    Seq::new(records.len(), |i: int| (records[i].0@, records[i].1@))
}

/// The captions that the first `end` records leave, where a later record replaces an earlier one
/// for the same image.
pub open spec fn recorded(
    records: Seq<(Seq<char>, EntryData)>,
    end: int,
) -> Map<Seq<char>, EntryData>
    decreases end,
{
    if end <= 0 {
        Map::empty()
    } else {
        recorded(records, end - 1).insert(records[end - 1].0, records[end - 1].1)
    }
}

/// What a cache answers for an image: its caption, as long as the model and the prompt that made it
/// are the ones asked for.
pub open spec fn cached(
    entries: Map<Seq<char>, EntryData>,
    png: Seq<u8>,
    model: Seq<char>,
    prompt_version: Seq<char>,
) -> Option<Seq<char>> {
    let key = key_of(png);
    if entries.contains_key(key) && entries[key].model == model && entries[key].prompt_version
        == prompt_version {
        Some(entries[key].caption)
    } else {
        None
    }
}

/// The captions with one more put in.
pub open spec fn with_caption(
    entries: Map<Seq<char>, EntryData>,
    png: Seq<u8>,
    model: Seq<char>,
    prompt_version: Seq<char>,
    caption: Seq<char>,
) -> Map<Seq<char>, EntryData> {
    entries.insert(key_of(png), EntryData { model, prompt_version, caption })
}

impl View for CaptionCache {
    type V = Map<Seq<char>, EntryData>;

    closed spec fn view(&self) -> Map<Seq<char>, EntryData> {
        self.entries@.map_values(|e: CaptionEntry| e@)
    }
}

impl CaptionCache {
    /// Something was put in that has not been saved yet.
    pub closed spec fn unsaved(&self) -> bool {
        self.dirty
    }

    /// The cache that stored lines make. One that cannot be read is passed over.
    pub fn load(lines: Vec<StoredLine>) -> (r: Self)
        ensures
            r@ == recorded(readable(lines@), readable(lines@).len() as int),
            r@.dom().finite(),
            !r.unsaved(),
    {
        let mut entries: TextMap<CaptionEntry> = TextMap::new();
        let mut i: usize = 0;
        assert(entries@.map_values(|e: CaptionEntry| e@) =~= recorded(readable(lines@.take(0)), 0));
        assert(entries@.dom() =~= Set::<Seq<char>>::empty());
        while i < lines.len()
            invariant
                i <= lines.len(),
                entries@.dom().finite(),
                entries@.map_values(|e: CaptionEntry| e@) == recorded(
                    readable(lines@.take(i as int)),
                    readable(lines@.take(i as int)).len() as int,
                ),
            decreases lines.len() - i,
        {
            let ghost front = readable(lines@.take(i as int));
            assert(lines@.take(i + 1).drop_last() =~= lines@.take(i as int));
            assert(lines@.take(i + 1).last() == lines@[i as int]);
            if let Some(record) = &lines[i] {
                let key = record.0.clone();
                let entry = record.1.clone();
                let ghost before = entries@;
                entries.insert(key, entry);
                assert(entries@.map_values(|e: CaptionEntry| e@) =~= before.map_values(
                    |e: CaptionEntry| e@,
                ).insert(key@, entry@));
                proof {
                    lemma_recorded_prefix(
                        front,
                        front.push((key@, entry@)),
                        front.len() as int,
                    );
                }
            }
            i += 1;
        }
        assert(lines@.take(lines.len() as int) =~= lines@);
        let r = CaptionCache { entries, dirty: false };
        assert(r@.dom() =~= entries@.dom());
        r
    }

    /// The caption of an image, as long as the model and the prompt that made it still match;
    /// otherwise a stale caption would outlive both.
    pub fn get(&self, png: &[u8], model: &str, prompt_version: &str) -> (r: Option<&str>)
        ensures
            match r {
                Some(caption) => cached(self@, png@, model@, prompt_version@) == Some(caption@),
                None => cached(self@, png@, model@, prompt_version@) is None,
            },
            r matches Some(caption) ==> self@.contains_key(key_of(png@)) && self@[key_of(
                png@,
            )].caption == caption@,
            r is Some <==> self@.contains_key(key_of(png@)) && self@[key_of(png@)].model == model@
                && self@[key_of(png@)].prompt_version == prompt_version@,
    {
        let key = image_key(png);
        match self.entries.get(key.as_str()) {
            Some(entry) => {
                if same_text(entry.model.as_str(), model) && same_text(
                    entry.prompt_version.as_str(),
                    prompt_version,
                ) {
                    Some(entry.caption.as_str())
                } else {
                    None
                }
            },
            None => None,
        }
    }

    /// Puts a caption in, in the place of an older one for the same image.
    pub fn put(&mut self, png: &[u8], model: &str, prompt_version: &str, caption: &str)
        ensures
            final(self)@ == with_caption(old(self)@, png@, model@, prompt_version@, caption@),
            final(self)@.dom() == old(self)@.dom().insert(key_of(png@)),
            final(self)@[key_of(png@)].model == model@,
            final(self)@[key_of(png@)].prompt_version == prompt_version@,
            final(self)@[key_of(png@)].caption == caption@,
            forall|key: Seq<char>|
                key != key_of(png@) && old(self)@.contains_key(key) ==> (#[trigger] final(self)@[key])
                    == old(self)@[key],
            final(self)@.dom().finite(),
            final(self).unsaved(),
    {
        let key = image_key(png);
        let entry = CaptionEntry {
            model: owned(model),
            prompt_version: owned(prompt_version),
            caption: owned(caption),
        };
        let ghost before = self.entries@;
        self.entries.insert(key, entry);
        assert(self.entries@.map_values(|e: CaptionEntry| e@) =~= before.map_values(
            |e: CaptionEntry| e@,
        ).insert(key@, entry@));
        self.dirty = true;
        assert(self@.dom() =~= self.entries@.dom());
    }

    /// How many captions there are.
    pub fn len(&self) -> (n: usize)
        ensures
            n == self@.dom().len(),
            self@.dom().finite(),
    {
        let n: usize = self.entries.len();
        proof {
            lemma_map_size(self.entries.list());
            assert(self@.dom() =~= self.entries@.dom());
        }
        n
    }

    pub fn is_empty(&self) -> (r: bool)
        ensures
            r == (self@.dom().len() == 0),
            self@.dom().finite(),
    {
        self.len() == 0
    }

    /// The records to write, in the order of their keys; none where nothing was put in, so that a
    /// run without captions does not rewrite the file.
    pub fn save(&self) -> (r: Option<Vec<(String, CaptionEntry)>>)
        ensures
            match r {
                Some(records) => {
                    &&& self.unsaved()
                    &&& ascending(record_data(records@))
                    &&& map_of(record_data(records@)) == self@
                },
                None => !self.unsaved(),
            },
    {
        if !self.dirty {
            return None;
        }
        let n: usize = self.entries.len();
        let ghost list = self.entries.list();
        let mut out: Vec<(String, CaptionEntry)> = Vec::new();
        let mut i: usize = 0;
        while i < n
            invariant
                i <= n,
                n == list.len(),
                list == self.entries.list(),
                ascending(list),
                out@.len() == i,
                forall|j: int|
                    0 <= j < i ==> (#[trigger] record_data(out@)[j]) == (list[j].0, list[j].1@),
            decreases n - i,
        {
            let ghost before = record_data(out@);
            let key = self.entries.key_at(i).clone();
            let entry = self.entries.value_at(i).clone();
            out.push((key, entry));
            assert(record_data(out@) =~= before.push((key@, entry@)));
            i += 1;
        }
        proof {
            let data = record_data(out@);
            assert forall|i: int, j: int| 0 <= i < j < data.len() implies text_before(
                (#[trigger] data[i]).0,
                (#[trigger] data[j]).0,
            ) by {
                assert(text_before(list[i].0, list[j].0));
            }
            assert forall|k: Seq<char>| map_of(data).contains_key(k) == #[trigger] self@.contains_key(
                k,
            ) && (self@.contains_key(k) ==> map_of(data)[k] == self@[k]) by {
                if has_key(list, k) {
                    let i = key_position(list, k);
                    lemma_map_of(list, i);
                    assert(data[i].0 == k);
                    lemma_map_of(data, i);
                }
                if has_key(data, k) {
                    let i = key_position(data, k);
                    assert(list[i].0 == data[i].0);
                }
            }
            assert(map_of(data).dom() =~= self@.dom());
            assert(map_of(data) =~= self@);
        }
        Some(out)
    }

    /// Notes that everything was written.
    pub fn saved(&mut self)
        ensures
            final(self)@ == old(self)@,
            !final(self).unsaved(),
    {
        self.dirty = false;
    }
}

/// A caption that was put in is found again for the same image, model and prompt, and not for
/// another model or another prompt.
pub proof fn captions_are_found_again(
    entries: Map<Seq<char>, EntryData>,
    png: Seq<u8>,
    model: Seq<char>,
    prompt_version: Seq<char>,
    caption: Seq<char>,
    other_model: Seq<char>,
    other_version: Seq<char>,
)
    ensures
        ({
            let after = with_caption(entries, png, model, prompt_version, caption);
            &&& cached(after, png, model, prompt_version) == Some(caption)
            &&& (other_model, other_version) != (model, prompt_version) ==> cached(
                after,
                png,
                other_model,
                other_version,
            ) is None
        }),
{
}

/// Putting in a caption counts: where the image had one there are as many captions as before, else
/// there is one more, and never none.
pub proof fn captions_are_counted(
    entries: Map<Seq<char>, EntryData>,
    png: Seq<u8>,
    model: Seq<char>,
    prompt_version: Seq<char>,
    caption: Seq<char>,
)
    requires
        entries.dom().finite(),
    ensures
        ({
            let after = with_caption(entries, png, model, prompt_version, caption);
            &&& after.dom().finite()
            &&& after.dom().len() == entries.dom().len() + (if entries.contains_key(key_of(png)) {
                0int
            } else {
                1int
            })
            &&& after.dom().len() > 0
        }),
{
    let after = with_caption(entries, png, model, prompt_version, caption);
    assert(after.dom() =~= entries.dom().insert(key_of(png)));
    assert(after.dom().contains(key_of(png)));
}

/// Putting in a caption changes nothing for an image with another digest.
pub proof fn other_captions_stay(
    entries: Map<Seq<char>, EntryData>,
    png: Seq<u8>,
    other: Seq<u8>,
    model: Seq<char>,
    prompt_version: Seq<char>,
    caption: Seq<char>,
    asked_model: Seq<char>,
    asked_version: Seq<char>,
)
    requires
        sha256_of(png) != sha256_of(other),
    ensures
        cached(
            with_caption(entries, png, model, prompt_version, caption),
            other,
            asked_model,
            asked_version,
        ) == cached(entries, other, asked_model, asked_version),
{
    keys_follow_digests(png, other);
}

proof fn lemma_recorded_prefix(
    a: Seq<(Seq<char>, EntryData)>,
    b: Seq<(Seq<char>, EntryData)>,
    end: int,
)
    requires
        end <= a.len(),
        end <= b.len(),
        forall|i: int| 0 <= i < end ==> a[i] == b[i],
    ensures
        recorded(a, end) == recorded(b, end),
    decreases end,
{
    if end > 0 {
        lemma_recorded_prefix(a, b, end - 1);
    }
}

proof fn lemma_recorded(records: Seq<(Seq<char>, EntryData)>, end: int)
    requires
        0 <= end <= records.len(),
        ascending(records),
    ensures
        recorded(records, end) == map_of(records.take(end)),
    decreases end,
{
    let part = records.take(end);
    if end == 0 {
        assert(recorded(records, end) =~= map_of(part));
    } else {
        lemma_recorded(records, end - 1);
        let front = records.take(end - 1);
        let x = records[end - 1];
        let left = recorded(records, end);
        let right = map_of(part);
        assert(ascending(part)) by {
            assert forall|i: int, j: int| 0 <= i < j < part.len() implies
                text_before((#[trigger] part[i]).0, (#[trigger] part[j]).0) by {
                assert(part[i] == records[i] && part[j] == records[j]);
            }
        }
        assert(ascending(front)) by {
            assert forall|i: int, j: int| 0 <= i < j < front.len() implies
                text_before((#[trigger] front[i]).0, (#[trigger] front[j]).0) by {
                assert(front[i] == records[i] && front[j] == records[j]);
            }
        }
        lemma_map_of(part, end - 1);
        assert forall|k: Seq<char>| left.contains_key(k) == #[trigger] right.contains_key(k) && (
        left.contains_key(k) ==> left[k] == right[k]) by {
            if k != x.0 {
                if has_key(front, k) {
                    let i = key_position(front, k);
                    assert(part[i] == front[i]);
                    lemma_map_of(part, i);
                    lemma_map_of(front, i);
                }
                if has_key(part, k) {
                    let i = key_position(part, k);
                    assert(front[i] == part[i]);
                    lemma_map_of(front, i);
                }
            }
        }
        assert(left =~= right);
    }
}

/// Captions survive being saved and loaded: lines from which the records can be read that saving
/// gave, whose keys run upwards, load as the captions that the records stand for.
pub proof fn captions_survive_a_reload(
    records: Seq<(String, CaptionEntry)>,
    lines: Seq<StoredLine>,
)
    requires
        ascending(record_data(records)),
        readable(lines) == record_data(records),
    ensures
        recorded(readable(lines), readable(lines).len() as int) == map_of(record_data(records)),
{
    let data = record_data(records);
    lemma_recorded(data, data.len() as int);
    assert(data.take(data.len() as int) =~= data);
}

/// Lines that each hold one of the records are read as these records.
pub proof fn whole_lines_are_read(records: Seq<(String, CaptionEntry)>)
    ensures
        readable(Seq::new(records.len(), |i: int| Some(records[i]))) == record_data(records),
    decreases records.len(),
{
    let lines = Seq::new(records.len(), |i: int| Some(records[i]));
    if records.len() == 0 {
        assert(readable(lines) =~= record_data(records));
    } else {
        let front = records.drop_last();
        whole_lines_are_read(front);
        assert(lines.drop_last() =~= Seq::new(front.len(), |i: int| Some(front[i])));
        assert(readable(lines) =~= record_data(records));
    }
}

/// A line that cannot be read does not lose the others, wherever it stands.
pub proof fn torn_lines_lose_nothing(before: Seq<StoredLine>, behind: Seq<StoredLine>)
    ensures
        readable(before.push(None) + behind) == readable(before + behind),
    decreases behind.len(),
{
    let torn = before.push(None) + behind;
    let whole = before + behind;
    if behind.len() == 0 {
        assert(torn.drop_last() =~= whole);
    } else {
        torn_lines_lose_nothing(before, behind.drop_last());
        assert(torn.drop_last() =~= before.push(None) + behind.drop_last());
        assert(whole.drop_last() =~= before + behind.drop_last());
    }
}

/// The latest record for an image counts, and every image with a record has a caption.
pub proof fn the_latest_record_counts(records: Seq<(Seq<char>, EntryData)>, end: int, i: int)
    requires
        0 <= i < end <= records.len(),
    ensures
        recorded(records, end).contains_key(records[i].0),
        (forall|j: int| i < j < end ==> (#[trigger] records[j]).0 != records[i].0) ==> recorded(
            records,
            end,
        )[records[i].0] == records[i].1,
    decreases end,
{
    if i < end - 1 {
        the_latest_record_counts(records, end - 1, i);
    }
}

/// No caption comes from anywhere but a record.
pub proof fn captions_come_from_records(
    records: Seq<(Seq<char>, EntryData)>,
    end: int,
    key: Seq<char>,
)
    requires
        0 <= end <= records.len(),
        recorded(records, end).contains_key(key),
    ensures
        exists|i: int|
            0 <= i < end && (#[trigger] records[i]).0 == key && records[i].1 == recorded(
                records,
                end,
            )[key],
    decreases end,
{
    if end > 0 && records[end - 1].0 != key {
        captions_come_from_records(records, end - 1, key);
    }
}

/// The lines that can be read are read in their order.
pub proof fn lines_are_read_in_order(a: Seq<StoredLine>, b: Seq<StoredLine>, line: StoredLine)
    ensures
        readable(a + b) == readable(a) + readable(b),
        line is None ==> readable(seq![line]).len() == 0,
        line matches Some(record) ==> readable(seq![line]) == seq![(record.0@, record.1@)],
    decreases b.len(),
{
    let one = seq![line];
    assert(readable(one.drop_last()) =~= Seq::<(Seq<char>, EntryData)>::empty());
    if b.len() == 0 {
        assert(a + b =~= a);
        assert(readable(a) + readable(b) =~= readable(a));
    } else {
        lines_are_read_in_order(a, b.drop_last(), line);
        assert((a + b).drop_last() =~= a + b.drop_last());
        assert((a + b).last() == b.last());
        if let Some(record) = b.last() {
            let data = (record.0@, record.1@);
            assert((readable(a) + readable(b.drop_last())).push(data) =~= readable(a) + readable(
                b.drop_last(),
            ).push(data));
        }
    }
}

} // verus!
