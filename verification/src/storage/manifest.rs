//! The manifest: which tables stand on which level, and which numbers are taken.
//!
//! The manifest file is a list of edits, one in each line.

use crate::common::codec;
use crate::common::error::{Error, Fault};
use crate::common::text;
use std::collections::HashMap;
use vstd::prelude::*;

verus! {

broadcast use vstd::std_specs::hash::group_hash_axioms;

const COLON: u8 = 58;

const NEWLINE: u8 = 10;

const RETURN: u8 = 13;

#[derive(Debug, Clone)]
pub struct LevelMeta {
    pub level: u32,
    pub sst_ids: Vec<u64>,
}

/// A line of the manifest.
#[derive(Debug, Clone, Copy, PartialEq, Eq, Structural)]
pub enum ManifestEdit {
    AddSst { level: u32, id: u64 },
    RemoveSst { level: u32, id: u64 },
    AddWal { id: u64 },
}

/// A manifest as a mathematical value.
#[verifier::ext_equal]
pub struct ManifestView {
    /// The tables of each level, in the order in which they were added.
    pub levels: Map<u32, Seq<u64>>,
    pub next_sst_id: u64,
    pub next_wal_id: u64,
}

/// The greater of a number and the one that follows `id`.
pub open spec fn beyond(next: u64, id: u64) -> u64 {
    let follower = u64::wrapping_add(id, 1);
    if follower > next {
        follower
    } else {
        next
    }
}

impl ManifestView {
    pub open spec fn fresh() -> ManifestView {
        ManifestView { levels: Map::empty(), next_sst_id: 1, next_wal_id: 1 }
    }

    /// The tables of a level.
    pub open spec fn tables(self, level: u32) -> Seq<u64> {
        if self.levels.contains_key(level) {
            self.levels[level]
        } else {
            Seq::empty()
        }
    }

    /// The numbers of the tables are taken, and another follows each.
    pub open spec fn numbered(self) -> bool {
        forall|level: u32, i: int|
            #![trigger self.levels[level][i]]
            self.levels.contains_key(level) && 0 <= i < self.levels[level].len()
                ==> self.levels[level][i] <= MAX_ID && self.levels[level][i] < self.next_sst_id
    }

    pub open spec fn edited(self, edit: ManifestEdit) -> ManifestView {
        match edit {
            ManifestEdit::AddSst { level, id } => ManifestView {
                levels: self.levels.insert(level, self.tables(level).push(id)),
                next_sst_id: beyond(self.next_sst_id, id),
                ..self
            },
            ManifestEdit::RemoveSst { level, id } => if self.levels.contains_key(level) {
                ManifestView {
                    levels: self.levels.insert(
                        level,
                        self.levels[level].filter(|x: u64| x != id),
                    ),
                    ..self
                }
            } else {
                self
            },
            ManifestEdit::AddWal { id } => ManifestView {
                next_wal_id: beyond(self.next_wal_id, id),
                ..self
            },
        }
    }

    pub open spec fn edited_by(self, edits: Seq<ManifestEdit>) -> ManifestView
        decreases edits.len(),
    {
        if edits.len() == 0 {
            self
        } else {
            self.edited(edits[0]).edited_by(edits.skip(1))
        }
    }
}

/// The text of an edit, a whole line.
pub open spec fn line_of(edit: ManifestEdit) -> Seq<u8> {
    match edit {
        ManifestEdit::AddSst { level, id } => seq![83u8, 83, 84, 58] + text::digits(level as nat)
            + seq![58u8] + text::digits(id as nat) + seq![10u8],
        ManifestEdit::RemoveSst { level, id } => seq![68u8, 69, 76, 58] + text::digits(level as nat)
            + seq![58u8] + text::digits(id as nat) + seq![10u8],
        ManifestEdit::AddWal { id } => seq![87u8, 65, 76, 58] + text::digits(id as nat) + seq![
            10u8,
        ],
    }
}

pub open spec fn text_of(edits: Seq<ManifestEdit>) -> Seq<u8>
    decreases edits.len(),
{
    if edits.len() == 0 {
        Seq::empty()
    } else {
        line_of(edits[0]) + text_of(edits.skip(1))
    }
}

/// A line without the carriage return at its end.
pub open spec fn without_return(line: Seq<u8>) -> Seq<u8> {
    if line.len() > 0 && line.last() == 13 {
        line.drop_last()
    } else {
        line
    }
}

/// The first line of a text and what follows it.
pub open spec fn first_line(data: Seq<u8>) -> (Seq<u8>, Seq<u8>) {
    let i = text::first_at(data, 10, 0);
    if i >= data.len() {
        (data, Seq::empty())
    } else {
        (without_return(data.take(i)), data.skip(i + 1))
    }
}

pub open spec fn bad_line() -> Fault {
    Fault::Corruption("Malformed manifest line"@)
}

/// The greatest number of a table or a log: another one follows it.
pub const MAX_ID: u64 = 0xFFFF_FFFF_FFFF_FFFE;

/// A level and the number of a table on it, which is at most `max`.
pub open spec fn place(fields: Seq<Seq<u8>>, max: u64) -> Option<(u32, u64)> {
    if fields.len() < 3 {
        None
    } else {
        match (text::parsed(fields[1], u32::MAX as nat), text::parsed(fields[2], max as nat)) {
            (Some(level), Some(id)) => Some((level as u32, id as u64)),
            _ => None,
        }
    }
}

pub open spec fn not_text() -> Fault {
    Fault::Io("stream did not contain valid UTF-8"@)
}

/// The edit in a line. Lines of other kinds stand for none.
pub open spec fn edit_of(line: Seq<u8>) -> Result<Option<ManifestEdit>, Fault> {
    let fields = text::parts(line, 58);
    if !vstd::utf8::valid_utf8(line) {
        Err(not_text())
    } else if fields[0] == seq![83u8, 83, 84] {
        match place(fields, MAX_ID) {
            Some((level, id)) => Ok(Some(ManifestEdit::AddSst { level, id })),
            None => Err(bad_line()),
        }
    } else if fields[0] == seq![68u8, 69, 76] {
        match place(fields, u64::MAX) {
            Some((level, id)) => Ok(Some(ManifestEdit::RemoveSst { level, id })),
            None => Err(bad_line()),
        }
    } else if fields[0] == seq![87u8, 65, 76] {
        if fields.len() < 2 {
            Err(bad_line())
        } else {
            match text::parsed(fields[1], MAX_ID as nat) {
                Some(id) => Ok(Some(ManifestEdit::AddWal { id: id as u64 })),
                None => Err(bad_line()),
            }
        }
    } else {
        Ok(None)
    }
}

/// The manifest after the edits in a text.
pub open spec fn replayed(m: ManifestView, data: Seq<u8>) -> Result<ManifestView, Fault>
    decreases data.len(),
    via replayed_decreases
{
    if data.len() == 0 {
        Ok(m)
    } else {
        let (line, rest) = first_line(data);
        match edit_of(line) {
            Err(f) => Err(f),
            Ok(None) => replayed(m, rest),
            Ok(Some(edit)) => replayed(m.edited(edit), rest),
        }
    }
}

#[via_fn]
proof fn replayed_decreases(m: ManifestView, data: Seq<u8>) {
    text::lemma_first_at(data, 10, 0);
}

pub struct Manifest {
    pub levels: HashMap<u32, LevelMeta>,
    pub next_sst_id: u64,
    pub next_wal_id: u64,
}

impl View for Manifest {
    type V = ManifestView;

    open spec fn view(&self) -> ManifestView {
        ManifestView {
            levels: self.levels@.map_values(|m: LevelMeta| m.sst_ids@),
            next_sst_id: self.next_sst_id,
            next_wal_id: self.next_wal_id,
        }
    }
}

impl Manifest {
    /// Every level says its own number.
    pub open spec fn labelled(&self) -> bool {
        forall|level: u32| #[trigger]
            self.levels@.contains_key(level) ==> self.levels@[level].level == level
    }

    pub fn create() -> (manifest: Self)
        ensures
            manifest.labelled(),
            manifest@ == ManifestView::fresh(),
            manifest@.numbered(),
    {
        let manifest = Manifest { levels: HashMap::new(), next_sst_id: 1, next_wal_id: 1 };
        assert(manifest@.levels =~= Map::empty());
        manifest
    }

    /// The manifest in a manifest file.
    pub fn open(data: &[u8]) -> (result: Result<Self, Error>)
        ensures
            match result {
                Ok(manifest) => replayed(ManifestView::fresh(), data@) == Ok::<ManifestView, Fault>(
                    manifest@,
                ) && manifest@.numbered() && manifest.labelled(),
                Err(e) => replayed(ManifestView::fresh(), data@) == Err::<ManifestView, Fault>(e@),
            },
    {
        let mut manifest = Manifest::create();
        manifest.load(data)?;
        proof {
            lemma_replayed_numbered(ManifestView::fresh(), data@);
        }
        Ok(manifest)
    }

    fn load(&mut self, data: &[u8]) -> (result: Result<(), Error>)
        ensures
            old(self).labelled() ==> final(self).labelled(),
            match result {
                Ok(_) => replayed(old(self)@, data@) == Ok::<ManifestView, Fault>(final(self)@),
                Err(e) => replayed(old(self)@, data@) == Err::<ManifestView, Fault>(e@),
            },
    {
        let mut from: usize = 0;
        let ghost start = self@;
        assert(data@.skip(0) =~= data@);
        while from < data.len()
            invariant
                from <= data@.len(),
                start == old(self)@,
                old(self).labelled() ==> self.labelled(),
                replayed(start, data@) == replayed(self@, data@.skip(from as int)),
            decreases data@.len() - from,
        {
            let ghost rest = data@.skip(from as int);
            let i: usize = text::find_byte(data, NEWLINE, from);
            let whole: bool = i < data.len();
            let end: usize = if whole && i > from && data[i - 1] == RETURN {
                i - 1
            } else {
                i
            };
            let line = codec::copy_range(data, from, end);
            let next: usize = if whole {
                i + 1
            } else {
                i
            };
            proof {
                text::lemma_first_in_rest(data@, 10, from as int, from as int);
                let (l, r) = first_line(rest);
                if whole {
                    assert(rest.take(i - from).len() == i - from);
                }
                assert(line@ =~= l);
                assert(data@.skip(next as int) =~= r);
            }
            if let Some(edit) = parse_line(line.as_slice())? {
                self.apply(edit);
            }
            from = next;
        }
        assert(data@.skip(from as int) =~= Seq::empty());
        Ok(())
    }

    fn apply(&mut self, edit: ManifestEdit)
        ensures
            old(self).labelled() ==> final(self).labelled(),
            final(self)@ == old(self)@.edited(edit),
    {
        match edit {
            ManifestEdit::AddSst { level, id } => {
                let mut meta = match self.levels.remove(&level) {
                    Some(meta) => meta,
                    None => LevelMeta { level, sst_ids: Vec::new() },
                };
                meta.sst_ids.push(id);
                let ghost ids = meta.sst_ids@;
                self.levels.insert(level, meta);
                self.next_sst_id = raised(self.next_sst_id, id);
                proof {
                    assert(ids =~= old(self)@.tables(level).push(id));
                    assert(self@.levels =~= old(self)@.edited(edit).levels);
                }
            },
            ManifestEdit::RemoveSst { level, id } => {
                if let Some(meta) = self.levels.remove(&level) {
                    let sst_ids = without_id(&meta.sst_ids, id);
                    self.levels.insert(level, LevelMeta { level: meta.level, sst_ids });
                }
                assert(self@.levels =~= old(self)@.edited(edit).levels);
            },
            ManifestEdit::AddWal { id } => {
                self.next_wal_id = raised(self.next_wal_id, id);
            },
        }
    }

    /// Adds a table to a level. What is returned has to be written to the manifest file.
    pub fn add_sst(&mut self, level: u32, id: u64) -> (line: Vec<u8>)
        ensures
            old(self).labelled() ==> final(self).labelled(),
            final(self)@ == old(self)@.edited(ManifestEdit::AddSst { level, id }),
            line@ == line_of(ManifestEdit::AddSst { level, id }),
    {
        self.apply(ManifestEdit::AddSst { level, id });
        let mut line: Vec<u8> = vec![83u8, 83, 84, 58];
        text::put_decimal(&mut line, level as u64);
        line.push(COLON);
        text::put_decimal(&mut line, id);
        line.push(NEWLINE);
        assert(line@ =~= line_of(ManifestEdit::AddSst { level, id }));
        line
    }

    /// Removes a table from a level. What is returned has to be written to the manifest
    /// file.
    pub fn remove_sst(&mut self, level: u32, id: u64) -> (line: Vec<u8>)
        ensures
            old(self).labelled() ==> final(self).labelled(),
            final(self)@ == old(self)@.edited(ManifestEdit::RemoveSst { level, id }),
            line@ == line_of(ManifestEdit::RemoveSst { level, id }),
    {
        self.apply(ManifestEdit::RemoveSst { level, id });
        let mut line: Vec<u8> = vec![68u8, 69, 76, 58];
        text::put_decimal(&mut line, level as u64);
        line.push(COLON);
        text::put_decimal(&mut line, id);
        line.push(NEWLINE);
        assert(line@ =~= line_of(ManifestEdit::RemoveSst { level, id }));
        line
    }

    /// Notes a log. What is returned has to be written to the manifest file.
    pub fn add_wal(&mut self, id: u64) -> (line: Vec<u8>)
        ensures
            old(self).labelled() ==> final(self).labelled(),
            final(self)@ == old(self)@.edited(ManifestEdit::AddWal { id }),
            line@ == line_of(ManifestEdit::AddWal { id }),
    {
        self.apply(ManifestEdit::AddWal { id });
        let mut line: Vec<u8> = vec![87u8, 65, 76, 58];
        text::put_decimal(&mut line, id);
        line.push(NEWLINE);
        assert(line@ =~= line_of(ManifestEdit::AddWal { id }));
        line
    }

    pub fn allocate_sst_id(&mut self) -> (id: u64)
        ensures
            old(self).labelled() ==> final(self).labelled(),
            id == old(self)@.next_sst_id,
            final(self)@ == (ManifestView {
                next_sst_id: u64::wrapping_add(old(self)@.next_sst_id, 1),
                ..old(self)@
            }),
    {
        let id: u64 = self.next_sst_id;
        self.next_sst_id = id.wrapping_add(1);
        id
    }

    pub fn allocate_wal_id(&mut self) -> (id: u64)
        ensures
            old(self).labelled() ==> final(self).labelled(),
            id == old(self)@.next_wal_id,
            final(self)@ == (ManifestView {
                next_wal_id: u64::wrapping_add(old(self)@.next_wal_id, 1),
                ..old(self)@
            }),
    {
        let id: u64 = self.next_wal_id;
        self.next_wal_id = id.wrapping_add(1);
        id
    }
}

fn raised(next: u64, id: u64) -> (result: u64)
    ensures
        result == beyond(next, id),
{
    let follower: u64 = id.wrapping_add(1);
    if follower > next {
        follower
    } else {
        next
    }
}

fn without_id(ids: &Vec<u64>, id: u64) -> (kept: Vec<u64>)
    ensures
        kept@ == ids@.filter(|x: u64| x != id),
{
    let mut kept: Vec<u64> = Vec::new();
    let ghost keep = |x: u64| x != id;
    let mut i: usize = 0;
    assert(ids@.take(0) =~= Seq::empty());
    assert(kept@ =~= ids@.take(0).filter(keep)) by {
        reveal(Seq::filter);
    }
    while i < ids.len()
        invariant
            i <= ids@.len(),
            keep == |x: u64| x != id,
            kept@ == ids@.take(i as int).filter(keep),
        decreases ids@.len() - i,
    {
        proof {
            assert(ids@.take(i + 1).drop_last() =~= ids@.take(i as int));
            reveal(Seq::filter);
        }
        if ids[i] != id {
            kept.push(ids[i]);
        }
        i += 1;
    }
    assert(ids@.take(ids@.len() as int) =~= ids@);
    kept
}

/// The edit in a line.
pub fn parse_line(line: &[u8]) -> (result: Result<Option<ManifestEdit>, Error>)
    ensures
        match result {
            Ok(edit) => edit_of(line@) == Ok::<Option<ManifestEdit>, Fault>(edit),
            Err(e) => edit_of(line@) == Err::<Option<ManifestEdit>, Fault>(e@),
        },
{
    if !text::is_utf8(line) {
        return Err(Error::Io("stream did not contain valid UTF-8".to_owned()));
    }
    let fields = text::split(line, COLON);
    let ghost parts = text::parts(line@, 58);
    assert(parts.len() > 0);
    assert(parts[0] == fields@[0]@);
    if is_word(&fields[0], 83, 83, 84) {
        match parse_place(&fields, MAX_ID) {
            Some((level, id)) => Ok(Some(ManifestEdit::AddSst { level, id })),
            None => Err(Error::corruption("Malformed manifest line")),
        }
    } else if is_word(&fields[0], 68, 69, 76) {
        match parse_place(&fields, u64::MAX) {
            Some((level, id)) => Ok(Some(ManifestEdit::RemoveSst { level, id })),
            None => Err(Error::corruption("Malformed manifest line")),
        }
    } else if is_word(&fields[0], 87, 65, 76) {
        if fields.len() < 2 {
            return Err(Error::corruption("Malformed manifest line"));
        }
        assert(parts[1] == fields@[1]@);
        match text::parse_decimal(fields[1].as_slice(), MAX_ID) {
            Some(id) => Ok(Some(ManifestEdit::AddWal { id })),
            None => Err(Error::corruption("Malformed manifest line")),
        }
    } else {
        Ok(None)
    }
}

fn is_word(field: &Vec<u8>, a: u8, b: u8, c: u8) -> (result: bool)
    ensures
        result == (field@ == seq![a, b, c]),
{
    let result = field.len() == 3 && field[0] == a && field[1] == b && field[2] == c;
    assert(result ==> field@ =~= seq![a, b, c]);
    result
}

fn parse_place(fields: &Vec<Vec<u8>>, max: u64) -> (result: Option<(u32, u64)>)
    ensures
        result == place(text::byte_strings(fields@), max),
{
    let ghost parts = text::byte_strings(fields@);
    if fields.len() < 3 {
        return None;
    }
    assert(parts[1] == fields@[1]@ && parts[2] == fields@[2]@);
    let level: u64 = match text::parse_decimal(fields[1].as_slice(), u32::MAX as u64) {
        Some(level) => level,
        None => {
            return None;
        },
    };
    let id: u64 = match text::parse_decimal(fields[2].as_slice(), max) {
        Some(id) => id,
        None => {
            return None;
        },
    };
    Some((level as u32, id))
}

/// The fields of an edit's line are read back.
proof fn lemma_line_fields(word: Seq<u8>, numbers: Seq<Seq<u8>>)
    requires
        forall|i: int| 0 <= i < word.len() ==> #[trigger] word[i] != 58,
        1 <= numbers.len() <= 2,
        forall|k: int, i: int|
            #![trigger numbers[k][i]]
            0 <= k < numbers.len() && 0 <= i < numbers[k].len() ==> text::is_digit(numbers[k][i]),
    ensures
        numbers.len() == 1 ==> text::parts(word + seq![58u8] + numbers[0], 58) == seq![
            word,
            numbers[0],
        ],
        numbers.len() == 2 ==> text::parts(
            word + seq![58u8] + (numbers[0] + seq![58u8] + numbers[1]),
            58,
        ) == seq![word, numbers[0], numbers[1]],
{
    let first = numbers[0];
    assert forall|i: int| 0 <= i < first.len() implies #[trigger] first[i] != 58 by {
        assert(text::is_digit(numbers[0][i]));
    }
    if numbers.len() == 1 {
        text::lemma_first_behind(word, 58, first);
        text::lemma_first_behind(first, 58, Seq::empty());
        assert(text::parts(first, 58) == seq![first]);
        assert(seq![word] + seq![first] =~= seq![word, first]);
    } else {
        let second = numbers[1];
        assert forall|i: int| 0 <= i < second.len() implies #[trigger] second[i] != 58 by {
            assert(text::is_digit(numbers[1][i]));
        }
        let rest = first + seq![58u8] + second;
        text::lemma_first_behind(word, 58, rest);
        text::lemma_first_behind(first, 58, second);
        text::lemma_first_behind(second, 58, Seq::empty());
        assert(text::parts(second, 58) == seq![second]);
        assert(text::parts(rest, 58) == seq![first] + seq![second]);
        assert(seq![word] + (seq![first] + seq![second]) =~= seq![word, first, second]);
    }
}

/// A line without line ends in it is read back.
proof fn lemma_first_line(body: Seq<u8>, rest: Seq<u8>)
    requires
        forall|i: int| 0 <= i < body.len() ==> #[trigger] body[i] != 10 && body[i] != 13,
    ensures
        first_line(body + seq![10u8] + rest) == (body, rest),
{
    text::lemma_first_behind(body, 10, rest);
    let data = body + seq![10u8] + rest;
    if body.len() > 0 {
        assert(body.last() == body[body.len() - 1]);
    }
}

/// An edit with a number that another follows keeps the numbers in order.
pub proof fn lemma_edited_numbered(m: ManifestView, edit: ManifestEdit)
    requires
        m.numbered(),
        numbered(edit),
    ensures
        m.edited(edit).numbered(),
{
    let after = m.edited(edit);
    assert forall|level: u32, i: int|
        #![trigger after.levels[level][i]]
        after.levels.contains_key(level) && 0 <= i < after.levels[level].len() implies
        after.levels[level][i] <= MAX_ID && after.levels[level][i] < after.next_sst_id by {
        match edit {
            ManifestEdit::AddSst { level: l, id } => {
                if level == l {
                    if i < m.tables(l).len() {
                        assert(m.levels[level][i] < m.next_sst_id);
                    }
                } else {
                    assert(m.levels[level][i] < m.next_sst_id);
                }
            },
            ManifestEdit::RemoveSst { level: l, id } => {
                if m.levels.contains_key(l) && level == l {
                    let keep = |x: u64| x != id;
                    let ids = m.levels[l];
                    ids.lemma_filter_contains_rev(keep, ids.filter(keep)[i]);
                    let k = choose|k: int| 0 <= k < ids.len() && ids[k] == ids.filter(keep)[i];
                    assert(m.levels[l][k] < m.next_sst_id);
                } else {
                    assert(m.levels[level][i] < m.next_sst_id);
                }
            },
            ManifestEdit::AddWal { id } => {
                assert(m.levels[level][i] < m.next_sst_id);
            },
        }
    }
}

proof fn lemma_replayed_numbered(m: ManifestView, data: Seq<u8>)
    requires
        m.numbered(),
    ensures
        replayed(m, data) matches Ok(after) ==> after.numbered(),
    decreases data.len(),
{
    text::lemma_first_at(data, 10, 0);
    if data.len() > 0 {
        let (line, rest) = first_line(data);
        match edit_of(line) {
            Ok(None) => {
                lemma_replayed_numbered(m, rest);
            },
            Ok(Some(edit)) => {
                lemma_edited_numbered(m, edit);
                lemma_replayed_numbered(m.edited(edit), rest);
            },
            Err(_) => {},
        }
    }
}

/// The number that the edit adds is one that another follows.
pub open spec fn numbered(edit: ManifestEdit) -> bool {
    match edit {
        ManifestEdit::AddSst { id, .. } => id <= MAX_ID,
        ManifestEdit::RemoveSst { .. } => true,
        ManifestEdit::AddWal { id } => id <= MAX_ID,
    }
}

proof fn lemma_edit_line(edit: ManifestEdit, rest: Seq<u8>)
    requires
        numbered(edit),
    ensures
        ({
            let (line, after) = first_line(line_of(edit) + rest);
            &&& after == rest
            &&& edit_of(line) == Ok::<Option<ManifestEdit>, Fault>(Some(edit))
        }),
{
    match edit {
        ManifestEdit::AddSst { level, id } => {
            let word = seq![83u8, 83, 84];
            lemma_place_line(word, level, id, MAX_ID, rest);
            let body = word + seq![58u8] + (text::digits(level as nat) + seq![58u8]
                + text::digits(id as nat));
            assert(line_of(edit) + rest =~= body + seq![10u8] + rest);
        },
        ManifestEdit::RemoveSst { level, id } => {
            let word = seq![68u8, 69, 76];
            lemma_place_line(word, level, id, u64::MAX, rest);
            let body = word + seq![58u8] + (text::digits(level as nat) + seq![58u8]
                + text::digits(id as nat));
            assert(line_of(edit) + rest =~= body + seq![10u8] + rest);
            assert(word[0] != 83);
            assert(word != seq![83u8, 83, 84]) by {
                assert(seq![83u8, 83, 84][0] == 83);
            }
        },
        ManifestEdit::AddWal { id } => {
            let word = seq![87u8, 65, 76];
            text::lemma_decimal_round_trip(id as nat, MAX_ID as nat);
            let number = text::digits(id as nat);
            lemma_line_fields(word, seq![number]);
            let body = word + seq![58u8] + number;
            assert forall|i: int| 0 <= i < body.len() implies #[trigger] body[i] != 10 && body[i]
                != 13 && body[i] < 128 by {
                if i > 3 {
                    assert(body[i] == number[i - 4]);
                }
            }
            lemma_first_line(body, rest);
            text::lemma_ascii_is_utf8(body);
            assert(line_of(edit) + rest =~= body + seq![10u8] + rest);
            assert(word[0] == 87);
            assert(seq![83u8, 83, 84][0] == 83 && seq![68u8, 69, 76][0] == 68);
        },
    }
}

proof fn lemma_place_line(word: Seq<u8>, level: u32, id: u64, max: u64, rest: Seq<u8>)
    requires
        word.len() == 3,
        forall|i: int| 0 <= i < 3 ==> 65 <= #[trigger] word[i] <= 90,
        id <= max,
    ensures
        ({
            let body = word + seq![58u8] + (text::digits(level as nat) + seq![58u8] + text::digits(
                id as nat,
            ));
            &&& first_line(body + seq![10u8] + rest) == (body, rest)
            &&& text::parts(body, 58)[0] == word
            &&& place(text::parts(body, 58), max) == Some((level, id))
            &&& vstd::utf8::valid_utf8(body)
        }),
{
    let a = text::digits(level as nat);
    let b = text::digits(id as nat);
    text::lemma_decimal_round_trip(level as nat, u32::MAX as nat);
    text::lemma_decimal_round_trip(id as nat, max as nat);
    let numbers = seq![a, b];
    assert forall|k: int, i: int|
        #![trigger numbers[k][i]]
        0 <= k < numbers.len() && 0 <= i < numbers[k].len() implies text::is_digit(
        numbers[k][i],
    ) by {
        if k == 0 {
            assert(text::is_digit(a[i]));
        } else {
            assert(text::is_digit(b[i]));
        }
    }
    lemma_line_fields(word, numbers);
    let body = word + seq![58u8] + (a + seq![58u8] + b);
    assert forall|i: int| 0 <= i < body.len() implies #[trigger] body[i] != 10 && body[i] != 13
        && body[i] < 128 by {
        if i < 3 {
            assert(body[i] == word[i]);
        } else if 3 < i < 4 + a.len() {
            assert(text::is_digit(a[i - 4]));
            assert(body[i] == a[i - 4]);
        } else if i > 4 + a.len() {
            assert(text::is_digit(b[i - 5 - a.len()]));
            assert(body[i] == b[i - 5 - a.len()]);
        }
    }
    lemma_first_line(body, rest);
    text::lemma_ascii_is_utf8(body);
}

/// A manifest that is read back holds what the edits in its file made of it.
pub proof fn lemma_edits_are_replayed(m: ManifestView, edits: Seq<ManifestEdit>)
    requires
        forall|i: int| 0 <= i < edits.len() ==> numbered(#[trigger] edits[i]),
    ensures
        replayed(m, text_of(edits)) == Ok::<ManifestView, Fault>(m.edited_by(edits)),
    decreases edits.len(),
{
    if edits.len() > 0 {
        let rest = text_of(edits.skip(1));
        lemma_edit_line(edits[0], rest);
        assert forall|i: int| 0 <= i < edits.skip(1).len() implies numbered(
            #[trigger] edits.skip(1)[i],
        ) by {
            assert(numbered(edits[i + 1]));
        }
        lemma_edits_are_replayed(m.edited(edits[0]), edits.skip(1));
        assert(line_of(edits[0]).len() > 0);
    }
}

} // verus!
