//! The line classifier and section tracker: from the text of a document to its sections.
use crate::decode::{decode, decode_spec, lemma_decode, MAX_DEPTH};
use crate::error::{ErrorKind, Fault, ParseError};
use crate::ordered_map::{
    distinct_keys, find_key, lemma_find_key, lemma_find_key_is, lemma_upsert_distinct, upsert,
    OrderedMap,
};
use crate::text::{
    chars_of, is_space, is_word, join, lemma_run_end, lemma_trim_end, positions, run_end, skip,
    slices, split, split_on, string_of, trim, trim_end, trim_trailing, trimmed, CharClass,
};
use crate::value::{
    entries_view, lemma_entries_view_upsert, lemma_same_keys, Datum, Entries, Value,
};
use vstd::prelude::*;

verus! {

/// A line that says nothing: an empty one, or a comment, which starts with `#` or `//`.
pub open spec fn is_ignorable(line: Seq<char>) -> bool {
    ||| line.len() == 0
    ||| line[0] == '#'
    ||| line.len() >= 2 && line[0] == '/' && line[1] == '/'
}

/// `s` without the closing angle brackets it ends with.
pub open spec fn without_closers(s: Seq<char>) -> Seq<char>
    decreases s.len(),
{
    if s.len() > 0 && s.last() == '>' {
        without_closers(s.drop_last())
    } else {
        s
    }
}

/// No character of `s` is a closing angle bracket.
pub open spec fn no_closer(s: Seq<char>) -> bool {
    forall|i: int| 0 <= i < s.len() ==> #[trigger] s[i] != '>'
}

/// What a section header names. A header is an opening angle bracket, the names, and closing
/// angle brackets to the end of the line: at least one, and at most as many as there are
/// opening brackets. The names are not empty and hold no closing bracket; an opening bracket
/// among them starts the name of a section within.
pub open spec fn header_names(line: Seq<char>) -> Option<Seq<char>> {
    let names = without_closers(line.drop_first());
    if line.len() > 0 && line[0] == '<' && line.last() == '>' && names.len() > 0 && no_closer(
        names,
    ) && line.len() - 1 - names.len() <= 1 + positions(names, '<', names.len() as int).len() {
        Some(names)
    } else {
        None
    }
}

/// Every text of `parts`, trimmed.
pub open spec fn trimmed_all(parts: Seq<Seq<char>>) -> Seq<Seq<char>> {
    Seq::new(parts.len(), |i: int| trimmed(parts[i]))
}

/// The path of the section that a header names: the names between the opening brackets,
/// trimmed and joined by `/`.
pub open spec fn canonical_path(names: Seq<char>) -> Seq<char> {
    join(trimmed_all(split(names, '<')), '/')
}

/// The key and the text of the value on a line that gives a key its value. Such a line is an
/// identifier of at least one character, the marker `==` with or without white space around
/// it, and a value that starts with something other than white space. The value goes to the
/// end of the line, less the white space there.
pub open spec fn key_value(line: Seq<char>) -> Option<(Seq<char>, Seq<char>)> {
    let key_end = run_end(line, CharClass::Word, 0);
    let marker = run_end(line, CharClass::Space, key_end);
    let start = run_end(line, CharClass::Space, marker + 2);
    if key_end > 0 && marker + 2 <= line.len() && line[marker] == '=' && line[marker + 1] == '='
        && start < line.len() {
        Some((line.subrange(0, key_end), trim_end(line.subrange(start, line.len() as int))))
    } else {
        None
    }
}

/// On a line that gives a key its value, the key is an identifier of at least one character,
/// and the text of the value is not empty and has no white space at either end.
pub proof fn lemma_key_value(line: Seq<char>)
    ensures
        key_value(line) matches Some(pair) ==> {
            &&& pair.0.len() > 0
            &&& forall|i: int| 0 <= i < pair.0.len() ==> is_word(#[trigger] pair.0[i])
            &&& pair.1.len() > 0
            &&& !is_space(pair.1[0])
            &&& !is_space(pair.1.last())
        },
{
    if key_value(line) is Some {
        let key_end = run_end(line, CharClass::Word, 0);
        let marker = run_end(line, CharClass::Space, key_end);
        let start = run_end(line, CharClass::Space, marker + 2);
        lemma_run_end(line, CharClass::Word, 0);
        lemma_run_end(line, CharClass::Space, key_end);
        lemma_run_end(line, CharClass::Space, marker + 2);
        let rest = line.subrange(start, line.len() as int);
        lemma_trim_end(rest);
        assert(rest[0] == line[start]);
        assert(trim_end(rest).len() > 0) by {
            if trim_end(rest).len() == 0 {
                assert(is_space(rest[0]));
            }
        }
        assert(trim_end(rest)[0] == rest[0]);
        assert forall|i: int| 0 <= i < key_end implies is_word(
            #[trigger] line.subrange(0, key_end)[i],
        ) by {
            assert(CharClass::Word.has(line[i]));
        }
    }
}

/// The shapes of a line.
pub enum LineShape {
    /// An empty line or a comment.
    Ignorable,
    /// A section header, with the names it holds.
    Header(Seq<char>),
    /// A key and the text of its value.
    KeyValue(Seq<char>, Seq<char>),
    /// Anything else.
    Unrecognized,
}

/// The shape of a trimmed line. The first that fits decides: ignorable, header, key and value.
pub open spec fn shape_of(line: Seq<char>) -> LineShape {
    if is_ignorable(line) {
        LineShape::Ignorable
    } else if header_names(line) is Some {
        LineShape::Header(header_names(line).unwrap())
    } else if key_value(line) is Some {
        LineShape::KeyValue(key_value(line).unwrap().0, key_value(line).unwrap().1)
    } else {
        LineShape::Unrecognized
    }
}

/// A line, told apart by its shape.
pub enum Line<'a> {
    /// An empty line or a comment.
    Ignorable,
    /// A section header, with the names it holds.
    Header(&'a [char]),
    /// A key and the text of its value.
    KeyValue(&'a [char], &'a [char]),
    /// Anything else.
    Unrecognized,
}

impl<'a> View for Line<'a> {
    type V = LineShape;

    open spec fn view(&self) -> LineShape {
        match self {
            Line::Ignorable => LineShape::Ignorable,
            Line::Header(names) => LineShape::Header(names@),
            Line::KeyValue(key, token) => LineShape::KeyValue(key@, token@),
            Line::Unrecognized => LineShape::Unrecognized,
        }
    }
}

/// Tells whether a line says nothing.
pub fn ignorable(line: &[char]) -> (r: bool)
    ensures
        r == is_ignorable(line@),
{
    line.len() == 0 || line[0] == '#' || (line.len() >= 2 && line[0] == '/' && line[1] == '/')
}

/// The names that a section header holds, if `line` is one.
pub fn read_header<'a>(line: &'a [char]) -> (r: Option<&'a [char]>)
    ensures
        match r {
            Some(names) => header_names(line@) == Some(names@),
            None => header_names(line@) is None,
        },
{
    if line.len() == 0 || line[0] != '<' || line[line.len() - 1] != '>' {
        return None;
    }
    let rest: &[char] = &line[1..line.len()];
    assert(rest@ == line@.drop_first());
    let mut hi: usize = rest.len();
    assert(rest@.subrange(0, hi as int) == rest@);
    while hi > 0 && rest[hi - 1] == '>'
        invariant
            hi <= rest.len(),
            without_closers(rest@) == without_closers(rest@.subrange(0, hi as int)),
        decreases hi,
    {
        assert(rest@.subrange(0, hi as int).drop_last() == rest@.subrange(0, hi - 1));
        hi -= 1;
    }
    let names: &[char] = &rest[0..hi];
    if hi == 0 {
        return None;
    }
    assert(names@ == without_closers(line@.drop_first()));
    let closers: usize = rest.len() - hi;
    let mut openers: usize = 1;
    let mut i: usize = 0;
    while i < hi
        invariant
            i <= hi,
            hi == names.len(),
            hi > 0,
            line@.len() > 0 && line@[0] == '<' && line@.last() == '>',
            names@ == without_closers(line@.drop_first()),
            forall|j: int| 0 <= j < i ==> #[trigger] names@[j] != '>',
            openers == 1 + positions(names@, '<', i as int).len(),
            openers <= 1 + i,
            hi < line.len(),
        decreases hi - i,
    {
        if names[i] == '>' {
            return None;
        }
        if names[i] == '<' {
            openers += 1;
        }
        i += 1;
    }
    if closers > openers {
        return None;
    }
    Some(names)
}

/// The key and the text of the value, if `line` gives a key its value.
pub fn read_key_value<'a>(line: &'a [char]) -> (r: Option<(&'a [char], &'a [char])>)
    ensures
        match r {
            Some(pair) => key_value(line@) == Some((pair.0@, pair.1@)),
            None => key_value(line@) is None,
        },
{
    let key_end: usize = skip(line, CharClass::Word, 0);
    let marker: usize = skip(line, CharClass::Space, key_end);
    if key_end == 0 || line.len() - marker < 2 || line[marker] != '=' || line[marker + 1] != '=' {
        return None;
    }
    let start: usize = skip(line, CharClass::Space, marker + 2);
    if start == line.len() {
        return None;
    }
    Some((&line[0..key_end], trim_trailing(&line[start..line.len()])))
}

/// Tells the shape of a trimmed line.
pub fn classify<'a>(line: &'a [char]) -> (r: Line<'a>)
    ensures
        r@ == shape_of(line@),
{
    if ignorable(line) {
        return Line::Ignorable;
    }
    if let Some(names) = read_header(line) {
        return Line::Header(names);
    }
    if let Some(pair) = read_key_value(line) {
        return Line::KeyValue(pair.0, pair.1);
    }
    Line::Unrecognized
}

/// Appends the characters of `s` to `out`.
fn append(out: &mut Vec<char>, s: &[char])
    ensures
        final(out)@ == old(out)@ + s@,
{
    let mut i: usize = 0;
    while i < s.len()
        invariant
            i <= s.len(),
            out@ == old(out)@ + s@.take(i as int),
        decreases s.len() - i,
    {
        out.push(s[i]);
        assert(s@.take(i + 1) == s@.take(i as int).push(s@[i as int]));
        i += 1;
    }
    assert(s@.take(i as int) == s@);
}

/// The path of the section that a header with these names opens.
pub fn section_path(names: &[char]) -> (r: String)
    ensures
        r@ == canonical_path(names@),
{
    let parts = split_on(names, '<');
    let ghost wanted = trimmed_all(slices(parts@));
    let mut out: Vec<char> = Vec::new();
    let mut k: usize = 0;
    assert(wanted.take(0) == Seq::<Seq<char>>::empty());
    while k < parts.len()
        invariant
            k <= parts.len(),
            wanted == trimmed_all(slices(parts@)),
            out@ == join(wanted.take(k as int), '/'),
        decreases parts.len() - k,
    {
        let ghost now = wanted.take(k + 1);
        assert(now.drop_last() == wanted.take(k as int));
        assert(now.last() == trimmed(parts@[k as int]@));
        if k > 0 {
            out.push('/');
        }
        append(&mut out, trim(parts[k]));
        assert(out@ == join(now, '/')) by {
            if k == 0 {
                assert(now[0] == now.last());
            }
        }
        k += 1;
    }
    assert(wanted.take(k as int) == wanted);
    string_of(out.as_slice())
}

/// The sections of a configuration: each path with the entries under it, in the order in which
/// the sections were first opened.
pub type Sections = Seq<(Seq<char>, Entries)>;

/// What the sections of a configuration stand for.
pub open spec fn sections_view(sections: Seq<(String, OrderedMap<Value>)>) -> Sections {
    Seq::new(sections.len(), |i: int| (sections[i].0@, entries_view(sections[i].1.entries@)))
}

/// The sections with one at `path`: as they are if there is one, else with an empty section
/// at the end.
pub open spec fn opened(sections: Sections, path: Seq<char>) -> Sections {
    if find_key(sections, path) is Some {
        sections
    } else {
        sections.push((path, Seq::empty()))
    }
}

/// The sections with `value` under `key` in the section at `path`, if there is such a section.
pub open spec fn stored(sections: Sections, path: Seq<char>, key: Seq<char>, value: Datum) -> Option<
    Sections,
> {
    match find_key(sections, path) {
        Some(i) => Some(sections.update(i, (sections[i].0, upsert(sections[i].1, key, value)))),
        None => None,
    }
}

/// A configuration: sections by their paths, and in each section values by their keys.
#[derive(Debug)]
pub struct ThethaCoreConfig {
    /// The sections. A path is a name such as `database`, or names joined by `/` such as
    /// `database/advanced`.
    pub sections: OrderedMap<OrderedMap<Value>>,
}

impl Clone for ThethaCoreConfig {
    /// A copy with the same sections and entries.
    fn clone(&self) -> (r: Self)
        ensures
            r@ == self@,
    {
        let mut copies: Vec<(String, OrderedMap<Value>)> = Vec::new();
        let mut i: usize = 0;
        while i < self.sections.entries.len()
            invariant
                i <= self.sections.entries.len(),
                copies@.len() == i,
                forall|j: int|
                    0 <= j < i ==> (#[trigger] sections_view(copies@)[j]) == sections_view(
                        self.sections.entries@,
                    )[j],
            decreases self.sections.entries.len() - i,
        {
            let ghost before = sections_view(copies@);
            let path: String = self.sections.entries[i].0.clone();
            let section: OrderedMap<Value> = copy_section(&self.sections.entries[i].1);
            copies.push((path, section));
            assert forall|j: int| 0 <= j < i + 1 implies (#[trigger] sections_view(copies@)[j])
                == sections_view(self.sections.entries@)[j] by {
                if j < i {
                    assert(sections_view(copies@)[j] == before[j]);
                }
            }
            i += 1;
        }
        let r = ThethaCoreConfig { sections: OrderedMap { entries: copies } };
        assert(r@ =~= self@);
        r
    }
}

/// A copy of a section: the same keys in the same order, each with a copy of its value.
fn copy_section(section: &OrderedMap<Value>) -> (r: OrderedMap<Value>)
    ensures
        entries_view(r.entries@) == entries_view(section.entries@),
{
    let mut copies: Vec<(String, Value)> = Vec::new();
    let mut i: usize = 0;
    while i < section.entries.len()
        invariant
            i <= section.entries.len(),
            copies@.len() == i,
            forall|j: int|
                0 <= j < i ==> (#[trigger] copies@[j]).0@ == section.entries@[j].0@
                    && copies@[j].1@ == section.entries@[j].1@,
        decreases section.entries.len() - i,
    {
        copies.push((section.entries[i].0.clone(), section.entries[i].1.clone()));
        i += 1;
    }
    assert(entries_view(copies@) =~= entries_view(section.entries@));
    OrderedMap { entries: copies }
}

impl ThethaCoreConfig {
    /// The sections with their entries.
    pub open spec fn view(&self) -> Sections {
        sections_view(self.sections.entries@)
    }

    /// A configuration without sections.
    pub fn new() -> (r: Self)
        ensures
            r@ == Sections::empty(),
            well_formed(r@),
    {
        let r = ThethaCoreConfig { sections: OrderedMap::new() };
        assert(r@ =~= Sections::empty());
        r
    }

    /// Opens the section at `path`. A section that is there already stays as it is, with all
    /// its entries; a new one starts empty.
    pub fn open_section(&mut self, path: String)
        ensures
            final(self)@ == opened(old(self)@, path@),
            well_formed(old(self)@) ==> well_formed(final(self)@),
    {
        proof {
            lemma_paths(self.sections, path@);
            if well_formed(self@) {
                lemma_opened(self@, path@);
            }
        }
        match self.sections.position(path.as_str()) {
            Some(_) => {},
            None => {
                let section: OrderedMap<Value> = OrderedMap::new();
                assert(entries_view(section.entries@) =~= Entries::empty());
                self.sections.entries.push((path, section));
                assert(self@ =~= old(self)@.push((path@, Seq::empty())));
            },
        }
    }

    /// Puts `value` under `key` in the section at `path`. The section must have been opened:
    /// if it was not, nothing changes and the error is `SectionNotInitialized`.
    pub fn insert(&mut self, path: &str, key: String, value: Value) -> (r: Result<(), ErrorKind>)
        ensures
            match stored(old(self)@, path@, key@, value@) {
                Some(sections) => r is Ok && final(self)@ == sections,
                None => r == Err::<(), ErrorKind>(ErrorKind::SectionNotInitialized) && final(self)@
                    == old(self)@,
            },
            well_formed(old(self)@) && value@.well_formed() ==> well_formed(final(self)@),
    {
        proof {
            lemma_paths(self.sections, path@);
            lemma_find_key(self.sections@, path@);
            if well_formed(self@) && value@.well_formed() {
                lemma_stored(self@, path@, key@, value@);
            }
        }
        match self.sections.position(path) {
            None => Err(ErrorKind::SectionNotInitialized),
            Some(i) => {
                let ghost before = self.sections.entries@[i as int].1;
                let ghost key_text = key@;
                let section = &mut self.sections.entries[i];
                section.1.insert(key, value);
                proof {
                    lemma_entries_view_upsert(
                        before,
                        self.sections.entries@[i as int].1,
                        key_text,
                        value,
                    );
                    assert(self@ =~= stored(old(self)@, path@, key_text, value@).unwrap());
                }
                Ok(())
            },
        }
    }

    /// Reads a document. The result is the sections with their entries, or the message of the
    /// error of the first line that has one; after an error nothing of the document is given
    /// out.
    pub fn parse(input: &str) -> (r: Result<ThethaCoreConfig, String>)
        ensures
            parse_result(input@, r),
            r matches Ok(config) ==> well_formed(config@),
    {
        match Self::parse_structured(input) {
            Ok(config) => Ok(config),
            Err(error) => Err(error.message()),
        }
    }

    /// Reads a document as `parse` does, and gives an error as its kind, its line and the text
    /// at fault.
    pub fn parse_structured(input: &str) -> (r: Result<ThethaCoreConfig, ParseError>)
        ensures
            parsed(r) == parse_spec(input@),
            r matches Ok(config) ==> well_formed(config@),
            r matches Err(error) ==> error.line >= 1 && error.kind
                != ErrorKind::SectionNotInitialized,
    {
        proof {
            lemma_parse_sound(input@);
        }
        let text = chars_of(input);
        let lines = split_on(text.as_slice(), '\n');
        let mut config = ThethaCoreConfig::new();
        let mut current: Option<String> = None;
        let mut k: usize = 0;
        while k < lines.len()
            invariant
                k <= lines.len(),
                slices(lines@) == split(input@, '\n'),
                parse_spec(input@) matches Err(fault) ==> fault.line >= 1 && fault.kind
                    != ErrorKind::SectionNotInitialized,
                run(slices(lines@), k as nat) == Ok::<Cursor, Fault>(
                    Cursor { sections: config@, current: path_view(current) },
                ),
            decreases lines.len() - k,
        {
            let ghost all = slices(lines@);
            let ghost before = Cursor { sections: config@, current: path_view(current) };
            assert(all[k as int] == lines@[k as int]@);
            let line: &[char] = trim(lines[k]);
            match classify(line) {
                Line::Ignorable => {},
                Line::Header(names) => {
                    let path: String = section_path(names);
                    config.open_section(path.clone());
                    current = Some(path);
                },
                Line::KeyValue(key, token) => {
                    match &current {
                        None => {
                            let error = ParseError {
                                kind: ErrorKind::KeyOutsideSection,
                                line: k + 1,
                                text: string_of(line),
                            };
                            proof {
                                assert(step(before, all[k as int], (k + 1) as nat) == Err::<
                                    Cursor,
                                    Fault,
                                >(error@));
                                lemma_run_error(all, (k + 1) as nat, all.len());
                            }
                            return Err(error);
                        },
                        Some(path) => {
                            match decode(token, k + 1, MAX_DEPTH) {
                                Err(error) => {
                                    proof {
                                        assert(step(before, all[k as int], (k + 1) as nat) == Err::<
                                            Cursor,
                                            Fault,
                                        >(error@));
                                        lemma_run_error(all, (k + 1) as nat, all.len());
                                    }
                                    return Err(error);
                                },
                                Ok(value) => {
                                    match config.insert(path.as_str(), string_of(key), value) {
                                        Ok(()) => {},
                                        Err(kind) => {
                                            let error = ParseError {
                                                kind,
                                                line: k + 1,
                                                text: path.clone(),
                                            };
                                            proof {
                                                assert(step(before, all[k as int], (k + 1) as nat)
                                                    == Err::<Cursor, Fault>(error@));
                                                lemma_run_error(
                                                    all,
                                                    (k + 1) as nat,
                                                    all.len(),
                                                );
                                            }
                                            return Err(error);
                                        },
                                    }
                                },
                            }
                        },
                    }
                },
                Line::Unrecognized => {
                    let error = ParseError {
                        kind: ErrorKind::Syntax,
                        line: k + 1,
                        text: string_of(line),
                    };
                    proof {
                        assert(step(before, all[k as int], (k + 1) as nat) == Err::<Cursor, Fault>(
                            error@,
                        ));
                        lemma_run_error(all, (k + 1) as nat, all.len());
                    }
                    return Err(error);
                },
            }
            k += 1;
        }
        Ok(config)
    }
}

/// Where the reader of a document stands between two lines.
pub struct Cursor {
    /// The sections read so far.
    pub sections: Sections,
    /// The path of the section that the last header opened, if there was a header.
    pub current: Option<Seq<char>>,
}

/// Where the reader stands after one more line, whose number is `number`, or the error that
/// the line brings.
///
/// The line is trimmed first. An ignorable line changes nothing. A header opens its section
/// and makes it the current one. A key with its value needs a current section, else the error
/// is `KeyOutsideSection`; the value is decoded, and goes under the key in the current section,
/// in the place of a value that was there. Any other line is a `Syntax` error.
pub open spec fn step(cursor: Cursor, raw: Seq<char>, number: nat) -> Result<Cursor, Fault> {
    let line = trimmed(raw);
    match shape_of(line) {
        LineShape::Ignorable => Ok(cursor),
        LineShape::Header(names) => Ok(
            Cursor {
                sections: opened(cursor.sections, canonical_path(names)),
                current: Some(canonical_path(names)),
            },
        ),
        LineShape::KeyValue(key, token) => match cursor.current {
            None => Err(Fault { kind: ErrorKind::KeyOutsideSection, line: number, text: line }),
            Some(path) => match decode_spec(token, number, MAX_DEPTH as nat) {
                Err(fault) => Err(fault),
                Ok(value) => match stored(cursor.sections, path, key, value) {
                    Some(sections) => Ok(Cursor { sections, current: cursor.current }),
                    None => Err(
                        Fault { kind: ErrorKind::SectionNotInitialized, line: number, text: path },
                    ),
                },
            },
        },
        LineShape::Unrecognized => Err(
            Fault { kind: ErrorKind::Syntax, line: number, text: line },
        ),
    }
}

/// Where the reader stands after the first `n` of the lines, or the error of the first line
/// that brings one. Lines are numbered from 1.
pub open spec fn run(lines: Seq<Seq<char>>, n: nat) -> Result<Cursor, Fault>
    decreases n,
{
    if n == 0 {
        Ok(Cursor { sections: Seq::empty(), current: None })
    } else {
        match run(lines, (n - 1) as nat) {
            Err(fault) => Err(fault),
            Ok(cursor) => step(cursor, lines[n - 1], n),
        }
    }
}

/// The sections that a document holds, or the error of its first line that has one. The lines
/// of a document are the pieces between its line feeds.
pub open spec fn parse_spec(text: Seq<char>) -> Result<Sections, Fault> {
    match run(split(text, '\n'), split(text, '\n').len()) {
        Ok(cursor) => Ok(cursor.sections),
        Err(fault) => Err(fault),
    }
}

/// What the result of parsing stands for.
pub open spec fn parsed(r: Result<ThethaCoreConfig, ParseError>) -> Result<Sections, Fault> {
    match r {
        Ok(config) => Ok(config@),
        Err(error) => Err(error@),
    }
}

/// What `parse` gives for a text: the sections that the text holds, or the message of its
/// error.
pub open spec fn parse_result(text: Seq<char>, r: Result<ThethaCoreConfig, String>) -> bool {
    match r {
        Ok(config) => parse_spec(text) matches Ok(sections) && sections == config@,
        Err(message) => parse_spec(text) matches Err(fault) && message@ == fault.message(),
    }
}

/// The text of the current path, if there is one.
pub open spec fn path_view(current: Option<String>) -> Option<Seq<char>> {
    match current {
        Some(path) => Some(path@),
        None => None,
    }
}

/// An error on one of the first lines is the error of the whole document.
pub proof fn lemma_run_error(lines: Seq<Seq<char>>, k: nat, n: nat)
    requires
        k <= n,
        run(lines, k) is Err,
    ensures
        run(lines, n) == run(lines, k),
    decreases n,
{
    if k < n {
        lemma_run_error(lines, k, (n - 1) as nat);
    }
}

/// The sections are such as a document can hold: no path comes twice, no key comes twice in a
/// section, and every value is well formed.
pub open spec fn well_formed(sections: Sections) -> bool {
    &&& distinct_keys(sections)
    &&& forall|i: int|
        0 <= i < sections.len() ==> Datum::Object((#[trigger] sections[i]).1).well_formed()
}

/// The reader stands on firm ground: the sections are well formed, and the current section is
/// one of them.
pub open spec fn consistent(cursor: Cursor) -> bool {
    &&& well_formed(cursor.sections)
    &&& cursor.current matches Some(path) ==> find_key(cursor.sections, path) is Some
}

/// Opening a section keeps well-formed sections well formed, and the section is there
/// afterwards, as is every section that was there before.
pub proof fn lemma_opened(sections: Sections, path: Seq<char>)
    requires
        well_formed(sections),
    ensures
        well_formed(opened(sections, path)),
        find_key(opened(sections, path), path) is Some,
        forall|other: Seq<char>|
            find_key(sections, other) is Some ==> find_key(opened(sections, path), other)
                == find_key(sections, other),
{
    let after = opened(sections, path);
    lemma_find_key(sections, path);
    if find_key(sections, path) is None {
        lemma_find_key_is(after, path, sections.len() as int);
        assert forall|i: int, j: int| 0 <= i < j < after.len() implies (#[trigger] after[i]).0
            != (#[trigger] after[j]).0 by {
            if j < sections.len() {
                assert(sections[i].0 != sections[j].0);
            } else {
                assert(sections[i].0 != path);
            }
        }
        assert forall|i: int| 0 <= i < after.len() implies Datum::Object(
            (#[trigger] after[i]).1,
        ).well_formed() by {
            if i < sections.len() {
                assert(Datum::Object(sections[i].1).well_formed());
            }
        }
        assert forall|other: Seq<char>| find_key(sections, other) is Some implies find_key(
            after,
            other,
        ) == find_key(sections, other) by {
            lemma_find_key(sections, other);
            let at = find_key(sections, other).unwrap();
            assert forall|j: int| 0 <= j < at implies (#[trigger] after[j]).0 != other by {
                assert(after[j] == sections[j]);
            }
            lemma_find_key_is(after, other, at);
        }
    }
}

/// Storing a well-formed value keeps well-formed sections well formed, and leaves every
/// section at its place.
pub proof fn lemma_stored(sections: Sections, path: Seq<char>, key: Seq<char>, value: Datum)
    requires
        well_formed(sections),
        value.well_formed(),
    ensures
        stored(sections, path, key, value) is Some <==> find_key(sections, path) is Some,
        stored(sections, path, key, value) matches Some(after) ==> {
            &&& well_formed(after)
            &&& forall|other: Seq<char>| find_key(after, other) == find_key(sections, other)
        },
{
    lemma_find_key(sections, path);
    if find_key(sections, path) is Some {
        let at = find_key(sections, path).unwrap();
        let after = stored(sections, path, key, value).unwrap();
        let entries = upsert(sections[at].1, key, value);
        assert(Datum::Object(sections[at].1).well_formed());
        lemma_upsert_distinct(sections[at].1, key, value);
        lemma_find_key(sections[at].1, key);
        assert(Datum::Object(entries).well_formed());
        assert forall|i: int, j: int| 0 <= i < j < after.len() implies (#[trigger] after[i]).0
            != (#[trigger] after[j]).0 by {
            assert(sections[i].0 != sections[j].0);
        }
        assert forall|i: int| 0 <= i < after.len() implies Datum::Object(
            (#[trigger] after[i]).1,
        ).well_formed() by {
            if i != at {
                assert(Datum::Object(sections[i].1).well_formed());
            }
        }
        assert forall|other: Seq<char>| find_key(after, other) == find_key(sections, other) by {
            lemma_same_keys(sections, after, other);
        }
    }
}

/// A line keeps the reader on firm ground, or brings an error that names the line. The error
/// is never `SectionNotInitialized`: a key always finds the section that the last header
/// opened.
pub proof fn lemma_step(cursor: Cursor, raw: Seq<char>, number: nat)
    requires
        consistent(cursor),
    ensures
        match step(cursor, raw, number) {
            Ok(next) => consistent(next),
            Err(fault) => fault.line == number && fault.kind != ErrorKind::SectionNotInitialized,
        },
{
    match shape_of(trimmed(raw)) {
        LineShape::Header(names) => {
            lemma_opened(cursor.sections, canonical_path(names));
        },
        LineShape::KeyValue(key, token) => {
            match cursor.current {
                None => {},
                Some(path) => {
                    lemma_decode(token, number, MAX_DEPTH as nat);
                    match decode_spec(token, number, MAX_DEPTH as nat) {
                        Err(_) => {},
                        Ok(value) => {
                            lemma_stored(cursor.sections, path, key, value);
                        },
                    }
                },
            }
        },
        _ => {},
    }
}

/// After any number of lines the reader stands on firm ground, or has an error that names one
/// of these lines and is not `SectionNotInitialized`.
pub proof fn lemma_run(lines: Seq<Seq<char>>, n: nat)
    ensures
        match run(lines, n) {
            Ok(cursor) => consistent(cursor),
            Err(fault) => 1 <= fault.line <= n && fault.kind != ErrorKind::SectionNotInitialized,
        },
    decreases n,
{
    if n > 0 {
        lemma_run(lines, (n - 1) as nat);
        match run(lines, (n - 1) as nat) {
            Ok(cursor) => {
                lemma_step(cursor, lines[n - 1], n);
            },
            Err(_) => {},
        }
    }
}

/// Until a header has come there is no current section.
pub proof fn lemma_no_header(lines: Seq<Seq<char>>, n: nat)
    requires
        forall|j: int| 0 <= j < n ==> !(shape_of(trimmed(#[trigger] lines[j])) is Header),
    ensures
        run(lines, n) matches Ok(cursor) ==> cursor.current is None,
    decreases n,
{
    if n > 0 {
        lemma_no_header(lines, (n - 1) as nat);
        assert(!(shape_of(trimmed(lines[n - 1])) is Header));
    }
}

/// What a parsed document holds is well formed: no section path comes twice, no key comes
/// twice in a section or an object, and every float is spelled as one. An error names a line
/// of the document, and is never `SectionNotInitialized`.
pub proof fn lemma_parse_sound(text: Seq<char>)
    ensures
        match parse_spec(text) {
            Ok(sections) => well_formed(sections),
            Err(fault) => 1 <= fault.line <= split(text, '\n').len() && fault.kind
                != ErrorKind::SectionNotInitialized,
        },
{
    lemma_run(split(text, '\n'), split(text, '\n').len());
}

/// A key with its value that stands above every section header makes the document fail,
/// whatever comes below it. The error is on that line or above it.
pub proof fn lemma_key_outside_section(text: Seq<char>, i: int)
    requires
        0 <= i < split(text, '\n').len(),
        shape_of(trimmed(split(text, '\n')[i])) is KeyValue,
        forall|j: int|
            0 <= j < i ==> !(shape_of(trimmed(#[trigger] split(text, '\n')[j])) is Header),
    ensures
        parse_spec(text) matches Err(fault) && fault.line <= i + 1,
{
    let lines = split(text, '\n');
    lemma_no_header(lines, i as nat);
    lemma_run(lines, (i + 1) as nat);
    lemma_run_error(lines, (i + 1) as nat, lines.len());
}

/// The first line that brings an error decides: the error of the document is the error of that
/// line, it names that line's number, and nothing of what stood above the line is given out.
pub proof fn lemma_first_error(text: Seq<char>, i: int, cursor: Cursor, fault: Fault)
    requires
        0 <= i < split(text, '\n').len(),
        run(split(text, '\n'), i as nat) == Ok::<Cursor, Fault>(cursor),
        step(cursor, split(text, '\n')[i], (i + 1) as nat) == Err::<Cursor, Fault>(fault),
    ensures
        parse_spec(text) == Err::<Sections, Fault>(fault),
        fault.line == i + 1,
{
    let lines = split(text, '\n');
    lemma_run(lines, i as nat);
    lemma_step(cursor, lines[i], (i + 1) as nat);
    lemma_run_error(lines, (i + 1) as nat, lines.len());
}

/// Reading one text twice gives the same both times: the same sections, paths, keys and
/// values in the same order, or the same message.
pub proof fn lemma_reparse(
    text: Seq<char>,
    first: Result<ThethaCoreConfig, String>,
    second: Result<ThethaCoreConfig, String>,
)
    requires
        parse_result(text, first),
        parse_result(text, second),
    ensures
        first matches Ok(a) ==> second matches Ok(b) && a@ == b@,
        first matches Err(a) ==> second matches Err(b) && a@ == b@,
{
}

/// Opening a section that is open already changes nothing.
pub proof fn lemma_reopen(sections: Sections, path: Seq<char>)
    ensures
        find_key(opened(sections, path), path) is Some,
        opened(opened(sections, path), path) == opened(sections, path),
{
    lemma_find_key(sections, path);
    if find_key(sections, path) is None {
        lemma_find_key_is(opened(sections, path), path, sections.len() as int);
    }
}

/// The paths of the sections are the keys of their model.
pub proof fn lemma_paths(sections: OrderedMap<OrderedMap<Value>>, path: Seq<char>)
    ensures
        find_key(sections_view(sections.entries@), path) == find_key(sections@, path),
{
    lemma_same_keys(sections_view(sections.entries@), sections@, path);
}

} // verus!
