//! The mapping from document identifiers to titles, read from lines of the
//! form `<id>\t<title>`.

use crate::text::{chars_of, unsigned_value};
use std::collections::HashMap;
use vstd::prelude::*;

verus! {

broadcast use vstd::std_specs::hash::group_hash_axioms;

#[verifier::external_type_specification]
#[verifier::external_body]
pub struct ExIoError(std::io::Error);

/// Errors for reading documents.
#[derive(Debug)]
pub enum DocIdError {
    Io(std::io::Error),
    NoId,
    NoTitle,
    Parse,
}

/// What `str::parse::<usize>` makes of a string: the number, or `None` when
/// the string is not one.
pub open spec fn usize_of(s: Seq<char>) -> Option<usize> {
    match unsigned_value(s, usize::MAX as int) {
        Some(v) => Some(v as usize),
        None => None,
    }
}

/// Relies on `str::parse::<usize>`: it accepts an optional `+` followed by
/// one or more ASCII digits whose value fits in `usize`, and nothing else.
#[verifier::external_body]
fn parse_usize(s: &str) -> (r: Option<usize>)
    ensures
        r == usize_of(s@),
{
    s.parse::<usize>().ok()
}

/// The position of the first tab in `s`, or its length when it has none.
pub open spec fn tab_index(s: Seq<char>) -> int
    decreases s.len(),
{
    if s.len() == 0 {
        0
    } else if s[0] == '\t' {
        0
    } else {
        1 + tab_index(s.drop_first())
    }
}

proof fn lemma_tab_index(s: Seq<char>, i: int)
    requires
        0 <= i <= s.len(),
        forall|j: int| 0 <= j < i ==> s[j] != '\t',
        i == s.len() || s[i] == '\t',
    ensures
        tab_index(s) == i,
    decreases i,
{
    if i > 0 {
        lemma_tab_index(s.drop_first(), i - 1);
    }
}

/// The first tab-separated field of a line.
pub open spec fn id_field(line: Seq<char>) -> Seq<char> {
    line.subrange(0, tab_index(line))
}

/// The second tab-separated field of a line, if it has one.
pub open spec fn title_field(line: Seq<char>) -> Option<Seq<char>> {
    let t = tab_index(line);
    if t >= line.len() {
        None
    } else {
        let rest = line.subrange(t + 1, line.len() as int);
        Some(rest.subrange(0, tab_index(rest)))
    }
}

/// The entry that an identifier, as parsed, and a title make.
pub open spec fn entry_of(id: Option<usize>, title: Option<Seq<char>>) -> Result<
    (usize, Seq<char>),
    DocIdError,
> {
    match id {
        None => Err(DocIdError::Parse),
        Some(n) => match title {
            None => Err(DocIdError::NoTitle),
            Some(t) => Ok((n, t)),
        },
    }
}

/// The characters of an optional string.
pub open spec fn title_view(t: Option<String>) -> Option<Seq<char>> {
    match t {
        Some(s) => Some(s@),
        None => None,
    }
}

/// The entry of one line.
pub open spec fn line_entry(line: Seq<char>) -> Result<(usize, Seq<char>), DocIdError> {
    entry_of(usize_of(id_field(line)), title_field(line))
}

/// The mapping that the lines describe (a later line wins for an
/// identifier), or the error of the first line that describes no entry.
pub open spec fn titles_of(lines: Seq<Seq<char>>) -> Result<Map<usize, Seq<char>>, DocIdError>
    decreases lines.len(),
{
    if lines.len() == 0 {
        Ok(Map::empty())
    } else {
        match titles_of(lines.drop_last()) {
            Err(e) => Err(e),
            Ok(m) => match line_entry(lines.last()) {
                Err(e) => Err(e),
                Ok((id, title)) => Ok(m.insert(id, title)),
            },
        }
    }
}

/// The position of the first tab in `cs[from..]`, or the length of `cs`.
fn find_tab(cs: &Vec<char>, from: usize) -> (r: usize)
    requires
        from <= cs@.len(),
    ensures
        from + tab_index(cs@.subrange(from as int, cs@.len() as int)) == r,
        from <= r <= cs@.len(),
{
    let mut i = from;
    while i < cs.len() && cs[i] != '\t'
        invariant
            from <= i <= cs@.len(),
            forall|j: int| from <= j < i ==> cs@[j] != '\t',
        decreases cs@.len() - i,
    {
        i += 1;
    }
    proof {
        lemma_tab_index(cs@.subrange(from as int, cs@.len() as int), i - from);
    }
    i
}

/// The characters `cs[from..to]` as a string.
fn string_between(cs: &Vec<char>, from: usize, to: usize) -> (r: String)
    requires
        from <= to <= cs@.len(),
    ensures
        r@ == cs@.subrange(from as int, to as int),
{
    let mut r = String::new();
    let mut i = from;
    while i < to
        invariant
            from <= i <= to,
            to <= cs@.len(),
            r@ == cs@.subrange(from as int, i as int),
        decreases to - i,
    {
        crate::text::push_char(&mut r, cs[i]);
        i += 1;
        assert(r@ =~= cs@.subrange(from as int, i as int));
    }
    r
}

/// The first two tab-separated fields of a line: the identifier field and,
/// if the line has a tab, the title field.
pub fn split_doc_line(line: &str) -> (r: (String, Option<String>))
    ensures
        r.0@ == id_field(line@),
        match r.1 {
            None => title_field(line@) is None,
            Some(t) => title_field(line@) == Some(t@),
        },
{
    let cs = chars_of(line);
    assert(cs@.subrange(0, cs@.len() as int) =~= cs@);
    let t = find_tab(&cs, 0);
    let id = string_between(&cs, 0, t);
    if t == cs.len() {
        (id, None)
    } else {
        let e = find_tab(&cs, t + 1);
        let title = string_between(&cs, t + 1, e);
        proof {
            let rest = line@.subrange(t + 1, line@.len() as int);
            assert(rest == cs@.subrange(t + 1, cs@.len() as int));
            assert(rest.subrange(0, tab_index(rest)) =~= cs@.subrange(t + 1, e as int));
        }
        (id, Some(title))
    }
}

/// The entry that a parsed identifier and a title field make: a parse
/// failure comes first, then a missing title.
pub fn doc_entry(id: Option<usize>, title: Option<String>) -> (r: Result<(usize, String), DocIdError>)
    ensures
        match r {
            Ok((n, t)) => entry_of(id, title_view(title)) == Ok::<(usize, Seq<char>), DocIdError>((n, t@)),
            Err(e) => entry_of(id, title_view(title)) == Err::<(usize, Seq<char>), DocIdError>(e),
        },
{
    match id {
        None => Err(DocIdError::Parse),
        Some(n) => match title {
            None => Err(DocIdError::NoTitle),
            Some(t) => Ok((n, t)),
        },
    }
}

/// The entry of one line `<id>\t<title>`.
pub fn parse_doc_line(line: &str) -> (r: Result<(usize, String), DocIdError>)
    ensures
        match r {
            Ok((n, t)) => line_entry(line@) == Ok::<(usize, Seq<char>), DocIdError>((n, t@)),
            Err(e) => line_entry(line@) == Err::<(usize, Seq<char>), DocIdError>(e),
        },
{
    let (id_str, title) = split_doc_line(line);
    let id = parse_usize(id_str.as_str());
    proof {
        assert(title_view(title) == title_field(line@));
    }
    doc_entry(id, title)
}

/// Document identifier to title mapping.
pub struct DocIdentifiers {
    doc_ids: HashMap<usize, String>,
}

impl View for DocIdentifiers {
    type V = Map<usize, Seq<char>>;

    closed spec fn view(&self) -> Map<usize, Seq<char>> {
        self.doc_ids@.map_values(|s: String| s@)
    }
}

impl DocIdentifiers {
    /// Read document identifiers from lines: one (document id, title) pair
    /// per line, separated by a tab.
    pub fn from_buf_read(lines: &Vec<String>) -> (r: Result<DocIdentifiers, DocIdError>)
        ensures
            match r {
                Ok(d) => titles_of(lines@.map_values(|s: String| s@)) == Ok::<
                    Map<usize, Seq<char>>,
                    DocIdError,
                >(d@),
                Err(e) => titles_of(lines@.map_values(|s: String| s@)) == Err::<
                    Map<usize, Seq<char>>,
                    DocIdError,
                >(e),
            },
    {
        let ghost ls = lines@.map_values(|s: String| s@);
        let mut doc_ids: HashMap<usize, String> = HashMap::new();
        let mut i: usize = 0;
        assert(ls.subrange(0, 0) =~= Seq::<Seq<char>>::empty());
        assert(doc_ids@.map_values(|s: String| s@) =~= Map::<usize, Seq<char>>::empty());
        while i < lines.len()
            invariant
                i <= lines@.len(),
                ls == lines@.map_values(|s: String| s@),
                titles_of(ls.subrange(0, i as int)) == Ok::<Map<usize, Seq<char>>, DocIdError>(
                    doc_ids@.map_values(|s: String| s@),
                ),
            decreases lines@.len() - i,
        {
            let ghost prefix = ls.subrange(0, i + 1);
            assert(prefix.drop_last() =~= ls.subrange(0, i as int));
            assert(prefix.last() == lines@[i as int]@);
            match parse_doc_line(lines[i].as_str()) {
                Err(e) => {
                    proof {
                        lemma_titles_error_stays(ls, i as int + 1);
                    }
                    return Err(e);
                },
                Ok((id, title)) => {
                    let ghost before = doc_ids@;
                    doc_ids.insert(id, title);
                    assert(doc_ids@.map_values(|s: String| s@) =~= before.map_values(
                        |s: String| s@,
                    ).insert(id, title@));
                },
            }
            i += 1;
        }
        assert(ls.subrange(0, i as int) =~= ls);
        Ok(DocIdentifiers { doc_ids })
    }

    /// Get the title of a document.
    pub fn get(&self, id: usize) -> (r: Option<&str>)
        ensures
            match r {
                Some(t) => self@.contains_key(id) && self@[id] == t@,
                None => !self@.contains_key(id),
            },
    {
        match self.doc_ids.get(&id) {
            Some(t) => Some(t.as_str()),
            None => None,
        }
    }
}

/// Once the lines up to some point describe no mapping, no longer run of
/// lines does.
proof fn lemma_titles_error_stays(ls: Seq<Seq<char>>, k: int)
    requires
        0 < k <= ls.len(),
        titles_of(ls.subrange(0, k)) is Err,
    ensures
        titles_of(ls) == titles_of(ls.subrange(0, k)),
    decreases ls.len() - k,
{
    if k < ls.len() {
        assert(ls.subrange(0, k + 1).drop_last() =~= ls.subrange(0, k));
        lemma_titles_error_stays(ls, k + 1);
    } else {
        assert(ls.subrange(0, k) =~= ls);
    }
}

} // verus!
