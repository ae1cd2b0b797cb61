//! The rename plan: a target path for each source file, the plan of a whole
//! batch in the order of its source paths, and the conflicts that the batch
//! would introduce.
use vstd::prelude::*;
use vstd::relations::strict_total_ordering;
use vstd::string::*;

use crate::image::{
    date_of_bytes, formatted_in, formatted_view, named_zone_stem, outcome_of, DateError, Failure,
    Image, Resolution, TagError, Zone,
};
use crate::path::{
    display_of, file_name_of, lemma_path_order, parent_of, path_cmp, path_lt, path_order, FilePath, Part,
};

verus! {

/// Why a file is left alone; none of these is an error.
#[derive(Debug, PartialEq, Eq, Clone, Copy)]
pub enum SkipError {
    Directory,
    Extension,
    WellNamed,
}

impl SkipError {
    /// The message that describes the reason.
    pub fn message(&self) -> (r: String)
        ensures
            r@ == match self {
                SkipError::Directory => "Is a directory"@,
                SkipError::Extension => "Not an EXIF file"@,
                SkipError::WellNamed => "Does not need renaming"@,
            },
    {
        match self {
            SkipError::Directory => String::from_str("Is a directory"),
            SkipError::Extension => String::from_str("Not an EXIF file"),
            SkipError::WellNamed => String::from_str("Does not need renaming"),
        }
    }
}

/// Why a file gets no target path.
#[derive(Debug, PartialEq, Eq)]
pub enum Error {
    /// No capture date could be had; the file counts as an error.
    Image(crate::image::Error),
    /// The file is left alone.
    Skip(SkipError),
    /// The name template holds an invalid directive.
    Format,
}

impl Error {
    /// The message that describes the error.
    pub fn message(&self) -> (r: String)
        ensures
            r@ == match self {
                Error::Image(e) => match e {
                    crate::image::Error::Io(m) => m@,
                    crate::image::Error::Exif(m) => m@,
                    crate::image::Error::Tag(TagError::Missing) => "Missing EXIF tag"@,
                    crate::image::Error::Tag(TagError::Invalid) => "Invalid EXIF tag"@,
                    crate::image::Error::Date(DateError::InvalidLocalDatetime) => "Invalid local date"@,
                    crate::image::Error::Date(DateError::AmbiguousLocalDatetime) => "Ambiguous local date"@,
                    crate::image::Error::OutOfRange => "Date or time out of range"@,
                },
                Error::Skip(SkipError::Directory) => "Is a directory"@,
                Error::Skip(SkipError::Extension) => "Not an EXIF file"@,
                Error::Skip(SkipError::WellNamed) => "Does not need renaming"@,
                Error::Format => "Invalid name format"@,
            },
    {
        match self {
            Error::Image(e) => e.message(),
            Error::Skip(e) => e.message(),
            Error::Format => String::from_str("Invalid name format"),
        }
    }
}

/// What was found at a source path whose extension is recognised.
pub enum Entry {
    Directory,
    /// A file, with its contents.
    File(Vec<u8>),
    /// A file that could not be read; the text says why.
    Unreadable(String),
}

/// Why a file gets no target path, as the specifications see it.
pub enum PlanFailure {
    Image(Failure),
    Skip(SkipError),
    Format,
}

impl View for Error {
    type V = PlanFailure;

    open spec fn view(&self) -> PlanFailure {
        match self {
            Error::Image(e) => PlanFailure::Image(e@),
            Error::Skip(k) => PlanFailure::Skip(*k),
            Error::Format => PlanFailure::Format,
        }
    }
}

/// An entry as the specifications see it.
pub enum EntryView {
    Directory,
    File(Seq<u8>),
    Unreadable(Seq<char>),
}

impl View for Entry {
    type V = EntryView;

    open spec fn view(&self) -> EntryView {
        match self {
            Entry::Directory => EntryView::Directory,
            Entry::File(d) => EntryView::File(d@),
            Entry::Unreadable(m) => EntryView::Unreadable(m@),
        }
    }
}

pub open spec fn text_result_view(r: Result<String, Error>) -> Result<Seq<char>, PlanFailure> {
    match r {
        Ok(s) => Ok(s@),
        Err(e) => Err(e@),
    }
}

pub open spec fn path_result_view(r: Result<FilePath, Error>) -> Result<Seq<Part>, PlanFailure> {
    match r {
        Ok(p) => Ok(p@),
        Err(e) => Err(e@),
    }
}

/// The index of the last `c` in `s`, or -1.
pub open spec fn last_index_of(s: Seq<char>, c: char) -> int
    decreases s.len(),
{
    if s.len() == 0 {
        -1
    } else if s.last() == c {
        s.len() - 1
    } else {
        last_index_of(s.drop_last(), c)
    }
}

/// The extension of a file name, as `std::path::Path::extension` has it: what
/// follows the last dot, where that dot is not the first character.
pub open spec fn extension_of(name: Seq<char>) -> Option<Seq<char>> {
    let i = last_index_of(name, '.');
    if i > 0 {
        Some(name.skip(i + 1))
    } else {
        None
    }
}

/// A character with ASCII upper case folded to lower case.
pub open spec fn fold_case(c: char) -> int {
    if 65 <= (c as u32) <= 90 {
        (c as u32) + 32
    } else {
        (c as u32) as int
    }
}

/// `s` is the lower-case ASCII word `w`, in any case.
pub open spec fn matches_word(s: Seq<char>, w: Seq<char>) -> bool {
    s.len() == w.len() && forall|i: int| 0 <= i < s.len() ==> fold_case(#[trigger] s[i]) == (w[i] as u32) as int
}

pub open spec fn jpg() -> Seq<char> {
    seq!['j', 'p', 'g']
}

pub open spec fn jpeg() -> Seq<char> {
    seq!['j', 'p', 'e', 'g']
}

pub open spec fn tif() -> Seq<char> {
    seq!['t', 'i', 'f']
}

pub open spec fn tiff() -> Seq<char> {
    seq!['t', 'i', 'f', 'f']
}

/// The canonical extension of a recognised extension: `jpg` for JPEG files,
/// `tiff` for TIFF files, matched in any case.
pub open spec fn canonical_of(ext: Seq<char>) -> Option<Seq<char>> {
    if matches_word(ext, jpg()) || matches_word(ext, jpeg()) {
        Some(jpg())
    } else if matches_word(ext, tif()) || matches_word(ext, tiff()) {
        Some(tiff())
    } else {
        None
    }
}

/// The canonical extension for a source path, where its extension is
/// recognised.
pub open spec fn target_extension_of(source: Seq<Part>) -> Option<Seq<char>> {
    match file_name_of(source) {
        Some(name) => match extension_of(name) {
            Some(ext) => canonical_of(ext),
            None => None,
        },
        None => None,
    }
}

/// The target path for a source path and a file stem: the stem and the
/// canonical extension, beside the source.
pub open spec fn target_of(source: Seq<Part>, stem: Seq<char>, ext: Seq<char>) -> Seq<Part> {
    source.drop_last().push(Part::Normal(stem + seq!['.'] + ext))
}

/// Compares the text of `s` from `start` on with the word `w`, ignoring ASCII
/// case.
fn matches_word_at(s: &str, start: usize, w: &str) -> (r: bool)
    requires
        start <= s@.len(),
    ensures
        r == matches_word(s@.skip(start as int), w@),
{
    let n = s.unicode_len();
    let m = w.unicode_len();
    if n - start != m {
        return false;
    }
    let mut k: usize = 0;
    while k < m
        invariant
            n == s@.len(),
            m == w@.len(),
            start + m == n,
            0 <= k <= m,
            forall|i: int| 0 <= i < k ==> fold_case(#[trigger] s@.skip(start as int)[i]) == (w@[i] as u32) as int,
        decreases m - k,
    {
        let c = s.get_char(start + k) as u32;
        let f = if 65 <= c && c <= 90 {
            c + 32
        } else {
            c
        };
        assert(s@.skip(start as int)[k as int] == s@[start + k]);
        if f != w.get_char(k) as u32 {
            return false;
        }
        k = k + 1;
    }
    true
}

/// The index of the last dot of `s`.
fn last_dot(s: &str) -> (r: Option<usize>)
    ensures
        r matches Some(i) ==> i == last_index_of(s@, '.') && i < s@.len(),
        s@.len() <= usize::MAX,
        r is None ==> last_index_of(s@, '.') == -1,
{
    let n = s.unicode_len();
    let mut i: usize = n;
    assert(s@.take(n as int) =~= s@);
    while i > 0
        invariant
            n == s@.len(),
            i <= n,
            last_index_of(s@, '.') == last_index_of(s@.take(i as int), '.'),
        decreases i,
    {
        assert(s@.take(i as int).drop_last() =~= s@.take(i - 1));
        if s.get_char(i - 1) == '.' {
            return Some(i - 1);
        }
        i = i - 1;
    }
    None
}

/// The canonical extension for a source path: `Skip(Extension)` where it has
/// no extension or one that is not recognised.
pub fn target_extension(source: &FilePath) -> (r: Result<&'static str, Error>)
    ensures
        target_extension_of(source@) is None ==> r == Err::<&'static str, Error>(Error::Skip(SkipError::Extension)),
        target_extension_of(source@) matches Some(e) ==> (r matches Ok(x) && x@ == e),
{
    proof {
        reveal_strlit("jpg");
        reveal_strlit("jpeg");
        reveal_strlit("tif");
        reveal_strlit("tiff");
    }
    let name = match source.file_name() {
        Some(name) => name.as_str(),
        None => return Err(Error::Skip(SkipError::Extension)),
    };
    let start = match last_dot(name) {
        Some(i) if i > 0 => i + 1,
        _ => return Err(Error::Skip(SkipError::Extension)),
    };
    if matches_word_at(name, start, "jpg") || matches_word_at(name, start, "jpeg") {
        Ok("jpg")
    } else if matches_word_at(name, start, "tif") || matches_word_at(name, start, "tiff") {
        Ok("tiff")
    } else {
        Err(Error::Skip(SkipError::Extension))
    }
}

/// The file name of a target: the stem, a dot and the extension.
fn target_name(stem: &str, ext: &str) -> (r: String)
    ensures
        r@ == stem@ + seq!['.'] + ext@,
{
    let mut name = String::from_str(stem);
    name.append(".");
    proof {
        reveal_strlit(".");
    }
    name.append(ext);
    name
}

/// The target path with a given file name, beside the source; `WellNamed`
/// where it is the source itself.
fn target_path_from_name(source: &FilePath, name: String) -> (r: Result<FilePath, Error>)
    requires
        file_name_of(source@) is Some,
    ensures
        ({
            let t = source@.drop_last().push(Part::Normal(name@));
            if t == source@ {
                r == Err::<FilePath, Error>(Error::Skip(SkipError::WellNamed))
            } else {
                r matches Ok(p) && p@ == t
            }
        }),
{
    let parent = match source.parent() {
        Some(p) => p,
        None => {
            assert(parent_of(source@) is Some);
            return Err(Error::Skip(SkipError::WellNamed));
        },
    };
    let target = parent.join_name(name);
    if target.equals(source) {
        Err(Error::Skip(SkipError::WellNamed))
    } else {
        Ok(target)
    }
}

/// The target path for a source path whose capture date, written with the
/// name template, is `stem`: the stem and the canonical extension, beside the
/// source. A source whose extension is not recognised is skipped, and so is
/// one that already has its target name.
pub fn target_path_from_stem(source: &FilePath, stem: &str) -> (r: Result<FilePath, Error>)
    ensures
        target_extension_of(source@) is None ==> r == Err::<FilePath, Error>(Error::Skip(SkipError::Extension)),
        target_extension_of(source@) matches Some(ext) ==> {
            let t = target_of(source@, stem@, ext);
            if t == source@ {
                r == Err::<FilePath, Error>(Error::Skip(SkipError::WellNamed))
            } else {
                r matches Ok(p) && p@ == t
            }
        },
{
    let ext = target_extension(source)?;
    let name = target_name(stem, ext);
    target_path_from_name(source, name)
}

/// The file stem that an entry gets, where its zone makes `res` of its
/// capture date: a directory is skipped, an unreadable file or one without a
/// valid capture date is an image error, then a gap or a fold of the zone is
/// one, and an invalid template leaves the file without a name.
pub open spec fn entry_stem(e: EntryView, res: Resolution<Option<Seq<char>>>) -> Result<
    Seq<char>,
    PlanFailure,
> {
    match e {
        EntryView::Directory => Err(PlanFailure::Skip(SkipError::Directory)),
        EntryView::Unreadable(m) => Err(PlanFailure::Image(Failure::Io(m))),
        EntryView::File(data) => match date_of_bytes(data) {
            Err(f) => Err(PlanFailure::Image(f)),
            Ok(_) => match outcome_of(res) {
                Err(f) => Err(PlanFailure::Image(f)),
                Ok(None) => Err(PlanFailure::Format),
                Ok(Some(stem)) => Ok(stem),
            },
        },
    }
}

/// The file stem that an entry gets in a zone of the IANA database.
pub open spec fn named_entry_stem(e: EntryView, tz: chrono_tz::Tz, template: Seq<char>) -> Result<
    Seq<char>,
    PlanFailure,
> {
    entry_stem(
        e,
        match e {
            EntryView::File(data) => match date_of_bytes(data) {
                Ok(d) => named_zone_stem(tz, d, template),
                Err(_) => Resolution::Gap,
            },
            _ => Resolution::Gap,
        },
    )
}

/// The target path for a source, its file stem (or why it has none) and its
/// canonical extension: beside the source; `WellNamed` where that is the
/// source itself.
pub open spec fn target_result(
    source: Seq<Part>,
    stem: Result<Seq<char>, PlanFailure>,
    ext: Seq<char>,
) -> Result<Seq<Part>, PlanFailure> {
    match stem {
        Err(f) => Err(f),
        Ok(s) => if target_of(source, s, ext) == source {
            Err(PlanFailure::Skip(SkipError::WellNamed))
        } else {
            Ok(target_of(source, s, ext))
        },
    }
}

/// The file stem of a source: its capture date in the zone, written with the
/// name template.
pub fn get_target_file_stem(entry: Entry, zone: &Zone, template: &str) -> (r: Result<String, Error>)
    ensures
        zone matches Zone::Named(tz) ==> text_result_view(r) == named_entry_stem(
            entry@,
            *tz,
            template@,
        ),
        zone is Local ==> exists|res: Resolution<Option<Seq<char>>>|
            text_result_view(r) == entry_stem(entry@, res),
{
    let ghost e = entry@;
    let data = match entry {
        Entry::Directory => {
            let r = Err(Error::Skip(SkipError::Directory));
            assert(text_result_view(r) == entry_stem(e, Resolution::Gap));
            return r;
        },
        Entry::Unreadable(m) => {
            let r = Err(Error::Image(crate::image::Error::Io(m)));
            assert(text_result_view(r) == entry_stem(e, Resolution::Gap));
            return r;
        },
        Entry::File(data) => data,
    };
    let image = match Image::open(data) {
        Ok(image) => image,
        Err(err) => {
            let r = Err(Error::Image(err));
            assert(text_result_view(r) == entry_stem(e, Resolution::Gap));
            return r;
        },
    };
    let f = image.format_datetime(zone, template);
    let r = match f {
        Ok(Some(stem)) => Ok(stem),
        Ok(None) => Err(Error::Format),
        Err(err) => Err(Error::Image(err)),
    };
    proof {
        if zone is Local {
            let res = choose|res: Resolution<Option<Seq<char>>>|
                formatted_view(f) == formatted_in(image@, res);
            assert(text_result_view(r) == entry_stem(e, res));
        }
    }
    r
}

/// The file name of the target: the file stem, a dot and the canonical
/// extension.
pub fn get_target_name(source: &FilePath, entry: Entry, zone: &Zone, template: &str) -> (r: Result<
    String,
    Error,
>)
    ensures
        target_extension_of(source@) is None ==> r == Err::<String, Error>(Error::Skip(SkipError::Extension)),
        target_extension_of(source@) matches Some(ext) ==> {
            &&& zone matches Zone::Named(tz) ==> text_result_view(r) == name_result(
                named_entry_stem(entry@, *tz, template@),
                ext,
            )
            &&& zone is Local ==> exists|res: Resolution<Option<Seq<char>>>|
                text_result_view(r) == name_result(entry_stem(entry@, res), ext)
        },
{
    let ext = target_extension(source)?;
    let stem = get_target_file_stem(entry, zone, template);
    let ghost sv = text_result_view(stem);
    let r = match stem {
        Ok(stem) => Ok(target_name(stem.as_str(), ext)),
        Err(e) => Err(e),
    };
    assert(text_result_view(r) == name_result(sv, ext@));
    r
}

/// A file name from a file stem (or why there is none) and an extension.
pub open spec fn name_result(stem: Result<Seq<char>, PlanFailure>, ext: Seq<char>) -> Result<
    Seq<char>,
    PlanFailure,
> {
    match stem {
        Ok(s) => Ok(s + seq!['.'] + ext),
        Err(f) => Err(f),
    }
}

/// The target path of a source: its capture date in the zone, written with
/// the name template, and the canonical extension, beside the source.
/// A source whose extension is not recognised is skipped before anything is
/// read, then a directory, then a source that already has its target name.
pub fn get_target_path(source: &FilePath, entry: Entry, zone: &Zone, template: &str) -> (r: Result<
    FilePath,
    Error,
>)
    ensures
        target_extension_of(source@) is None ==> r == Err::<FilePath, Error>(Error::Skip(SkipError::Extension)),
        target_extension_of(source@) matches Some(ext) ==> {
            &&& zone matches Zone::Named(tz) ==> path_result_view(r) == target_result(
                source@,
                named_entry_stem(entry@, *tz, template@),
                ext,
            )
            &&& zone is Local ==> exists|res: Resolution<Option<Seq<char>>>|
                path_result_view(r) == target_result(source@, entry_stem(entry@, res), ext)
        },
{
    let _ = target_extension(source)?;
    let ghost ext = target_extension_of(source@)->Some_0;
    let stem = get_target_file_stem(entry, zone, template);
    let ghost sv = text_result_view(stem);
    let r = match stem {
        Ok(stem) => target_path_from_stem(source, stem.as_str()),
        Err(e) => Err(e),
    };
    assert(path_result_view(r) == target_result(source@, sv, ext));
    r
}

/// One decision of the plan: a source path and its target path, or why it
/// has none.
pub struct PlanItem {
    pub source: FilePath,
    pub target: Result<FilePath, Error>,
}

/// A plan item as the plan sees it: the source path, the target path where
/// there is one, and whether the item counts as an error.
pub type ItemView = (Seq<Part>, Option<Seq<Part>>, bool);

impl View for PlanItem {
    type V = ItemView;

    open spec fn view(&self) -> ItemView {
        (
            self.source@,
            match &self.target {
                Ok(t) => Some(t@),
                Err(_) => None,
            },
            match &self.target {
                Err(Error::Image(_)) => true,
                Err(Error::Format) => true,
                _ => false,
            },
        )
    }
}

pub open spec fn views(items: Seq<PlanItem>) -> Seq<ItemView> {
    items.map_values(|i: PlanItem| i@)
}

/// Adds an item to a plan ordered by source path; it replaces an item with
/// the same source.
pub open spec fn insert_item(s: Seq<ItemView>, x: ItemView) -> Seq<ItemView>
    decreases s.len(),
{
    if s.len() == 0 {
        seq![x]
    } else if path_lt(x.0, s[0].0) {
        seq![x] + s
    } else if x.0 == s[0].0 {
        seq![x] + s.drop_first()
    } else {
        seq![s[0]] + insert_item(s.drop_first(), x)
    }
}

/// The plan of a list of items: ordered by source path, one item per source
/// path, the last one given for it.
pub open spec fn plan_of(items: Seq<ItemView>) -> Seq<ItemView>
    decreases items.len(),
{
    if items.len() == 0 {
        Seq::empty()
    } else {
        insert_item(plan_of(items.drop_last()), items.last())
    }
}

proof fn lemma_insert_past(s: Seq<ItemView>, x: ItemView, j: int)
    requires
        strict_total_ordering(path_order()),
        0 <= j <= s.len(),
        forall|k: int| 0 <= k < j ==> path_lt(#[trigger] s[k].0, x.0),
    ensures
        insert_item(s, x) == s.take(j) + insert_item(s.skip(j), x),
    decreases j,
{
    if j == 0 {
        assert(s.skip(0) =~= s);
        assert(s.take(0) + insert_item(s, x) =~= insert_item(s, x));
    } else {
        assert(path_lt(s[0].0, x.0));
        assert(path_order()(s[0].0, x.0));
        assert(!path_order()(x.0, s[0].0));
        assert(x.0 != s[0].0);
        let t = s.drop_first();
        assert forall|k: int| 0 <= k < j - 1 implies path_lt(#[trigger] t[k].0, x.0) by {
            assert(t[k] == s[k + 1]);
        }
        lemma_insert_past(t, x, j - 1);
        assert(t.skip(j - 1) =~= s.skip(j));
        assert(s.take(j) =~= seq![s[0]] + t.take(j - 1));
        assert(seq![s[0]] + (t.take(j - 1) + insert_item(t.skip(j - 1), x)) =~= s.take(j)
            + insert_item(s.skip(j), x));
    }
}

/// Source paths come in strictly increasing order.
pub open spec fn sorted_by_source(s: Seq<ItemView>) -> bool {
    forall|i: int, j: int| 0 <= i < j < s.len() ==> path_lt(#[trigger] s[i].0, #[trigger] s[j].0)
}

/// No source path comes twice.
pub open spec fn distinct_sources(s: Seq<ItemView>) -> bool {
    forall|i: int, j: int| 0 <= i < j < s.len() ==> #[trigger] s[i].0 != #[trigger] s[j].0
}

proof fn lemma_insert_sorted(s: Seq<ItemView>, x: ItemView)
    requires
        strict_total_ordering(path_order()),
        sorted_by_source(s),
    ensures
        sorted_by_source(insert_item(s, x)),
        forall|k: int|
            0 <= k < insert_item(s, x).len() ==> #[trigger] insert_item(s, x)[k] == x || s.contains(
                insert_item(s, x)[k],
            ),
    decreases s.len(),
{
    let r = insert_item(s, x);
    if s.len() == 0 {
    } else if path_lt(x.0, s[0].0) {
        assert forall|i: int, j: int| 0 <= i < j < r.len() implies path_lt(
            #[trigger] r[i].0,
            #[trigger] r[j].0,
        ) by {
            if i == 0 {
                if j > 1 {
                    assert(path_order()(x.0, s[0].0) && path_order()(s[0].0, s[j - 1].0));
                }
            } else {
                assert(r[i] == s[i - 1] && r[j] == s[j - 1]);
            }
        }
        assert forall|k: int| 0 <= k < r.len() implies #[trigger] r[k] == x || s.contains(r[k]) by {
            if k > 0 {
                assert(r[k] == s[k - 1]);
            }
        }
    } else if x.0 == s[0].0 {
        assert forall|i: int, j: int| 0 <= i < j < r.len() implies path_lt(
            #[trigger] r[i].0,
            #[trigger] r[j].0,
        ) by {
            assert(r[j] == s[j]);
            if i > 0 {
                assert(r[i] == s[i]);
            }
        }
        assert forall|k: int| 0 <= k < r.len() implies #[trigger] r[k] == x || s.contains(r[k]) by {
            if k > 0 {
                assert(r[k] == s[k]);
            }
        }
    } else {
        let t = s.drop_first();
        assert(sorted_by_source(t)) by {
            assert forall|i: int, j: int| 0 <= i < j < t.len() implies path_lt(
                #[trigger] t[i].0,
                #[trigger] t[j].0,
            ) by {
                assert(t[i] == s[i + 1] && t[j] == s[j + 1]);
            }
        }
        lemma_insert_sorted(t, x);
        let u = insert_item(t, x);
        assert(path_order()(s[0].0, x.0) || path_order()(x.0, s[0].0));
        assert(path_lt(s[0].0, x.0));
        assert forall|i: int, j: int| 0 <= i < j < r.len() implies path_lt(
            #[trigger] r[i].0,
            #[trigger] r[j].0,
        ) by {
            assert(r[j] == u[j - 1]);
            if i == 0 {
                if u[j - 1] != x {
                    let m = choose|m: int| 0 <= m < t.len() && t[m] == u[j - 1];
                    assert(s[m + 1] == t[m]);
                }
            } else {
                assert(r[i] == u[i - 1]);
            }
        }
        assert forall|k: int| 0 <= k < r.len() implies #[trigger] r[k] == x || s.contains(r[k]) by {
            if k > 0 {
                assert(r[k] == u[k - 1]);
                if u[k - 1] != x {
                    let m = choose|m: int| 0 <= m < t.len() && t[m] == u[k - 1];
                    assert(s[m + 1] == t[m]);
                }
            } else {
                assert(s[0] == r[0]);
            }
        }
    }
}

proof fn lemma_insert_new(s: Seq<ItemView>, x: ItemView) -> (j: int)
    requires
        strict_total_ordering(path_order()),
        forall|k: int| 0 <= k < s.len() ==> #[trigger] s[k].0 != x.0,
    ensures
        0 <= j <= s.len(),
        insert_item(s, x) == s.insert(j, x),
    decreases s.len(),
{
    if s.len() == 0 {
        assert(insert_item(s, x) =~= s.insert(0, x));
        0
    } else if path_lt(x.0, s[0].0) {
        assert(insert_item(s, x) =~= s.insert(0, x));
        0
    } else {
        assert(s[0].0 != x.0);
        let t = s.drop_first();
        assert forall|k: int| 0 <= k < t.len() implies #[trigger] t[k].0 != x.0 by {
            assert(t[k] == s[k + 1]);
        }
        let j = lemma_insert_new(t, x);
        assert(insert_item(s, x) =~= s.insert(j + 1, x));
        j + 1
    }
}

/// A plan is ordered by source path; where no source path comes twice, it
/// holds exactly the items given.
pub proof fn lemma_plan_contents(s: Seq<ItemView>)
    ensures
        sorted_by_source(plan_of(s)),
        distinct_sources(s) ==> plan_of(s).to_multiset() == s.to_multiset(),
    decreases s.len(),
{
    broadcast use vstd::seq_lib::group_to_multiset_ensures;

    lemma_path_order();
    if s.len() > 0 {
        let q = s.drop_last();
        let x = s.last();
        lemma_plan_contents(q);
        let p = plan_of(q);
        lemma_insert_sorted(p, x);
        if distinct_sources(s) {
            assert(distinct_sources(q));
            assert forall|k: int| 0 <= k < p.len() implies #[trigger] p[k].0 != x.0 by {
                assert(p.to_multiset().count(p[k]) > 0);
                assert(q.contains(p[k]));
                let i = choose|i: int| 0 <= i < q.len() && q[i] == p[k];
                assert(s[i] == q[i]);
                assert(s[s.len() - 1] == x);
            }
            let j = lemma_insert_new(p, x);
            assert(s =~= q.push(x));
        }
    }
}

proof fn lemma_sorted_distinct(s: Seq<ItemView>)
    requires
        sorted_by_source(s),
    ensures
        distinct_sources(s),
{
    lemma_path_order();
    assert forall|i: int, j: int| 0 <= i < j < s.len() implies #[trigger] s[i].0 != #[trigger] s[j].0 by {
        assert(path_lt(s[i].0, s[j].0));
        assert(!path_order()(s[i].0, s[i].0));
    }
}

/// Two lists ordered by source path, with the same items, are the same.
proof fn lemma_sorted_same(a: Seq<ItemView>, b: Seq<ItemView>)
    requires
        strict_total_ordering(path_order()),
        sorted_by_source(a),
        sorted_by_source(b),
        a.to_multiset() == b.to_multiset(),
    ensures
        a == b,
    decreases a.len(),
{
    broadcast use vstd::seq_lib::group_to_multiset_ensures;
    broadcast use vstd::multiset::group_multiset_axioms;

    if a.len() == 0 || b.len() == 0 {
        assert(a.len() == a.to_multiset().len());
        assert(b.len() == b.to_multiset().len());
        assert(a =~= b);
    } else {
        assert(a.to_multiset().count(a[0]) > 0);
        assert(b.to_multiset().count(b[0]) > 0);
        let i = choose|i: int| 0 <= i < b.len() && b[i] == a[0];
        let j = choose|j: int| 0 <= j < a.len() && a[j] == b[0];
        if i > 0 && j > 0 {
            assert(path_lt(b[0].0, b[i].0));
            assert(path_lt(a[0].0, a[j].0));
            assert(path_order()(a[0].0, b[0].0) && path_order()(b[0].0, a[0].0));
        } else if i > 0 {
            assert(path_lt(b[0].0, b[i].0));
        } else if j > 0 {
            assert(path_lt(a[0].0, a[j].0));
        }
        assert(a[0] == b[0]);
        assert(a.remove(0) =~= a.drop_first());
        assert(b.remove(0) =~= b.drop_first());
        assert(a.drop_first().to_multiset() == b.drop_first().to_multiset());
        assert(sorted_by_source(a.drop_first())) by {
            let t = a.drop_first();
            assert forall|i: int, j: int| 0 <= i < j < t.len() implies path_lt(
                #[trigger] t[i].0,
                #[trigger] t[j].0,
            ) by {
                assert(t[i] == a[i + 1] && t[j] == a[j + 1]);
            }
        }
        assert(sorted_by_source(b.drop_first())) by {
            let t = b.drop_first();
            assert forall|i: int, j: int| 0 <= i < j < t.len() implies path_lt(
                #[trigger] t[i].0,
                #[trigger] t[j].0,
            ) by {
                assert(t[i] == b[i + 1] && t[j] == b[j + 1]);
            }
        }
        lemma_sorted_same(a.drop_first(), b.drop_first());
        assert(a =~= seq![a[0]] + a.drop_first());
        assert(b =~= seq![b[0]] + b.drop_first());
    }
}

/// Planning does not depend on the order in which the decisions come: two
/// lists of the same decisions, with no source path twice, give the same plan
/// and the same conflicts. (`plan_of` being a function, planning the same
/// decisions twice gives the same plan too.)
pub proof fn lemma_plan_order_independent(a: Seq<ItemView>, b: Seq<ItemView>)
    requires
        a.to_multiset() == b.to_multiset(),
        distinct_sources(a),
        distinct_sources(b),
    ensures
        plan_of(a) == plan_of(b),
        conflicts_of(plan_of(a)) == conflicts_of(plan_of(b)),
{
    lemma_path_order();
    lemma_plan_contents(a);
    lemma_plan_contents(b);
    lemma_sorted_same(plan_of(a), plan_of(b));
}

/// The plan of a batch: one decision per source path, in the order of the
/// source paths.
pub struct Renames {
    items: Vec<PlanItem>,
}

impl View for Renames {
    type V = Seq<ItemView>;

    closed spec fn view(&self) -> Seq<ItemView> {
        views(self.items@)
    }
}

impl Renames {
    /// The plan is ordered by source path, and no source path comes twice.
    #[verifier::type_invariant]
    spec fn well_formed(&self) -> bool {
        sorted_by_source(self@)
    }

    /// Collects the decisions for a batch: ordered by source path whatever
    /// order they come in, and one per source path (the last one given).
    pub fn new(items: Vec<PlanItem>) -> (r: Renames)
        ensures
            r@ == plan_of(views(items@)),
            sorted_by_source(r@),
    {
        proof {
            lemma_path_order();
        }
        let ghost given = views(items@);
        let mut rest = items;
        let mut out: Vec<PlanItem> = Vec::new();
        let n = rest.len();
        let mut i: usize = 0;
        while i < n
            invariant
                strict_total_ordering(path_order()),
                n == given.len(),
                0 <= i <= n,
                views(rest@) == given.skip(i as int),
                rest@.len() == n - i,
                views(out@) == plan_of(given.take(i as int)),
            decreases n - i,
        {
            let ghost before = rest@;
            let x = rest.remove(0);
            proof {
                assert(views(before)[0] == before[0]@);
                assert(given.skip(i as int)[0] == given[i as int]);
                assert(x@ == given[i as int]);
                assert(rest@ =~= before.drop_first());
                assert forall|k: int| 0 <= k < rest@.len() implies #[trigger] views(rest@)[k]
                    == given.skip(i + 1)[k] by {
                    assert(views(rest@)[k] == rest@[k]@);
                    assert(rest@[k] == before[k + 1]);
                    assert(views(before)[k + 1] == before[k + 1]@);
                    assert(given.skip(i as int)[k + 1] == given.skip(i + 1)[k]);
                }
                assert(views(rest@) =~= given.skip(i + 1));
                assert(given.take(i + 1).drop_last() =~= given.take(i as int));
            }
            let ghost s = views(out@);
            let mut j: usize = 0;
            while j < out.len() && path_cmp(&out[j].source, &x.source) < 0
                invariant
                    strict_total_ordering(path_order()),
                    s == views(out@),
                    0 <= j <= out@.len(),
                    forall|k: int| 0 <= k < j ==> path_lt(#[trigger] s[k].0, x@.0),
                decreases out@.len() - j,
            {
                j = j + 1;
            }
            proof {
                lemma_insert_past(s, x@, j as int);
            }
            if j < out.len() && path_cmp(&out[j].source, &x.source) == 0 {
                out.remove(j);
                proof {
                    assert(!path_lt(x@.0, s[j as int].0));
                    assert(s.skip(j as int).drop_first() =~= s.skip(j + 1));
                }
                out.insert(j, x);
                proof {
                    assert(views(out@) =~= s.take(j as int) + (seq![x@] + s.skip(j + 1)));
                }
            } else {
                proof {
                    if j < s.len() {
                        assert(path_lt(x@.0, s[j as int].0));
                        assert(s.skip(j as int)[0] == s[j as int]);
                    } else {
                        assert(s.skip(j as int) =~= Seq::<ItemView>::empty());
                    }
                }
                out.insert(j, x);
                proof {
                    assert(views(out@) =~= s.take(j as int) + (seq![x@] + s.skip(j as int)));
                }
            }
            i = i + 1;
        }
        proof {
            assert(given.take(n as int) =~= given);
        }
        proof {
            lemma_plan_contents(given);
        }
        Renames { items: out }
    }

    /// The number of decisions.
    pub fn len(&self) -> (r: usize)
        ensures
            r == self@.len(),
    {
        self.items.len()
    }

    /// The decisions, in the order of their source paths (no source path
    /// comes twice).
    pub fn iter(&self) -> (r: &Vec<PlanItem>)
        ensures
            views(r@) == self@,
            sorted_by_source(self@),
            distinct_sources(self@),
    {
        proof {
            use_type_invariant(self);
            lemma_sorted_distinct(self@);
        }
        &self.items
    }

    /// Takes the decisions out, in the order of their source paths.
    pub fn into_items(self) -> (r: Vec<PlanItem>)
        ensures
            views(r@) == self@,
    {
        self.items
    }
}

/// Which path of a planned rename another rename overwrites.
#[derive(Debug, PartialEq, Eq, Clone, Copy, Structural)]
pub enum Side {
    /// The source of the rename is the target of an earlier one.
    Source,
    /// The target of the rename is the target of an earlier one.
    Target,
}

/// A path that a batch would overwrite.
pub struct Conflict {
    pub side: Side,
    pub path: FilePath,
}

impl View for Conflict {
    type V = (Side, Seq<Part>);

    open spec fn view(&self) -> (Side, Seq<Part>) {
        (self.side, self.path@)
    }
}

impl Conflict {
    /// The message that describes the conflict.
    pub fn message(&self) -> (r: String)
        ensures
            r@ == (match self.side {
                Side::Source => "Source file "@,
                Side::Target => "Target file "@,
            }) + display_of(self.path@) + " is overwritten"@,
    {
        let mut m = match self.side {
            Side::Source => String::from_str("Source file "),
            Side::Target => String::from_str("Target file "),
        };
        let p = self.path.display();
        m.append(p.as_str());
        m.append(" is overwritten");
        m
    }
}

/// The conflicts of a batch, in the order they are found.
pub type Conflicts = Vec<Conflict>;

pub open spec fn conflict_views(c: Seq<Conflict>) -> Seq<(Side, Seq<Part>)> {
    c.map_values(|x: Conflict| x@)
}

pub open spec fn path_views(v: Seq<FilePath>) -> Seq<Seq<Part>> {
    v.map_values(|p: FilePath| p@)
}

/// The target paths of the planned items, in order.
pub open spec fn targets_of(s: Seq<ItemView>) -> Seq<Seq<Part>>
    decreases s.len(),
{
    if s.len() == 0 {
        Seq::empty()
    } else {
        match s.last().1 {
            Some(t) => targets_of(s.drop_last()).push(t),
            None => targets_of(s.drop_last()),
        }
    }
}

/// The conflict that the last item of `s` brings, after the items before it:
/// its source is an earlier target, or else its target is.
pub open spec fn conflict_at(s: Seq<ItemView>) -> Option<(Side, Seq<Part>)> {
    let seen = targets_of(s.drop_last());
    match s.last().1 {
        Some(t) => if seen.contains(s.last().0) {
            Some((Side::Source, s.last().0))
        } else if seen.contains(t) {
            Some((Side::Target, t))
        } else {
            None
        },
        None => None,
    }
}

/// The conflicts of a plan, found in one pass in the plan's order; an item
/// without a target takes no part.
pub open spec fn conflicts_of(s: Seq<ItemView>) -> Seq<(Side, Seq<Part>)>
    decreases s.len(),
{
    if s.len() == 0 {
        Seq::empty()
    } else {
        match conflict_at(s) {
            Some(c) => conflicts_of(s.drop_last()).push(c),
            None => conflicts_of(s.drop_last()),
        }
    }
}

fn contains_path(v: &Vec<FilePath>, p: &FilePath) -> (r: bool)
    ensures
        r == path_views(v@).contains(p@),
{
    let mut k: usize = 0;
    while k < v.len()
        invariant
            0 <= k <= v@.len(),
            forall|j: int| 0 <= j < k ==> #[trigger] v@[j]@ != p@,
        decreases v@.len() - k,
    {
        if v[k].equals(p) {
            assert(path_views(v@)[k as int] == p@);
            return true;
        }
        k = k + 1;
    }
    proof {
        if path_views(v@).contains(p@) {
            let j = choose|j: int| 0 <= j < path_views(v@).len() && path_views(v@)[j] == p@;
            assert(v@[j]@ == p@);
        }
    }
    false
}

impl Renames {
    /// Every path that the batch would overwrite, in the plan's order. An
    /// item whose source path is the target of an earlier item gives a
    /// `Source` conflict; else one whose target is the target of an earlier
    /// item gives a `Target` conflict.
    pub fn conflicts(&self) -> (r: Conflicts)
        ensures
            conflict_views(r@) == conflicts_of(self@),
    {
        let ghost s = self@;
        let mut found: Vec<Conflict> = Vec::new();
        let mut seen: Vec<FilePath> = Vec::new();
        let n = self.items.len();
        let mut i: usize = 0;
        while i < n
            invariant
                s == views(self.items@),
                n == s.len(),
                0 <= i <= n,
                path_views(seen@) == targets_of(s.take(i as int)),
                conflict_views(found@) == conflicts_of(s.take(i as int)),
            decreases n - i,
        {
            let item = &self.items[i];
            let ghost t = s.take(i + 1);
            proof {
                assert(t.drop_last() =~= s.take(i as int));
                assert(t.last() == item@);
            }
            match &item.target {
                Ok(target) => {
                    let c = if contains_path(&seen, &item.source) {
                        Some(Conflict { side: Side::Source, path: item.source.copy() })
                    } else if contains_path(&seen, target) {
                        Some(Conflict { side: Side::Target, path: target.copy() })
                    } else {
                        None
                    };
                    seen.push(target.copy());
                    proof {
                        assert(path_views(seen@) =~= targets_of(s.take(i as int)).push(target@));
                    }
                    match c {
                        Some(c) => {
                            found.push(c);
                            proof {
                                assert(conflict_views(found@) =~= conflicts_of(s.take(i as int)).push(
                                    conflict_at(t)->Some_0,
                                ));
                            }
                        },
                        None => {},
                    }
                },
                Err(_) => {},
            }
            i = i + 1;
        }
        proof {
            assert(s.take(n as int) =~= s);
        }
        found
    }

    /// The number of items that count as errors: those without a capture
    /// date, and those that an invalid template left without a name.
    pub fn error_count(&self) -> (r: usize)
        ensures
            r == error_count_of(self@),
    {
        let mut count: usize = 0;
        let mut i: usize = 0;
        while i < self.items.len()
            invariant
                0 <= i <= self.items@.len(),
                count == error_count_of(views(self.items@).take(i as int)),
                count <= i,
            decreases self.items@.len() - i,
        {
            proof {
                let v = views(self.items@);
                assert(v.take(i + 1).drop_last() =~= v.take(i as int));
                assert(v.take(i + 1).last() == self.items@[i as int]@);
            }
            match &self.items[i].target {
                Err(Error::Image(_)) | Err(Error::Format) => {
                    count = count + 1;
                },
                _ => {},
            }
            i = i + 1;
        }
        proof {
            assert(views(self.items@).take(self.items@.len() as int) =~= views(self.items@));
        }
        count
    }
}

/// The number of items that count as errors.
pub open spec fn error_count_of(items: Seq<ItemView>) -> nat
    decreases items.len(),
{
    if items.len() == 0 {
        0
    } else {
        error_count_of(items.drop_last()) + if items.last().2 {
            1nat
        } else {
            0nat
        }
    }
}

proof fn lemma_targets_contain(s: Seq<ItemView>, i: int)
    requires
        0 <= i < s.len(),
        s[i].1 is Some,
    ensures
        targets_of(s).contains(s[i].1->Some_0),
    decreases s.len(),
{
    let q = s.drop_last();
    if i == s.len() - 1 {
        assert(targets_of(s).last() == s[i].1->Some_0);
    } else {
        assert(q[i] == s[i]);
        lemma_targets_contain(q, i);
        let k = choose|k: int| 0 <= k < targets_of(q).len() && targets_of(q)[k] == s[i].1->Some_0;
        if s.last().1 is Some {
            assert(targets_of(s)[k] == targets_of(q)[k]);
        }
    }
}

proof fn lemma_conflicts_grow(s: Seq<ItemView>, n: int)
    requires
        0 <= n <= s.len(),
    ensures
        conflicts_of(s.take(n)).len() <= conflicts_of(s).len(),
    decreases s.len() - n,
{
    if n < s.len() {
        lemma_conflicts_grow(s, n + 1);
        assert(s.take(n + 1).drop_last() =~= s.take(n));
    } else {
        assert(s.take(n) =~= s);
    }
}

/// Two planned items with one target path always make a conflict, so such a
/// batch is never applied.
pub proof fn lemma_shared_target_conflicts(s: Seq<ItemView>, i: int, j: int)
    requires
        0 <= i < j < s.len(),
        s[i].1 is Some,
        s[i].1 == s[j].1,
    ensures
        conflicts_of(s).len() > 0,
{
    let p = s.take(j + 1);
    assert(p.drop_last() =~= s.take(j));
    assert(s.take(j)[i] == s[i]);
    lemma_targets_contain(s.take(j), i);
    assert(p.last() == s[j]);
    assert(conflict_at(p) is Some);
    assert(conflicts_of(p).len() > 0);
    lemma_conflicts_grow(s, j + 1);
}

/// A rename to apply.
pub struct Move {
    pub source: FilePath,
    pub target: FilePath,
}

impl View for Move {
    type V = (Seq<Part>, Seq<Part>);

    open spec fn view(&self) -> (Seq<Part>, Seq<Part>) {
        (self.source@, self.target@)
    }
}

pub open spec fn move_views(v: Seq<Move>) -> Seq<(Seq<Part>, Seq<Part>)> {
    v.map_values(|m: Move| m@)
}

/// The renames of a plan: its items with a target path, in order.
pub open spec fn moves_of(s: Seq<ItemView>) -> Seq<(Seq<Part>, Seq<Part>)>
    decreases s.len(),
{
    if s.len() == 0 {
        Seq::empty()
    } else {
        match s.last().1 {
            Some(t) => moves_of(s.drop_last()).push((s.last().0, t)),
            None => moves_of(s.drop_last()),
        }
    }
}

/// The outcome of applying renames: how many were made and how many failed.
pub open spec fn count_of(outcomes: Seq<bool>, ok: bool) -> nat
    decreases outcomes.len(),
{
    if outcomes.len() == 0 {
        0
    } else {
        count_of(outcomes.drop_last(), ok) + if outcomes.last() == ok {
            1nat
        } else {
            0nat
        }
    }
}

impl Renames {
    /// The renames to apply. Where the batch has a conflict there are none at
    /// all: the whole batch is refused with the number of conflicts.
    pub fn approved(&self) -> (r: Result<Vec<Move>, usize>)
        ensures
            conflicts_of(self@).len() == 0 ==> (r matches Ok(v) && move_views(v@) == moves_of(self@)),
            conflicts_of(self@).len() > 0 ==> r == Err::<Vec<Move>, usize>(
                conflicts_of(self@).len() as usize,
            ),
    {
        let conflicts = self.conflicts();
        if conflicts.len() > 0 {
            assert(conflict_views(conflicts@).len() == conflicts@.len());
            return Err(conflicts.len());
        }
        let ghost s = self@;
        let mut moves: Vec<Move> = Vec::new();
        let n = self.items.len();
        let mut i: usize = 0;
        while i < n
            invariant
                s == views(self.items@),
                n == s.len(),
                0 <= i <= n,
                move_views(moves@) == moves_of(s.take(i as int)),
            decreases n - i,
        {
            let item = &self.items[i];
            proof {
                assert(s.take(i + 1).drop_last() =~= s.take(i as int));
                assert(s.take(i + 1).last() == item@);
            }
            match &item.target {
                Ok(target) => {
                    moves.push(Move { source: item.source.copy(), target: target.copy() });
                    proof {
                        assert(move_views(moves@) =~= moves_of(s.take(i as int)).push(
                            (item.source@, target@),
                        ));
                    }
                },
                Err(_) => {},
            }
            i = i + 1;
        }
        proof {
            assert(s.take(n as int) =~= s);
        }
        Ok(moves)
    }
}

/// Accounts for the renames that were tried, one outcome each (`true` where
/// the rename was made): how many were made, and how many failed.
pub fn tally(outcomes: &Vec<bool>) -> (r: (usize, usize))
    ensures
        r.0 == count_of(outcomes@, true),
        r.1 == count_of(outcomes@, false),
        r.0 + r.1 == outcomes@.len(),
{
    let mut renamed: usize = 0;
    let mut failed: usize = 0;
    let mut i: usize = 0;
    while i < outcomes.len()
        invariant
            0 <= i <= outcomes@.len(),
            renamed == count_of(outcomes@.take(i as int), true),
            failed == count_of(outcomes@.take(i as int), false),
            renamed + failed == i,
        decreases outcomes@.len() - i,
    {
        proof {
            assert(outcomes@.take(i + 1).drop_last() =~= outcomes@.take(i as int));
        }
        if outcomes[i] {
            renamed = renamed + 1;
        } else {
            failed = failed + 1;
        }
        i = i + 1;
    }
    proof {
        assert(outcomes@.take(outcomes@.len() as int) =~= outcomes@);
    }
    (renamed, failed)
}

proof fn lemma_moves_from_items(s: Seq<ItemView>, k: int)
    requires
        0 <= k < moves_of(s).len(),
    ensures
        exists|j: int| 0 <= j < s.len() && s[j].1 == Some(moves_of(s)[k].1) && #[trigger] s[j].0 == moves_of(s)[k].0,
    decreases s.len(),
{
    let q = s.drop_last();
    if s.last().1 is Some && k == moves_of(s).len() - 1 {
        assert(s[s.len() - 1].0 == moves_of(s)[k].0);
    } else {
        assert(moves_of(s)[k] == moves_of(q)[k]);
        lemma_moves_from_items(q, k);
        let j = choose|j: int| 0 <= j < q.len() && q[j].1 == Some(moves_of(q)[k].1) && #[trigger] q[j].0 == moves_of(q)[k].0;
        assert(s[j] == q[j]);
    }
}

proof fn lemma_error_count_without(s: Seq<ItemView>, i: int)
    requires
        0 <= i < s.len(),
        !s[i].2,
    ensures
        error_count_of(s) == error_count_of(s.remove(i)),
    decreases s.len(),
{
    if i == s.len() - 1 {
        assert(s.remove(i) =~= s.drop_last());
    } else {
        let q = s.drop_last();
        assert(q[i] == s[i]);
        lemma_error_count_without(q, i);
        let t = s.remove(i);
        assert(t.drop_last() =~= q.remove(i));
        assert(t.last() == s.last());
    }
}

/// A file that the plan skips is left alone: no rename of the batch has it
/// as its source, and it adds nothing to the number of errors.
pub proof fn lemma_skipped_untouched(s: Seq<ItemView>, i: int)
    requires
        distinct_sources(s),
        0 <= i < s.len(),
        s[i].1 is None,
        !s[i].2,
    ensures
        forall|k: int| 0 <= k < moves_of(s).len() ==> #[trigger] moves_of(s)[k].0 != s[i].0,
        error_count_of(s) == error_count_of(s.remove(i)),
{
    assert forall|k: int| 0 <= k < moves_of(s).len() implies #[trigger] moves_of(s)[k].0 != s[i].0 by {
        lemma_moves_from_items(s, k);
        let j = choose|j: int| 0 <= j < s.len() && s[j].1 == Some(moves_of(s)[k].1) && #[trigger] s[j].0 == moves_of(s)[k].0;
        if j < i {
            assert(s[j].0 != s[i].0);
        } else if j > i {
            assert(s[i].0 != s[j].0);
        }
    }
    lemma_error_count_without(s, i);
}

/// What to do once a batch without conflicts is planned.
#[derive(Debug, PartialEq, Eq, Clone, Copy, Structural)]
pub enum Step {
    /// Nothing is renamed: there is nothing to rename, or it is a dry run.
    Stop,
    /// Ask for confirmation, then apply the renames.
    Confirm,
    /// Apply the renames.
    Apply,
}

/// What to do with the renames of a batch without conflicts.
pub fn next_step(moves: usize, dry_run: bool, assume_yes: bool) -> (r: Step)
    ensures
        r == (if moves == 0 || dry_run {
            Step::Stop
        } else if assume_yes {
            Step::Apply
        } else {
            Step::Confirm
        }),
{
    if moves == 0 || dry_run {
        Step::Stop
    } else if assume_yes {
        Step::Apply
    } else {
        Step::Confirm
    }
}

/// The counts that end a run: the renames made, and the errors (the files
/// that counted as errors in the plan, and the renames that failed).
pub fn run_counts(plan_errors: usize, outcomes: &Vec<bool>) -> (r: (usize, usize))
    requires
        plan_errors + outcomes@.len() <= usize::MAX,
    ensures
        r.0 == count_of(outcomes@, true),
        r.1 == plan_errors + count_of(outcomes@, false),
{
    let (renamed, failed) = tally(outcomes);
    (renamed, plan_errors + failed)
}

} // verus!
