//! The capture date of an image: read from its EXIF tags, checked against the
//! calendar and placed in a time zone.
use std::fmt::Write;

use vstd::prelude::*;

verus! {

#[verifier::external_type_specification]
#[verifier::external_body]
pub struct ExTz(chrono_tz::Tz);

/// What is wrong with the date tag.
#[derive(Debug, PartialEq, Eq, Clone, Copy)]
pub enum TagError {
    Missing,
    Invalid,
}

/// What is wrong with the capture date in the chosen time zone.
#[derive(Debug, PartialEq, Eq, Clone, Copy)]
pub enum DateError {
    /// The local time falls in a gap that a transition of the zone leaves.
    InvalidLocalDatetime,
    /// The local time falls in a fold: the zone passes it twice.
    AmbiguousLocalDatetime,
}

/// Why no capture date could be had from an image.
#[derive(Debug, PartialEq, Eq)]
pub enum Error {
    /// The file could not be read; the text says why.
    Io(String),
    /// The EXIF data could not be parsed; the text says why.
    Exif(String),
    Tag(TagError),
    Date(DateError),
    /// The date or the time of day does not exist.
    OutOfRange,
}

impl Error {
    /// The message that describes the error.
    pub fn message(&self) -> (r: String)
        ensures
            r@ == match self {
                Error::Io(m) => m@,
                Error::Exif(m) => m@,
                Error::Tag(TagError::Missing) => "Missing EXIF tag"@,
                Error::Tag(TagError::Invalid) => "Invalid EXIF tag"@,
                Error::Date(DateError::InvalidLocalDatetime) => "Invalid local date"@,
                Error::Date(DateError::AmbiguousLocalDatetime) => "Ambiguous local date"@,
                Error::OutOfRange => "Date or time out of range"@,
            },
    {
        match self {
            Error::Io(m) => m.clone(),
            Error::Exif(m) => m.clone(),
            Error::Tag(TagError::Missing) => String::from_str("Missing EXIF tag"),
            Error::Tag(TagError::Invalid) => String::from_str("Invalid EXIF tag"),
            Error::Date(DateError::InvalidLocalDatetime) => String::from_str("Invalid local date"),
            Error::Date(DateError::AmbiguousLocalDatetime) => String::from_str(
                "Ambiguous local date",
            ),
            Error::OutOfRange => String::from_str("Date or time out of range"),
        }
    }
}

/// The value of the date tag of the primary image.
pub enum TagValue {
    /// The tag is absent.
    Missing,
    /// The tag holds ASCII strings.
    Ascii(Vec<Vec<u8>>),
    /// The tag holds a value of another type.
    Other,
}

/// The fields of an EXIF date, as written in the tag (not checked against the
/// calendar).
#[derive(Debug, PartialEq, Eq, Clone, Copy)]
pub struct ExifDateTime {
    pub year: u16,
    pub month: u8,
    pub day: u8,
    pub hour: u8,
    pub minute: u8,
    pub second: u8,
}

pub open spec fn is_digit(b: u8) -> bool {
    48 <= b <= 57
}

/// The number that a run of decimal digits writes.
pub open spec fn decimal(s: Seq<u8>) -> int
    decreases s.len(),
{
    if s.len() == 0 {
        0
    } else {
        decimal(s.drop_last()) * 10 + (s.last() - 48)
    }
}

/// `len` decimal digits stand at `start`.
pub open spec fn digits_at(d: Seq<u8>, start: int, len: int) -> bool {
    forall|i: int| start <= i < start + len ==> is_digit(#[trigger] d[i])
}

pub open spec fn number_at(d: Seq<u8>, start: int, len: int) -> int {
    decimal(d.subrange(start, start + len))
}

/// `d` starts with an EXIF date, `YYYY:MM:DD HH:MM:SS`.
pub open spec fn exif_date_shape(d: Seq<u8>) -> bool {
    &&& d.len() >= 19
    &&& d[4] == 58 && d[7] == 58 && d[10] == 32 && d[13] == 58 && d[16] == 58
    &&& digits_at(d, 0, 4) && digits_at(d, 5, 2) && digits_at(d, 8, 2)
    &&& digits_at(d, 11, 2) && digits_at(d, 14, 2) && digits_at(d, 17, 2)
}

/// The fields that an EXIF date of that shape writes.
pub open spec fn exif_date_of(d: Seq<u8>) -> ExifDateTime {
    ExifDateTime {
        year: number_at(d, 0, 4) as u16,
        month: number_at(d, 5, 2) as u8,
        day: number_at(d, 8, 2) as u8,
        hour: number_at(d, 11, 2) as u8,
        minute: number_at(d, 14, 2) as u8,
        second: number_at(d, 17, 2) as u8,
    }
}

pub open spec fn is_leap_year(y: int) -> bool {
    y % 4 == 0 && (y % 100 != 0 || y % 400 == 0)
}

pub open spec fn days_in_month(y: int, m: int) -> int {
    if m == 2 {
        if is_leap_year(y) {
            29
        } else {
            28
        }
    } else if m == 4 || m == 6 || m == 9 || m == 11 {
        30
    } else {
        31
    }
}

/// The day exists in the proleptic Gregorian calendar.
pub open spec fn valid_date(y: int, m: int, d: int) -> bool {
    1 <= m <= 12 && 1 <= d <= days_in_month(y, m)
}

/// The time of day exists (no leap second).
pub open spec fn valid_time(h: int, m: int, s: int) -> bool {
    h < 24 && m < 60 && s < 60
}

pub open spec fn valid_date_time(e: ExifDateTime) -> bool {
    valid_date(e.year as int, e.month as int, e.day as int) && valid_time(
        e.hour as int,
        e.minute as int,
        e.second as int,
    )
}

/// The value of the date tag, as the specifications see it.
pub enum TagView {
    Missing,
    Ascii(Seq<Seq<u8>>),
    Other,
}

impl View for TagValue {
    type V = TagView;

    open spec fn view(&self) -> TagView {
        match self {
            TagValue::Missing => TagView::Missing,
            TagValue::Ascii(v) => TagView::Ascii(v@.map_values(|x: Vec<u8>| x@)),
            TagValue::Other => TagView::Other,
        }
    }
}

/// What the EXIF reader finds in an image file's contents: the value of the
/// DateTimeOriginal tag of the primary image, or the message of the error
/// that stopped it.
pub uninterp spec fn date_tag_of(data: Seq<u8>) -> Result<TagView, Seq<char>>;

/// The message with which the EXIF reader refuses a date that is not of the
/// form `YYYY:MM:DD HH:MM:SS`.
pub uninterp spec fn exif_date_error(data: Seq<u8>) -> Seq<char>;

/// An error as the specifications see it.
pub enum Failure {
    Io(Seq<char>),
    Exif(Seq<char>),
    Tag(TagError),
    Date(DateError),
    OutOfRange,
}

impl View for Error {
    type V = Failure;

    open spec fn view(&self) -> Failure {
        match self {
            Error::Io(m) => Failure::Io(m@),
            Error::Exif(m) => Failure::Exif(m@),
            Error::Tag(t) => Failure::Tag(*t),
            Error::Date(d) => Failure::Date(*d),
            Error::OutOfRange => Failure::OutOfRange,
        }
    }
}

pub open spec fn date_result_view(r: Result<ExifDateTime, Error>) -> Result<ExifDateTime, Failure> {
    match r {
        Ok(d) => Ok(d),
        Err(e) => Err(e@),
    }
}

/// The capture date that the date tag's value gives: its first ASCII string,
/// parsed and checked against the calendar.
pub open spec fn naive_of(tag: TagView) -> Result<ExifDateTime, Failure> {
    match tag {
        TagView::Missing => Err(Failure::Tag(TagError::Missing)),
        TagView::Other => Err(Failure::Tag(TagError::Invalid)),
        TagView::Ascii(v) => if v.len() == 0 {
            Err(Failure::Tag(TagError::Invalid))
        } else if !exif_date_shape(v[0]) {
            Err(Failure::Exif(exif_date_error(v[0])))
        } else if valid_date_time(exif_date_of(v[0])) {
            Ok(exif_date_of(v[0]))
        } else {
            Err(Failure::OutOfRange)
        },
    }
}

/// The capture date that an image file's contents give.
pub open spec fn date_of_bytes(data: Seq<u8>) -> Result<ExifDateTime, Failure> {
    match date_tag_of(data) {
        Err(m) => Err(Failure::Exif(m)),
        Ok(tag) => naive_of(tag),
    }
}

pub open spec fn tag_read_view(r: Result<TagValue, String>) -> Result<TagView, Seq<char>> {
    match r {
        Ok(t) => Ok(t@),
        Err(m) => Err(m@),
    }
}

/// Relies on exif::Reader::read_from_container, which parses the EXIF data of
/// a JPEG, TIFF, HEIF, PNG or WebP image held in memory, and on
/// exif::Exif::get_field for the DateTimeOriginal field of the primary image
/// (with whether its value is ASCII); an error comes with its message.
#[verifier::external_body]
fn read_date_tag(data: Vec<u8>) -> (r: Result<TagValue, String>)
    ensures
        tag_read_view(r) == date_tag_of(data@),
{
    let exif = exif::Reader::new().read_from_container(&mut std::io::Cursor::new(data)).map_err(
        |e| e.to_string(),
    )?;
    Ok(match exif.get_field(exif::Tag::DateTimeOriginal, exif::In::PRIMARY) {
        None => TagValue::Missing,
        Some(field) => match &field.value {
            exif::Value::Ascii(v) => TagValue::Ascii(v.clone()),
            _ => TagValue::Other,
        },
    })
}

/// Relies on exif::DateTime::from_ascii: it accepts `YYYY:MM:DD HH:MM:SS`
/// (more bytes may follow) and returns the numbers written, unchecked; an
/// error comes with its message.
#[verifier::external_body]
fn parse_exif_date(data: &[u8]) -> (r: Result<ExifDateTime, String>)
    ensures
        r is Ok <==> exif_date_shape(data@),
        r matches Ok(e) ==> e == exif_date_of(data@),
        r matches Err(m) ==> m@ == exif_date_error(data@),
{
    match exif::DateTime::from_ascii(data) {
        Ok(d) => Ok(ExifDateTime {
            year: d.year,
            month: d.month,
            day: d.day,
            hour: d.hour,
            minute: d.minute,
            second: d.second,
        }),
        Err(e) => Err(e.to_string()),
    }
}

/// Relies on chrono::NaiveDate::from_ymd_opt and NaiveDate::and_hms_opt: a
/// value exactly when the day exists (any `u16` year is in chrono's range)
/// and the time of day exists.
#[verifier::external_body]
fn date_time_exists(e: ExifDateTime) -> (r: bool)
    ensures
        r == valid_date_time(e),
{
    chrono::NaiveDate::from_ymd_opt(e.year as i32, e.month as u32, e.day as u32).and_then(
        |d| d.and_hms_opt(e.hour as u32, e.minute as u32, e.second as u32),
    ).is_some()
}

/// Reads the date tag's value: the first ASCII string, parsed and checked
/// against the calendar.
pub fn naive_datetime_from_tag(tag: &TagValue) -> (r: Result<ExifDateTime, Error>)
    ensures
        date_result_view(r) == naive_of(tag@),
        r matches Ok(d) ==> valid_date_time(d),
{
    match tag {
        TagValue::Missing => Err(Error::Tag(TagError::Missing)),
        TagValue::Other => Err(Error::Tag(TagError::Invalid)),
        TagValue::Ascii(v) => {
            if v.len() == 0 {
                return Err(Error::Tag(TagError::Invalid));
            }
            assert(tag@ matches TagView::Ascii(w) && w[0] == v@[0]@);
            match parse_exif_date(v[0].as_slice()) {
                Err(m) => Err(Error::Exif(m)),
                Ok(fields) => if date_time_exists(fields) {
                    Ok(fields)
                } else {
                    Err(Error::OutOfRange)
                },
            }
        },
    }
}

/// The time zone in which capture times are read.
pub enum Zone {
    /// The zone that the machine is set to.
    Local,
    /// A zone of the IANA database.
    Named(chrono_tz::Tz),
}

/// What a zone makes of a local time.
pub enum Resolution<T> {
    /// No instant: the local time falls in a gap.
    Gap,
    /// Exactly one instant.
    Unique(T),
    /// Two instants: the local time falls in a fold.
    Fold,
}

/// A resolution with its text as a sequence of characters.
pub open spec fn stem_view(r: Resolution<Option<String>>) -> Resolution<Option<Seq<char>>> {
    match r {
        Resolution::Gap => Resolution::Gap,
        Resolution::Unique(Some(s)) => Resolution::Unique(Some(s@)),
        Resolution::Unique(None) => Resolution::Unique(None),
        Resolution::Fold => Resolution::Fold,
    }
}

/// What a zone of the IANA database makes of a local time: none, one or two
/// instants; a unique one written with the template (none where the template
/// is invalid).
pub uninterp spec fn named_zone_stem(
    tz: chrono_tz::Tz,
    local: ExifDateTime,
    template: Seq<char>,
) -> Resolution<Option<Seq<char>>>;

/// Relies on chrono::TimeZone::from_local_datetime for chrono_tz::Tz, and on
/// chrono::DateTime::format to write a unique instant with the template (none
/// where the template holds an invalid directive).
#[verifier::external_body]
fn stem_in_named_zone(tz: &chrono_tz::Tz, local: ExifDateTime, template: &str) -> (r: Resolution<
    Option<String>,
>)
    requires
        valid_date_time(local),
    ensures
        stem_view(r) == named_zone_stem(*tz, local, template@),
{
    let naive = chrono::NaiveDate::from_ymd_opt(local.year as i32, local.month as u32, local.day as u32)
        .and_then(|d| d.and_hms_opt(local.hour as u32, local.minute as u32, local.second as u32))
        .unwrap();
    let mut s = String::new();
    match chrono::TimeZone::from_local_datetime(tz, &naive) {
        chrono::LocalResult::None => Resolution::Gap,
        chrono::LocalResult::Single(d) => Resolution::Unique(
            write!(s, "{}", d.format(template)).ok().map(|_| s),
        ),
        chrono::LocalResult::Ambiguous(_, _) => Resolution::Fold,
    }
}

/// Relies on chrono::TimeZone::from_local_datetime for chrono::Local (the
/// outcome depends on the machine's settings), and on chrono::DateTime::format
/// to write a unique instant with the template (none where the template holds
/// an invalid directive).
#[verifier::external_body]
fn stem_in_local_zone(local: ExifDateTime, template: &str) -> (r: Resolution<Option<String>>)
    requires
        valid_date_time(local),
{
    let naive = chrono::NaiveDate::from_ymd_opt(local.year as i32, local.month as u32, local.day as u32)
        .and_then(|d| d.and_hms_opt(local.hour as u32, local.minute as u32, local.second as u32))
        .unwrap();
    let mut s = String::new();
    match chrono::TimeZone::from_local_datetime(&chrono::Local, &naive) {
        chrono::LocalResult::None => Resolution::Gap,
        chrono::LocalResult::Single(d) => Resolution::Unique(
            write!(s, "{}", d.format(template)).ok().map(|_| s),
        ),
        chrono::LocalResult::Ambiguous(_, _) => Resolution::Fold,
    }
}

/// What a resolution gives: a unique instant's text; a gap and a fold are
/// errors, never resolved by picking an instant.
pub open spec fn outcome_of(r: Resolution<Option<Seq<char>>>) -> Result<Option<Seq<char>>, Failure> {
    match r {
        Resolution::Gap => Err(Failure::Date(DateError::InvalidLocalDatetime)),
        Resolution::Fold => Err(Failure::Date(DateError::AmbiguousLocalDatetime)),
        Resolution::Unique(o) => Ok(o),
    }
}

pub open spec fn formatted_view(r: Result<Option<String>, Error>) -> Result<Option<Seq<char>>, Failure> {
    match r {
        Ok(Some(s)) => Ok(Some(s@)),
        Ok(None) => Ok(None),
        Err(e) => Err(e@),
    }
}

/// The instant of a resolution: only a unique one is taken; a gap and a fold
/// are errors, never resolved by picking an instant.
pub fn resolved_instant<T>(r: Resolution<T>) -> (out: Result<T, Error>)
    ensures
        r is Gap ==> out == Err::<T, Error>(Error::Date(DateError::InvalidLocalDatetime)),
        r is Fold ==> out == Err::<T, Error>(Error::Date(DateError::AmbiguousLocalDatetime)),
        r matches Resolution::Unique(t) ==> out == Ok::<T, Error>(t),
{
    match r {
        Resolution::Gap => Err(Error::Date(DateError::InvalidLocalDatetime)),
        Resolution::Unique(t) => Ok(t),
        Resolution::Fold => Err(Error::Date(DateError::AmbiguousLocalDatetime)),
    }
}

/// Places a local time in a zone and writes the instant with a
/// strftime-like template: `Ok(None)` where the template is invalid.
pub fn format_in_zone(local: ExifDateTime, zone: &Zone, template: &str) -> (r: Result<
    Option<String>,
    Error,
>)
    requires
        valid_date_time(local),
    ensures
        zone matches Zone::Named(tz) ==> formatted_view(r) == outcome_of(
            named_zone_stem(*tz, local, template@),
        ),
        zone is Local ==> exists|res: Resolution<Option<Seq<char>>>|
            formatted_view(r) == outcome_of(res),
{
    match zone {
        Zone::Local => {
            let res = stem_in_local_zone(local, template);
            let ghost v = stem_view(res);
            let r = resolved_instant(res);
            assert(formatted_view(r) == outcome_of(v));
            r
        },
        Zone::Named(tz) => resolved_instant(stem_in_named_zone(tz, local, template)),
    }
}

/// The capture date in a zone, written with a template: what the date tag
/// gives, then what the zone makes of it.
pub open spec fn formatted_in(tag: TagView, res: Resolution<Option<Seq<char>>>) -> Result<
    Option<Seq<char>>,
    Failure,
> {
    match naive_of(tag) {
        Err(f) => Err(f),
        Ok(_) => outcome_of(res),
    }
}

/// The date tag of an image.
pub struct Image {
    tag: TagValue,
}

impl View for Image {
    type V = TagView;

    closed spec fn view(&self) -> TagView {
        self.tag@
    }
}

impl Image {
    /// Reads the date tag from an image file's contents.
    pub fn open(data: Vec<u8>) -> (r: Result<Image, Error>)
        ensures
            r matches Ok(i) ==> date_tag_of(data@) == Ok::<TagView, Seq<char>>(i@),
            r matches Err(e) ==> date_tag_of(data@) matches Err(m) && e@ == Failure::Exif(m),
    {
        match read_date_tag(data) {
            Ok(tag) => Ok(Image { tag }),
            Err(m) => Err(Error::Exif(m)),
        }
    }

    /// The value of the DateTimeOriginal tag of the primary image.
    pub fn date_tag(&self) -> (r: &TagValue)
        ensures
            r@ == self@,
    {
        &self.tag
    }

    /// The capture date and time, without a zone.
    pub fn get_naive_datetime(&self) -> (r: Result<ExifDateTime, Error>)
        ensures
            date_result_view(r) == naive_of(self@),
            r matches Ok(d) ==> valid_date_time(d),
    {
        naive_datetime_from_tag(&self.tag)
    }

    /// The capture instant in the given zone, written with a strftime-like
    /// template: `Ok(None)` where the template is invalid.
    pub fn format_datetime(&self, zone: &Zone, template: &str) -> (r: Result<Option<String>, Error>)
        ensures
            zone matches Zone::Named(tz) ==> formatted_view(r) == formatted_in(
                self@,
                match naive_of(self@) {
                    Ok(d) => named_zone_stem(*tz, d, template@),
                    Err(_) => Resolution::Gap,
                },
            ),
            zone is Local ==> exists|res: Resolution<Option<Seq<char>>>|
                formatted_view(r) == formatted_in(self@, res),
    {
        let local = match self.get_naive_datetime() {
            Ok(d) => d,
            Err(e) => {
                let r = Err(e);
                assert(formatted_view(r) == formatted_in(self@, Resolution::Gap));
                return r;
            },
        };
        let r = format_in_zone(local, zone, template);
        proof {
            if zone is Local {
                let res = choose|res: Resolution<Option<Seq<char>>>|
                    formatted_view(r) == outcome_of(res);
                assert(formatted_view(r) == formatted_in(self@, res));
            }
        }
        r
    }
}

} // verus!
