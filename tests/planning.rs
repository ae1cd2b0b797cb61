use namexif::image::{
    format_in_zone, Image, naive_datetime_from_tag, resolved_instant, DateError, Error as ImageError,
    ExifDateTime, Resolution, TagError, TagValue, Zone,
};
use namexif::path::{Component, FilePath};
use namexif::rename::{
    get_target_file_stem, get_target_name, get_target_path, next_step, run_counts, tally,
    target_extension, target_path_from_stem, Entry, Error, PlanItem, Renames, Side, SkipError,
    Step,
};
use namexif::ui::{exit_status, summary, RunError};

fn path(parts: &[&str]) -> FilePath {
    let mut components = Vec::new();
    for p in parts {
        components.push(match *p {
            "/" => Component::RootDir,
            "." => Component::CurDir,
            ".." => Component::ParentDir,
            s => Component::Normal(s.to_string()),
        });
    }
    FilePath::new(components)
}

fn text(p: &FilePath) -> String {
    p.display()
}

/// A little-endian TIFF whose Exif IFD holds a DateTimeOriginal tag.
fn tiff_with_date(date: &str) -> Vec<u8> {
    let mut b: Vec<u8> = vec![b'I', b'I', 42, 0, 8, 0, 0, 0];
    // IFD0: one entry, the pointer to the Exif IFD at offset 26.
    b.extend_from_slice(&[1, 0]);
    b.extend_from_slice(&[0x69, 0x87, 4, 0, 1, 0, 0, 0, 26, 0, 0, 0]);
    b.extend_from_slice(&[0, 0, 0, 0]);
    // Exif IFD: DateTimeOriginal, ASCII, 20 bytes at offset 44.
    b.extend_from_slice(&[1, 0]);
    b.extend_from_slice(&[0x03, 0x90, 2, 0, 20, 0, 0, 0, 44, 0, 0, 0]);
    b.extend_from_slice(&[0, 0, 0, 0]);
    assert_eq!(b.len(), 44);
    b.extend_from_slice(date.as_bytes());
    b.push(0);
    b
}

fn utc() -> Zone {
    Zone::Named(chrono_tz::UTC)
}

fn plan(source: &FilePath, data: Vec<u8>, zone: &Zone, template: &str) -> Result<FilePath, Error> {
    get_target_path(source, Entry::File(data), zone, template)
}

#[test]
fn unrecognised_extensions_are_skipped() {
    for name in ["a.png", "noext", ".jpg", "a.jpg.txt", "a.", "a.jp g"] {
        let source = path(&["dir", name]);
        assert_eq!(
            target_extension(&source),
            Err(Error::Skip(SkipError::Extension)),
            "{}",
            name
        );
        // Nothing is read: even an unreadable entry gives the same skip.
        let r = get_target_path(&source, Entry::Unreadable("denied".to_string()), &utc(), "%Y");
        assert_eq!(r, Err(Error::Skip(SkipError::Extension)));
    }
    assert_eq!(
        target_extension(&path(&["dir", ".."])),
        Err(Error::Skip(SkipError::Extension))
    );
}

#[test]
fn recognised_extensions_take_their_canonical_form() {
    for (name, ext) in [
        ("a.jpg", "jpg"),
        ("a.JPG", "jpg"),
        ("a.jpeg", "jpg"),
        ("a.JPEG", "jpg"),
        ("a.JpEg", "jpg"),
        ("a.tif", "tiff"),
        ("a.TIF", "tiff"),
        ("a.tiff", "tiff"),
        ("a.TIFF", "tiff"),
        ("x.y.jpg", "jpg"),
        ("..jpg", "jpg"),
    ] {
        assert_eq!(target_extension(&path(&["dir", name])), Ok(ext), "{}", name);
    }
}

#[test]
fn directories_are_skipped() {
    let r = get_target_path(&path(&["dir", "album.jpg"]), Entry::Directory, &utc(), "%Y");
    assert_eq!(r, Err(Error::Skip(SkipError::Directory)));
}

#[test]
fn unreadable_files_are_image_errors() {
    let r = get_target_path(
        &path(&["dir", "a.jpg"]),
        Entry::Unreadable("denied".to_string()),
        &utc(),
        "%Y",
    );
    assert_eq!(r, Err(Error::Image(ImageError::Io("denied".to_string()))));
}

#[test]
fn files_without_exif_are_image_errors() {
    let r = plan(&path(&["dir", "a.jpg"]), b"not an image".to_vec(), &utc(), "%Y");
    assert!(matches!(r, Err(Error::Image(ImageError::Exif(_)))));
}

#[test]
fn target_is_the_formatted_date_beside_the_source() {
    let data = tiff_with_date("2020:01:01 10:00:00");
    let r = plan(&path(&["dir", "photo.JPG"]), data, &utc(), "%Y-%m-%dT%H:%M:%S%z");
    let t = r.unwrap();
    assert_eq!(text(&t), "dir/2020-01-01T10:00:00+0000.jpg");
}

#[test]
fn single_file_with_default_format_gets_one_rename() {
    let data = tiff_with_date("2020:01:01 10:00:00");
    let source = path(&["photo.JPG"]);
    let target = plan(&source, data, &utc(), "%Y-%m-%dT%H:%M:%S%z").unwrap();
    assert_eq!(text(&target), "2020-01-01T10:00:00+0000.jpg");
    let renames = Renames::new(vec![PlanItem { source, target: Ok(target) }]);
    assert!(renames.conflicts().is_empty());
    let moves = renames.approved().unwrap();
    assert_eq!(moves.len(), 1);
    assert_eq!(text(&moves[0].source), "photo.JPG");
    assert_eq!(text(&moves[0].target), "2020-01-01T10:00:00+0000.jpg");
}

#[test]
fn well_named_files_are_skipped() {
    let data = tiff_with_date("2020:01:01 10:00:00");
    let r = plan(&path(&["dir", "2020-01-01.jpg"]), data, &utc(), "%Y-%m-%d");
    assert_eq!(r, Err(Error::Skip(SkipError::WellNamed)));
    assert_eq!(
        target_path_from_stem(&path(&["dir", "2020.jpg"]), "2020"),
        Err(Error::Skip(SkipError::WellNamed))
    );
    // The case of the extension differs from the canonical one: a rename.
    let t = target_path_from_stem(&path(&["dir", "2020.JPG"]), "2020").unwrap();
    assert_eq!(text(&t), "dir/2020.jpg");
}

#[test]
fn target_from_stem() {
    let t = target_path_from_stem(&path(&["/", "photos", "img.tif"]), "x").unwrap();
    assert_eq!(text(&t), "/photos/x.tiff");
    assert_eq!(
        target_path_from_stem(&path(&["img.png"]), "x"),
        Err(Error::Skip(SkipError::Extension))
    );
}

#[test]
fn target_name_joins_stem_and_extension() {
    let data = tiff_with_date("2021:07:04 08:09:10");
    let r = get_target_name(&path(&["d", "a.tiff"]), Entry::File(data), &utc(), "%d.%m");
    assert_eq!(r, Ok("04.07.tiff".to_string()));
    let stem = get_target_file_stem(Entry::Directory, &utc(), "%Y");
    assert_eq!(stem, Err(Error::Skip(SkipError::Directory)));
}

#[test]
fn time_zone_shifts_nothing_but_the_offset() {
    let data = tiff_with_date("2020:07:01 10:00:00");
    let zone = Zone::Named(chrono_tz::Europe::Paris);
    let t = plan(&path(&["a.jpg"]), data, &zone, "%H:%M %z %Z").unwrap();
    assert_eq!(text(&t), "10:00 +0200 CEST.jpg");
}

#[test]
fn local_time_in_a_gap_is_invalid() {
    let data = tiff_with_date("2021:03:28 02:30:00");
    let zone = Zone::Named(chrono_tz::Europe::Paris);
    let r = plan(&path(&["a.jpg"]), data, &zone, "%Y");
    assert_eq!(
        r,
        Err(Error::Image(ImageError::Date(DateError::InvalidLocalDatetime)))
    );
}

#[test]
fn local_time_in_a_fold_is_ambiguous() {
    let data = tiff_with_date("2021:10:31 02:30:00");
    let zone = Zone::Named(chrono_tz::Europe::Paris);
    let r = plan(&path(&["a.jpg"]), data, &zone, "%Y");
    assert_eq!(
        r,
        Err(Error::Image(ImageError::Date(DateError::AmbiguousLocalDatetime)))
    );
}

#[test]
fn resolution_outcomes() {
    assert_eq!(
        resolved_instant::<u8>(Resolution::Gap),
        Err(ImageError::Date(DateError::InvalidLocalDatetime))
    );
    assert_eq!(
        resolved_instant::<u8>(Resolution::Fold),
        Err(ImageError::Date(DateError::AmbiguousLocalDatetime))
    );
    assert_eq!(resolved_instant(Resolution::Unique(7u8)), Ok(7));
}

#[test]
fn invalid_template_is_an_error() {
    let data = tiff_with_date("2020:01:01 10:00:00");
    let r = plan(&path(&["a.jpg"]), data, &utc(), "%Y-%Q");
    assert_eq!(r, Err(Error::Format));
}

#[test]
fn date_tag_values() {
    assert!(matches!(
        naive_datetime_from_tag(&TagValue::Missing),
        Err(ImageError::Tag(TagError::Missing))
    ));
    assert!(matches!(
        naive_datetime_from_tag(&TagValue::Other),
        Err(ImageError::Tag(TagError::Invalid))
    ));
    assert!(matches!(
        naive_datetime_from_tag(&TagValue::Ascii(vec![])),
        Err(ImageError::Tag(TagError::Invalid))
    ));
    assert!(matches!(
        naive_datetime_from_tag(&TagValue::Ascii(vec![b"2020-01-01 10:00:00".to_vec()])),
        Err(ImageError::Exif(_))
    ));
    assert!(matches!(
        naive_datetime_from_tag(&TagValue::Ascii(vec![b"    :  :     :  :  ".to_vec()])),
        Err(ImageError::Exif(_))
    ));
    assert!(matches!(
        naive_datetime_from_tag(&TagValue::Ascii(vec![b"2021:02:29 10:00:00".to_vec()])),
        Err(ImageError::OutOfRange)
    ));
    assert!(matches!(
        naive_datetime_from_tag(&TagValue::Ascii(vec![b"2020:01:01 24:00:00".to_vec()])),
        Err(ImageError::OutOfRange)
    ));
    let l = naive_datetime_from_tag(&TagValue::Ascii(vec![b"2020:02:29 23:59:59".to_vec()]))
        .unwrap();
    assert_eq!(
        l,
        ExifDateTime { year: 2020, month: 2, day: 29, hour: 23, minute: 59, second: 59 }
    );
    let s = format_in_zone(l, &utc(), "%Y%m%d%H%M%S").unwrap();
    assert_eq!(s, Some("20200229235959".to_string()));
}

fn item(dir: &str, name: &str, target: Option<&str>) -> PlanItem {
    PlanItem {
        source: path(&[dir, name]),
        target: match target {
            Some(t) => Ok(path(&[dir, t])),
            None => Err(Error::Skip(SkipError::Extension)),
        },
    }
}

#[test]
fn two_files_with_one_date_conflict_and_nothing_is_applied() {
    let mut items = Vec::new();
    for name in ["b.jpg", "a.jpg"] {
        let data = tiff_with_date("2020:01:01 10:00:00");
        let source = path(&["dir", name]);
        let target = plan(&source, data, &utc(), "%Y-%m-%d");
        items.push(PlanItem { source, target });
    }
    let renames = Renames::new(items);
    let conflicts = renames.conflicts();
    assert_eq!(conflicts.len(), 1);
    assert_eq!(conflicts[0].side, Side::Target);
    assert_eq!(text(&conflicts[0].path), "dir/2020-01-01.jpg");
    assert_eq!(conflicts[0].message(), "Target file dir/2020-01-01.jpg is overwritten");
    let approved = renames.approved();
    assert!(matches!(approved, Err(1)));
    let outcome: Result<(usize, usize), RunError> = Err(RunError::Conflicts(1));
    assert_eq!(exit_status(&outcome), 2);
    assert_eq!(RunError::Conflicts(1).message(), "1 conflicting file");
    assert_eq!(RunError::Conflicts(3).message(), "3 conflicting files");
}

#[test]
fn source_conflict_when_a_source_is_an_earlier_target() {
    let renames = Renames::new(vec![
        item("d", "a.jpg", Some("b.jpg")),
        item("d", "b.jpg", Some("c.jpg")),
    ]);
    let conflicts = renames.conflicts();
    assert_eq!(conflicts.len(), 1);
    assert_eq!(conflicts[0].side, Side::Source);
    assert_eq!(text(&conflicts[0].path), "d/b.jpg");
    assert_eq!(conflicts[0].message(), "Source file d/b.jpg is overwritten");
}

#[test]
fn every_conflict_is_reported() {
    let renames = Renames::new(vec![
        item("d", "a.jpg", Some("x.jpg")),
        item("d", "b.jpg", Some("x.jpg")),
        item("d", "c.jpg", Some("x.jpg")),
        item("d", "e.jpg", None),
        item("d", "f.jpg", Some("y.jpg")),
    ]);
    let conflicts = renames.conflicts();
    assert_eq!(conflicts.len(), 2);
    assert!(matches!(renames.approved(), Err(2)));
}

#[test]
fn skipped_items_take_no_part_in_conflicts() {
    let renames = Renames::new(vec![
        item("d", "a.jpg", Some("x.jpg")),
        item("d", "x.jpg", None),
    ]);
    assert!(renames.conflicts().is_empty());
    let moves = renames.approved().unwrap();
    assert_eq!(moves.len(), 1);
}

#[test]
fn plan_is_ordered_and_independent_of_input_order() {
    let names = ["c.jpg", "a.jpg", "B.jpg", "b.jpg", "a.jpeg"];
    let forward: Vec<PlanItem> =
        names.iter().map(|n| item("d", n, Some("same.jpg"))).collect();
    let backward: Vec<PlanItem> =
        names.iter().rev().map(|n| item("d", n, Some("same.jpg"))).collect();
    let r1 = Renames::new(forward);
    let r2 = Renames::new(backward);
    let order1: Vec<String> = r1.iter().iter().map(|i| text(&i.source)).collect();
    let order2: Vec<String> = r2.iter().iter().map(|i| text(&i.source)).collect();
    assert_eq!(order1, vec!["d/B.jpg", "d/a.jpeg", "d/a.jpg", "d/b.jpg", "d/c.jpg"]);
    assert_eq!(order1, order2);
    let c1: Vec<(Side, String)> = r1.conflicts().iter().map(|c| (c.side, text(&c.path))).collect();
    let c2: Vec<(Side, String)> = r2.conflicts().iter().map(|c| (c.side, text(&c.path))).collect();
    assert_eq!(c1.len(), 4);
    assert_eq!(c1, c2);
    assert_eq!(r1.len(), 5);
}

#[test]
fn planning_twice_gives_the_same_plan() {
    let make = || vec![item("d", "z.jpg", Some("a.jpg")), item("d", "a.jpg", Some("q.jpg"))];
    let r1 = Renames::new(make());
    let r2 = Renames::new(make());
    let c1: Vec<String> = r1.conflicts().iter().map(|c| text(&c.path)).collect();
    let c2: Vec<String> = r2.conflicts().iter().map(|c| text(&c.path)).collect();
    assert_eq!(c1, c2);
    assert!(c1.is_empty());
}

#[test]
fn a_later_item_for_the_same_source_replaces_the_earlier() {
    let renames = Renames::new(vec![
        item("d", "a.jpg", Some("x.jpg")),
        item("d", "a.jpg", Some("y.jpg")),
    ]);
    assert_eq!(renames.len(), 1);
    let items = renames.into_items();
    assert_eq!(text(items[0].target.as_ref().unwrap()), "d/y.jpg");
}

#[test]
fn plan_error_count() {
    let renames = Renames::new(vec![
        item("d", "a.jpg", Some("x.jpg")),
        item("d", "b.png", None),
        PlanItem {
            source: path(&["d", "c.jpg"]),
            target: Err(Error::Image(ImageError::Tag(TagError::Missing))),
        },
        PlanItem { source: path(&["d", "e.jpg"]), target: Err(Error::Format) },
    ]);
    assert_eq!(renames.error_count(), 2);
}

#[test]
fn applying_counts_successes_and_failures() {
    assert_eq!(tally(&vec![true, false, true, true, false]), (3, 2));
    assert_eq!(tally(&vec![]), (0, 0));
    assert_eq!(run_counts(2, &vec![true, false]), (1, 3));
    let outcome: Result<(usize, usize), RunError> = Ok((3, 2));
    assert_eq!(exit_status(&outcome), 1);
    let outcome: Result<(usize, usize), RunError> = Ok((3, 0));
    assert_eq!(exit_status(&outcome), 0);
    assert_eq!(summary(3, 2), "3 renamed files, 2 errors");
}

#[test]
fn next_step_decisions() {
    assert_eq!(next_step(0, false, true), Step::Stop);
    assert_eq!(next_step(3, true, true), Step::Stop);
    assert_eq!(next_step(3, false, true), Step::Apply);
    assert_eq!(next_step(3, false, false), Step::Confirm);
}

#[test]
fn image_reads_the_date_tag_from_the_bytes() {
    let image = Image::open(tiff_with_date("2019:12:31 23:59:58")).unwrap();
    match image.date_tag() {
        TagValue::Ascii(v) => assert_eq!(v[0], b"2019:12:31 23:59:58".to_vec()),
        _ => panic!("the date tag is ASCII"),
    }
    let d = image.get_naive_datetime().unwrap();
    assert_eq!(d, ExifDateTime { year: 2019, month: 12, day: 31, hour: 23, minute: 59, second: 58 });
    let s = image.format_datetime(&utc(), "%Y %j").unwrap();
    assert_eq!(s, Some("2019 365".to_string()));
    assert!(matches!(Image::open(vec![1, 2, 3]), Err(ImageError::Exif(_))));
}
