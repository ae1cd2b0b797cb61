use namexif::path::{component_cmp, path_cmp, text_cmp, Component, FilePath};
use namexif::rename::{Error, SkipError};
use namexif::ui::{
    answer, common_ancestor, pluralize, prompt_answer, summary, write_decimal, write_rename,
    RunError,
};

fn path(parts: &[&str]) -> FilePath {
    let mut components = Vec::new();
    for p in parts {
        components.push(match *p {
            "/" => Component::RootDir,
            "." => Component::CurDir,
            ".." => Component::ParentDir,
            s => Component::Normal(s.to_string()),
        });
    }
    FilePath::new(components)
}

fn line(source: &FilePath, target: &FilePath) -> String {
    let mut out = String::new();
    write_rename(&mut out, source, target);
    out
}

#[test]
fn common_ancestor_is_the_longest_shared_directory() {
    let a = common_ancestor(&path(&["/", "p", "a.jpg"]), &path(&["/", "p", "b.jpg"])).unwrap();
    assert_eq!(a.display(), "/p");
    let a = common_ancestor(&path(&["p", "q", "a.jpg"]), &path(&["p", "r.jpg"])).unwrap();
    assert_eq!(a.display(), "p");
    let a = common_ancestor(&path(&["a.jpg"]), &path(&["b.jpg"])).unwrap();
    assert_eq!(a.display(), "");
    let a = common_ancestor(&path(&["p"]), &path(&["p", "x"])).unwrap();
    assert_eq!(a.display(), "p");
    assert!(common_ancestor(&path(&["/", "a.jpg"]), &path(&["b.jpg"])).is_none());
}

#[test]
fn rename_lines_hoist_the_shared_directory() {
    assert_eq!(
        line(&path(&["/", "p", "a.jpg"]), &path(&["/", "p", "b.jpg"])),
        "/p/{a.jpg => b.jpg}\n"
    );
    assert_eq!(line(&path(&["a.jpg"]), &path(&["b.jpg"])), "a.jpg => b.jpg\n");
    assert_eq!(line(&path(&[".", "a.jpg"]), &path(&[".", "b.jpg"])), "a.jpg => b.jpg\n");
    assert_eq!(
        line(&path(&["..", "d", "a.jpg"]), &path(&["..", "d", "b.jpg"])),
        "../d/{a.jpg => b.jpg}\n"
    );
    assert_eq!(
        line(&path(&["/", "a.jpg"]), &path(&["b.jpg"])),
        "/a.jpg => b.jpg\n"
    );
}

#[test]
fn paths_display_with_separators() {
    assert_eq!(path(&["/", "a", "b"]).display(), "/a/b");
    assert_eq!(path(&["a", "..", "b"]).display(), "a/../b");
    assert_eq!(path(&[]).display(), "");
}

#[test]
fn parent_and_file_name() {
    let p = path(&["d", "a.jpg"]);
    assert_eq!(p.file_name().unwrap(), "a.jpg");
    assert_eq!(p.parent().unwrap().display(), "d");
    assert!(path(&["/"]).parent().is_none());
    assert!(path(&[]).parent().is_none());
    assert!(path(&["d", ".."]).file_name().is_none());
    assert!(p.starts_with(&path(&["d"])));
    assert!(!p.starts_with(&path(&["e"])));
    assert!(p.equals(&path(&["d", "a.jpg"])));
    let q = p.join_name("b.jpg".to_string());
    assert_eq!(q.display(), "d/a.jpg/b.jpg");
}

#[test]
fn orders_of_text_and_paths() {
    assert!(text_cmp("a", "b") < 0);
    assert!(text_cmp("b", "a") > 0);
    assert_eq!(text_cmp("ab", "ab"), 0);
    assert!(text_cmp("a", "ab") < 0);
    assert!(text_cmp("B", "a") < 0);
    assert!(text_cmp("z", "é") < 0);
    assert!(component_cmp(&Component::RootDir, &Component::Normal("a".to_string())) < 0);
    assert!(path_cmp(&path(&["a", "b"]), &path(&["a-b"])) < 0);
    assert_eq!(path_cmp(&path(&["a", "b"]), &path(&["a", "b"])), 0);
}

#[test]
fn confirmation_answers() {
    assert_eq!(answer("", false), Some(false));
    assert_eq!(answer("", true), Some(true));
    assert_eq!(answer("y", false), Some(true));
    assert_eq!(answer("Y", false), Some(true));
    assert_eq!(answer("n", true), Some(false));
    assert_eq!(answer("N", true), Some(false));
    assert_eq!(answer("yes", false), None);
    assert_eq!(prompt_answer("y\n", false), Some(true));
    assert_eq!(prompt_answer("  \n", true), Some(true));
    assert_eq!(prompt_answer("n \r\n", true), Some(false));
    assert_eq!(prompt_answer(" y\n", false), None);
}

#[test]
fn summaries_and_plurals() {
    assert_eq!(pluralize(0), "");
    assert_eq!(pluralize(1), "");
    assert_eq!(pluralize(2), "s");
    assert_eq!(summary(0, 0), "Nothing to do");
    assert_eq!(summary(1, 0), "1 renamed file");
    assert_eq!(summary(12, 0), "12 renamed files");
    assert_eq!(summary(0, 1), "0 renamed file, 1 error");
    let mut s = String::new();
    write_decimal(&mut s, 1090);
    assert_eq!(s, "1090");
    assert_eq!(RunError::Io("gone".to_string()).message(), "gone");
}

#[test]
fn messages() {
    assert_eq!(Error::Skip(SkipError::Directory).message(), "Is a directory");
    assert_eq!(Error::Skip(SkipError::Extension).message(), "Not an EXIF file");
    assert_eq!(Error::Skip(SkipError::WellNamed).message(), "Does not need renaming");
}
