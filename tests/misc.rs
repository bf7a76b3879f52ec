use scratch_notes::assets::{
    asset_file_name, asset_link, decode_clipboard_image, is_markdown_extension, screenshot_name,
    split_file_name, ImageError,
};
use scratch_notes::listing::{order_notes, NotesCache};
use scratch_notes::locations::{check_link, markdown_args, is_scheme_allowed, normalize_notes_folder_path, FolderError, LinkError};
use scratch_notes::search::NoteMetadata;
use scratch_notes::template::{expand_note_name_template, preview_note_name, expand_template_at, has_counter_tag, preview_name_at, LocalTime};

fn meta(id: &str, modified: i64) -> NoteMetadata {
    NoteMetadata { id: id.to_string(), title: id.to_string(), preview: String::new(), modified }
}

fn time() -> LocalTime {
    LocalTime { timestamp: 1700000000, year: 2024, month: 3, day: 7, hour: 9, minute: 5, second: 1 }
}

#[test]
fn template_tags_expand() {
    assert_eq!(
        expand_template_at("{date} {time} {timestamp}", &time()),
        "2024-03-07 09-05-01 1700000000"
    );
    assert_eq!(expand_template_at("{year}/{month}/{day}", &time()), "2024/03/07");
    let mut t = time();
    t.year = 12;
    assert_eq!(expand_template_at("{year}", &t), "0012");
    t.year = -3;
    assert_eq!(expand_template_at("{year}", &t), "-0003");
    t.year = 12345;
    assert_eq!(expand_template_at("{year}", &t), "+12345");
}

#[test]
fn preview_name_sets_counter() {
    assert_eq!(preview_name_at("Note {counter}", &time()), "Note 1");
    assert_eq!(preview_name_at("{year}/{month}", &time()), "2024-03");
    assert!(has_counter_tag("a{counter}"));
    assert!(!has_counter_tag("a{count}"));
}

#[test]
fn pinned_first_then_newest() {
    let notes = vec![meta("a", 1), meta("b", 5), meta("c", 3), meta("d", 5)];
    let pinned = vec!["c".to_string()];
    let r = order_notes(&notes, &pinned);
    let ids: Vec<&str> = r.iter().map(|n| n.id.as_str()).collect();
    assert_eq!(ids, vec!["c", "b", "d", "a"]);
}

#[test]
fn cache_replaced_and_pruned() {
    let mut c = NotesCache::new();
    c.replace_all(&vec![meta("a", 1), meta("b", 2)]);
    c.remove("a");
    let s = c.snapshot();
    assert_eq!(s.len(), 1);
    assert_eq!(s[0].id, "b");
}

#[test]
fn clipboard_images() {
    assert!(matches!(decode_clipboard_image("  "), Err(ImageError::EmptyInput)));
    assert!(matches!(decode_clipboard_image("!!!"), Err(ImageError::Decode(_))));
    assert_eq!(decode_clipboard_image("aGk=").unwrap(), b"hi".to_vec());
    assert_eq!(screenshot_name(42, &vec![]), "screenshot-42.png");
    assert_eq!(
        screenshot_name(42, &vec!["screenshot-42.png".to_string(), "screenshot-42-1.png".to_string()]),
        "screenshot-42-2.png"
    );
    assert_eq!(asset_file_name("my:pic", "jpg", &vec!["my-pic.jpg".to_string()]), "my-pic-1.jpg");
    assert_eq!(asset_link("x.png"), "assets/x.png");
}

#[test]
fn file_names_split() {
    assert_eq!(split_file_name("a.b.png"), ("a.b".to_string(), Some("png".to_string())));
    assert_eq!(split_file_name(".hidden"), (".hidden".to_string(), None));
    assert_eq!(split_file_name("plain"), ("plain".to_string(), None));
    assert!(is_markdown_extension("/x/y/Readme.MD"));
    assert!(is_markdown_extension("doc.markdown"));
    assert!(!is_markdown_extension("doc.txt"));
    assert!(!is_markdown_extension("/x/.md"));
}

#[test]
fn folder_paths_normalized() {
    assert_eq!(normalize_notes_folder_path("  /home/u/notes  ").unwrap(), "/home/u/notes");
    assert!(matches!(normalize_notes_folder_path("   "), Err(FolderError::Empty)));
    assert_eq!(normalize_notes_folder_path("file:///home/u/my%20notes").unwrap(), "/home/u/my notes");
}

#[test]
fn links_checked() {
    assert!(is_scheme_allowed("https"));
    assert!(!is_scheme_allowed("file"));
    assert!(check_link("https://example.com").is_ok());
    assert!(matches!(check_link("javascript:alert(1)"), Err(LinkError::SchemeNotAllowed(_))));
    assert!(matches!(check_link("not a url"), Err(LinkError::Invalid(_))));
}

#[test]
fn command_line_markdown_files() {
    let args: Vec<String> = ["app", "-v", "a.md", "/abs/B.markdown", "notes.txt", "--x.md"]
        .iter()
        .map(|s| s.to_string())
        .collect();
    assert_eq!(markdown_args(&args, "/home/u"), vec!["/home/u/a.md".to_string(), "/abs/B.markdown".to_string()]);
    assert!(markdown_args(&vec![], "/").is_empty());
}

#[test]
fn template_now_expands_date_shape() {
    let d = expand_note_name_template("{date}");
    let b = d.as_bytes();
    assert_eq!(d.len(), 10);
    assert_eq!(b[4], b'-');
    assert_eq!(b[7], b'-');
    assert!(d.chars().filter(|c| *c != '-').all(|c| c.is_ascii_digit()));
    assert_eq!(preview_note_name("Plain"), "Plain");
    assert_ne!(expand_note_name_template("{timestamp}"), "{timestamp}");
}

#[test]
fn folder_url_errors() {
    assert!(matches!(normalize_notes_folder_path("file://[bad"), Err(FolderError::InvalidUrl(_))));
    assert!(matches!(normalize_notes_folder_path("file://remote-host/share"), Err(FolderError::NotAFilePath)));
}

#[test]
fn cache_keeps_one_entry_per_id() {
    let mut c = NotesCache::new();
    c.replace_all(&vec![meta("a", 1), meta("b", 2), meta("a", 3)]);
    let s = c.snapshot();
    assert_eq!(s.len(), 2);
    assert_eq!(s[0].id, "b");
    assert_eq!(s[1].id, "a");
    assert_eq!(s[1].modified, 3);
}

#[test]
fn refused_links_never_pass() {
    assert!(matches!(check_link("file:///etc/passwd"), Err(LinkError::SchemeNotAllowed(s)) if s == "file"));
    assert!(check_link("mailto:someone@example.com").is_ok());
    assert!(check_link("HTTP://Example.com").is_ok());
}
