//! Extraction plans and embedded 7z archives.

use libscoop::error::Error;
use libscoop::internal::archive::{
    extract_7z, extract_tar_lzma, extract_zip, is_enclosed_name, move_archive_subdirectory,
    move_entry, move_target, safe_archive_subdirectory, sevenz_error, zip_error, ArchiveAction,
    Format, Step, ZipEntry,
};
use libscoop::internal::sevenz::{
    find_7z_signature, signature_offset, OffsetReader, SeekTarget, SignatureScanner,
    SEVEN_Z_SIGNATURE,
};
use libscoop::session::Platform;
use std::io::{Cursor, Read, Seek, SeekFrom};

fn custom(message: &str) -> Error {
    Error::Custom(message.to_string())
}

fn file(name: &str) -> ZipEntry {
    ZipEntry::Entry { name: name.to_string(), is_dir: false }
}

fn dir(name: &str) -> ZipEntry {
    ZipEntry::Entry { name: name.to_string(), is_dir: true }
}

fn ensure(path: &str) -> ArchiveAction {
    ArchiveAction::EnsureDir { path: path.to_string() }
}

fn write(index: usize, path: &str) -> ArchiveAction {
    ArchiveAction::WriteEntry { index, path: path.to_string() }
}

#[test]
fn finds_embedded_7z_signature() {
    let mut bytes = vec![0x4D, 0x5A, 0x90, 0x00];
    bytes.extend_from_slice(&SEVEN_Z_SIGNATURE);
    assert_eq!(find_7z_signature(&bytes), Some(4));
}

/// Reads an embedded archive as if it were a file of its own.
struct Embedded {
    file: Cursor<Vec<u8>>,
    positions: OffsetReader,
}

fn seek_from(target: SeekTarget) -> SeekFrom {
    match target {
        SeekTarget::Start(at) => SeekFrom::Start(at),
        SeekTarget::End(at) => SeekFrom::End(at),
        SeekTarget::Current(at) => SeekFrom::Current(at),
    }
}

impl Embedded {
    fn new(bytes: Vec<u8>, offset: u64) -> Embedded {
        let positions = OffsetReader::new(offset);
        let mut file = Cursor::new(bytes);
        file.seek(seek_from(positions.start())).unwrap();
        Embedded { file, positions }
    }

    fn seek(&mut self, target: SeekTarget) -> Result<u64, Error> {
        let absolute = self.file.seek(seek_from(self.positions.file_target(target))).unwrap();
        self.positions.archive_position(absolute)
    }
}

#[test]
fn offset_reader_maps_archive_positions() {
    let mut reader = Embedded::new(b"stubpayload".to_vec(), 4);
    let mut payload = String::new();
    reader.file.read_to_string(&mut payload).unwrap();
    assert_eq!(payload, "payload");
    assert_eq!(reader.seek(SeekTarget::Start(0)).unwrap(), 0);
}

#[test]
fn offset_reader_seeks_from_every_origin() {
    let mut reader = Embedded::new(b"stubpayload".to_vec(), 4);
    assert_eq!(reader.seek(SeekTarget::Start(3)).unwrap(), 3);
    assert_eq!(reader.seek(SeekTarget::Current(2)).unwrap(), 5);
    assert_eq!(reader.seek(SeekTarget::End(-1)).unwrap(), 6);
    assert_eq!(reader.seek(SeekTarget::End(-7)).unwrap(), 0);
    assert_eq!(
        reader.seek(SeekTarget::End(-8)),
        Err(custom("attempted to seek before embedded 7z payload"))
    );
}

#[test]
fn file_targets_shift_only_the_start() {
    let reader = OffsetReader::new(10);
    assert_eq!(reader.start(), SeekTarget::Start(10));
    assert_eq!(reader.file_target(SeekTarget::Start(5)), SeekTarget::Start(15));
    assert_eq!(reader.file_target(SeekTarget::End(-5)), SeekTarget::End(-5));
    assert_eq!(reader.file_target(SeekTarget::Current(5)), SeekTarget::Current(5));
    assert_eq!(reader.archive_position(15), Ok(5));
    assert_eq!(reader.archive_position(10), Ok(0));
    assert!(reader.archive_position(9).is_err());
}

#[test]
fn signature_search_covers_every_case() {
    assert_eq!(find_7z_signature(&[]), None);
    assert_eq!(find_7z_signature(&SEVEN_Z_SIGNATURE), Some(0));
    assert_eq!(find_7z_signature(&SEVEN_Z_SIGNATURE[..5]), None);
    let mut twice = b"7z7z".to_vec();
    twice.extend_from_slice(&SEVEN_Z_SIGNATURE);
    twice.extend_from_slice(&SEVEN_Z_SIGNATURE);
    assert_eq!(find_7z_signature(&twice), Some(4));
}

#[test]
fn signature_across_a_read_boundary_is_found() {
    for lead in [65531usize, 65533, 65535, 65536, 65540, 131070] {
        let mut bytes = vec![b'7'; lead];
        bytes.extend_from_slice(&SEVEN_Z_SIGNATURE);
        bytes.push(0);
        assert_eq!(find_7z_signature(&bytes), Some(lead as u64));
    }
}

#[test]
fn pieces_do_not_change_where_the_signature_is() {
    let mut bytes = b"stub 7z stub".to_vec();
    bytes.extend_from_slice(&SEVEN_Z_SIGNATURE);
    bytes.extend_from_slice(b"tail");
    let whole = find_7z_signature(&bytes);
    assert_eq!(whole, Some(12));
    for size in 1..bytes.len() {
        let mut scanner = SignatureScanner::new();
        let mut found = None;
        for piece in bytes.chunks(size) {
            found = scanner.feed(piece);
            if found.is_some() {
                break;
            }
        }
        assert_eq!(found, whole);
    }
}

#[test]
fn embedded_archive_is_read_as_the_plain_one() {
    let mut payload = SEVEN_Z_SIGNATURE.to_vec();
    payload.extend_from_slice(b"the rest of the archive");
    let mut executable = b"MZ some program".to_vec();
    executable.extend_from_slice(&payload);
    let offset = find_7z_signature(&executable).unwrap();
    assert_eq!(offset, 15);
    assert_eq!(find_7z_signature(&payload), Some(0));
    let mut embedded = Embedded::new(executable, offset);
    let mut plain = Cursor::new(payload);
    let seeks = [
        SeekTarget::Start(2),
        SeekTarget::End(-4),
        SeekTarget::Current(-3),
        SeekTarget::Start(40),
        SeekTarget::Current(-40),
    ];
    for target in seeks {
        assert_eq!(embedded.seek(target).unwrap(), plain.seek(seek_from(target)).unwrap());
        let (mut a, mut b) = ([0u8; 5], [0u8; 5]);
        assert_eq!(embedded.file.read(&mut a).unwrap(), plain.read(&mut b).unwrap());
        assert_eq!(a, b);
    }
    assert!(embedded.seek(SeekTarget::End(-30)).is_err());
    assert!(plain.seek(SeekFrom::End(-30)).is_err());
}

#[test]
fn missing_signature_names_the_archive() {
    assert_eq!(signature_offset(Some(7), "setup.exe"), Ok(7));
    assert_eq!(
        signature_offset(None, "setup.exe"),
        Err(custom("7z signature not found in 'setup.exe'"))
    );
}

#[test]
fn reader_errors_name_the_format() {
    assert_eq!(zip_error("bad magic"), custom("ZIP error: bad magic"));
    assert_eq!(sevenz_error("bad header"), custom("7z error: bad header"));
}

#[test]
fn formats_are_distinct() {
    assert_ne!(Format::Zip, Format::Tar);
    assert_eq!(format!("{:?}", Format::XZip), "XZip");
}

#[test]
fn enclosed_names() {
    assert!(is_enclosed_name(Platform::Windows, "bin/tool.exe"));
    assert!(is_enclosed_name(Platform::Windows, "a/../b"));
    assert!(is_enclosed_name(Platform::Windows, "./a"));
    assert!(is_enclosed_name(Platform::Windows, ""));
    assert!(!is_enclosed_name(Platform::Windows, "../a"));
    assert!(!is_enclosed_name(Platform::Windows, "a/../../b"));
    assert!(!is_enclosed_name(Platform::Windows, "/a"));
    assert!(!is_enclosed_name(Platform::Windows, "\\a"));
    assert!(!is_enclosed_name(Platform::Windows, "C:\\a"));
    assert!(!is_enclosed_name(Platform::Windows, "\\\\server\\share\\a"));
    assert!(!is_enclosed_name(Platform::Windows, "a\0b"));
}

#[test]
fn zip_without_stripping_writes_every_entry() {
    let entries = vec![dir("bin/"), file("bin/tool.exe"), file("readme.txt")];
    assert_eq!(
        extract_zip(Platform::Windows, "C:\\out", None, &entries),
        vec![
            ensure("C:\\out"),
            ensure("C:\\out\\bin/"),
            ensure("C:\\out\\bin"),
            write(1, "C:\\out\\bin/tool.exe"),
            ensure("C:\\out"),
            write(2, "C:\\out\\readme.txt"),
        ]
    );
}

#[test]
fn zip_with_stripping_keeps_one_directory() {
    let entries = vec![
        dir("app-1.0/"),
        file("app-1.0/tool.exe"),
        file("other/skip.txt"),
        file("app-1.0/lib/a.dll"),
        file("app-1.0x/no.txt"),
    ];
    assert_eq!(
        extract_zip(Platform::Windows, "D:\\d", Some("app-1.0"), &entries),
        vec![
            ensure("D:\\d"),
            ensure("D:\\d"),
            write(1, "D:\\d\\tool.exe"),
            ensure("D:\\d\\lib"),
            write(3, "D:\\d\\lib/a.dll"),
        ]
    );
}

#[test]
fn zip_stops_at_an_unsafe_name() {
    let entries = vec![file("a"), file("../b"), file("c")];
    assert_eq!(
        extract_zip(Platform::Windows, "out", None, &entries),
        vec![
            ensure("out"),
            ensure("out"),
            write(0, "out\\a"),
            ArchiveAction::Fail(custom("unsafe path '../b' in ZIP archive")),
        ]
    );
}

#[test]
fn zip_validates_what_remains_after_stripping() {
    for name in ["a/../b", "a/C:x", "a/b/../../c"] {
        assert!(is_enclosed_name(Platform::Windows, name));
        assert_eq!(
            extract_zip(Platform::Windows, "d", Some("a"), &vec![file("a/ok"), file(name), file("a/later")]),
            vec![
                ensure("d"),
                ensure("d"),
                write(0, "d\\ok"),
                ArchiveAction::Fail(custom(&format!("unsafe path '{name}' in ZIP archive"))),
            ]
        );
    }
    assert_eq!(
        extract_zip(Platform::Windows, "d", Some("a"), &vec![file("a/b/../c")]),
        vec![ensure("d"), ensure("d\\b/.."), write(0, "d\\b/../c")]
    );
}

#[test]
fn zip_refuses_unsafe_names_outside_the_wanted_directory() {
    assert_eq!(
        extract_zip(Platform::Windows, "d", Some("a"), &vec![file("../b"), file("a/c")]),
        vec![ensure("d"), ArchiveAction::Fail(custom("unsafe path '../b' in ZIP archive"))]
    );
}

#[test]
fn zip_entry_that_names_the_destination() {
    assert_eq!(
        extract_zip(Platform::Windows, "C:\\d", None, &vec![file(".")]),
        vec![ensure("C:\\d"), ensure("C:\\"), write(0, "C:\\d\\.")]
    );
}

#[test]
fn zip_stops_at_an_unreadable_entry() {
    let entries = vec![ZipEntry::Unreadable("bad offset".to_string()), file("c")];
    assert_eq!(
        extract_zip(Platform::Windows, "out", Some("x"), &entries),
        vec![ensure("out"), ArchiveAction::Fail(custom("ZIP error: bad offset"))]
    );
}

#[test]
fn tar_without_stripping_unpacks_in_place() {
    let plan = extract_tar_lzma(Platform::Windows, "C:\\out", None);
    assert_eq!(plan.prepare, vec![ArchiveAction::Open, ensure("C:\\out")]);
    assert_eq!(plan.body, vec![ArchiveAction::Unpack { path: "C:\\out".to_string() }]);
    assert_eq!(plan.cleanup, None);
}

#[test]
fn tar_with_stripping_uses_a_temporary_directory() {
    let plan = extract_tar_lzma(Platform::Windows, "C:\\out", Some("pkg"));
    let temporary = "C:\\out\\.hok-tar-extract";
    assert_eq!(
        plan.prepare,
        vec![
            ArchiveAction::Open,
            ensure("C:\\out"),
            ArchiveAction::RemoveDirIfExists { path: temporary.to_string() },
            ensure(temporary),
        ]
    );
    assert_eq!(
        plan.body,
        vec![
            ArchiveAction::Unpack { path: temporary.to_string() },
            ArchiveAction::RequireDir {
                path: format!("{temporary}\\pkg"),
                error: custom("archive directory 'pkg' does not exist"),
            },
            ArchiveAction::MoveEntries {
                from: format!("{temporary}\\pkg"),
                to: "C:\\out".to_string(),
            },
        ]
    );
    assert_eq!(plan.cleanup, Some(temporary.to_string()));
}

#[test]
fn sevenz_opens_the_archive_after_the_preparation() {
    let plan = extract_7z(Platform::Windows, "C:\\out", None);
    assert_eq!(plan.prepare, vec![ensure("C:\\out")]);
    assert_eq!(
        plan.body,
        vec![ArchiveAction::Open, ArchiveAction::Unpack { path: "C:\\out".to_string() }]
    );
    assert_eq!(plan.cleanup, None);

    let plan = extract_7z(Platform::Windows, "C:\\out", Some("..\\x"));
    let temporary = "C:\\out\\.hok-7z-extract";
    assert_eq!(
        plan.body,
        vec![
            ArchiveAction::Open,
            ArchiveAction::Unpack { path: temporary.to_string() },
            ArchiveAction::Fail(custom("unsafe archive directory '..\\x'")),
        ]
    );
    assert_eq!(plan.cleanup, Some(temporary.to_string()));
}

#[test]
fn archive_directories_must_be_relative() {
    assert_eq!(safe_archive_subdirectory(Platform::Windows, "C:\\t", "a\\b"), Ok("C:\\t\\a\\b".to_string()));
    for unsafe_dir in ["..", "a\\..\\b", "\\a", "C:a"] {
        assert_eq!(
            safe_archive_subdirectory(Platform::Windows, "C:\\t", unsafe_dir),
            Err(custom(&format!("unsafe archive directory '{unsafe_dir}'")))
        );
    }
    assert_eq!(
        move_archive_subdirectory(Platform::Windows, "C:\\t", "C:\\d", "C:a"),
        vec![ArchiveAction::Fail(custom("unsafe archive directory 'C:a'"))]
    );
}

#[test]
fn moved_entries_replace_what_is_there() {
    let target = move_target(Platform::Windows, "C:\\d", "lib");
    assert_eq!(target, "C:\\d\\lib");
    let rename = || ArchiveAction::Rename { from: "C:\\t\\lib".to_string(), to: target.clone() };
    assert_eq!(move_entry("C:\\t\\lib", &target, false, false), vec![rename()]);
    assert_eq!(
        move_entry("C:\\t\\lib", &target, true, true),
        vec![ArchiveAction::RemoveDir { path: target.clone() }, rename()]
    );
    assert_eq!(
        move_entry("C:\\t\\lib", &target, true, false),
        vec![ArchiveAction::RemoveFile { path: target.clone() }, rename()]
    );
}

#[test]
fn zip_writes_below_a_verbatim_destination() {
    assert_eq!(
        extract_zip(Platform::Windows, "\\\\?\\C:\\d", None, &vec![file("a/b.txt")]),
        vec![
            ensure("\\\\?\\C:\\d"),
            ensure("\\\\?\\C:\\d\\a"),
            write(0, "\\\\?\\C:\\d\\a\\b.txt"),
        ]
    );
}

#[test]
fn extraction_on_unix_joins_with_slashes() {
    assert_eq!(
        extract_zip(Platform::Unix, "/out", Some("pkg"), &vec![file("pkg/a/b.txt")]),
        vec![ensure("/out"), ensure("/out/a"), write(0, "/out/a/b.txt")]
    );
    let plan = extract_tar_lzma(Platform::Unix, "/out", Some("pkg"));
    assert_eq!(plan.cleanup, Some("/out/.hok-tar-extract".to_string()));
    assert_eq!(move_target(Platform::Unix, "/out", "lib"), "/out/lib");
}

/// The steps of a run in which the given steps fail.
fn steps(plan: &libscoop::internal::archive::ExtractPlan, failing: &[Step]) -> Vec<Step> {
    let mut at = Step::Prepare(0);
    let mut seen = vec![at];
    while !matches!(at, Step::Done { .. }) {
        at = plan.next_step(at, failing.contains(&at));
        seen.push(at);
    }
    seen
}

#[test]
fn a_failed_preparation_ends_the_run() {
    let plan = extract_7z(Platform::Windows, "C:\\out", Some("pkg"));
    assert_eq!(
        steps(&plan, &[Step::Prepare(1)]),
        vec![Step::Prepare(0), Step::Prepare(1), Step::Done { failed: true }]
    );
}

#[test]
fn the_cleanup_runs_behind_a_failed_body() {
    let plan = extract_tar_lzma(Platform::Windows, "C:\\out", Some("pkg"));
    let seen = steps(&plan, &[Step::Body(1)]);
    assert_eq!(
        seen[seen.len() - 4..],
        [
            Step::Body(0),
            Step::Body(1),
            Step::Cleanup { failed: true },
            Step::Done { failed: true },
        ]
    );
    let seen = steps(&plan, &[Step::Cleanup { failed: false }]);
    assert_eq!(seen.len(), plan.prepare.len() + plan.body.len() + 2);
    assert_eq!(seen[seen.len() - 2..], [Step::Cleanup { failed: false }, Step::Done { failed: false }]);
    let plain = extract_tar_lzma(Platform::Windows, "C:\\out", None);
    assert_eq!(steps(&plain, &[]).last(), Some(&Step::Done { failed: false }));
    assert_eq!(steps(&plain, &[Step::Body(0)]).last(), Some(&Step::Done { failed: true }));
}
