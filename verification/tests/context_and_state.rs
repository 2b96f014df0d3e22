use fraken_x::context::{
    build_file_context, extension_of, file_name_of, injection_assignments, reset_assignments,
    should_scan,
};
use fraken_x::magic::parse_definitions_file;
use fraken_x::state::ScanState;
use fraken_x::userid::{get_usernames_from_passwd, OwnershipTable};

#[test]
fn file_name_is_the_part_after_the_last_separator() {
    assert_eq!(file_name_of("/var/log/syslog"), "syslog");
    assert_eq!(file_name_of("relative/path/a.bin"), "a.bin");
    assert_eq!(file_name_of("bare"), "bare");
}

#[test]
fn extension_is_the_part_after_the_last_dot() {
    assert_eq!(extension_of("archive.tar.gz"), "gz");
    assert_eq!(extension_of("image.png"), "png");
    assert_eq!(extension_of("noext"), "");
    assert_eq!(extension_of(".hidden"), "");
    assert_eq!(extension_of("trailing."), "");
}

#[test]
fn context_carries_all_enrichment_values() {
    let (definitions, _) = parse_definitions_file("CA FE;Java Class\n").unwrap();
    let users = get_usernames_from_passwd("root:x:0:0:::\n").unwrap();
    let leading = vec![0xCAu8, 0xFEu8, 0x00u8];
    let ctx = build_file_context("/srv/app/Main.class", 0, &users, &definitions, &leading);
    assert_eq!(ctx.filepath, "/srv/app/Main.class");
    assert_eq!(ctx.filename, "Main.class");
    assert_eq!(ctx.extension, "class");
    assert_eq!(ctx.owner.as_deref(), Some("root"));
    assert_eq!(ctx.filetype.as_deref(), Some("Java Class"));
}

#[test]
fn absent_enrichment_stays_absent_in_the_context() {
    let definitions: Vec<(Vec<u8>, String)> = Vec::new();
    let users = OwnershipTable::new();
    let leading: Vec<u8> = Vec::new();
    let ctx = build_file_context("/srv/readme", 123, &users, &definitions, &leading);
    assert_eq!(ctx.owner, None);
    assert_eq!(ctx.filetype, None);
    assert_eq!(ctx.extension, "");
}

#[test]
fn injection_fills_absent_values_with_empty_strings() {
    let definitions: Vec<(Vec<u8>, String)> = Vec::new();
    let users = OwnershipTable::new();
    let leading: Vec<u8> = Vec::new();
    let ctx = build_file_context("/srv/readme", 123, &users, &definitions, &leading);
    let vars = injection_assignments(&ctx);
    let as_pairs: Vec<(&str, &str)> = vars.iter().map(|p| (p.0.as_str(), p.1.as_str())).collect();
    assert_eq!(
        as_pairs,
        vec![
            ("owner", ""),
            ("filepath", "/srv/readme"),
            ("filename", "readme"),
            ("extension", ""),
            ("filetype", ""),
        ]
    );
}

#[test]
fn reset_clears_every_injected_variable() {
    let vars = reset_assignments();
    let as_pairs: Vec<(&str, &str)> = vars.iter().map(|p| (p.0.as_str(), p.1.as_str())).collect();
    assert_eq!(
        as_pairs,
        vec![
            ("owner", ""),
            ("filepath", ""),
            ("filename", ""),
            ("extension", ""),
            ("filetype", ""),
        ]
    );
}

#[test]
fn oversized_files_are_not_scanned() {
    assert!(should_scan(100, 100)); // at the bound: still scanned
    assert!(should_scan(0, 100));
    assert!(!should_scan(101, 100)); // above the bound: skipped
}

#[test]
fn skipped_file_leaves_the_counters_untouched() {
    let mut state = ScanState::new(Vec::new(), OwnershipTable::new());
    assert_eq!(state.num_scanned_files, 0);
    assert_eq!(state.num_matching_files, 0);
    // The pipeline only accounts for files that pass the size guard; a
    // skipped file never reaches the counters.
    if should_scan(50, 100) {
        state.record_file_scanned(false);
    }
    if should_scan(500, 100) {
        state.record_file_scanned(true);
    }
    assert_eq!(state.num_scanned_files, 1);
    assert_eq!(state.num_matching_files, 0);
}

#[test]
fn counters_track_scanned_and_matching_files() {
    let mut state = ScanState::new(Vec::new(), OwnershipTable::new());
    state.record_file_scanned(true);
    state.record_file_scanned(false);
    state.record_file_scanned(true);
    assert_eq!(state.num_scanned_files, 3);
    assert_eq!(state.num_matching_files, 2);
}
